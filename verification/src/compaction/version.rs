//! Versions and version edits.
//!
//! A version lists, level by level, the table files that make up the
//! database. A version edit is one change to that list; the manifest is
//! the log of all edits.

use vstd::prelude::*;
use vstd::bytes::*;
use crate::codec::{append_bytes, copy_bytes, copy_range, get_u64_le, lemma_u64_round_trip, put_u64_le};
use crate::error::Error;
use crate::key_order::{key_le, key_lt, lemma_key_lt_transitive};

verus! {

/// What is known of a table file.
#[derive(Debug, Clone)]
pub struct FileMetaData {
    /// Number of the file.
    pub file_number: u64,
    /// Size of the file in bytes.
    pub file_size: u64,
    /// Smallest key in the file.
    pub smallest_key: Vec<u8>,
    /// Largest key in the file.
    pub largest_key: Vec<u8>,
}

/// What is known of a table file, as a mathematical value.
pub struct FileMetaView {
    pub file_number: u64,
    pub file_size: u64,
    pub smallest_key: Seq<u8>,
    pub largest_key: Seq<u8>,
}

impl View for FileMetaData {
    type V = FileMetaView;

    open spec fn view(&self) -> FileMetaView {
        FileMetaView {
            file_number: self.file_number,
            file_size: self.file_size,
            smallest_key: self.smallest_key@,
            largest_key: self.largest_key@,
        }
    }
}

impl FileMetaData {
    /// A copy of the record.
    pub fn duplicate(&self) -> (m: Self)
        ensures
            m@ == self@,
    {
        FileMetaData {
            file_number: self.file_number,
            file_size: self.file_size,
            smallest_key: copy_bytes(self.smallest_key.as_slice()),
            largest_key: copy_bytes(self.largest_key.as_slice()),
        }
    }
}

/// One change to the list of table files.
#[derive(Debug, Clone)]
pub enum VersionEdit {
    /// A table file joins a level.
    AddFile {
        level: usize,
        file_number: u64,
        file_size: u64,
        smallest_key: Vec<u8>,
        largest_key: Vec<u8>,
    },
    /// A table file leaves a level.
    DeleteFile { level: usize, file_number: u64 },
    /// The next file number to hand out.
    SetNextFileNumber(u64),
    /// The highest sequence number in use.
    SetSequenceNumber(u64),
}

/// One change to the list of table files, as a mathematical value.
pub enum VersionEditView {
    AddFile { level: usize, meta: FileMetaView },
    DeleteFile { level: usize, file_number: u64 },
    SetNextFileNumber(u64),
    SetSequenceNumber(u64),
}

impl View for VersionEdit {
    type V = VersionEditView;

    open spec fn view(&self) -> VersionEditView {
        match self {
            VersionEdit::AddFile { level, file_number, file_size, smallest_key, largest_key } => {
                VersionEditView::AddFile {
                    level: *level,
                    meta: FileMetaView {
                        file_number: *file_number,
                        file_size: *file_size,
                        smallest_key: smallest_key@,
                        largest_key: largest_key@,
                    },
                }
            },
            VersionEdit::DeleteFile { level, file_number } => VersionEditView::DeleteFile {
                level: *level,
                file_number: *file_number,
            },
            VersionEdit::SetNextFileNumber(n) => VersionEditView::SetNextFileNumber(*n),
            VersionEdit::SetSequenceNumber(n) => VersionEditView::SetSequenceNumber(*n),
        }
    }
}

/// A byte string with its length, as eight little-endian bytes, in front.
pub open spec fn encode_key(key: Seq<u8>) -> Seq<u8> {
    spec_u64_to_le_bytes(key.len() as u64) + key
}

/// The bytes of an edit: one byte for its kind, then its numbers as eight
/// little-endian bytes each and its keys with their lengths in front.
pub open spec fn encode_edit(edit: VersionEditView) -> Seq<u8> {
    match edit {
        VersionEditView::AddFile { level, meta } => seq![1u8] + spec_u64_to_le_bytes(level as u64)
            + spec_u64_to_le_bytes(meta.file_number) + spec_u64_to_le_bytes(meta.file_size)
            + encode_key(meta.smallest_key) + encode_key(meta.largest_key),
        VersionEditView::DeleteFile { level, file_number } => seq![2u8] + spec_u64_to_le_bytes(
            level as u64,
        ) + spec_u64_to_le_bytes(file_number),
        VersionEditView::SetNextFileNumber(n) => seq![3u8] + spec_u64_to_le_bytes(n),
        VersionEditView::SetSequenceNumber(n) => seq![4u8] + spec_u64_to_le_bytes(n),
    }
}

/// The number stored at `pos`.
pub open spec fn u64_at(data: Seq<u8>, pos: int) -> u64 {
    spec_u64_from_le_bytes(data.subrange(pos, pos + 8))
}

/// The edit that bytes stand for: `None` unless they are exactly the bytes
/// of an edit.
pub open spec fn decode_edit(data: Seq<u8>) -> Option<VersionEditView> {
    if data.len() < 9 {
        None
    } else if data[0] == 1 {
        if data.len() < 33 || u64_at(data, 1) > usize::MAX {
            None
        } else {
            let small = u64_at(data, 25) as int;
            if data.len() - 33 < small || data.len() - 33 - small < 8 {
                None
            } else {
                let large = u64_at(data, 33 + small) as int;
                if data.len() - 41 - small != large {
                    None
                } else {
                    Some(
                        VersionEditView::AddFile {
                            level: u64_at(data, 1) as usize,
                            meta: FileMetaView {
                                file_number: u64_at(data, 9),
                                file_size: u64_at(data, 17),
                                smallest_key: data.subrange(33, 33 + small),
                                largest_key: data.subrange(41 + small, 41 + small + large),
                            },
                        },
                    )
                }
            }
        }
    } else if data[0] == 2 {
        if data.len() != 17 || u64_at(data, 1) > usize::MAX {
            None
        } else {
            Some(
                VersionEditView::DeleteFile {
                    level: u64_at(data, 1) as usize,
                    file_number: u64_at(data, 9),
                },
            )
        }
    } else if data[0] == 3 {
        if data.len() != 9 {
            None
        } else {
            Some(VersionEditView::SetNextFileNumber(u64_at(data, 1)))
        }
    } else if data[0] == 4 {
        if data.len() != 9 {
            None
        } else {
            Some(VersionEditView::SetSequenceNumber(u64_at(data, 1)))
        }
    } else {
        None
    }
}

/// Decoding an encoded edit gives the edit back.
pub proof fn lemma_edit_round_trip(edit: VersionEditView)
    requires
        edit matches VersionEditView::AddFile { meta, .. } ==> meta.smallest_key.len() <= u64::MAX
            && meta.largest_key.len() <= u64::MAX,
    ensures
        encode_edit(edit).len() > 0,
        decode_edit(encode_edit(edit)) == Some(edit),
{
    let e = encode_edit(edit);
    match edit {
        VersionEditView::AddFile { level, meta } => {
            let small = meta.smallest_key.len() as int;
            let large = meta.largest_key.len() as int;
            lemma_u64_round_trip(level as u64);
            lemma_u64_round_trip(meta.file_number);
            lemma_u64_round_trip(meta.file_size);
            lemma_u64_round_trip(small as u64);
            lemma_u64_round_trip(large as u64);
            assert(e.len() == 41 + small + large);
            assert(e.subrange(1, 9) =~= spec_u64_to_le_bytes(level as u64));
            assert(e.subrange(9, 17) =~= spec_u64_to_le_bytes(meta.file_number));
            assert(e.subrange(17, 25) =~= spec_u64_to_le_bytes(meta.file_size));
            assert(e.subrange(25, 33) =~= spec_u64_to_le_bytes(small as u64));
            assert(e.subrange(33, 33 + small) =~= meta.smallest_key);
            assert(e.subrange(33 + small, 41 + small) =~= spec_u64_to_le_bytes(large as u64));
            assert(e.subrange(41 + small, 41 + small + large) =~= meta.largest_key);
        },
        VersionEditView::DeleteFile { level, file_number } => {
            lemma_u64_round_trip(level as u64);
            lemma_u64_round_trip(file_number);
            assert(e.subrange(1, 9) =~= spec_u64_to_le_bytes(level as u64));
            assert(e.subrange(9, 17) =~= spec_u64_to_le_bytes(file_number));
        },
        VersionEditView::SetNextFileNumber(n) => {
            lemma_u64_round_trip(n);
            assert(e.subrange(1, 9) =~= spec_u64_to_le_bytes(n));
        },
        VersionEditView::SetSequenceNumber(n) => {
            lemma_u64_round_trip(n);
            assert(e.subrange(1, 9) =~= spec_u64_to_le_bytes(n));
        },
    }
}

impl VersionEdit {
    /// The edit as bytes.
    pub fn encode(&self) -> (bytes: Vec<u8>)
        ensures
            bytes@ == encode_edit(self@),
    {
        let mut buf: Vec<u8> = Vec::new();
        match self {
            VersionEdit::AddFile { level, file_number, file_size, smallest_key, largest_key } => {
                buf.push(1u8);
                put_u64_le(&mut buf, *level as u64);
                put_u64_le(&mut buf, *file_number);
                put_u64_le(&mut buf, *file_size);
                put_u64_le(&mut buf, smallest_key.len() as u64);
                append_bytes(&mut buf, smallest_key.as_slice());
                put_u64_le(&mut buf, largest_key.len() as u64);
                append_bytes(&mut buf, largest_key.as_slice());
                assert(buf@ =~= encode_edit(self@));
            },
            VersionEdit::DeleteFile { level, file_number } => {
                buf.push(2u8);
                put_u64_le(&mut buf, *level as u64);
                put_u64_le(&mut buf, *file_number);
                assert(buf@ =~= encode_edit(self@));
            },
            VersionEdit::SetNextFileNumber(n) => {
                buf.push(3u8);
                put_u64_le(&mut buf, *n);
                assert(buf@ =~= encode_edit(self@));
            },
            VersionEdit::SetSequenceNumber(n) => {
                buf.push(4u8);
                put_u64_le(&mut buf, *n);
                assert(buf@ =~= encode_edit(self@));
            },
        }
        buf
    }

    /// The edit that bytes stand for; a corruption error unless they are
    /// exactly the bytes of an edit.
    pub fn decode(data: &[u8]) -> (r: Result<Self, Error>)
        ensures
            match r {
                Ok(edit) => decode_edit(data@) == Some(edit@),
                Err(e) => decode_edit(data@) is None && e is Corruption,
            },
    {
        let len = data.len();
        if len < 9 {
            return Err(Error::corruption("Version edit too short"));
        }
        let tag = data[0];
        let first = get_u64_le(data, 1);
        if tag == 1 {
            if len < 33 || first > usize::MAX as u64 {
                return Err(Error::corruption("Malformed add-file edit"));
            }
            let file_number = get_u64_le(data, 9);
            let file_size = get_u64_le(data, 17);
            let small = get_u64_le(data, 25);
            if small > (len - 33) as u64 || len - 33 - (small as usize) < 8 {
                return Err(Error::corruption("Malformed add-file edit"));
            }
            let small = small as usize;
            let large = get_u64_le(data, 33 + small);
            if large != (len - 41 - small) as u64 {
                return Err(Error::corruption("Malformed add-file edit"));
            }
            let large = large as usize;
            Ok(
                VersionEdit::AddFile {
                    level: first as usize,
                    file_number,
                    file_size,
                    smallest_key: copy_range(data, 33, 33 + small),
                    largest_key: copy_range(data, 41 + small, 41 + small + large),
                },
            )
        } else if tag == 2 {
            if len != 17 || first > usize::MAX as u64 {
                return Err(Error::corruption("Malformed delete-file edit"));
            }
            Ok(VersionEdit::DeleteFile { level: first as usize, file_number: get_u64_le(data, 9) })
        } else if tag == 3 {
            if len != 9 {
                return Err(Error::corruption("Malformed file-number edit"));
            }
            Ok(VersionEdit::SetNextFileNumber(first))
        } else if tag == 4 {
            if len != 9 {
                return Err(Error::corruption("Malformed sequence edit"));
            }
            Ok(VersionEdit::SetSequenceNumber(first))
        } else {
            Err(Error::corruption("Unknown version edit"))
        }
    }
}

/// The files of the levels, as mathematical values.
pub open spec fn level_views(levels: Seq<Vec<FileMetaData>>) -> Seq<Seq<FileMetaView>> {
    levels.map_values(|files: Vec<FileMetaData>| files@.map_values(|f: FileMetaData| f@))
}

/// The files of a level without the files of the given number.
pub open spec fn without_file(files: Seq<FileMetaView>, file_number: u64) -> Seq<FileMetaView>
    decreases files.len(),
{
    if files.len() == 0 {
        Seq::<FileMetaView>::empty()
    } else if files.last().file_number != file_number {
        without_file(files.drop_last(), file_number).push(files.last())
    } else {
        without_file(files.drop_last(), file_number)
    }
}

/// Every file that is kept is one of the files, and has another number.
pub proof fn lemma_kept_file(files: Seq<FileMetaView>, file_number: u64, i: int) -> (at: int)
    requires
        0 <= i < without_file(files, file_number).len(),
    ensures
        0 <= at < files.len(),
        files[at] == without_file(files, file_number)[i],
        files[at].file_number != file_number,
    decreases files.len(),
{
    let front = files.drop_last();
    let kept_front = without_file(front, file_number);
    if files.last().file_number != file_number && i == kept_front.len() {
        files.len() - 1
    } else {
        let at = lemma_kept_file(front, file_number, i);
        assert(front[at] == files[at]);
        at
    }
}

/// The levels after an edit: an added file goes to the end of its level, a
/// deleted file leaves its level, and the other edits change no level. An
/// edit for a level that does not exist changes nothing.
pub open spec fn apply_edit(levels: Seq<Seq<FileMetaView>>, edit: VersionEditView) -> Seq<
    Seq<FileMetaView>,
> {
    match edit {
        VersionEditView::AddFile { level, meta } => if level < levels.len() {
            levels.update(level as int, levels[level as int].push(meta))
        } else {
            levels
        },
        VersionEditView::DeleteFile { level, file_number } => if level < levels.len() {
            levels.update(level as int, without_file(levels[level as int], file_number))
        } else {
            levels
        },
        _ => levels,
    }
}

/// The number of files in all levels.
pub open spec fn count_files(levels: Seq<Seq<FileMetaView>>) -> nat
    decreases levels.len(),
{
    if levels.len() == 0 {
        0
    } else {
        count_files(levels.drop_last()) + levels.last().len()
    }
}

/// The sizes of the files, added up.
pub open spec fn files_size(files: Seq<FileMetaView>) -> nat
    decreases files.len(),
{
    if files.len() == 0 {
        0
    } else {
        files_size(files.drop_last()) + files.last().file_size as nat
    }
}

/// The sizes of the files of all levels, added up.
pub open spec fn levels_size(levels: Seq<Seq<FileMetaView>>) -> nat
    decreases levels.len(),
{
    if levels.len() == 0 {
        0
    } else {
        levels_size(levels.drop_last()) + files_size(levels.last())
    }
}

/// The key ranges of the files are in order: every file ends before the
/// next one begins, and no file ends before it begins.
pub open spec fn ranges_in_order(files: Seq<FileMetaView>) -> bool {
    &&& forall|i: int|
        0 <= i < files.len() ==> key_le((#[trigger] files[i]).smallest_key, files[i].largest_key)
    &&& forall|i: int, j: int|
        0 <= i < j < files.len() ==> key_lt(
            (#[trigger] files[i]).largest_key,
            (#[trigger] files[j]).smallest_key,
        )
}

/// In every level from the first on the key ranges of the files are
/// pairwise disjoint and strictly increasing.
pub open spec fn levels_in_order(levels: Seq<Seq<FileMetaView>>) -> bool {
    forall|l: int| 1 <= l < levels.len() ==> ranges_in_order(#[trigger] levels[l])
}

/// Whether an edit keeps the key ranges of the levels in order: a file
/// added to a level from the first on must begin behind the end of the last
/// file of the level.
pub open spec fn keeps_order(levels: Seq<Seq<FileMetaView>>, edit: VersionEditView) -> bool {
    match edit {
        VersionEditView::AddFile { level, meta } => 1 <= level < levels.len() ==> {
            &&& key_le(meta.smallest_key, meta.largest_key)
            &&& levels[level as int].len() > 0 ==> key_lt(
                levels[level as int].last().largest_key,
                meta.smallest_key,
            )
        },
        _ => true,
    }
}

/// The set of table files at an instant, level by level.
#[derive(Debug, Clone)]
pub struct Version {
    /// The table files of every level.
    pub levels: Vec<Vec<FileMetaData>>,
}

impl View for Version {
    type V = Seq<Seq<FileMetaView>>;

    open spec fn view(&self) -> Seq<Seq<FileMetaView>> {
        level_views(self.levels@)
    }
}

impl Version {
    /// A version of `max_levels` levels without files.
    pub fn new(max_levels: usize) -> (v: Self)
        ensures
            v@.len() == max_levels,
            forall|l: int| 0 <= l < max_levels ==> (#[trigger] v@[l]).len() == 0,
    {
        let mut levels: Vec<Vec<FileMetaData>> = Vec::new();
        let mut i: usize = 0;
        while i < max_levels
            invariant
                i <= max_levels,
                levels@.len() == i,
                forall|l: int| 0 <= l < i ==> (#[trigger] levels@[l])@.len() == 0,
            decreases max_levels - i,
        {
            levels.push(Vec::new());
            i += 1;
        }
        let v = Version { levels };
        assert forall|l: int| 0 <= l < max_levels implies (#[trigger] v@[l]).len() == 0 by {
            assert(v.levels@[l]@.len() == 0);
        }
        v
    }

    /// A copy of the files of one level.
    fn copy_level(files: &Vec<FileMetaData>) -> (out: Vec<FileMetaData>)
        ensures
            out@.map_values(|f: FileMetaData| f@) == files@.map_values(|f: FileMetaData| f@),
    {
        let mut out: Vec<FileMetaData> = Vec::new();
        let mut i: usize = 0;
        while i < files.len()
            invariant
                i <= files@.len(),
                out@.len() == i,
                forall|j: int| 0 <= j < i ==> (#[trigger] out@[j])@ == files@[j]@,
            decreases files@.len() - i,
        {
            out.push(files[i].duplicate());
            i += 1;
        }
        assert(out@.map_values(|f: FileMetaData| f@) =~= files@.map_values(|f: FileMetaData| f@));
        out
    }

    /// A copy of the files of one level without the files of the given
    /// number.
    fn copy_level_without(files: &Vec<FileMetaData>, file_number: u64) -> (out: Vec<FileMetaData>)
        ensures
            out@.map_values(|f: FileMetaData| f@) == without_file(
                files@.map_values(|f: FileMetaData| f@),
                file_number,
            ),
    {
        let ghost views = files@.map_values(|f: FileMetaData| f@);
        let mut out: Vec<FileMetaData> = Vec::new();
        let mut i: usize = 0;
        proof {
            assert(views.subrange(0, 0) =~= Seq::<FileMetaView>::empty());
            assert(out@.map_values(|f: FileMetaData| f@) =~= without_file(
                views.subrange(0, 0),
                file_number,
            ));
        }
        while i < files.len()
            invariant
                i <= files@.len(),
                views == files@.map_values(|f: FileMetaData| f@),
                out@.map_values(|f: FileMetaData| f@) == without_file(
                    views.subrange(0, i as int),
                    file_number,
                ),
            decreases files@.len() - i,
        {
            let ghost before = out@.map_values(|f: FileMetaData| f@);
            proof {
                let upto = views.subrange(0, i + 1);
                assert(upto.drop_last() =~= views.subrange(0, i as int));
                assert(upto.last() == views[i as int]);
            }
            if files[i].file_number != file_number {
                out.push(files[i].duplicate());
                proof {
                    assert(out@.map_values(|f: FileMetaData| f@) =~= before.push(views[i as int]));
                }
            }
            i += 1;
        }
        proof {
            assert(views.subrange(0, files@.len() as int) =~= views);
        }
        out
    }

    /// The version that an edit makes of this one: an added file goes to
    /// the end of its level, a deleted file leaves its level, and the other
    /// edits change no level. The level of the edit must exist.
    pub fn apply(&self, edit: &VersionEdit) -> (v: Self)
        requires
            edit@ matches VersionEditView::AddFile { level, .. } ==> level < self@.len(),
            edit@ matches VersionEditView::DeleteFile { level, .. } ==> level < self@.len(),
        ensures
            v@ == apply_edit(self@, edit@),
    {
        let mut levels: Vec<Vec<FileMetaData>> = Vec::new();
        let mut l: usize = 0;
        while l < self.levels.len()
            invariant
                l <= self.levels@.len(),
                levels@.len() == l,
                forall|k: int|
                    0 <= k < l ==> (#[trigger] levels@[k])@.map_values(|f: FileMetaData| f@)
                        == apply_edit(self@, edit@)[k],
            decreases self.levels@.len() - l,
        {
            let files = &self.levels[l];
            let ghost views = files@.map_values(|f: FileMetaData| f@);
            proof {
                assert(self@[l as int] == views);
            }
            let copy = match edit {
                VersionEdit::AddFile { level, file_number, file_size, smallest_key, largest_key } => {
                    let mut c = Self::copy_level(files);
                    if *level == l {
                        let ghost before = c@.map_values(|f: FileMetaData| f@);
                        let m = FileMetaData {
                            file_number: *file_number,
                            file_size: *file_size,
                            smallest_key: copy_bytes(smallest_key.as_slice()),
                            largest_key: copy_bytes(largest_key.as_slice()),
                        };
                        c.push(m);
                        proof {
                            assert(c@.map_values(|f: FileMetaData| f@) =~= before.push(m@));
                        }
                    }
                    c
                },
                VersionEdit::DeleteFile { level, file_number } => {
                    if *level == l {
                        Self::copy_level_without(files, *file_number)
                    } else {
                        Self::copy_level(files)
                    }
                },
                _ => Self::copy_level(files),
            };
            levels.push(copy);
            l += 1;
        }
        let v = Version { levels };
        assert(v@ =~= apply_edit(self@, edit@));
        v
    }

    /// The number of files in all levels.
    pub fn num_files(&self) -> (n: usize)
        requires
            count_files(self@) <= usize::MAX,
        ensures
            n == count_files(self@),
    {
        let mut n: usize = 0;
        let mut l: usize = 0;
        proof {
            assert(self@.subrange(0, 0) =~= Seq::<Seq<FileMetaView>>::empty());
        }
        while l < self.levels.len()
            invariant
                l <= self.levels@.len(),
                self@.len() == self.levels@.len(),
                n == count_files(self@.subrange(0, l as int)),
                count_files(self@) <= usize::MAX,
            decreases self.levels@.len() - l,
        {
            proof {
                let upto = self@.subrange(0, l + 1);
                assert(upto.drop_last() =~= self@.subrange(0, l as int));
                assert(upto.last() == self@[l as int]);
                assert(self@[l as int].len() == self.levels@[l as int]@.len());
                lemma_count_files_grows(self@, l + 1);
            }
            n = n + self.levels[l].len();
            l += 1;
        }
        proof {
            assert(self@.subrange(0, self@.len() as int) =~= self@);
        }
        n
    }

    /// The sizes of all files, added up.
    pub fn total_size(&self) -> (n: u64)
        requires
            levels_size(self@) <= u64::MAX,
        ensures
            n == levels_size(self@),
    {
        let mut n: u64 = 0;
        let mut l: usize = 0;
        proof {
            assert(self@.subrange(0, 0) =~= Seq::<Seq<FileMetaView>>::empty());
        }
        while l < self.levels.len()
            invariant
                l <= self.levels@.len(),
                self@.len() == self.levels@.len(),
                n == levels_size(self@.subrange(0, l as int)),
                levels_size(self@) <= u64::MAX,
            decreases self.levels@.len() - l,
        {
            let files = &self.levels[l];
            let ghost views = self@[l as int];
            proof {
                let upto = self@.subrange(0, l + 1);
                assert(upto.drop_last() =~= self@.subrange(0, l as int));
                assert(upto.last() == views);
                lemma_levels_size_grows(self@, l + 1);
                assert(views.subrange(0, 0) =~= Seq::<FileMetaView>::empty());
                assert(views == files@.map_values(|f: FileMetaData| f@));
            }
            let mut i: usize = 0;
            let mut sum: u64 = 0;
            while i < files.len()
                invariant
                    i <= files@.len(),
                    views == files@.map_values(|f: FileMetaData| f@),
                    sum == files_size(views.subrange(0, i as int)),
                    n + files_size(views) <= u64::MAX,
                decreases files@.len() - i,
            {
                proof {
                    let upto = views.subrange(0, i + 1);
                    assert(upto.drop_last() =~= views.subrange(0, i as int));
                    assert(upto.last() == views[i as int]);
                    lemma_files_size_grows(views, i + 1);
                }
                sum = sum + files[i].file_size;
                i += 1;
            }
            proof {
                assert(views.subrange(0, files@.len() as int) =~= views);
            }
            n = n + sum;
            l += 1;
        }
        proof {
            assert(self@.subrange(0, self@.len() as int) =~= self@);
        }
        n
    }
}

/// The first levels hold no more files than all levels.
pub proof fn lemma_count_files_grows(levels: Seq<Seq<FileMetaView>>, l: int)
    requires
        0 <= l <= levels.len(),
    ensures
        count_files(levels.subrange(0, l)) <= count_files(levels),
    decreases levels.len() - l,
{
    if l < levels.len() {
        lemma_count_files_grows(levels, l + 1);
        let upto = levels.subrange(0, l + 1);
        assert(upto.drop_last() =~= levels.subrange(0, l));
    } else {
        assert(levels.subrange(0, l) =~= levels);
    }
}

/// The first files are no larger than all files.
pub proof fn lemma_files_size_grows(files: Seq<FileMetaView>, i: int)
    requires
        0 <= i <= files.len(),
    ensures
        files_size(files.subrange(0, i)) <= files_size(files),
    decreases files.len() - i,
{
    if i < files.len() {
        lemma_files_size_grows(files, i + 1);
        let upto = files.subrange(0, i + 1);
        assert(upto.drop_last() =~= files.subrange(0, i));
    } else {
        assert(files.subrange(0, i) =~= files);
    }
}

/// The first levels are no larger than all levels.
pub proof fn lemma_levels_size_grows(levels: Seq<Seq<FileMetaView>>, l: int)
    requires
        0 <= l <= levels.len(),
    ensures
        levels_size(levels.subrange(0, l)) <= levels_size(levels),
    decreases levels.len() - l,
{
    if l < levels.len() {
        lemma_levels_size_grows(levels, l + 1);
        let upto = levels.subrange(0, l + 1);
        assert(upto.drop_last() =~= levels.subrange(0, l));
    } else {
        assert(levels.subrange(0, l) =~= levels);
    }
}

/// Taking files out of a level keeps its key ranges in order.
pub proof fn lemma_without_file_in_order(files: Seq<FileMetaView>, file_number: u64)
    requires
        ranges_in_order(files),
    ensures
        ranges_in_order(without_file(files, file_number)),
    decreases files.len(),
{
    let kept = without_file(files, file_number);
    if files.len() > 0 {
        let front = files.drop_last();
        assert forall|i: int, j: int| 0 <= i < j < front.len() implies key_lt(
            (#[trigger] front[i]).largest_key,
            (#[trigger] front[j]).smallest_key,
        ) by {
            assert(front[i] == files[i] && front[j] == files[j]);
        }
        assert forall|i: int| 0 <= i < front.len() implies key_le(
            (#[trigger] front[i]).smallest_key,
            front[i].largest_key,
        ) by {
            assert(front[i] == files[i]);
        }
        lemma_without_file_in_order(front, file_number);
        let kept_front = without_file(front, file_number);
        if files.last().file_number != file_number {
            assert forall|i: int, j: int| 0 <= i < j < kept.len() implies key_lt(
                (#[trigger] kept[i]).largest_key,
                (#[trigger] kept[j]).smallest_key,
            ) by {
                if j == kept.len() - 1 {
                    let at = lemma_kept_file(front, file_number, i);
                    assert(files[at] == kept_front[i]);
                    assert(key_lt(files[at].largest_key, files[files.len() - 1].smallest_key));
                } else {
                    assert(kept[i] == kept_front[i] && kept[j] == kept_front[j]);
                }
            }
            assert forall|i: int| 0 <= i < kept.len() implies key_le(
                (#[trigger] kept[i]).smallest_key,
                kept[i].largest_key,
            ) by {
                if i < kept.len() - 1 {
                    assert(kept[i] == kept_front[i]);
                } else {
                    assert(kept[i] == files[files.len() - 1]);
                }
            }
        }
    }
}

/// An edit that adds its file behind the last file of its level, or takes a
/// file out, keeps the key ranges of every level from the first on pairwise
/// disjoint and strictly increasing.
pub proof fn lemma_edit_keeps_levels_in_order(levels: Seq<Seq<FileMetaView>>, edit: VersionEditView)
    requires
        levels_in_order(levels),
        keeps_order(levels, edit),
    ensures
        levels_in_order(apply_edit(levels, edit)),
{
    let after = apply_edit(levels, edit);
    assert forall|l: int| 1 <= l < after.len() implies ranges_in_order(#[trigger] after[l]) by {
        assert(ranges_in_order(levels[l]));
        match edit {
            VersionEditView::AddFile { level, meta } => {
                if level == l {
                    let files = levels[l];
                    let more = files.push(meta);
                    assert forall|i: int, j: int| 0 <= i < j < more.len() implies key_lt(
                        (#[trigger] more[i]).largest_key,
                        (#[trigger] more[j]).smallest_key,
                    ) by {
                        if j == more.len() - 1 {
                            if i < files.len() - 1 {
                                assert(key_lt(
                                    files[i].largest_key,
                                    files[files.len() - 1].smallest_key,
                                ));
                                assert(key_le(files.last().smallest_key, files.last().largest_key));
                                crate::key_order::lemma_key_lt_le(
                                    files[i].largest_key,
                                    files.last().smallest_key,
                                    files.last().largest_key,
                                );
                                lemma_key_lt_transitive(
                                    files[i].largest_key,
                                    files.last().largest_key,
                                    meta.smallest_key,
                                );
                            }
                        } else {
                            assert(more[i] == files[i] && more[j] == files[j]);
                        }
                    }
                    assert forall|i: int| 0 <= i < more.len() implies key_le(
                        (#[trigger] more[i]).smallest_key,
                        more[i].largest_key,
                    ) by {
                        if i < files.len() {
                            assert(more[i] == files[i]);
                        }
                    }
                }
            },
            VersionEditView::DeleteFile { level, file_number } => {
                if level == l {
                    lemma_without_file_in_order(levels[l], file_number);
                }
            },
            _ => {},
        }
    }
}

} // verus!
