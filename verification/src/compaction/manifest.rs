//! The manifest: the log of version edits, and the version it adds up to.

use vstd::prelude::*;
use crate::compaction::version::{apply_edit, decode_edit, encode_edit, lemma_edit_round_trip, FileMetaView, Version, VersionEdit, VersionEditView};
use crate::error::{Error, ErrorKind};
use crate::sstable::SSTableReader;
use crate::storage::{Directory, FileId, FileKind};
use crate::wal::reader::{read_entry, recover_from, lemma_read_entry_advances, ReadOutcome};
use crate::wal::recovery::{ends_cleanly, lemma_recover_append};
use crate::wal::writer::frame_entry;
use crate::wal::{WALReader, WALWriter};

verus! {

/// What the edits of a manifest add up to.
pub struct VersionState {
    pub levels: Seq<Seq<FileMetaView>>,
    pub next_file_number: u64,
    pub sequence: u64,
}

/// The state of a database without files: empty levels, 1 as the next file
/// number, and no sequence number in use.
pub open spec fn initial_state(max_levels: usize) -> VersionState {
    VersionState {
        levels: Seq::new(max_levels as nat, |l: int| Seq::<FileMetaView>::empty()),
        next_file_number: 1,
        sequence: 0,
    }
}

/// Whether the level that an edit names exists.
pub open spec fn edit_fits(levels: nat, edit: VersionEditView) -> bool {
    match edit {
        VersionEditView::AddFile { level, .. } => level < levels,
        VersionEditView::DeleteFile { level, .. } => level < levels,
        _ => true,
    }
}

/// The state after an edit. Adding a file moves the next file number
/// behind the number of the file.
pub open spec fn apply_to_state(state: VersionState, edit: VersionEditView) -> VersionState {
    match edit {
        VersionEditView::SetNextFileNumber(n) => VersionState { next_file_number: n, ..state },
        VersionEditView::SetSequenceNumber(n) => VersionState { sequence: n, ..state },
        VersionEditView::AddFile { level, meta } => VersionState {
            levels: apply_edit(state.levels, edit),
            next_file_number: if meta.file_number >= state.next_file_number && meta.file_number
                < u64::MAX {
                (meta.file_number + 1) as u64
            } else {
                state.next_file_number
            },
            ..state
        },
        VersionEditView::DeleteFile { .. } => VersionState {
            levels: apply_edit(state.levels, edit),
            ..state
        },
    }
}

/// The state after one more entry of the manifest: a corruption error when
/// the entry is no edit or names a level that does not exist.
pub open spec fn replay_one(state: VersionState, entry: Seq<u8>) -> Result<VersionState, ErrorKind> {
    match decode_edit(entry) {
        None => Err(ErrorKind::Corruption),
        Some(e) => if edit_fits(state.levels.len(), e) {
            Ok(apply_to_state(state, e))
        } else {
            Err(ErrorKind::Corruption)
        },
    }
}

/// The state after the entries of a manifest, one after the other.
pub open spec fn replay(entries: Seq<Seq<u8>>, state: VersionState) -> Result<
    VersionState,
    ErrorKind,
>
    decreases entries.len(),
{
    if entries.len() == 0 {
        Ok(state)
    } else {
        match replay_one(state, entries[0]) {
            Err(k) => Err(k),
            Ok(next) => replay(entries.skip(1), next),
        }
    }
}

/// The state that a manifest stands for: a corruption error when the log
/// does not end cleanly or holds an entry that cannot be replayed.
pub open spec fn manifest_state(log: Seq<u8>, max_levels: usize) -> Result<VersionState, ErrorKind> {
    if !ends_cleanly(log, 0) {
        Err(ErrorKind::Corruption)
    } else {
        replay(recover_from(log, 0), initial_state(max_levels))
    }
}

/// Replaying one more entry is replaying the entries before it and then
/// the entry.
pub proof fn lemma_replay_push(entries: Seq<Seq<u8>>, entry: Seq<u8>, state: VersionState)
    ensures
        replay(entries.push(entry), state) == match replay(entries, state) {
            Ok(s) => replay_one(s, entry),
            Err(k) => Err(k),
        },
    decreases entries.len(),
{
    let more = entries.push(entry);
    if entries.len() == 0 {
        assert(more.skip(1) =~= Seq::<Seq<u8>>::empty());
        assert(more[0] == entry);
        match replay_one(state, entry) {
            Err(_) => {},
            Ok(next) => {
                assert(replay(more.skip(1), next) == Ok::<VersionState, ErrorKind>(next));
            },
        }
        assert(replay(entries, state) == Ok::<VersionState, ErrorKind>(state));
    } else {
        assert(more[0] == entries[0]);
        assert(more.skip(1) =~= entries.skip(1).push(entry));
        match replay_one(state, entries[0]) {
            Err(_) => {},
            Ok(next) => {
                lemma_replay_push(entries.skip(1), entry, next);
            },
        }
    }
}

/// The version of a database together with the log of the edits that led
/// to it.
pub struct VersionSet {
    current: Version,
    manifest: WALWriter,
    max_levels: usize,
    next_file_number: u64,
    sequence: u64,
}

impl VersionSet {
    /// The bytes of the manifest.
    pub closed spec fn log(&self) -> Seq<u8> {
        self.manifest.bytes()
    }

    /// The levels of the current version.
    pub closed spec fn levels(&self) -> Seq<Seq<FileMetaView>> {
        self.current@
    }

    /// The next file number to hand out.
    pub closed spec fn spec_next_file_number(&self) -> u64 {
        self.next_file_number
    }

    /// The sequence number that the manifest records.
    pub closed spec fn spec_sequence(&self) -> u64 {
        self.sequence
    }

    /// The number of levels.
    pub closed spec fn spec_max_levels(&self) -> usize {
        self.max_levels
    }

    /// The current version is what the manifest adds up to, and no file
    /// number that the manifest uses will be handed out again.
    pub closed spec fn well_formed(&self) -> bool {
        &&& self.manifest.well_formed()
        &&& self.current@.len() == self.max_levels
        &&& manifest_state(self.manifest.bytes(), self.max_levels) matches Ok(state)
        &&& state.levels == self.current@
        &&& state.sequence == self.sequence
        &&& state.next_file_number <= self.next_file_number
    }

    /// What a well-formed version set promises.
    pub proof fn lemma_well_formed(&self)
        requires
            self.well_formed(),
        ensures
            self.levels().len() == self.spec_max_levels(),
            manifest_state(self.log(), self.spec_max_levels()) matches Ok(state) && state.levels
                == self.levels() && state.sequence == self.spec_sequence() && state.next_file_number
                <= self.spec_next_file_number(),
    {
    }

    /// The version set that a manifest stands for; `None` stands for a
    /// database that has no manifest yet. A corruption error when the
    /// manifest does not end cleanly or holds an entry that cannot be
    /// replayed.
    pub fn new(existing: Option<Vec<u8>>, max_levels: usize) -> (r: Result<Self, Error>)
        ensures
            match existing {
                None => r matches Ok(v) && v.well_formed() && v.log() == Seq::<u8>::empty()
                    && v.spec_max_levels() == max_levels && v.spec_next_file_number() == 1
                    && v.spec_sequence() == 0 && v.levels() == initial_state(max_levels).levels,
                Some(log) => match manifest_state(log@, max_levels) {
                    Ok(state) => r matches Ok(v) && v.well_formed() && v.log() == log@
                        && v.spec_max_levels() == max_levels && v.levels() == state.levels
                        && v.spec_next_file_number() == state.next_file_number && v.spec_sequence()
                        == state.sequence,
                    Err(k) => r matches Err(e) && e.kind() == k,
                },
            },
    {
        let mut set = VersionSet {
            current: Version::new(max_levels),
            manifest: WALWriter::new(Vec::new()),
            max_levels,
            next_file_number: 1,
            sequence: 0,
        };
        proof {
            assert forall|l: int| 0 <= l < max_levels implies #[trigger] set.current@[l]
                == initial_state(max_levels).levels[l] by {
                assert(set.current@[l] =~= Seq::<FileMetaView>::empty());
            }
            assert(set.current@ =~= initial_state(max_levels).levels);
        }
        match existing {
            None => {
                proof {
                    crate::wal::recovery::lemma_empty_log();
                }
                Ok(set)
            },
            Some(log) => {
                let mut reader = WALReader::new(crate::codec::copy_bytes(log.as_slice()));
                loop
                    invariant
                        existing == Some(log),
                        reader.well_formed(),
                        reader.log() == log@,
                        0 <= reader.spec_position() <= log@.len(),
                        set.max_levels == max_levels,
                        set.current@.len() == max_levels,
                        set.manifest.bytes() == Seq::<u8>::empty(),
                        set.manifest.well_formed(),
                        ends_cleanly(log@, 0) == ends_cleanly(log@, reader.spec_position()),
                        replay(recover_from(log@, 0), initial_state(max_levels)) == replay(
                            recover_from(log@, reader.spec_position()),
                            VersionState {
                                levels: set.current@,
                                next_file_number: set.next_file_number,
                                sequence: set.sequence,
                            },
                        ),
                    decreases log@.len() - reader.spec_position(),
                {
                    let ghost pos = reader.spec_position();
                    proof {
                        lemma_read_entry_advances(log@, pos, Seq::<u8>::empty(), false);
                    }
                    match reader.read_next() {
                        Ok(Some(data)) => {
                            let edit = match VersionEdit::decode(data.as_slice()) {
                                Ok(e) => e,
                                Err(e) => {
                                    return Err(e);
                                },
                            };
                            if !set.fits(&edit) {
                                return Err(Error::corruption("Manifest names a missing level"));
                            }
                            proof {
                                assert(recover_from(log@, pos) =~= seq![data@] + recover_from(
                                    log@,
                                    reader.spec_position(),
                                ));
                                assert(recover_from(log@, pos).skip(1) =~= recover_from(
                                    log@,
                                    reader.spec_position(),
                                ));
                            }
                            set.apply_fitting(&edit);
                        },
                        Ok(None) => {
                            if reader.position() != log.len() as u64 {
                                proof {
                                    assert(!ends_cleanly(log@, pos));
                                }
                                return Err(Error::corruption("Manifest does not end cleanly"));
                            }
                            proof {
                                assert(ends_cleanly(log@, pos));
                                assert(recover_from(log@, pos) =~= Seq::<Seq<u8>>::empty());
                            }
                            set.manifest = WALWriter::new(log);
                            return Ok(set);
                        },
                        Err(e) => {
                            return Err(e);
                        },
                    }
                }
            },
        }
    }

    /// Whether the level that an edit names exists.
    fn fits(&self, edit: &VersionEdit) -> (b: bool)
        ensures
            b == edit_fits(self.max_levels as nat, edit@),
    {
        match edit {
            VersionEdit::AddFile { level, .. } => *level < self.max_levels,
            VersionEdit::DeleteFile { level, .. } => *level < self.max_levels,
            _ => true,
        }
    }

    /// Applies an edit whose level exists to the state in memory.
    fn apply_fitting(&mut self, edit: &VersionEdit)
        requires
            old(self).current@.len() == old(self).max_levels,
            edit_fits(old(self).max_levels as nat, edit@),
        ensures
            final(self).manifest == old(self).manifest,
            final(self).max_levels == old(self).max_levels,
            final(self).current@.len() == old(self).max_levels,
            (VersionState {
                levels: final(self).current@,
                next_file_number: final(self).next_file_number,
                sequence: final(self).sequence,
            }) == apply_to_state(
                VersionState {
                    levels: old(self).current@,
                    next_file_number: old(self).next_file_number,
                    sequence: old(self).sequence,
                },
                edit@,
            ),
    {
        match edit {
            VersionEdit::SetNextFileNumber(n) => {
                self.next_file_number = *n;
            },
            VersionEdit::SetSequenceNumber(n) => {
                self.sequence = *n;
            },
            VersionEdit::AddFile { file_number, .. } => {
                self.current = self.current.apply(edit);
                if *file_number >= self.next_file_number && *file_number < u64::MAX {
                    self.next_file_number = *file_number + 1;
                }
            },
            VersionEdit::DeleteFile { .. } => {
                self.current = self.current.apply(edit);
            },
        }
    }

    /// Applies an edit to the version in memory, without logging it. An
    /// invalid-argument error, and no change, when the edit names a level
    /// that does not exist.
    pub fn apply_edit(&mut self, edit: &VersionEdit) -> (r: Result<(), Error>)
        requires
            old(self).levels().len() == old(self).spec_max_levels(),
        ensures
            final(self).log() == old(self).log(),
            final(self).spec_max_levels() == old(self).spec_max_levels(),
            final(self).levels().len() == old(self).spec_max_levels(),
            if edit_fits(old(self).spec_max_levels() as nat, edit@) {
                r is Ok && (VersionState {
                    levels: final(self).levels(),
                    next_file_number: final(self).spec_next_file_number(),
                    sequence: final(self).spec_sequence(),
                }) == apply_to_state(
                    VersionState {
                        levels: old(self).levels(),
                        next_file_number: old(self).spec_next_file_number(),
                        sequence: old(self).spec_sequence(),
                    },
                    edit@,
                )
            } else {
                r matches Err(e) && e is InvalidArgument && final(self).levels() == old(self).levels() && final(self).spec_next_file_number() == old(self).spec_next_file_number() && final(self).spec_sequence() == old(self).spec_sequence()
            },
    {
        if !self.fits(edit) {
            return Err(Error::invalid_argument("Version edit names a missing level"));
        }
        self.apply_fitting(edit);
        Ok(())
    }

    /// Appends an edit to the manifest, makes it durable, and applies it.
    /// An invalid-argument error, and no change, when the edit names a
    /// level that does not exist.
    pub fn log_edit(&mut self, edit: &VersionEdit) -> (r: Result<(), Error>)
        requires
            old(self).well_formed(),
        ensures
            final(self).well_formed(),
            final(self).spec_max_levels() == old(self).spec_max_levels(),
            if edit_fits(old(self).spec_max_levels() as nat, edit@) {
                r is Ok && final(self).log() == old(self).log() + frame_entry(encode_edit(edit@))
                    && (VersionState {
                    levels: final(self).levels(),
                    next_file_number: final(self).spec_next_file_number(),
                    sequence: final(self).spec_sequence(),
                }) == apply_to_state(
                    VersionState {
                        levels: old(self).levels(),
                        next_file_number: old(self).spec_next_file_number(),
                        sequence: old(self).spec_sequence(),
                    },
                    edit@,
                )
            } else {
                r matches Err(e) && e is InvalidArgument && final(self).log() == old(self).log()
                    && final(self).levels() == old(self).levels() && final(self).spec_next_file_number() == old(self).spec_next_file_number() && final(self).spec_sequence() == old(self).spec_sequence()
            },
    {
        if !self.fits(edit) {
            return Err(Error::invalid_argument("Version edit names a missing level"));
        }
        match edit {
            VersionEdit::AddFile { smallest_key, largest_key, .. } => {
                let small = smallest_key.len();
                let large = largest_key.len();
            },
            _ => {},
        }
        let encoded = edit.encode();
        let ghost log = self.manifest.bytes();
        let ghost before = manifest_state(log, self.max_levels)->Ok_0;
        proof {
            lemma_edit_round_trip(edit@);
            lemma_recover_append(log, encoded@, 0);
            lemma_replay_push(recover_from(log, 0), encoded@, initial_state(self.max_levels));
        }
        let _ = self.manifest.append(encoded.as_slice());
        let _ = self.manifest.sync();
        self.apply_fitting(edit);
        proof {
            let after = apply_to_state(before, edit@);
            assert(manifest_state(self.manifest.bytes(), self.max_levels) == Ok::<
                VersionState,
                ErrorKind,
            >(after));
        }
        Ok(())
    }

    /// The current version.
    pub fn current(&self) -> (v: &Version)
        ensures
            v@ == self.levels(),
    {
        &self.current
    }

    /// The bytes of the manifest.
    pub fn manifest(&self) -> (b: &[u8])
        ensures
            b@ == self.log(),
    {
        self.manifest.contents()
    }

    /// The next file number to hand out.
    pub fn next_file_number(&self) -> (n: u64)
        ensures
            n == self.spec_next_file_number(),
    {
        self.next_file_number
    }

    /// The sequence number that the manifest records.
    pub fn sequence(&self) -> (n: u64)
        ensures
            n == self.spec_sequence(),
    {
        self.sequence
    }

    /// Hands out a file number. The number is used up even if no edit ever
    /// names it.
    pub fn allocate_file_number(&mut self) -> (n: u64)
        requires
            old(self).well_formed(),
            old(self).spec_next_file_number() < u64::MAX,
        ensures
            final(self).well_formed(),
            n == old(self).spec_next_file_number(),
            final(self).spec_next_file_number() == n + 1,
            final(self).log() == old(self).log(),
            final(self).levels() == old(self).levels(),
            final(self).spec_sequence() == old(self).spec_sequence(),
            final(self).spec_max_levels() == old(self).spec_max_levels(),
    {
        let num = self.next_file_number;
        self.next_file_number = self.next_file_number + 1;
        num
    }
}

} // verus!
