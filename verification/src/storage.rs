//! The files of a database, held in memory.
//!
//! The engine works on the images of its files: the manifest, the logs and
//! the tables. A directory maps the name of a file, its kind and number, to
//! its content. Reading the files from disk and writing them back is left
//! to the program around the library.

use vstd::prelude::*;
use crate::codec::copy_bytes;

verus! {

/// The kinds of files of a database.
#[derive(Debug, Clone, Copy, PartialEq, Eq, Structural)]
pub enum FileKind {
    /// The log of version edits, `MANIFEST`.
    Manifest,
    /// A write-ahead log, `NNNNNN.log`.
    Log,
    /// A sorted table, `NNNNNN.sst`.
    Table,
}

/// The name of a file: its kind and its number. The manifest has number 0.
#[derive(Debug, Clone, Copy, PartialEq, Eq, Structural)]
pub struct FileId {
    pub kind: FileKind,
    pub number: u64,
}

/// The map that lists of names and contents stand for.
pub open spec fn files_of(ids: Seq<FileId>, contents: Seq<Seq<u8>>) -> Map<FileId, Seq<u8>>
    decreases ids.len(),
{
    if ids.len() == 0 || contents.len() != ids.len() {
        Map::empty()
    } else {
        files_of(ids.drop_last(), contents.drop_last()).insert(ids.last(), contents.last())
    }
}

/// No name occurs twice.
pub open spec fn distinct_ids(ids: Seq<FileId>) -> bool {
    forall|i: int, j: int| 0 <= i < j < ids.len() ==> #[trigger] ids[i] != #[trigger] ids[j]
}

/// The map holds exactly the listed names, each with its content.
pub proof fn lemma_files_of(ids: Seq<FileId>, contents: Seq<Seq<u8>>)
    requires
        ids.len() == contents.len(),
        distinct_ids(ids),
    ensures
        files_of(ids, contents).dom().finite(),
        forall|id: FileId|
            #[trigger] files_of(ids, contents).dom().contains(id) <==> exists|i: int|
                0 <= i < ids.len() && #[trigger] ids[i] == id,
        forall|i: int|
            0 <= i < ids.len() ==> files_of(ids, contents).dom().contains(#[trigger] ids[i])
                && files_of(ids, contents)[ids[i]] == contents[i],
    decreases ids.len(),
{
    if ids.len() > 0 {
        let front = ids.drop_last();
        let front_contents = contents.drop_last();
        assert forall|i: int, j: int| 0 <= i < j < front.len() implies #[trigger] front[i]
            != #[trigger] front[j] by {
            assert(front[i] == ids[i] && front[j] == ids[j]);
        }
        lemma_files_of(front, front_contents);
        let m = files_of(ids, contents);
        let fm = files_of(front, front_contents);
        assert forall|id: FileId| #[trigger] m.dom().contains(id) implies exists|i: int|
            0 <= i < ids.len() && #[trigger] ids[i] == id by {
            if id == ids.last() {
                assert(ids[ids.len() - 1] == id);
            } else {
                assert(fm.dom().contains(id));
                let i = choose|i: int| 0 <= i < front.len() && #[trigger] front[i] == id;
                assert(ids[i] == id);
            }
        }
        assert forall|i: int| 0 <= i < ids.len() implies m.dom().contains(#[trigger] ids[i])
            && m[ids[i]] == contents[i] by {
            if i < ids.len() - 1 {
                assert(front[i] == ids[i]);
                assert(fm.dom().contains(front[i]));
                assert(ids[i] != ids[ids.len() - 1]);
                assert(front_contents[i] == contents[i]);
            }
        }
    }
}

/// The files of a database.
#[derive(Debug)]
pub struct Directory {
    ids: Vec<FileId>,
    contents: Vec<Vec<u8>>,
}

impl View for Directory {
    type V = Map<FileId, Seq<u8>>;

    closed spec fn view(&self) -> Map<FileId, Seq<u8>> {
        files_of(self.ids@, crate::codec::byte_views(self.contents@))
    }
}

impl Directory {
    /// No name occurs twice.
    pub closed spec fn well_formed(&self) -> bool {
        &&& self.ids@.len() == self.contents@.len()
        &&& distinct_ids(self.ids@)
    }

    /// The directory holds finitely many files.
    pub proof fn lemma_finite(&self)
        requires
            self.well_formed(),
        ensures
            self@.dom().finite(),
    {
        lemma_files_of(self.ids@, crate::codec::byte_views(self.contents@));
    }

    /// A directory without files.
    pub fn new() -> (d: Self)
        ensures
            d.well_formed(),
            d@ == Map::<FileId, Seq<u8>>::empty(),
    {
        Directory { ids: Vec::new(), contents: Vec::new() }
    }

    /// Where the file of the given name is held.
    fn position(&self, id: FileId) -> (at: Option<usize>)
        requires
            self.well_formed(),
        ensures
            match at {
                Some(i) => i < self.ids@.len() && self.ids@[i as int] == id,
                None => forall|j: int| 0 <= j < self.ids@.len() ==> self.ids@[j] != id,
            },
    {
        let mut i: usize = 0;
        while i < self.ids.len()
            invariant
                i <= self.ids@.len(),
                forall|j: int| 0 <= j < i ==> self.ids@[j] != id,
            decreases self.ids@.len() - i,
        {
            if self.ids[i] == id {
                return Some(i);
            }
            i += 1;
        }
        None
    }

    /// Whether there is a file of the given name.
    pub fn contains(&self, id: FileId) -> (b: bool)
        requires
            self.well_formed(),
        ensures
            b == self@.dom().contains(id),
    {
        proof {
            lemma_files_of(self.ids@, crate::codec::byte_views(self.contents@));
        }
        self.position(id).is_some()
    }

    /// The content of the file of the given name.
    pub fn read(&self, id: FileId) -> (data: Option<Vec<u8>>)
        requires
            self.well_formed(),
        ensures
            match data {
                Some(d) => self@.dom().contains(id) && self@[id] == d@,
                None => !self@.dom().contains(id),
            },
    {
        proof {
            lemma_files_of(self.ids@, crate::codec::byte_views(self.contents@));
        }
        match self.position(id) {
            Some(i) => {
                proof {
                    assert(crate::codec::byte_views(self.contents@)[i as int]
                        == self.contents@[i as int]@);
                }
                Some(copy_bytes(self.contents[i].as_slice()))
            },
            None => None,
        }
    }

    /// Takes the file of the given name out of the directory, if it is
    /// there.
    pub fn remove(&mut self, id: FileId)
        requires
            old(self).well_formed(),
        ensures
            final(self).well_formed(),
            final(self)@ == old(self)@.remove(id),
    {
        let ghost ids = self.ids@;
        let ghost contents = crate::codec::byte_views(self.contents@);
        proof {
            lemma_files_of(ids, contents);
        }
        match self.position(id) {
            Some(i) => {
                self.ids.remove(i);
                self.contents.remove(i);
                proof {
                    let ids2 = self.ids@;
                    let contents2 = crate::codec::byte_views(self.contents@);
                    assert(ids2 =~= ids.remove(i as int));
                    assert(contents2 =~= contents.remove(i as int));
                    assert forall|a: int, b: int| 0 <= a < b < ids2.len() implies #[trigger] ids2[a]
                        != #[trigger] ids2[b] by {
                        let ia = if a < i { a } else { a + 1 };
                        let ib = if b < i { b } else { b + 1 };
                        assert(ids2[a] == ids[ia] && ids2[b] == ids[ib]);
                    }
                    lemma_files_of(ids2, contents2);
                    let m = files_of(ids, contents);
                    let m2 = files_of(ids2, contents2);
                    assert forall|k: FileId| m2.dom().contains(k) <==> m.remove(id).dom().contains(
                        k,
                    ) by {
                        if m2.dom().contains(k) {
                            let a = choose|a: int| 0 <= a < ids2.len() && #[trigger] ids2[a] == k;
                            let ia = if a < i { a } else { a + 1 };
                            assert(ids[ia] == k);
                            assert(k != id) by {
                                if ia < i {
                                    assert(ids[ia] != ids[i as int]);
                                } else {
                                    assert(ids[i as int] != ids[ia]);
                                }
                            }
                        }
                        if m.remove(id).dom().contains(k) {
                            let a = choose|a: int| 0 <= a < ids.len() && #[trigger] ids[a] == k;
                            assert(a != i);
                            let a2 = if a < i { a } else { a - 1 };
                            assert(ids2[a2] == k);
                        }
                    }
                    assert forall|k: FileId| m2.dom().contains(k) implies m2[k] == m.remove(id)[k] by {
                        let a = choose|a: int| 0 <= a < ids2.len() && #[trigger] ids2[a] == k;
                        let ia = if a < i { a } else { a + 1 };
                        assert(ids[ia] == k);
                        assert(contents2[a] == contents[ia]);
                    }
                    assert(m2 =~= m.remove(id));
                }
            },
            None => {
                proof {
                    let m = files_of(ids, contents);
                    assert(!m.dom().contains(id));
                    assert(m =~= m.remove(id));
                }
            },
        }
    }

    /// Puts a file of the given name and content into the directory, in
    /// place of one of the same name.
    pub fn write(&mut self, id: FileId, data: Vec<u8>)
        requires
            old(self).well_formed(),
        ensures
            final(self).well_formed(),
            final(self)@ == old(self)@.insert(id, data@),
    {
        self.remove(id);
        let ghost ids = self.ids@;
        let ghost contents = crate::codec::byte_views(self.contents@);
        proof {
            lemma_files_of(ids, contents);
        }
        self.ids.push(id);
        self.contents.push(data);
        proof {
            let ids2 = self.ids@;
            let contents2 = crate::codec::byte_views(self.contents@);
            assert(ids2.drop_last() =~= ids);
            assert(contents2.drop_last() =~= contents);
            assert(contents2.last() == data@);
            assert forall|a: int, b: int| 0 <= a < b < ids2.len() implies #[trigger] ids2[a]
                != #[trigger] ids2[b] by {
                assert(ids2[a] == ids[a]);
                if b < ids2.len() - 1 {
                    assert(ids2[b] == ids[b]);
                } else {
                    assert(files_of(ids, contents).dom().contains(ids[a]));
                }
            }
            assert(old(self)@.remove(id).insert(id, data@) =~= old(self)@.insert(id, data@));
        }
    }

    /// The numbers of the files of the given kind, each once.
    pub fn numbers(&self, kind: FileKind) -> (list: Vec<u64>)
        requires
            self.well_formed(),
        ensures
            forall|n: u64|
                #[trigger] list@.contains(n) <==> self@.dom().contains(FileId { kind, number: n }),
            forall|i: int, j: int| 0 <= i < j < list@.len() ==> list@[i] != list@[j],
    {
        let ghost ids = self.ids@;
        proof {
            lemma_files_of(ids, crate::codec::byte_views(self.contents@));
        }
        let mut list: Vec<u64> = Vec::new();
        let ghost mut from: Seq<int> = Seq::empty();
        let mut i: usize = 0;
        while i < self.ids.len()
            invariant
                i <= self.ids@.len(),
                ids == self.ids@,
                distinct_ids(ids),
                from.len() == list@.len(),
                forall|a: int|
                    0 <= a < list@.len() ==> 0 <= #[trigger] from[a] < i && ids[from[a]] == (FileId {
                        kind,
                        number: list@[a],
                    }),
                forall|a: int, b: int| 0 <= a < b < list@.len() ==> #[trigger] from[a] < #[trigger] from[b],
                forall|j: int|
                    0 <= j < i && (#[trigger] ids[j]).kind == kind ==> list@.contains(ids[j].number),
            decreases self.ids@.len() - i,
        {
            if self.ids[i].kind == kind {
                let ghost before = list@;
                list.push(self.ids[i].number);
                proof {
                    from = from.push(i as int);
                    assert forall|j: int|
                        0 <= j < i + 1 && (#[trigger] ids[j]).kind == kind implies list@.contains(
                        ids[j].number,
                    ) by {
                        if j < i {
                            let a = choose|a: int| 0 <= a < before.len() && before[a] == ids[j].number;
                            assert(list@[a] == ids[j].number);
                        } else {
                            assert(list@[list@.len() - 1] == ids[j].number);
                        }
                    }
                }
            }
            i += 1;
        }
        proof {
            assert forall|n: u64| #[trigger] list@.contains(n) <==> self@.dom().contains(
                FileId { kind, number: n },
            ) by {
                let id = FileId { kind, number: n };
                if list@.contains(n) {
                    let a = choose|a: int| 0 <= a < list@.len() && list@[a] == n;
                    assert(ids[from[a]] == id);
                }
                if self@.dom().contains(id) {
                    let j = choose|j: int| 0 <= j < ids.len() && #[trigger] ids[j] == id;
                    assert(ids[j].kind == kind);
                }
            }
            assert forall|a: int, b: int| 0 <= a < b < list@.len() implies list@[a] != list@[b] by {
                assert(from[a] < from[b]);
                assert(ids[from[a]] != ids[from[b]]);
            }
        }
        list
    }
}

} // verus!
