//! Writing a MemTable out as a table.
//!
//! Of the versions of a key only the newest goes into the table: a value
//! with its bytes, a tombstone with an empty value.

use vstd::prelude::*;
use crate::codec::{bytes_equal, copy_bytes};
use crate::config::CompressionType;
use crate::error::Error;
use crate::memtable::skiplist::{is_range_of, EntryKey};
use crate::memtable::{listed, MemTable, MemTableEntry};
use crate::sstable::block::KeyValue;
use crate::sstable::builder::is_table_of;
use crate::sstable::layout::{begins, blocks_compress, fits, lemma_compress_beginning, lemma_layout_step, lemma_takes_beginning, takes_all};
use crate::sstable::reader::table_filter;
use crate::sstable::SSTableBuilder;

verus! {

/// Whether entry `i` of the versions of a MemTable, in the order of
/// internal keys, is the newest version of its key.
pub open spec fn is_newest(listing: Seq<(EntryKey, Seq<u8>)>, i: int) -> bool {
    i == 0 || listing[i].0.0 != listing[i - 1].0.0
}

/// What a flush writes of the versions of a MemTable: of every key its
/// newest version.
pub open spec fn flushed_entries(listing: Seq<(EntryKey, Seq<u8>)>) -> Seq<KeyValue>
    decreases listing.len(),
{
    if listing.len() == 0 {
        Seq::<KeyValue>::empty()
    } else if is_newest(listing, listing.len() - 1) {
        flushed_entries(listing.drop_last()).push(
            KeyValue { key: listing.last().0.0, value: listing.last().1 },
        )
    } else {
        flushed_entries(listing.drop_last())
    }
}

/// Whether a file is the table that a flush writes of a MemTable.
pub open spec fn is_flush_of(file: Seq<u8>, contents: Map<EntryKey, Seq<u8>>) -> bool {
    exists|listing: Seq<(EntryKey, Seq<u8>)>| #[trigger]
        is_range_of(listing, contents, None, None) && is_table_of(file, flushed_entries(listing))
}

/// A table that a flush has built.
pub struct FlushedTable {
    /// The image of the table file.
    pub bytes: Vec<u8>,
    /// The smallest key of the table.
    pub smallest_key: Vec<u8>,
    /// The largest key of the table.
    pub largest_key: Vec<u8>,
    /// The number of entries of the table.
    pub entry_count: usize,
}

/// What a flush writes of the first versions is the beginning of what it
/// writes of all versions.
pub proof fn lemma_flushed_beginning(listing: Seq<(EntryKey, Seq<u8>)>, i: int)
    requires
        0 <= i <= listing.len(),
    ensures
        begins(flushed_entries(listing.subrange(0, i)), flushed_entries(listing)),
    decreases listing.len(),
{
    let part = flushed_entries(listing.subrange(0, i));
    if i == listing.len() {
        assert(listing.subrange(0, i) =~= listing);
        assert(part.subrange(0, part.len() as int) =~= part);
    } else {
        let front = listing.drop_last();
        assert(front.subrange(0, i) =~= listing.subrange(0, i));
        lemma_flushed_beginning(front, i);
        let shorter = flushed_entries(front);
        let longer = flushed_entries(listing);
        assert(longer.subrange(0, part.len() as int) =~= shorter.subrange(0, part.len() as int));
    }
}

/// Whether the versions of a MemTable make a table: the newest versions
/// of its keys, in the order of the keys, make a table with blocks of
/// `block_size` bytes and a filter of `bits` bits for every key, if it
/// gets one.
pub open spec fn makes_table(
    contents: Map<EntryKey, Seq<u8>>,
    block_size: usize,
    bits: Option<usize>,
    compression: CompressionType,
) -> bool {
    forall|listing: Seq<(EntryKey, Seq<u8>)>| #[trigger]
        is_range_of(listing, contents, None, None) ==> fits(
            flushed_entries(listing),
            block_size,
            bits,
            compression,
        )
}

/// What the building of the table of a MemTable has given, said of the
/// versions of the MemTable in the order of internal keys: a table of
/// their newest versions where these make a table; nothing where there are
/// no versions; an error where they make no table: an invalid-argument
/// error for an empty key or a block or index that grows too long, an
/// internal error for a block that is too long for the compressor.
pub open spec fn built_of(
    r: Result<Option<FlushedTable>, Error>,
    contents: Map<EntryKey, Seq<u8>>,
    block_size: usize,
    compression: CompressionType,
    bits: Option<usize>,
) -> bool {
    exists|listing: Seq<(EntryKey, Seq<u8>)>| #[trigger]
        is_range_of(listing, contents, None, None) && match r {
            Ok(Some(table)) => {
                &&& listing.len() > 0
                &&& fits(flushed_entries(listing), block_size, bits, compression)
                &&& is_table_of(table.bytes@, flushed_entries(listing))
                &&& table.entry_count == flushed_entries(listing).len()
                &&& table.smallest_key@ == flushed_entries(listing)[0].key
                &&& table.largest_key@ == flushed_entries(listing).last().key
                &&& table_filter(table.bytes@) is Some <==> bits is Some
            },
            Ok(None) => listing.len() == 0,
            Err(e) => listing.len() > 0 && !fits(
                flushed_entries(listing),
                block_size,
                bits,
                compression,
            ) && (e is InvalidArgument || e is Internal),
        }
}

/// A table is built of a MemTable that holds versions which make a table;
/// and no table of a MemTable without versions only.
pub proof fn lemma_built(
    r: Result<Option<FlushedTable>, Error>,
    contents: Map<EntryKey, Seq<u8>>,
    block_size: usize,
    compression: CompressionType,
    bits: Option<usize>,
)
    requires
        built_of(r, contents, block_size, compression, bits),
    ensures
        r matches Ok(None) ==> contents == Map::<EntryKey, Seq<u8>>::empty(),
        r matches Ok(Some(table)) ==> is_flush_of(table.bytes@, contents),
        r matches Err(e) ==> e is Internal || e is InvalidArgument,
        makes_table(contents, block_size, bits, compression) ==> r is Ok,
{
    let listing = choose|listing: Seq<(EntryKey, Seq<u8>)>| #[trigger]
        is_range_of(listing, contents, None, None) && match r {
            Ok(Some(table)) => {
                &&& listing.len() > 0
                &&& fits(flushed_entries(listing), block_size, bits, compression)
                &&& is_table_of(table.bytes@, flushed_entries(listing))
                &&& table.entry_count == flushed_entries(listing).len()
                &&& table.smallest_key@ == flushed_entries(listing)[0].key
                &&& table.largest_key@ == flushed_entries(listing).last().key
                &&& table_filter(table.bytes@) is Some <==> bits is Some
            },
            Ok(None) => listing.len() == 0,
            Err(e) => listing.len() > 0 && !fits(
                flushed_entries(listing),
                block_size,
                bits,
                compression,
            ) && (e is InvalidArgument || e is Internal),
        };
    if r matches Ok(None) {
        assert forall|k: EntryKey| !contents.dom().contains(k) by {
            if contents.dom().contains(k) {
                assert(crate::memtable::skiplist::in_bounds(k, None::<EntryKey>, None::<EntryKey>));
            }
        }
        assert(contents =~= Map::<EntryKey, Seq<u8>>::empty());
    }
}

/// Builds the table of a MemTable: of every key its newest version, a
/// tombstone as a value without bytes. `None` for a MemTable without
/// versions.
///
/// The table is built exactly when its entries make a table. An
/// invalid-argument error when a key is empty, or a block or the index
/// grows too long; an internal error when a block is too long for the
/// compressor.
pub fn build_table(
    memtable: &MemTable,
    block_size: usize,
    compression: CompressionType,
    filter_bits_per_key: Option<usize>,
) -> (r: Result<Option<FlushedTable>, Error>)
    requires
        memtable.well_formed(),
    ensures
        built_of(r, memtable.contents(), block_size, compression, filter_bits_per_key),
{
    let entries = memtable.entries();
    let ghost listing = listed(entries@);
    let ghost output = flushed_entries(listing);
    let mut builder = match SSTableBuilder::new() {
        Ok(b) => b,
        Err(e) => {
            loop
                invariant
                    false,
                decreases 0int,
            {
            }
        },
    };
    builder.set_block_size(block_size);
    builder.set_compression(compression);
    builder.set_bloom_filter(filter_bits_per_key);
    let mut smallest: Vec<u8> = Vec::new();
    let mut largest: Vec<u8> = Vec::new();
    let mut count: usize = 0;
    let mut i: usize = 0;
    proof {
        assert(listing.subrange(0, 0) =~= Seq::<(EntryKey, Seq<u8>)>::empty());
    }
    while i < entries.len()
        invariant
            i <= entries@.len(),
            listing == listed(entries@),
            output == flushed_entries(listing),
            is_range_of(listing, memtable.contents(), None, None),
            builder.well_formed(),
            builder.regular(),
            builder.spec_block_size() == block_size,
            builder.spec_compression() == compression,
            builder.spec_filter_bits() == filter_bits_per_key,
            builder.entries() == flushed_entries(listing.subrange(0, i as int)),
            takes_all(builder.entries(), block_size),
            blocks_compress(builder.entries(), block_size, compression),
            count == builder.entries().len(),
            count <= i,
            count > 0 ==> smallest@ == builder.entries()[0].key && largest@
                == builder.entries().last().key,
            i > 0 ==> count > 0,
        decreases entries@.len() - i,
    {
        let entry = &entries[i];
        proof {
            let upto = listing.subrange(0, i + 1);
            assert(upto.drop_last() =~= listing.subrange(0, i as int));
            assert(upto.last() == listing[i as int]);
            assert(listing[i as int] == (entry.spec_entry_key(), entry.spec_value()));
            if i > 0 {
                assert(upto[i - 1] == listing[i - 1]);
                assert(listing[i - 1] == (
                    entries@[i - 1].spec_entry_key(),
                    entries@[i - 1].spec_value(),
                ));
            }
        }
        let newest = i == 0 || !bytes_equal(entries[i - 1].user_key(), entry.user_key());
        if newest {
            let ghost before = builder.entries();
            let ghost kv = KeyValue { key: entry.spec_key().user_key, value: entry.spec_value() };
            proof {
                // the entry is the next of what is written in the end
                let next = before.push(kv);
                lemma_flushed_beginning(listing, i + 1);
                lemma_layout_step(before, kv, block_size);
                builder.lemma_regular();
                assert(begins(next, output));
                assert(output[before.len() as int] == kv) by {
                    assert(output.subrange(0, next.len() as int)[before.len() as int]
                        == next[before.len() as int]);
                }
                if takes_all(output, block_size) {
                    assert(begins(before, output)) by {
                        assert(output.subrange(0, before.len() as int) =~= next.subrange(
                            0,
                            before.len() as int,
                        ));
                        assert(next.subrange(0, before.len() as int) =~= before);
                    }
                    lemma_takes_beginning(output, before, block_size);
                }
                if blocks_compress(output, block_size, compression) {
                    lemma_compress_beginning(output, next, block_size, compression);
                }
            }
            match builder.add(entry.user_key(), entry.value()) {
                Ok(_) => {},
                Err(e) => {
                    return Err(e);
                },
            }
            if count == 0 {
                smallest = copy_bytes(entry.user_key());
            }
            largest = copy_bytes(entry.user_key());
            count = count + 1;
            proof {
                assert(builder.entries()[0] == if before.len() == 0 {
                    kv
                } else {
                    before[0]
                });
            }
        }
        i += 1;
    }
    proof {
        assert(listing.subrange(0, entries@.len() as int) =~= listing);
        builder.lemma_regular();
    }
    if count == 0 {
        proof {
            assert(listing =~= Seq::<(EntryKey, Seq<u8>)>::empty());
        }
        let _ = builder.abandon();
        return Ok(None);
    }
    let bytes = match builder.finish() {
        Ok(b) => b,
        Err(e) => {
            return Err(e);
        },
    };
    Ok(Some(FlushedTable { bytes, smallest_key: smallest, largest_key: largest, entry_count: count }))
}

} // verus!

verus! {

/// The answer that a table gives in place of the answer of a MemTable: a
/// table stores a tombstone as a value without bytes, so a value without
/// bytes reads as a tombstone.
pub open spec fn flattened(found: crate::lookup::LookupView) -> crate::lookup::LookupView {
    match found {
        crate::lookup::LookupView::Found(v) => if v.len() == 0 {
            crate::lookup::LookupView::Deleted
        } else {
            crate::lookup::LookupView::Found(v)
        },
        other => other,
    }
}

/// The entry that a flush writes for a version.
pub open spec fn entry_of(version: (EntryKey, Seq<u8>)) -> KeyValue {
    KeyValue { key: version.0.0, value: version.1 }
}

/// The newest version of a key is written.
pub proof fn lemma_newest_is_flushed(listing: Seq<(EntryKey, Seq<u8>)>, i: int) -> (j: int)
    requires
        0 <= i < listing.len(),
        is_newest(listing, i),
    ensures
        0 <= j < flushed_entries(listing).len(),
        flushed_entries(listing)[j] == entry_of(listing[i]),
    decreases listing.len(),
{
    let front = listing.drop_last();
    if i == listing.len() - 1 {
        flushed_entries(listing).len() - 1
    } else {
        assert(front[i] == listing[i]);
        if i > 0 {
            assert(front[i - 1] == listing[i - 1]);
        }
        let j = lemma_newest_is_flushed(front, i);
        j
    }
}

/// What is written is the newest version of its key.
pub proof fn lemma_flushed_is_newest(listing: Seq<(EntryKey, Seq<u8>)>, j: int) -> (i: int)
    requires
        0 <= j < flushed_entries(listing).len(),
    ensures
        0 <= i < listing.len(),
        is_newest(listing, i),
        flushed_entries(listing)[j] == entry_of(listing[i]),
    decreases listing.len(),
{
    let front = listing.drop_last();
    let last = listing.len() - 1;
    if is_newest(listing, last) && j == flushed_entries(front).len() {
        last
    } else {
        let i = lemma_flushed_is_newest(front, j);
        assert(front[i] == listing[i]);
        if i > 0 {
            assert(front[i - 1] == listing[i - 1]);
        }
        i
    }
}

/// The index of the first version of `key` from `from` on; the number of
/// versions when there is none.
pub open spec fn first_version(listing: Seq<(EntryKey, Seq<u8>)>, key: Seq<u8>, from: int) -> int
    decreases listing.len() - from,
{
    if from < 0 || from >= listing.len() {
        listing.len() as int
    } else if listing[from].0.0 == key {
        from
    } else {
        first_version(listing, key, from + 1)
    }
}

/// Where the first version of a key stands, there is a version of the key,
/// and none before it.
pub proof fn lemma_first_version(listing: Seq<(EntryKey, Seq<u8>)>, key: Seq<u8>, from: int)
    requires
        0 <= from <= listing.len(),
    ensures
        from <= first_version(listing, key, from) <= listing.len(),
        first_version(listing, key, from) < listing.len() ==> listing[first_version(
            listing,
            key,
            from,
        )].0.0 == key,
        forall|i: int|
            from <= i < first_version(listing, key, from) ==> (#[trigger] listing[i]).0.0 != key,
    decreases listing.len() - from,
{
    if from < listing.len() && listing[from].0.0 != key {
        lemma_first_version(listing, key, from + 1);
    }
}

/// The table that a flush writes of a MemTable answers for every key as
/// the MemTable does for a reader who sees all its versions: the newest
/// version of the key, a value without bytes read as a tombstone.
pub proof fn lemma_flush_answers(file: Seq<u8>, contents: Map<EntryKey, Seq<u8>>, key: Seq<u8>)
    requires
        crate::memtable::tidy(contents),
        is_flush_of(file, contents),
    ensures
        crate::sstable::reader::table_find(file, key) matches Ok(stored)
            && crate::sstable::reader::stored_meaning(stored) == flattened(
            crate::memtable::lookup_in(contents, key, u64::MAX),
        ),
{
    let listing = choose|listing: Seq<(EntryKey, Seq<u8>)>| #[trigger]
        is_range_of(listing, contents, None, None) && is_table_of(file, flushed_entries(listing));
    let flushed = flushed_entries(listing);
    lemma_first_version(listing, key, 0);
    let i = first_version(listing, key, 0);
    if i < listing.len() {
        let k = listing[i].0;
        // the first version of the key is its newest
        assert(is_newest(listing, i)) by {
            if i > 0 {
                assert(listing[i - 1].0.0 != key);
            }
        }
        assert(contents.dom().contains(k));
        assert forall|o: EntryKey| #[trigger]
            contents.dom().contains(o) && crate::memtable::visible(o, key, u64::MAX) implies crate::memtable::skiplist::entry_le(
            k,
            o,
        ) by {
            assert(crate::memtable::skiplist::in_bounds(o, None, None));
            let j = choose|j: int| 0 <= j < listing.len() && (#[trigger] listing[j]).0 == o;
            if j < i {
                assert(listing[j].0.0 != key);
            } else if j > i {
                assert(crate::memtable::skiplist::entry_lt(listing[i].0, listing[j].0));
            }
        }
        assert(crate::memtable::is_newest_visible(contents, key, u64::MAX, k));
        crate::memtable::lemma_lookup_of_newest(contents, key, u64::MAX, k);
        let j = lemma_newest_is_flushed(listing, i);
        crate::sstable::table_laws::lemma_table_finds_added(file, flushed, j);
        assert(contents[k] == listing[i].1);
    } else {
        assert forall|p: int| 0 <= p < flushed.len() implies (#[trigger] flushed[p]).key != key by {
            let at = lemma_flushed_is_newest(listing, p);
            assert(listing[at].0.0 != key);
        }
        crate::sstable::table_laws::lemma_table_misses_others(file, flushed, key);
        if exists|k: EntryKey| crate::memtable::is_newest_visible(contents, key, u64::MAX, k) {
            let o = choose|k: EntryKey|
                crate::memtable::is_newest_visible(contents, key, u64::MAX, k);
            assert(contents.dom().contains(o));
            assert(crate::memtable::skiplist::in_bounds(o, None, None));
            let j = choose|j: int| 0 <= j < listing.len() && (#[trigger] listing[j]).0 == o;
            assert(listing[j].0.0 != key);
        }
    }
}

} // verus!
