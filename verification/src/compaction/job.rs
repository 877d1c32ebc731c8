//! Running a compaction: merging tables into one table.

use vstd::prelude::*;
use crate::codec::{bytes_equal, copy_bytes};
use crate::compaction::merge::{lemma_merged_prefix_grows, merge_output, merged_prefix, total_len, MergeIterator};
use crate::sstable::layout::{begins, blocks_compress, can_end, compresses, fits, lemma_compress_beginning, lemma_layout_step, lemma_takes_beginning, takes_all, takes_next};
use crate::config::CompressionType;
use crate::error::{Error, ErrorKind};
use crate::sstable::block::KeyValue;
use crate::sstable::builder::is_table_of;
use crate::sstable::reader::{table_entries, table_filter, SSTableReader};
use crate::sstable::SSTableBuilder;

verus! {

/// Whether entry `i` of a merged stream goes into the output: it is the
/// first entry of its key, and it is no tombstone where tombstones are
/// dropped, from level 1 on.
pub open spec fn kept(merged: Seq<KeyValue>, i: int, output_level: usize) -> bool {
    &&& i == 0 || merged[i].key != merged[i - 1].key
    &&& !(output_level > 0 && merged[i].value.len() == 0)
}

/// What a compaction writes of a merged stream.
pub open spec fn compact(merged: Seq<KeyValue>, output_level: usize) -> Seq<KeyValue>
    decreases merged.len(),
{
    if merged.len() == 0 {
        Seq::<KeyValue>::empty()
    } else if kept(merged, merged.len() - 1, output_level) {
        compact(merged.drop_last(), output_level).push(merged.last())
    } else {
        compact(merged.drop_last(), output_level)
    }
}

/// What a compaction writes of the beginning of a merged stream is the
/// beginning of what it writes of the stream.
pub proof fn lemma_compact_beginning(part: Seq<KeyValue>, whole: Seq<KeyValue>, output_level: usize)
    requires
        begins(part, whole),
    ensures
        begins(compact(part, output_level), compact(whole, output_level)),
    decreases whole.len(),
{
    let written = compact(part, output_level);
    if part.len() == whole.len() {
        assert(whole.subrange(0, whole.len() as int) =~= whole);
        assert(written.subrange(0, written.len() as int) =~= written);
    } else {
        let front = whole.drop_last();
        assert(front.subrange(0, part.len() as int) =~= whole.subrange(0, part.len() as int));
        lemma_compact_beginning(part, front, output_level);
        let shorter = compact(front, output_level);
        let longer = compact(whole, output_level);
        assert(longer.subrange(0, written.len() as int) =~= shorter.subrange(
            0,
            written.len() as int,
        ));
    }
}

/// Whether every one of the tables can be read from its first entry to its
/// last.
pub open spec fn readable(inputs: Seq<&SSTableReader>) -> bool {
    forall|i: int| 0 <= i < inputs.len() ==> table_entries((#[trigger] inputs[i]).bytes()) is Ok
}

/// The entries of the tables, as far as they can be read.
pub open spec fn job_sources(inputs: Seq<&SSTableReader>) -> Seq<Seq<KeyValue>> {
    Seq::new(inputs.len(), |i: int| table_entries(inputs[i].bytes())->Ok_0)
}

/// A compaction that is ready to run.
pub struct CompactionJob<'a> {
    /// The tables that are merged, the newest first.
    pub inputs: Vec<&'a SSTableReader>,
    /// The level of the table that is written.
    pub output_level: usize,
    /// The block size of the table that is written.
    pub block_size: usize,
    /// The compression of the table that is written.
    pub compression: CompressionType,
    /// The bits per key of the filter of the table that is written, if it
    /// gets one.
    pub filter_bits_per_key: Option<usize>,
}

/// What a compaction has written.
pub struct CompactionResult {
    /// The number of the table that was written; 0 if none was.
    pub file_number: u64,
    /// The number of entries in the table.
    pub entry_count: usize,
    /// The image of the table file, if a table was written.
    pub output: Option<Vec<u8>>,
}

impl<'a> CompactionJob<'a> {
    /// A compaction of `inputs`, the newest first, into a table of
    /// `output_level`, without compression and without a filter.
    pub fn new(inputs: Vec<&'a SSTableReader>, output_level: usize, block_size: usize) -> (job: Self)
        ensures
            job.inputs == inputs,
            job.output_level == output_level,
            job.block_size == block_size,
            job.compression == CompressionType::NoCompression,
            job.filter_bits_per_key is None,
    {
        CompactionJob {
            inputs,
            output_level,
            block_size,
            compression: CompressionType::NoCompression,
            filter_bits_per_key: None,
        }
    }

    /// Merges the tables and builds the output: of several entries for one
    /// key the one from the newest table stays, and tombstones are dropped
    /// from level 1 on. When nothing is left no table is written, and the
    /// result names file number 0.
    ///
    /// The compaction succeeds exactly when every table can be read and
    /// what is left of them makes a table. It fails with the error of a
    /// table that cannot be read; with an invalid-argument error when a
    /// key is empty or out of order, or a block or the index grows too
    /// long; and with an internal error when a block is too long for the
    /// compressor or the entries cannot be counted.
    pub fn run(&self, file_number: u64) -> (r: Result<CompactionResult, Error>)
        requires
            forall|i: int| 0 <= i < self.inputs@.len() ==> (#[trigger] self.inputs@[i]).well_formed(),
        ensures
            match r {
                Ok(result) => {
                    let output = compact(
                        merge_output(job_sources(self.inputs@)),
                        self.output_level,
                    );
                    &&& readable(self.inputs@)
                    &&& fits(output, self.block_size, self.filter_bits_per_key, self.compression)
                    &&& result.entry_count == output.len()
                    &&& if output.len() == 0 {
                        result.file_number == 0 && result.output is None
                    } else {
                        &&& result.file_number == file_number
                        &&& result.output matches Some(bytes)
                        &&& is_table_of(bytes@, output)
                        &&& table_filter(bytes@) is Some <==> self.filter_bits_per_key is Some
                    }
                },
                Err(e) => {
                    let output = compact(
                        merge_output(job_sources(self.inputs@)),
                        self.output_level,
                    );
                    if !readable(self.inputs@) {
                        exists|i: int|
                            0 <= i < self.inputs@.len() && table_entries(
                                (#[trigger] self.inputs@[i]).bytes(),
                            ) == Err::<Seq<KeyValue>, ErrorKind>(e.kind())
                    } else {
                        !fits(output, self.block_size, self.filter_bits_per_key, self.compression)
                            && (e is InvalidArgument || e is Internal)
                    }
                },
            },
    {
        let mut merge = match MergeIterator::new(&self.inputs) {
            Ok(m) => m,
            Err(e) => {
                return Err(e);
            },
        };
        proof {
            assert(merge.inputs() =~= job_sources(self.inputs@));
        }
        let mut builder = match SSTableBuilder::new() {
            Ok(b) => b,
            Err(e) => {
                return Err(e);
            },
        };
        builder.set_block_size(self.block_size);
        builder.set_compression(self.compression);
        builder.set_bloom_filter(self.filter_bits_per_key);
        let mut entry_count: usize = 0;
        let mut last_user_key: Option<Vec<u8>> = None;
        let ghost sources = job_sources(self.inputs@);
        let ghost output = compact(merge_output(sources), self.output_level);
        loop
            invariant
                readable(self.inputs@),
                sources == job_sources(self.inputs@),
                output == compact(merge_output(sources), self.output_level),
                merge.well_formed(),
                merge.inputs() == sources,
                builder.well_formed(),
                builder.regular(),
                builder.spec_block_size() == self.block_size,
                builder.spec_compression() == self.compression,
                builder.spec_filter_bits() == self.filter_bits_per_key,
                builder.entries() == compact(merge.merged(), self.output_level),
                takes_all(builder.entries(), self.block_size),
                blocks_compress(builder.entries(), self.block_size, self.compression),
                entry_count == builder.entries().len(),
                match last_user_key {
                    Some(k) => merge.merged().len() > 0 && k@ == merge.merged().last().key,
                    None => merge.merged().len() == 0,
                },
            ensures
                merge.well_formed(),
                merge.inputs() == sources,
                merge.exhausted(),
                builder.well_formed(),
                builder.regular(),
                builder.spec_block_size() == self.block_size,
                builder.spec_compression() == self.compression,
                builder.spec_filter_bits() == self.filter_bits_per_key,
                builder.entries() == compact(merge.merged(), self.output_level),
                takes_all(builder.entries(), self.block_size),
                blocks_compress(builder.entries(), self.block_size, self.compression),
                entry_count == builder.entries().len(),
            decreases
                    crate::compaction::merge::total_len(sources) - merge.handed_out(),
        {
            let ghost before = merge.merged();
            proof {
                merge.lemma_steps_bounded();
            }
            let entry = match merge.next() {
                Some(e) => e,
                None => {
                    break ;
                },
            };
            let ghost written = builder.entries();
            proof {
                let after = merge.merged();
                assert(after.drop_last() =~= before);
                assert(after.last() == entry@);
                if before.len() > 0 {
                    assert(after[after.len() - 2] == before.last());
                }
                // what is written of the stream so far begins what is written in the end
                merge.lemma_steps_bounded();
                lemma_merged_prefix_grows(sources, merge.handed_out(), total_len(sources));
                lemma_compact_beginning(after, merge_output(sources), self.output_level);
                lemma_layout_step(written, entry@, self.block_size);
                builder.lemma_regular();
            }
            let duplicate = match &last_user_key {
                Some(k) => bytes_equal(k.as_slice(), entry.key.as_slice()),
                None => false,
            };
            if duplicate {
            } else if self.output_level > 0 && entry.value.len() == 0 {
                last_user_key = Some(copy_bytes(entry.key.as_slice()));
            } else {
                proof {
                    // the entry is the next of what is written in the end
                    let next = written.push(entry@);
                    assert(begins(next, output));
                    assert(output[written.len() as int] == entry@) by {
                        assert(output.subrange(0, next.len() as int)[written.len() as int]
                            == next[written.len() as int]);
                    }
                    if takes_all(output, self.block_size) {
                        assert(begins(written, output)) by {
                            assert(output.subrange(0, written.len() as int) =~= next.subrange(
                                0,
                                written.len() as int,
                            ));
                            assert(next.subrange(0, written.len() as int) =~= written);
                        }
                        lemma_takes_beginning(output, written, self.block_size);
                    }
                    if blocks_compress(output, self.block_size, self.compression) {
                        lemma_compress_beginning(output, next, self.block_size, self.compression);
                    }
                }
                if entry_count == usize::MAX {
                    return Err(Error::internal("Too many entries"));
                }
                match builder.add(entry.key.as_slice(), entry.value.as_slice()) {
                    Ok(_) => {},
                    Err(e) => {
                        return Err(e);
                    },
                }
                entry_count = entry_count + 1;
                last_user_key = Some(copy_bytes(entry.key.as_slice()));
            }
        }
        proof {
            merge.lemma_exhausted();
            builder.lemma_regular();
        }
        if entry_count == 0 {
            let _ = builder.abandon();
            return Ok(CompactionResult { file_number: 0, entry_count: 0, output: None });
        }
        let bytes = match builder.finish() {
            Ok(b) => b,
            Err(e) => {
                return Err(e);
            },
        };
        Ok(CompactionResult { file_number, entry_count, output: Some(bytes) })
    }
}

} // verus!
