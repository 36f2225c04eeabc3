//! Adding the postings of a term to an accumulator.
use vstd::prelude::*;

use crate::accumulator::{block_hits, AccumulatorView, Hit, ScoreAccumulator};
use crate::accumulator::{lemma_hits_add_up, lemma_next_hit, lemma_no_hits};
use crate::docs::{DocSet, DocSetView};
use crate::formula::{LookupView, ScoreLookupTable};
use crate::posting::{block_bytes, faithful, paired, BLOCK_SIZE};
use crate::posting::{BlockCodec, CompressedPostingList, DecodedBlock, PlainPostingList, Posting};
use crate::single::{lawful, Single, SingleArithmetic, ZERO};

verus! {

/// The number of blocks that are decoded in one batch.
pub const DECODE_BATCH: usize = 4;

/// The number of postings in a batch of full blocks.
pub const DECODE_BATCH_DOCS: usize = DECODE_BATCH * BLOCK_SIZE;

/// The hits of `postings` for a term of weight `query_weight`, scored by the table `lut`
/// and quantized for the accumulator `acc`.
pub open spec fn lut_hits<A: SingleArithmetic>(
    acc: AccumulatorView,
    lut: LookupView,
    query_weight: Single,
    num_tokens: Seq<u32>,
    postings: Seq<Posting>,
) -> Seq<Hit> {
    Seq::new(
        postings.len(),
        |i: int|
            Hit {
                doc_id: postings[i].doc_id,
                quantized: acc.quantize::<A>(
                    lut.score::<A>(
                        postings[i].freq,
                        num_tokens[postings[i].doc_id as int],
                        query_weight,
                    ),
                ),
            },
    )
}

/// Whether all postings are on documents below `num_docs`.
pub open spec fn all_below(postings: Seq<Posting>, num_docs: nat) -> bool {
    forall|i: int| 0 <= i < postings.len() ==> (#[trigger] postings[i]).doc_id < num_docs
}

/// How many of `len` postings a budget of `budget` reaches.
pub open spec fn reached(len: nat, budget: nat) -> nat {
    if len < budget {
        len
    } else {
        budget
    }
}

/// Decode buffer for a batch of blocks.
pub struct DecodeBuffer {
    doc_ids: Vec<u32>,
    freqs: Vec<u32>,
}

impl View for DecodeBuffer {
    type V = Seq<Posting>;

    closed spec fn view(&self) -> Seq<Posting> {
        paired(self.doc_ids@, self.freqs@)
    }
}

impl DecodeBuffer {
    /// There is a frequency for each document id.
    pub closed spec fn wf(self) -> bool {
        self.doc_ids@.len() == self.freqs@.len()
    }

    /// An empty buffer with room for a batch of full blocks.
    pub fn new() -> (buffer: DecodeBuffer)
        ensures
            buffer.wf(),
            buffer@ == Seq::<Posting>::empty(),
    {
        DecodeBuffer {
            doc_ids: Vec::with_capacity(DECODE_BATCH_DOCS),
            freqs: Vec::with_capacity(DECODE_BATCH_DOCS),
        }
    }

    /// The number of postings.
    pub fn len(&self) -> (n: usize)
        ensures
            n == self@.len(),
    {
        self.doc_ids.len()
    }

    /// Takes all postings out.
    pub fn clear(&mut self)
        ensures
            final(self).wf(),
            final(self)@ == Seq::<Posting>::empty(),
    {
        self.doc_ids.clear();
        self.freqs.clear();
    }

    /// Adds the postings of a decoded block.
    pub fn append(&mut self, block: DecodedBlock)
        requires
            old(self).wf(),
            block.doc_ids@.len() == block.freqs@.len(),
        ensures
            final(self).wf(),
            final(self)@ == old(self)@ + paired(block.doc_ids@, block.freqs@),
    {
        let mut doc_ids: Vec<u32> = block.doc_ids;
        let mut freqs: Vec<u32> = block.freqs;
        self.doc_ids.append(&mut doc_ids);
        self.freqs.append(&mut freqs);
        assert(self@ =~= old(self)@ + paired(block.doc_ids@, block.freqs@));
    }

    /// Puts the postings of the blocks from `start` up to `end` into the buffer, in the
    /// place of what it held.
    pub fn decode_batch<C: BlockCodec>(
        &mut self,
        list: &CompressedPostingList,
        start: usize,
        end: usize,
    )
        requires
            faithful::<C>(),
            start <= end <= block_bytes(list.blocks).len(),
        ensures
            final(self).wf(),
            final(self)@ == list.postings_between::<C>(start as int, end as int),
    {
        let num_blocks: usize = list.blocks.len();
        let length: usize = list.length as usize;
        self.clear();
        let mut bi: usize = start;
        while bi < end
            invariant
                faithful::<C>(),
                start <= bi <= end <= num_blocks,
                num_blocks == block_bytes(list.blocks).len(),
                length == list.length,
                self.wf(),
                self@ == list.postings_between::<C>(start as int, bi as int),
            decreases end - bi,
        {
            let block_data: &[u8] = list.blocks.value(bi);
            let remainder: usize = length % BLOCK_SIZE;
            let block: DecodedBlock = if bi + 1 == num_blocks && remainder != 0 {
                C::decompress_posting_remainder(block_data, remainder, list.posting_tail_codec)
            } else {
                C::decompress_posting_block(block_data)
            };
            self.append(block);
            bi = bi + 1;
        }
    }

    /// Adds the first `len` postings of the buffer to `accumulator`, scored by `lut`.
    pub fn score_with_lut<A: SingleArithmetic>(
        &self,
        len: usize,
        query_weight: Single,
        num_tokens: &[u32],
        lut: &ScoreLookupTable,
        accumulator: &mut ScoreAccumulator,
    )
        requires
            self.wf(),
            lut.wf(),
            lawful::<A>(),
            old(accumulator).wf(),
            len <= self@.len(),
            all_below(self@.take(len as int), num_tokens@.len()),
            all_below(self@.take(len as int), old(accumulator)@.scores.len()),
        ensures
            final(accumulator).wf(),
            final(accumulator)@ == old(accumulator)@.after(
                lut_hits::<A>(
                    old(accumulator)@,
                    lut@,
                    query_weight,
                    num_tokens@,
                    self@.take(len as int),
                ),
            ),
    {
        let ghost before = accumulator@;
        let ghost hits = lut_hits::<A>(
            before,
            lut@,
            query_weight,
            num_tokens@,
            self@.take(len as int),
        );
        proof {
            accumulator.lemma_wf();
            lemma_no_hits(before);
            assert(hits.take(0) =~= Seq::<Hit>::empty());
        }
        let mut idx: usize = 0;
        while idx < len
            invariant
                self.wf(),
                lut.wf(),
                lawful::<A>(),
                accumulator.wf(),
                before.wf(),
                idx <= len <= self@.len(),
                all_below(self@.take(len as int), num_tokens@.len()),
                all_below(self@.take(len as int), before.scores.len()),
                hits == lut_hits::<A>(
                    before,
                    lut@,
                    query_weight,
                    num_tokens@,
                    self@.take(len as int),
                ),
                accumulator@ == before.after(hits.take(idx as int)),
            decreases len - idx,
        {
            let doc_id: u32 = self.doc_ids[idx];
            let freq: u32 = self.freqs[idx];
            assert(self@.take(len as int)[idx as int] == Posting { doc_id, freq });
            let doc_tokens: u32 = num_tokens[doc_id as usize];
            let score: Single = lut.score::<A>(freq, doc_tokens, query_weight);
            let quantized: u16 = accumulator.quantize::<A>(score);
            accumulator.add_hit(doc_id, quantized);
            proof {
                assert(hits[idx as int] == Hit { doc_id, quantized });
                lemma_next_hit(before, hits, idx as int);
            }
            idx = idx + 1;
        }
        assert(hits.take(idx as int) =~= hits);
    }
}

impl DecodeBuffer {
    /// Decides whether the first `len` postings of the buffer are on documents below
    /// `num_docs`.
    fn ids_are_below(&self, len: usize, num_docs: usize) -> (r: bool)
        requires
            self.wf(),
            len <= self@.len(),
        ensures
            r == all_below(self@.take(len as int), num_docs as nat),
    {
        let mut i: usize = 0;
        while i < len
            invariant
                self.wf(),
                i <= len <= self@.len(),
                forall|j: int|
                    0 <= j < i ==> (#[trigger] self@.take(len as int)[j]).doc_id < num_docs,
            decreases len - i,
        {
            assert(self@.take(len as int)[i as int].doc_id == self.doc_ids@[i as int]);
            if self.doc_ids[i] as usize >= num_docs {
                return false;
            }
            i = i + 1;
        }
        true
    }

    /// Adds all postings of the buffer to `accumulator`, without regard to the lengths
    /// of the documents.
    fn score_block<A: SingleArithmetic>(
        &self,
        qw_k1p1: Single,
        num_tokens: &[u32],
        accumulator: &mut ScoreAccumulator,
    )
        requires
            self.wf(),
            lawful::<A>(),
            old(accumulator).wf(),
            all_below(self@, num_tokens@.len()),
            all_below(self@, old(accumulator)@.scores.len()),
        ensures
            final(accumulator).wf(),
            final(accumulator)@ == old(accumulator)@.after(
                all_block_hits::<A>(old(accumulator)@, self@, qw_k1p1, num_tokens@),
            ),
    {
        assert(doc_ids_of(self@) =~= self.doc_ids@);
        assert(freqs_of(self@) =~= self.freqs@);
        assert forall|i: int| 0 <= i < self.doc_ids@.len() implies #[trigger] self.doc_ids@[i]
            < num_tokens@.len() && self.doc_ids@[i] < accumulator@.scores.len() by {
            assert(self@[i].doc_id == self.doc_ids@[i]);
        }
        accumulator.accumulate_block::<A>(
            self.doc_ids.as_slice(),
            self.freqs.as_slice(),
            qw_k1p1,
            num_tokens,
            ZERO,
        );
    }
}

/// The end of the batch of `list` that starts at block `start`: as many blocks as a batch
/// has, or those that are left.
pub open spec fn batch_end(list: CompressedPostingList, start: int) -> int {
    let n = block_bytes(list.blocks).len() as int;
    if n - start < DECODE_BATCH {
        n
    } else {
        start + DECODE_BATCH
    }
}

/// Whether `postings` are those of the batch of `list` that starts at block `start`.
pub open spec fn is_batch_at<C: BlockCodec>(
    list: CompressedPostingList,
    postings: Seq<Posting>,
    start: int,
) -> bool {
    &&& 0 <= start < block_bytes(list.blocks).len()
    &&& start % DECODE_BATCH as int == 0
    &&& postings == list.postings_between::<C>(start, batch_end(list, start))
}

/// Whether the batch of `list` that starts at block `start` is the last that a budget of
/// `budget` postings reaches.
pub open spec fn is_last_within<C: BlockCodec>(
    list: CompressedPostingList,
    start: int,
    budget: nat,
) -> bool {
    let end = batch_end(list, start);
    &&& list.postings_between::<C>(0, start).len() < budget
    &&& end == block_bytes(list.blocks).len() || list.postings_between::<C>(0, end).len()
        >= budget
}

/// Adds the postings of a compressed list to `accumulator`, at most `postings_budget` of
/// them, scored by `lut`. Returns the number of postings processed.
///
/// Every block within the budget is decoded, whatever it can add to a score.
pub fn process_compressed_list_with_lut<A: SingleArithmetic, C: BlockCodec>(
    list: &CompressedPostingList,
    query_weight: Single,
    num_tokens: &[u32],
    lut: &ScoreLookupTable,
    accumulator: &mut ScoreAccumulator,
    buffer: &mut DecodeBuffer,
    postings_budget: usize,
) -> (processed: usize)
    requires
        lawful::<A>(),
        faithful::<C>(),
        lut.wf(),
        old(accumulator).wf(),
        old(buffer).wf(),
        all_below(
            list.postings::<C>().take(
                reached(list.postings::<C>().len(), postings_budget as nat) as int,
            ),
            num_tokens@.len(),
        ),
        all_below(
            list.postings::<C>().take(
                reached(list.postings::<C>().len(), postings_budget as nat) as int,
            ),
            old(accumulator)@.scores.len(),
        ),
    ensures
        final(accumulator).wf(),
        final(buffer).wf(),
        processed == reached(list.postings::<C>().len(), postings_budget as nat),
        final(accumulator)@ == old(accumulator)@.after(
            lut_hits::<A>(
                old(accumulator)@,
                lut@,
                query_weight,
                num_tokens@,
                list.postings::<C>().take(processed as int),
            ),
        ),
        if block_bytes(list.blocks).len() == 0 || postings_budget == 0 {
            final(buffer)@ == old(buffer)@
        } else {
            exists|start: int| #[trigger]
                is_batch_at::<C>(*list, final(buffer)@, start) && is_last_within::<C>(
                    *list,
                    start,
                    postings_budget as nat,
                )
        },
{
    let num_blocks: usize = list.blocks.len();
    let mut processed: usize = 0;
    let mut block_idx: usize = 0;
    let ghost mut last: int = 0;
    let ghost before = accumulator@;
    let ghost all = list.postings::<C>();
    let ghost most = all.take(reached(all.len(), postings_budget as nat) as int);
    proof {
        accumulator.lemma_wf();
        lemma_no_hits(before);
        assert(lut_hits::<A>(before, lut@, query_weight, num_tokens@, all.take(0)) =~= Seq::<
            Hit,
        >::empty());
    }
    while block_idx < num_blocks && processed < postings_budget
        invariant
            lawful::<A>(),
            faithful::<C>(),
            lut.wf(),
            accumulator.wf(),
            buffer.wf(),
            before.wf(),
            num_blocks == block_bytes(list.blocks).len(),
            all == list.postings::<C>(),
            most == all.take(reached(all.len(), postings_budget as nat) as int),
            all_below(most, num_tokens@.len()),
            all_below(most, before.scores.len()),
            block_idx <= num_blocks,
            block_idx == num_blocks || block_idx % DECODE_BATCH == 0,
            processed <= postings_budget,
            processed <= list.postings_between::<C>(0, block_idx as int).len(),
            processed == postings_budget || processed == list.postings_between::<C>(
                0,
                block_idx as int,
            ).len(),
            accumulator@ == before.after(
                lut_hits::<A>(
                    before,
                    lut@,
                    query_weight,
                    num_tokens@,
                    all.take(processed as int),
                ),
            ),
            if block_idx == 0 {
                processed == 0 && buffer@ == old(buffer)@
            } else {
                &&& is_batch_at::<C>(*list, buffer@, last)
                &&& batch_end(*list, last) == block_idx
                &&& list.postings_between::<C>(0, last).len() < postings_budget
            },
        decreases num_blocks - block_idx,
    {
        let end: usize = if num_blocks - block_idx < DECODE_BATCH {
            num_blocks
        } else {
            block_idx + DECODE_BATCH
        };
        buffer.decode_batch::<C>(list, block_idx, end);
        let left: usize = postings_budget - processed;
        let len: usize = if buffer.len() < left {
            buffer.len()
        } else {
            left
        };
        let ghost batch = buffer@;
        let ghost now = accumulator@;
        proof {
            assert(is_batch_at::<C>(*list, batch, block_idx as int));
            last = block_idx as int;
            lemma_between_splits::<C>(*list, 0, block_idx as int, end as int);
            lemma_between_splits::<C>(*list, 0, end as int, num_blocks as int);
            let done = list.postings_between::<C>(0, block_idx as int);
            let rest = list.postings_between::<C>(end as int, num_blocks as int);
            assert(all =~= done + batch + rest);
            let part = batch.take(len as int);
            assert forall|i: int| 0 <= i < part.len() implies (#[trigger] part[i]).doc_id
                < num_tokens@.len() && part[i].doc_id < before.scores.len() by {
                assert(all[done.len() + i] == batch[i]);
                assert(most[processed + i] == part[i]);
            }
            assert(all.take(processed + len) =~= all.take(processed as int) + batch.take(
                len as int,
            ));
            let first = lut_hits::<A>(
                before,
                lut@,
                query_weight,
                num_tokens@,
                all.take(processed as int),
            );
            let second = lut_hits::<A>(
                before,
                lut@,
                query_weight,
                num_tokens@,
                batch.take(len as int),
            );
            lemma_hits_add_up(before, first, second);
            assert(first + second =~= lut_hits::<A>(
                before,
                lut@,
                query_weight,
                num_tokens@,
                all.take(processed + len),
            ));
            assert(second =~= lut_hits::<A>(
                now,
                lut@,
                query_weight,
                num_tokens@,
                batch.take(len as int),
            ));
        }
        buffer.score_with_lut::<A>(len, query_weight, num_tokens, lut, accumulator);
        processed = processed + len;
        block_idx = end;
    }
    proof {
        lemma_between_splits::<C>(*list, 0, block_idx as int, num_blocks as int);
        if block_idx > 0 {
            assert(is_last_within::<C>(*list, last, postings_budget as nat));
        }
    }
    processed
}

/// Adds all postings of a compressed list to `accumulator`, batch by batch, without
/// regard to the lengths of the documents, and counts them in `num_comparisons`.
pub fn process_compressed_list<A: SingleArithmetic, C: BlockCodec>(
    list: &CompressedPostingList,
    qw_k1p1: Single,
    num_tokens: &[u32],
    accumulator: &mut ScoreAccumulator,
    buffer: &mut DecodeBuffer,
    num_comparisons: &mut usize,
)
    requires
        lawful::<A>(),
        faithful::<C>(),
        old(accumulator).wf(),
        old(buffer).wf(),
        all_below(list.postings::<C>(), num_tokens@.len()),
        all_below(list.postings::<C>(), old(accumulator)@.scores.len()),
        *old(num_comparisons) + list.postings::<C>().len() <= usize::MAX,
    ensures
        final(accumulator).wf(),
        final(buffer).wf(),
        *final(num_comparisons) == *old(num_comparisons) + list.postings::<C>().len(),
        final(accumulator)@ == old(accumulator)@.after(
            block_hits::<A>(
                old(accumulator)@,
                doc_ids_of(list.postings::<C>()),
                freqs_of(list.postings::<C>()),
                qw_k1p1,
                num_tokens@,
                ZERO,
            ),
        ),
        if block_bytes(list.blocks).len() == 0 {
            final(buffer)@ == old(buffer)@
        } else {
            is_batch_at::<C>(
                *list,
                final(buffer)@,
                (block_bytes(list.blocks).len() - 1) / DECODE_BATCH as int * DECODE_BATCH,
            )
        },
{
    let num_blocks: usize = list.blocks.len();
    let mut block_idx: usize = 0;
    let ghost before = accumulator@;
    let ghost start = *num_comparisons;
    let ghost all = list.postings::<C>();
    proof {
        accumulator.lemma_wf();
        lemma_no_hits(before);
        assert(all_block_hits::<A>(before, Seq::empty(), qw_k1p1, num_tokens@) =~= Seq::<
            Hit,
        >::empty());
    }
    while block_idx < num_blocks
        invariant
            lawful::<A>(),
            faithful::<C>(),
            accumulator.wf(),
            buffer.wf(),
            before.wf(),
            num_blocks == block_bytes(list.blocks).len(),
            all == list.postings::<C>(),
            all_below(all, num_tokens@.len()),
            all_below(all, before.scores.len()),
            start + all.len() <= usize::MAX,
            block_idx <= num_blocks,
            block_idx == num_blocks || block_idx % DECODE_BATCH == 0,
            *num_comparisons == start + list.postings_between::<C>(0, block_idx as int).len(),
            accumulator@ == before.after(
                all_block_hits::<A>(
                    before,
                    list.postings_between::<C>(0, block_idx as int),
                    qw_k1p1,
                    num_tokens@,
                ),
            ),
            if block_idx == 0 {
                buffer@ == old(buffer)@
            } else {
                is_batch_at::<C>(
                    *list,
                    buffer@,
                    (block_idx - 1) / DECODE_BATCH as int * DECODE_BATCH,
                )
            },
        decreases num_blocks - block_idx,
    {
        let end: usize = if num_blocks - block_idx < DECODE_BATCH {
            num_blocks
        } else {
            block_idx + DECODE_BATCH
        };
        buffer.decode_batch::<C>(list, block_idx, end);
        let ghost batch = buffer@;
        let ghost now = accumulator@;
        proof {
            assert((end - 1) / DECODE_BATCH as int * DECODE_BATCH == block_idx);
            lemma_between_splits::<C>(*list, 0, block_idx as int, end as int);
            lemma_between_splits::<C>(*list, 0, end as int, num_blocks as int);
            let done = list.postings_between::<C>(0, block_idx as int);
            assert forall|i: int| 0 <= i < batch.len() implies (#[trigger] batch[i]).doc_id
                < num_tokens@.len() && batch[i].doc_id < before.scores.len() by {
                assert(all[done.len() + i] == batch[i]);
            }
            let first = all_block_hits::<A>(before, done, qw_k1p1, num_tokens@);
            let second = all_block_hits::<A>(before, batch, qw_k1p1, num_tokens@);
            lemma_hits_add_up(before, first, second);
            assert(first + second =~= all_block_hits::<A>(
                before,
                done + batch,
                qw_k1p1,
                num_tokens@,
            ));
            assert(second =~= all_block_hits::<A>(now, batch, qw_k1p1, num_tokens@));
        }
        *num_comparisons = *num_comparisons + buffer.len();
        buffer.score_block::<A>(qw_k1p1, num_tokens, accumulator);
        block_idx = end;
    }
}

/// Decides whether the postings of `list` are on documents below `num_docs`, as far as a
/// budget of `budget` postings reaches. Decodes no block beyond that.
pub fn postings_are_below<C: BlockCodec>(
    list: &CompressedPostingList,
    num_docs: usize,
    budget: usize,
) -> (r: bool)
    requires
        faithful::<C>(),
    ensures
        r == all_below(
            list.postings::<C>().take(reached(list.postings::<C>().len(), budget as nat) as int),
            num_docs as nat,
        ),
{
    let num_blocks: usize = list.blocks.len();
    let mut buffer: DecodeBuffer = DecodeBuffer::new();
    let mut seen: usize = 0;
    let mut bi: usize = 0;
    let ghost all = list.postings::<C>();
    let ghost most = all.take(reached(all.len(), budget as nat) as int);
    while bi < num_blocks && seen < budget
        invariant
            faithful::<C>(),
            num_blocks == block_bytes(list.blocks).len(),
            all == list.postings::<C>(),
            most == all.take(reached(all.len(), budget as nat) as int),
            bi <= num_blocks,
            seen == reached(list.postings_between::<C>(0, bi as int).len(), budget as nat),
            seen <= most.len(),
            all_below(most.take(seen as int), num_docs as nat),
        decreases num_blocks - bi,
    {
        buffer.decode_batch::<C>(list, bi, bi + 1);
        let left: usize = budget - seen;
        let len: usize = if buffer.len() < left {
            buffer.len()
        } else {
            left
        };
        let ghost done = list.postings_between::<C>(0, bi as int);
        let ghost part = buffer@.take(len as int);
        proof {
            lemma_between_splits::<C>(*list, 0, bi as int, bi + 1);
            lemma_between_splits::<C>(*list, 0, bi + 1, num_blocks as int);
            assert forall|i: int| 0 <= i < len implies most[seen + i] == #[trigger] part[i] by {
                assert(all[done.len() + i] == buffer@[i]);
            }
        }
        if !buffer.ids_are_below(len, num_docs) {
            proof {
                let i = choose|i: int|
                    0 <= i < part.len() && !((#[trigger] part[i]).doc_id < num_docs);
                assert(most[seen + i] == part[i]);
            }
            return false;
        }
        proof {
            assert forall|i: int| 0 <= i < seen + len implies (#[trigger] most.take(
                seen + len,
            )[i]).doc_id < num_docs by {
                if i < seen {
                    assert(most.take(seen as int)[i] == most[i]);
                } else {
                    assert(most[i] == part[i - seen]);
                }
            }
        }
        seen = seen + len;
        bi = bi + 1;
    }
    proof {
        lemma_between_splits::<C>(*list, 0, bi as int, num_blocks as int);
        assert(most.take(seen as int) =~= most);
    }
    true
}

/// The document ids of `postings`.
pub open spec fn doc_ids_of(postings: Seq<Posting>) -> Seq<u32> {
    Seq::new(postings.len(), |i: int| postings[i].doc_id)
}

/// The frequencies of `postings`.
pub open spec fn freqs_of(postings: Seq<Posting>) -> Seq<u32> {
    Seq::new(postings.len(), |i: int| postings[i].freq)
}

/// The hits of `postings` without regard to the lengths of the documents.
spec fn all_block_hits<A: SingleArithmetic>(
    acc: AccumulatorView,
    postings: Seq<Posting>,
    qw_k1p1: Single,
    num_tokens: Seq<u32>,
) -> Seq<Hit> {
    block_hits::<A>(acc, doc_ids_of(postings), freqs_of(postings), qw_k1p1, num_tokens, ZERO)
}

/// The postings of the first `n` rows of a plain list: rows that are no document are
/// passed over.
pub open spec fn plain_postings<A: SingleArithmetic>(
    list: PlainPostingList,
    docs: DocSetView,
    n: int,
) -> Seq<Posting>
    decreases n,
{
    if n <= 0 {
        Seq::empty()
    } else {
        let rest = plain_postings::<A>(list, docs, n - 1);
        match docs.doc_of_row(list.row_ids@[n - 1]) {
            Some(doc_id) => rest.push(
                Posting { doc_id, freq: A::to_u32_spec(list.frequencies@[n - 1]) },
            ),
            None => rest,
        }
    }
}

/// Whether the rows of a plain list that are documents have a frequency, as far as a
/// budget of `budget` postings reaches.
pub open spec fn rows_have_frequencies(
    list: PlainPostingList,
    docs: DocSetView,
    budget: nat,
) -> bool {
    forall|i: int|
        0 <= i < reached(list.row_ids@.len(), budget) && docs.doc_of_row(
            #[trigger] list.row_ids@[i],
        ) is Some ==> i < list.frequencies@.len()
}

/// Decides [`rows_have_frequencies`].
pub fn has_frequencies(list: &PlainPostingList, docs: &DocSet, budget: usize) -> (r: bool)
    requires
        docs.wf(),
    ensures
        r == rows_have_frequencies(*list, docs@, budget as nat),
{
    let mut i: usize = list.frequencies.len();
    while i < list.row_ids.len() && i < budget
        invariant
            docs.wf(),
            list.frequencies@.len() <= i,
            forall|j: int|
                list.frequencies@.len() <= j < i && j < list.row_ids@.len() ==> docs@.doc_of_row(
                    #[trigger] list.row_ids@[j],
                ) is None,
        decreases list.row_ids@.len() - i,
    {
        if docs.doc_index_by_row_id(list.row_ids[i]).is_some() {
            return false;
        }
        i = i + 1;
    }
    true
}

/// Adds the postings of a plain list to `accumulator`, at most `postings_budget` of them,
/// scored by `lut`. Returns the number of postings processed, with those whose rows are
/// no document.
pub fn process_plain_list<A: SingleArithmetic>(
    list: &PlainPostingList,
    query_weight: Single,
    docs: &DocSet,
    lut: &ScoreLookupTable,
    accumulator: &mut ScoreAccumulator,
    postings_budget: usize,
) -> (processed: usize)
    requires
        lawful::<A>(),
        docs.wf(),
        lut.wf(),
        old(accumulator).wf(),
        old(accumulator)@.scores.len() == docs@.row_ids.len(),
        rows_have_frequencies(*list, docs@, postings_budget as nat),
    ensures
        final(accumulator).wf(),
        processed == reached(list.row_ids@.len(), postings_budget as nat),
        final(accumulator)@ == old(accumulator)@.after(
            lut_hits::<A>(
                old(accumulator)@,
                lut@,
                query_weight,
                docs@.num_tokens,
                plain_postings::<A>(*list, docs@, processed as int),
            ),
        ),
{
    let num_tokens: &[u32] = docs.num_tokens_slice();
    let to_process: usize = if list.row_ids.len() < postings_budget {
        list.row_ids.len()
    } else {
        postings_budget
    };
    let ghost before = accumulator@;
    proof {
        docs.lemma_wf();
        accumulator.lemma_wf();
        lemma_no_hits(before);
        assert(lut_hits::<A>(before, lut@, query_weight, num_tokens@, Seq::empty()) =~= Seq::<
            Hit,
        >::empty());
    }
    let mut i: usize = 0;
    while i < to_process
        invariant
            lawful::<A>(),
            docs.wf(),
            lut.wf(),
            accumulator.wf(),
            before.wf(),
            num_tokens@ == docs@.num_tokens,
            docs@.num_tokens.len() == docs@.row_ids.len(),
            before.scores.len() == docs@.row_ids.len(),
            i <= to_process <= list.row_ids@.len(),
            to_process <= postings_budget,
            rows_have_frequencies(*list, docs@, postings_budget as nat),
            accumulator@ == before.after(
                lut_hits::<A>(
                    before,
                    lut@,
                    query_weight,
                    docs@.num_tokens,
                    plain_postings::<A>(*list, docs@, i as int),
                ),
            ),
        decreases to_process - i,
    {
        let row_id: u64 = list.row_ids[i];
        match docs.doc_index_by_row_id(row_id) {
            Some(doc_id) => {
                let freq: u32 = A::to_u32(list.frequencies[i]);
                let doc_tokens: u32 = num_tokens[doc_id as usize];
                let score: Single = lut.score::<A>(freq, doc_tokens, query_weight);
                let quantized: u16 = accumulator.quantize::<A>(score);
                accumulator.add_hit(doc_id, quantized);
                proof {
                    let earlier = plain_postings::<A>(*list, docs@, i as int);
                    let hits = lut_hits::<A>(
                        before,
                        lut@,
                        query_weight,
                        docs@.num_tokens,
                        earlier,
                    );
                    let hit = Hit { doc_id, quantized };
                    lemma_hits_add_up(before, hits, seq![hit]);
                    assert(hits + seq![hit] =~= lut_hits::<A>(
                        before,
                        lut@,
                        query_weight,
                        docs@.num_tokens,
                        plain_postings::<A>(*list, docs@, i + 1),
                    ));
                }
            },
            None => {},
        }
        i = i + 1;
    }
    to_process
}

/// The blocks up to `mid` and those from `mid` on make up the whole.
pub(crate) proof fn lemma_between_splits<C: BlockCodec>(
    list: CompressedPostingList,
    start: int,
    mid: int,
    end: int,
)
    requires
        start <= mid <= end,
    ensures
        list.postings_between::<C>(start, end) == list.postings_between::<C>(start, mid)
            + list.postings_between::<C>(mid, end),
    decreases end - mid,
{
    if mid < end {
        lemma_between_splits::<C>(list, start, mid, end - 1);
        assert(list.postings_between::<C>(start, end) =~= list.postings_between::<C>(start, mid)
            + list.postings_between::<C>(mid, end));
    } else {
        assert(list.postings_between::<C>(start, end) =~= list.postings_between::<C>(start, mid)
            + list.postings_between::<C>(mid, end));
    }
}

} // verus!
