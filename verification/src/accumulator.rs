//! Accumulating quantized scores, document by document.
use vstd::prelude::*;

use crate::bits::{bit_at, lemma_set_bit, lemma_zero_word, BitIter};
use crate::docs::MAX_DOCS;
use crate::single::{lawful, less, less_than, Single, SingleArithmetic, B, K1, ONE, QUANTIZED_TOP, ZERO};

verus! {

/// A quantized score that a posting adds to a document.
pub struct Hit {
    pub doc_id: u32,
    pub quantized: u16,
}

/// What `hits` add to document `d` in all.
pub open spec fn total(hits: Seq<Hit>, d: int) -> nat
    decreases hits.len(),
{
    if hits.len() == 0 {
        0
    } else {
        total(hits.drop_last(), d) + if hits.last().doc_id == d {
            hits.last().quantized as nat
        } else {
            0
        }
    }
}

/// Whether one of `hits` is on document `d`.
pub open spec fn is_hit(hits: Seq<Hit>, d: int) -> bool {
    exists|i: int| 0 <= i < hits.len() && (#[trigger] hits[i]).doc_id == d
}

/// The sum of `a` and `b`, or the greatest `u16` where it is beyond that.
pub open spec fn saturating_sum(a: int, b: int) -> u16 {
    if a + b > u16::MAX {
        u16::MAX
    } else {
        (a + b) as u16
    }
}

/// What a [`ScoreAccumulator`] holds: for each document its quantized score and
/// whether a posting has touched it, and the scale of the quantized scores.
pub struct AccumulatorView {
    pub scores: Seq<u16>,
    pub touched: Seq<bool>,
    pub scale: Single,
    pub inv_scale: Single,
}

impl AccumulatorView {
    /// There is a score and a mark for each document, and ids can tell the documents apart.
    pub open spec fn wf(self) -> bool {
        &&& self.scores.len() == self.touched.len()
        &&& self.scores.len() <= MAX_DOCS
    }

    /// The state after `hits`: each document has what was added to it, up to the
    /// greatest `u16`, and is touched if it was or if there is a hit on it.
    pub open spec fn after(self, hits: Seq<Hit>) -> AccumulatorView {
        AccumulatorView {
            scores: Seq::new(
                self.scores.len(),
                |d: int| saturating_sum(self.scores[d] as int, total(hits, d) as int),
            ),
            touched: Seq::new(self.touched.len(), |d: int| self.touched[d] || is_hit(hits, d)),
            ..self
        }
    }

    /// The state of an accumulator of `num_docs` documents before any hit, for scores
    /// up to `max_possible_score`.
    pub open spec fn fresh<A: SingleArithmetic>(
        num_docs: nat,
        max_possible_score: Single,
    ) -> AccumulatorView {
        let scale = if less(ZERO, max_possible_score) {
            A::over_spec(QUANTIZED_TOP, max_possible_score)
        } else {
            ONE
        };
        AccumulatorView {
            scores: Seq::new(num_docs, |d: int| 0u16),
            touched: Seq::new(num_docs, |d: int| false),
            scale,
            inv_scale: A::over_spec(ONE, scale),
        }
    }

    /// `score`, quantized.
    pub open spec fn quantize<A: SingleArithmetic>(self, score: Single) -> u16 {
        A::to_u16_spec(A::times_spec(score, self.scale))
    }

    /// The score of document `d`, no longer quantized.
    pub open spec fn score<A: SingleArithmetic>(self, d: int) -> Single {
        A::times_spec(A::of_int_spec(self.scores[d] as u64), self.inv_scale)
    }

    /// Whether document `d` is touched and has a score.
    pub open spec fn is_scored(self, d: int) -> bool {
        0 <= d < self.scores.len() && self.touched[d] && self.scores[d] != 0
    }
}

/// The score that a posting with frequency `freq` in a document of `doc_tokens` tokens
/// adds, where `qw_k1p1` is the weight of the term times K1 + 1.
pub open spec fn block_score<A: SingleArithmetic>(
    freq: u32,
    doc_tokens: u32,
    qw_k1p1: Single,
    b_over_avgdl: Single,
) -> Single {
    let f = A::of_int_spec(freq as u64);
    let norm = A::times_spec(
        K1,
        A::plus_spec(
            A::minus_spec(ONE, B),
            A::times_spec(b_over_avgdl, A::of_int_spec(doc_tokens as u64)),
        ),
    );
    A::over_spec(A::times_spec(qw_k1p1, f), A::plus_spec(f, norm))
}

/// The hits of a block of postings, each quantized for the accumulator `acc`.
pub open spec fn block_hits<A: SingleArithmetic>(
    acc: AccumulatorView,
    doc_ids: Seq<u32>,
    freqs: Seq<u32>,
    qw_k1p1: Single,
    num_tokens: Seq<u32>,
    b_over_avgdl: Single,
) -> Seq<Hit> {
    Seq::new(
        doc_ids.len(),
        |i: int|
            Hit {
                doc_id: doc_ids[i],
                quantized: acc.quantize::<A>(
                    block_score::<A>(
                        freqs[i],
                        num_tokens[doc_ids[i] as int],
                        qw_k1p1,
                        b_over_avgdl,
                    ),
                ),
            },
    )
}

/// Dense score accumulator of 16-bit quantized scores, with a bit set of the documents
/// that a posting has touched.
///
/// Scores from 0 to the greatest possible one are mapped to 0 to 65000, so that 16 bits
/// hold them.
pub struct ScoreAccumulator {
    scores: Vec<u16>,
    touched_bits: Vec<u64>,
    num_docs: usize,
    scale: Single,
    inv_scale: Single,
}

impl View for ScoreAccumulator {
    type V = AccumulatorView;

    closed spec fn view(&self) -> AccumulatorView {
        AccumulatorView {
            scores: self.scores@,
            touched: Seq::new(
                self.num_docs as nat,
                |d: int| bit_at(self.touched_bits@[d / 64], d % 64),
            ),
            scale: self.scale,
            inv_scale: self.inv_scale,
        }
    }
}

impl ScoreAccumulator {
    /// There is a score and a bit for each document.
    pub closed spec fn wf(self) -> bool {
        &&& self@.wf()
        &&& self.scores@.len() == self.num_docs
        &&& self.touched_bits@.len() == (self.num_docs + 63) / 64
    }

    /// What [`ScoreAccumulator::wf`] says of the contents.
    pub proof fn lemma_wf(self)
        requires
            self.wf(),
        ensures
            self@.wf(),
    {
    }

    /// An accumulator of `num_docs` documents for scores up to `max_possible_score`.
    pub fn new<A: SingleArithmetic>(num_docs: usize, max_possible_score: Single) -> (acc:
        ScoreAccumulator)
        requires
            num_docs <= MAX_DOCS,
            num_docs + 63 <= usize::MAX,
            lawful::<A>(),
        ensures
            acc.wf(),
            acc@ == AccumulatorView::fresh::<A>(num_docs as nat, max_possible_score),
    {
        let num_words: usize = (num_docs + 63) / 64;
        let scale: Single = if less_than(ZERO, max_possible_score) {
            A::over(QUANTIZED_TOP, max_possible_score)
        } else {
            ONE
        };
        let acc = ScoreAccumulator {
            scores: vec![0u16; num_docs],
            touched_bits: vec![0u64; num_words],
            num_docs,
            scale,
            inv_scale: A::over(ONE, scale),
        };
        proof {
            lemma_zero_word();
            let fresh = AccumulatorView::fresh::<A>(num_docs as nat, max_possible_score);
            assert(acc@.scores =~= fresh.scores);
            assert(acc@.touched =~= fresh.touched);
        }
        acc
    }

    /// The quantized score of document `doc_id`.
    pub fn quantized(&self, doc_id: u32) -> (quantized: u16)
        requires
            self.wf(),
            doc_id < self@.scores.len(),
        ensures
            quantized == self@.scores[doc_id as int],
    {
        self.scores[doc_id as usize]
    }

    /// The score of document `doc_id`, no longer quantized.
    pub fn score<A: SingleArithmetic>(&self, doc_id: u32) -> (score: Single)
        requires
            self.wf(),
            lawful::<A>(),
            doc_id < self@.scores.len(),
        ensures
            score == self@.score::<A>(doc_id as int),
    {
        A::times(A::of_int(self.scores[doc_id as usize] as u64), self.inv_scale)
    }

    /// `score`, quantized.
    pub fn quantize<A: SingleArithmetic>(&self, score: Single) -> (quantized: u16)
        requires
            lawful::<A>(),
        ensures
            quantized == self@.quantize::<A>(score),
    {
        A::to_u16(A::times(score, self.scale))
    }

    /// Adds `quantized` to the score of document `doc_id` and marks it as touched.
    pub fn add_hit(&mut self, doc_id: u32, quantized: u16)
        requires
            old(self).wf(),
            doc_id < old(self)@.scores.len(),
        ensures
            final(self).wf(),
            final(self)@ == old(self)@.after(seq![Hit { doc_id, quantized }]),
    {
        let ghost before = self@;
        let idx: usize = doc_id as usize;
        let sum: u16 = self.scores[idx].saturating_add(quantized);
        self.scores[idx] = sum;
        let word_idx: usize = (doc_id >> 6) as usize;
        let bit: u32 = doc_id & 63;
        assert(doc_id >> 6 == doc_id / 64) by (bit_vector);
        assert(doc_id & 63 == doc_id % 64) by (bit_vector);
        let ghost words = self.touched_bits@;
        self.touched_bits[word_idx] = self.touched_bits[word_idx] | (1u64 << bit);
        proof {
            let hits = seq![Hit { doc_id, quantized }];
            lemma_one_hit(hits[0]);
            lemma_set_bit(words[word_idx as int], bit as u64);
            assert(1u64 << bit == 1u64 << (bit as u64));
            assert(self@.scores =~= before.after(hits).scores);
            assert forall|d: int| 0 <= d < before.touched.len() implies #[trigger] self@.touched[d]
                == before.after(hits).touched[d] by {
                assert(before.touched[d] == bit_at(words[d / 64], d % 64));
            }
            assert(self@.touched =~= before.after(hits).touched);
        }
    }
}

impl ScoreAccumulator {
    /// Adds the quantized scores of a block of postings.
    pub fn accumulate_block<A: SingleArithmetic>(
        &mut self,
        doc_ids: &[u32],
        freqs: &[u32],
        query_weight_times_k1_plus_1: Single,
        num_tokens: &[u32],
        b_over_avgdl: Single,
    )
        requires
            old(self).wf(),
            lawful::<A>(),
            doc_ids@.len() <= freqs@.len(),
            forall|i: int|
                0 <= i < doc_ids@.len() ==> #[trigger] doc_ids@[i] < num_tokens@.len() && doc_ids@[i]
                    < old(self)@.scores.len(),
        ensures
            final(self).wf(),
            final(self)@ == old(self)@.after(
                block_hits::<A>(
                    old(self)@,
                    doc_ids@,
                    freqs@,
                    query_weight_times_k1_plus_1,
                    num_tokens@,
                    b_over_avgdl,
                ),
            ),
    {
        let ghost before = self@;
        let ghost hits = block_hits::<A>(
            before,
            doc_ids@,
            freqs@,
            query_weight_times_k1_plus_1,
            num_tokens@,
            b_over_avgdl,
        );
        proof {
            lemma_no_hits(before);
            assert(hits.take(0) =~= Seq::<Hit>::empty());
        }
        let mut idx: usize = 0;
        while idx < doc_ids.len()
            invariant
                self.wf(),
                before.wf(),
                lawful::<A>(),
                idx <= doc_ids@.len() <= freqs@.len(),
                forall|i: int|
                    0 <= i < doc_ids@.len() ==> #[trigger] doc_ids@[i] < num_tokens@.len()
                        && doc_ids@[i] < before.scores.len(),
                hits == block_hits::<A>(
                    before,
                    doc_ids@,
                    freqs@,
                    query_weight_times_k1_plus_1,
                    num_tokens@,
                    b_over_avgdl,
                ),
                self@ == before.after(hits.take(idx as int)),
            decreases doc_ids@.len() - idx,
        {
            let doc_id: u32 = doc_ids[idx];
            let freq: Single = A::of_int(freqs[idx] as u64);
            let doc_tokens: u32 = num_tokens[doc_id as usize];

            let doc_norm: Single = A::times(
                K1,
                A::plus(
                    A::minus(ONE, B),
                    A::times(b_over_avgdl, A::of_int(doc_tokens as u64)),
                ),
            );
            let score: Single = A::over(
                A::times(query_weight_times_k1_plus_1, freq),
                A::plus(freq, doc_norm),
            );
            let quantized: u16 = self.quantize::<A>(score);
            self.add_hit(doc_id, quantized);
            proof {
                assert(hits[idx as int] == Hit { doc_id, quantized });
                lemma_next_hit(before, hits, idx as int);
            }
            idx = idx + 1;
        }
        assert(hits.take(idx as int) =~= hits);
    }

    /// The ids of the touched documents, in ascending order.
    pub fn iter_touched(&self) -> (doc_ids: Vec<u32>)
        requires
            self.wf(),
        ensures
            forall|i: int, j: int| 0 <= i < j < doc_ids.len() ==> doc_ids[i] < doc_ids[j],
            forall|d: u32|
                #[trigger] doc_ids@.contains(d) <==> d < self@.touched.len()
                    && self@.touched[d as int],
    {
        let mut doc_ids: Vec<u32> = Vec::new();
        let mut word_idx: usize = 0;
        while word_idx < self.touched_bits.len()
            invariant
                self.wf(),
                word_idx <= self.touched_bits@.len(),
                forall|i: int, j: int| 0 <= i < j < doc_ids.len() ==> doc_ids[i] < doc_ids[j],
                forall|d: u32|
                    #[trigger] doc_ids@.contains(d) <==> d < self@.touched.len()
                        && self@.touched[d as int] && d < word_idx * 64,
            decreases self.touched_bits@.len() - word_idx,
        {
            let base: u32 = (word_idx as u32) * 64;
            let mut bits: BitIter = BitIter { word: self.touched_bits[word_idx], base };
            proof {
                assert(forall|i: int|
                    0 <= i < doc_ids.len() ==> doc_ids@.contains(#[trigger] doc_ids[i]));
                assert forall|d: u32| base <= d < base + 64 && d < self@.touched.len() implies (
                #[trigger] self@.touched[d as int]) == bit_at(bits.word, d - base) by {
                    assert(d as int / 64 == word_idx && d as int % 64 == d - base);
                }
            }
            let ghost word = bits.word;
            while bits.word != 0
                invariant
                    self.wf(),
                    word_idx < self.touched_bits@.len(),
                    base == word_idx * 64,
                    bits.base == base,
                    word_idx < 0x400_0000,
                    forall|i: int| #[trigger] bit_at(bits.word, i) ==> bit_at(word, i),
                    forall|d: u32|
                        base <= d < base + 64 && d < self@.touched.len() ==> (
                        #[trigger] self@.touched[d as int]) == bit_at(word, d - base),
                    forall|i: int, j: int|
                        0 <= i < j < doc_ids.len() ==> doc_ids[i] < doc_ids[j],
                    forall|i: int, j: int|
                        0 <= i < doc_ids.len() && #[trigger] bit_at(bits.word, j)
                            ==> #[trigger] doc_ids[i] < base + j,
                    forall|d: u32|
                        #[trigger] doc_ids@.contains(d) <==> d < self@.touched.len()
                            && self@.touched[d as int] && (d < base || d < base + 64 && !bit_at(
                            bits.word,
                            d - base,
                        )),
                decreases bits.word,
            {
                let ghost before = doc_ids@;
                let ghost rest = bits.word;
                match bits.next() {
                    Some(doc_id) => {
                        if (doc_id as usize) < self.num_docs {
                            doc_ids.push(doc_id);
                        }
                        assert forall|d: u32| #[trigger] doc_ids@.contains(d) <==> d
                            < self@.touched.len() && self@.touched[d as int] && (d < base || d
                            < base + 64 && !bit_at(bits.word, d - base)) by {
                            if before.contains(d) {
                                assert(doc_ids@[before.index_of(d)] == d);
                            }
                            if d == doc_id {
                                assert(bit_at(rest, d - base));
                                if d < self@.touched.len() {
                                    assert(doc_ids@[before.len() as int] == d);
                                }
                            } else if doc_ids@.contains(d) {
                                assert(before.contains(d));
                            }
                        }
                    },
                    None => {},
                }
            }
            proof {
                lemma_zero_word();
            }
            word_idx = word_idx + 1;
        }
        doc_ids
    }
}

/// No hits change nothing.
pub(crate) proof fn lemma_no_hits(acc: AccumulatorView)
    requires
        acc.wf(),
    ensures
        acc.after(Seq::empty()) == acc,
{
    assert(acc.after(Seq::empty()).scores =~= acc.scores);
    assert(acc.after(Seq::empty()).touched =~= acc.touched);
}

/// The hits up to and with the one at `i` are those before it and then that one.
pub(crate) proof fn lemma_next_hit(acc: AccumulatorView, hits: Seq<Hit>, i: int)
    requires
        acc.wf(),
        0 <= i < hits.len(),
    ensures
        acc.after(hits.take(i)).after(seq![hits[i]]) == acc.after(hits.take(i + 1)),
{
    assert(hits.take(i + 1) =~= hits.take(i) + seq![hits[i]]);
    lemma_hits_add_up(acc, hits.take(i), seq![hits[i]]);
}

/// Hits taken in two parts, one after the other, do what they do taken together.
pub proof fn lemma_hits_add_up(acc: AccumulatorView, first: Seq<Hit>, second: Seq<Hit>)
    requires
        acc.wf(),
    ensures
        acc.after(first).after(second) == acc.after(first + second),
{
    let parts = acc.after(first).after(second);
    let whole = acc.after(first + second);
    assert forall|d: int| 0 <= d < acc.scores.len() implies parts.scores[d] == whole.scores[d]
        && parts.touched[d] == whole.touched[d] by {
        lemma_total_adds_up(first, second, d);
        if is_hit(first, d) {
            let i = choose|i: int| 0 <= i < first.len() && (#[trigger] first[i]).doc_id == d;
            assert((first + second)[i].doc_id == d);
        }
        if is_hit(second, d) {
            let i = choose|i: int| 0 <= i < second.len() && (#[trigger] second[i]).doc_id == d;
            assert((first + second)[first.len() + i].doc_id == d);
        }
        if is_hit(first + second, d) {
            let i = choose|i: int|
                0 <= i < (first + second).len() && (#[trigger] (first + second)[i]).doc_id == d;
            if i < first.len() {
                assert(first[i].doc_id == d);
            } else {
                assert(second[i - first.len()].doc_id == d);
            }
        }
    }
    assert(parts.scores =~= whole.scores);
    assert(parts.touched =~= whole.touched);
}

proof fn lemma_total_adds_up(first: Seq<Hit>, second: Seq<Hit>, d: int)
    ensures
        total(first + second, d) == total(first, d) + total(second, d),
    decreases second.len(),
{
    if second.len() == 0 {
        assert(first + second =~= first);
    } else {
        lemma_total_adds_up(first, second.drop_last(), d);
        assert((first + second).drop_last() =~= first + second.drop_last());
    }
}

/// One hit adds to its document and leaves the others alone.
proof fn lemma_one_hit(hit: Hit)
    ensures
        forall|d: int|
            #[trigger] total(seq![hit], d) == if d == hit.doc_id {
                hit.quantized as nat
            } else {
                0
            },
        forall|d: int| #[trigger] is_hit(seq![hit], d) <==> d == hit.doc_id,
{
    assert forall|d: int| #[trigger] total(seq![hit], d) == if d == hit.doc_id {
        hit.quantized as nat
    } else {
        0
    } by {
        reveal_with_fuel(total, 2);
        assert(seq![hit].drop_last() =~= Seq::<Hit>::empty());
    }
    assert forall|d: int| #[trigger] is_hit(seq![hit], d) <==> d == hit.doc_id by {
        assert(seq![hit][0] == hit);
    }
}

} // verus!
