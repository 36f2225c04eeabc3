//! BM25 scores, precomputed where they depend on little.
use vstd::prelude::*;

use crate::docs::{DocSet, DocSetView};
use crate::single::{greater_of, lawful, maximum, Single, SingleArithmetic, B, K1, ONE};

verus! {

/// Frequencies from this one on are not in the lookup table.
pub const MAX_FREQ_LUT: usize = 64;

/// The number of document-length buckets in the lookup table.
pub const NUM_DL_BUCKETS: usize = 256;

/// The number of entries in the lookup table.
pub const LUT_SIZE: usize = 16384;

/// K1 * (1 - B) + K1 * b_over_avgdl * dl: how far the length `dl` damps a score.
pub open spec fn doc_norm<A: SingleArithmetic>(b_over_avgdl: Single, dl: Single) -> Single {
    A::plus_spec(
        A::times_spec(K1, A::minus_spec(ONE, B)),
        A::times_spec(A::times_spec(K1, b_over_avgdl), dl),
    )
}

/// (K1 + 1) * f / (f + norm): the share of its weight that a term adds to a score.
pub open spec fn tf_score<A: SingleArithmetic>(f: Single, norm: Single) -> Single {
    A::over_spec(A::times_spec(A::plus_spec(K1, ONE), f), A::plus_spec(f, norm))
}

/// The greatest of `num_tokens`, 0 if there is none.
pub open spec fn longest(num_tokens: Seq<u32>) -> u32
    decreases num_tokens.len(),
{
    if num_tokens.len() == 0 {
        0
    } else if longest(num_tokens.drop_last()) < num_tokens.last() {
        num_tokens.last()
    } else {
        longest(num_tokens.drop_last())
    }
}

/// The number of buckets that one token of length spans: the longest document falls
/// into the last bucket.
pub open spec fn bucket_scale<A: SingleArithmetic>(num_tokens: Seq<u32>) -> Single {
    let max_dl = if num_tokens.len() == 0 {
        1
    } else {
        longest(num_tokens)
    };
    A::over_spec(
        A::of_int_spec((NUM_DL_BUCKETS - 1) as u64),
        greater_of(A::of_int_spec(max_dl as u64), ONE),
    )
}

/// What a [`ScoreLookupTable`] holds.
pub struct LookupView {
    /// The entry for each frequency and, within a frequency, for each bucket.
    pub table: Seq<Single>,
    pub dl_scale: Single,
    pub avgdl: Single,
}

impl LookupView {
    /// Whether this is the table for the documents `docs`: each entry is what the formula
    /// gives for its frequency and for the length at the start of its bucket.
    pub open spec fn is_of<A: SingleArithmetic>(self, docs: DocSetView) -> bool {
        &&& self.avgdl == docs.average_length::<A>()
        &&& self.dl_scale == bucket_scale::<A>(docs.num_tokens)
        &&& self.table.len() == LUT_SIZE
        &&& forall|freq: int, bucket: int|
            0 <= freq < MAX_FREQ_LUT && 0 <= bucket < NUM_DL_BUCKETS ==> #[trigger] self.entry(
                freq,
                bucket,
            ) == tf_score::<A>(
                A::of_int_spec(freq as u64),
                doc_norm::<A>(
                    A::over_spec(B, self.avgdl),
                    A::over_spec(A::of_int_spec(bucket as u64), self.dl_scale),
                ),
            )
    }

    /// The bucket of documents with `doc_tokens` tokens.
    pub open spec fn bucket<A: SingleArithmetic>(self, doc_tokens: u32) -> int {
        let bucket = A::to_usize_spec(
            A::times_spec(A::of_int_spec(doc_tokens as u64), self.dl_scale),
        );
        if bucket < NUM_DL_BUCKETS {
            bucket as int
        } else {
            NUM_DL_BUCKETS - 1
        }
    }

    /// The entry that the table has for `freq` and `bucket`.
    pub open spec fn entry(self, freq: int, bucket: int) -> Single {
        self.table[freq * NUM_DL_BUCKETS + bucket]
    }

    /// The score that a term of weight `query_weight` adds to a document of `doc_tokens`
    /// tokens in which it occurs `freq` times: from the table for small frequencies,
    /// else by the formula.
    pub open spec fn score<A: SingleArithmetic>(
        self,
        freq: u32,
        doc_tokens: u32,
        query_weight: Single,
    ) -> Single {
        if freq < MAX_FREQ_LUT {
            A::times_spec(query_weight, self.entry(freq as int, self.bucket::<A>(doc_tokens)))
        } else {
            let f = A::of_int_spec(freq as u64);
            let norm = A::times_spec(
                K1,
                A::plus_spec(
                    A::minus_spec(ONE, B),
                    A::over_spec(
                        A::times_spec(B, A::of_int_spec(doc_tokens as u64)),
                        self.avgdl,
                    ),
                ),
            );
            A::over_spec(
                A::times_spec(A::times_spec(query_weight, A::plus_spec(K1, ONE)), f),
                A::plus_spec(f, norm),
            )
        }
    }
}

/// BM25 score lookup table, indexed by frequency and document-length bucket.
pub struct ScoreLookupTable {
    table: Vec<Single>,
    dl_scale: Single,
    num_dl_buckets: usize,
    avgdl: Single,
}

impl View for ScoreLookupTable {
    type V = LookupView;

    closed spec fn view(&self) -> LookupView {
        LookupView { table: self.table@, dl_scale: self.dl_scale, avgdl: self.avgdl }
    }
}

impl ScoreLookupTable {
    /// The table has an entry for each frequency below [`MAX_FREQ_LUT`] and each bucket.
    pub closed spec fn wf(self) -> bool {
        &&& self.table@.len() == LUT_SIZE
        &&& self.num_dl_buckets == NUM_DL_BUCKETS
    }

    /// The table for the documents `docs`.
    pub fn new<A: SingleArithmetic>(docs: &DocSet) -> (lut: ScoreLookupTable)
        requires
            docs.wf(),
            lawful::<A>(),
        ensures
            lut.wf(),
            lut@.is_of::<A>(docs@),
    {
        let num_tokens: &[u32] = docs.num_tokens_slice();
        let avgdl: Single = docs.average_length::<A>();
        let b_over_avgdl: Single = A::over(B, avgdl);
        let k1_one_minus_b: Single = A::times(K1, A::minus(ONE, B));

        let longest_dl: u32 = longest_of(num_tokens);
        let max_dl: Single = A::of_int(longest_dl as u64);
        let dl_scale: Single = A::over(
            A::of_int((NUM_DL_BUCKETS - 1) as u64),
            maximum(max_dl, ONE),
        );

        let mut table: Vec<Single> = Vec::with_capacity(LUT_SIZE);
        let k1_plus_1: Single = A::plus(K1, ONE);
        let mut freq: usize = 0;
        while freq < MAX_FREQ_LUT
            invariant
                lawful::<A>(),
                freq <= MAX_FREQ_LUT,
                b_over_avgdl == A::over_spec(B, avgdl),
                k1_one_minus_b == A::times_spec(K1, A::minus_spec(ONE, B)),
                k1_plus_1 == A::plus_spec(K1, ONE),
                table.len() == freq * NUM_DL_BUCKETS,
                forall|g: int, b: int|
                    0 <= g < freq && 0 <= b < NUM_DL_BUCKETS ==> #[trigger] table@[g
                        * NUM_DL_BUCKETS + b] == lut_entry::<A>(avgdl, dl_scale, g, b),
            decreases MAX_FREQ_LUT - freq,
        {
            let f: Single = A::of_int(freq as u64);
            let mut bucket: usize = 0;
            while bucket < NUM_DL_BUCKETS
                invariant
                    lawful::<A>(),
                    freq < MAX_FREQ_LUT,
                    bucket <= NUM_DL_BUCKETS,
                    f == A::of_int_spec(freq as u64),
                    b_over_avgdl == A::over_spec(B, avgdl),
                    k1_one_minus_b == A::times_spec(K1, A::minus_spec(ONE, B)),
                    k1_plus_1 == A::plus_spec(K1, ONE),
                    table.len() == freq * NUM_DL_BUCKETS + bucket,
                    forall|g: int, b: int|
                        0 <= g < freq && 0 <= b < NUM_DL_BUCKETS ==> #[trigger] table@[g
                            * NUM_DL_BUCKETS + b] == lut_entry::<A>(avgdl, dl_scale, g, b),
                    forall|b: int|
                        0 <= b < bucket ==> #[trigger] table@[freq * NUM_DL_BUCKETS + b]
                            == lut_entry::<A>(avgdl, dl_scale, freq as int, b),
                decreases NUM_DL_BUCKETS - bucket,
            {
                let dl: Single = A::over(A::of_int(bucket as u64), dl_scale);
                let norm: Single = A::plus(
                    k1_one_minus_b,
                    A::times(A::times(K1, b_over_avgdl), dl),
                );
                let entry: Single = A::over(A::times(k1_plus_1, f), A::plus(f, norm));
                table.push(entry);
                bucket = bucket + 1;
            }
            freq = freq + 1;
        }
        let lut = ScoreLookupTable { table, dl_scale, num_dl_buckets: NUM_DL_BUCKETS, avgdl };
        assert forall|g: int, b: int|
            0 <= g < MAX_FREQ_LUT && 0 <= b < NUM_DL_BUCKETS implies #[trigger] lut@.entry(g, b)
            == lut_entry::<A>(avgdl, dl_scale, g, b) by {
            assert(lut@.entry(g, b) == table@[g * NUM_DL_BUCKETS + b]);
        }
        lut
    }

    /// The score that a term of weight `query_weight` adds to a document of `doc_tokens`
    /// tokens in which it occurs `freq` times.
    pub fn score<A: SingleArithmetic>(
        &self,
        freq: u32,
        doc_tokens: u32,
        query_weight: Single,
    ) -> (score: Single)
        requires
            self.wf(),
            lawful::<A>(),
        ensures
            score == self@.score::<A>(freq, doc_tokens, query_weight),
    {
        if (freq as usize) < MAX_FREQ_LUT {
            let unclamped: usize = A::to_usize(A::times(A::of_int(doc_tokens as u64), self.dl_scale));
            let bucket: usize = if unclamped < self.num_dl_buckets - 1 {
                unclamped
            } else {
                self.num_dl_buckets - 1
            };
            let tf: Single = self.table[freq as usize * self.num_dl_buckets + bucket];
            A::times(query_weight, tf)
        } else {
            let f: Single = A::of_int(freq as u64);
            let norm: Single = A::times(
                K1,
                A::plus(
                    A::minus(ONE, B),
                    A::over(A::times(B, A::of_int(doc_tokens as u64)), self.avgdl),
                ),
            );
            A::over(
                A::times(A::times(query_weight, A::plus(K1, ONE)), f),
                A::plus(f, norm),
            )
        }
    }
}

/// The table entry for frequency `freq` and bucket `bucket`.
spec fn lut_entry<A: SingleArithmetic>(
    avgdl: Single,
    dl_scale: Single,
    freq: int,
    bucket: int,
) -> Single {
    tf_score::<A>(
        A::of_int_spec(freq as u64),
        doc_norm::<A>(
            A::over_spec(B, avgdl),
            A::over_spec(A::of_int_spec(bucket as u64), dl_scale),
        ),
    )
}

/// The greatest of `num_tokens`, 1 if there is none.
fn longest_of(num_tokens: &[u32]) -> (m: u32)
    ensures
        m == (if num_tokens@.len() == 0 {
            1
        } else {
            longest(num_tokens@)
        }),
{
    if num_tokens.len() == 0 {
        return 1;
    }
    let mut m: u32 = 0;
    let mut i: usize = 0;
    while i < num_tokens.len()
        invariant
            i <= num_tokens@.len(),
            m == longest(num_tokens@.take(i as int)),
        decreases num_tokens@.len() - i,
    {
        assert(num_tokens@.take(i + 1).drop_last() =~= num_tokens@.take(i as int));
        if m < num_tokens[i] {
            m = num_tokens[i];
        }
        i = i + 1;
    }
    assert(num_tokens@.take(i as int) =~= num_tokens@);
    m
}

/// The norm of each document.
pub open spec fn doc_norms<A: SingleArithmetic>(docs: DocSetView) -> Seq<Single> {
    Seq::new(
        docs.num_tokens.len(),
        |i: int|
            doc_norm::<A>(
                A::over_spec(B, docs.average_length::<A>()),
                A::of_int_spec(docs.num_tokens[i] as u64),
            ),
    )
}

/// Precomputed BM25 document normalization factors: for each document
/// K1 * (1 - B + B * dl / avgdl).
///
/// They depend on the length of a document only, and are the same for all terms.
pub struct PrecomputedDocNorms {
    norms: Vec<Single>,
}

impl View for PrecomputedDocNorms {
    type V = Seq<Single>;

    closed spec fn view(&self) -> Seq<Single> {
        self.norms@
    }
}

impl PrecomputedDocNorms {
    /// The factors of the documents `docs`.
    pub fn new<A: SingleArithmetic>(docs: &DocSet) -> (norms: PrecomputedDocNorms)
        requires
            docs.wf(),
            lawful::<A>(),
        ensures
            norms@ == doc_norms::<A>(docs@),
    {
        let avgdl: Single = docs.average_length::<A>();
        let b_over_avgdl: Single = A::over(B, avgdl);
        let k1_times_one_minus_b: Single = A::times(K1, A::minus(ONE, B));
        let num_tokens: &[u32] = docs.num_tokens_slice();
        let mut norms: Vec<Single> = Vec::with_capacity(num_tokens.len());
        let mut i: usize = 0;
        while i < num_tokens.len()
            invariant
                lawful::<A>(),
                i <= num_tokens@.len(),
                norms.len() == i,
                b_over_avgdl == A::over_spec(B, avgdl),
                k1_times_one_minus_b == A::times_spec(K1, A::minus_spec(ONE, B)),
                forall|j: int|
                    0 <= j < i ==> #[trigger] norms@[j] == doc_norm::<A>(
                        A::over_spec(B, avgdl),
                        A::of_int_spec(num_tokens@[j] as u64),
                    ),
            decreases num_tokens@.len() - i,
        {
            let dl: Single = A::of_int(num_tokens[i] as u64);
            let norm: Single = A::plus(
                k1_times_one_minus_b,
                A::times(A::times(K1, b_over_avgdl), dl),
            );
            norms.push(norm);
            i = i + 1;
        }
        PrecomputedDocNorms { norms }
    }

    /// The factor of document `doc_id`.
    pub fn get(&self, doc_id: u32) -> (norm: Single)
        requires
            doc_id < self@.len(),
        ensures
            norm == self@[doc_id as int],
    {
        self.norms[doc_id as usize]
    }
}

} // verus!
