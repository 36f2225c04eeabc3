//! How scores follow the lengths of documents, where rounding keeps the order of numbers.
use vstd::prelude::*;

use crate::docs::DocSetView;
use crate::formula::{doc_norm, longest, LookupView, MAX_FREQ_LUT, NUM_DL_BUCKETS};
use crate::single::{greater_of, is_nan, less, Single, SingleArithmetic};
use crate::single::{B, INFINITY, K1, ONE, ZERO};

verus! {

/// Whether `a` is a number of positive sign, perhaps infinite.
pub open spec fn is_count(a: Single) -> bool {
    a <= INFINITY
}

/// Whether the operations of `A` take numbers of positive sign to such numbers or to what
/// is not a number, hand on what is not a number, and keep the order of numbers: as the
/// rounding of IEEE 754 does.
pub open spec fn rounds_in_order<A: SingleArithmetic>() -> bool {
    &&& sums_in_order::<A>()
    &&& products_in_order::<A>()
    &&& quotients_in_order::<A>()
    &&& forall|n: u64| #[trigger] A::of_int_spec(n) < INFINITY
    &&& forall|m: u64, n: u64|
        m <= n ==> #[trigger] A::of_int_spec(m) <= #[trigger] A::of_int_spec(n)
    &&& A::of_int_spec(0) == ZERO
    &&& forall|a: Single, b: Single|
        a <= b && is_count(b) ==> #[trigger] A::to_usize_spec(a) <= #[trigger] A::to_usize_spec(b)
    &&& is_count(A::minus_spec(ONE, B))
}

/// What [`rounds_in_order`] says of sums.
pub open spec fn sums_in_order<A: SingleArithmetic>() -> bool {
    &&& forall|a: Single, b: Single|
        is_nan(a) || is_nan(b) ==> is_nan(#[trigger] A::plus_spec(a, b))
    &&& forall|a: Single, b: Single|
        is_count(a) && is_count(b) ==> a <= #[trigger] A::plus_spec(a, b) <= INFINITY
    &&& forall|a: Single, b: Single, c: Single|
        #![trigger A::plus_spec(a, b), A::plus_spec(a, c)]
        is_count(a) && b <= c && is_count(c) ==> A::plus_spec(a, b) <= A::plus_spec(a, c)
}

/// What [`rounds_in_order`] says of products.
pub open spec fn products_in_order<A: SingleArithmetic>() -> bool {
    &&& forall|a: Single, b: Single|
        is_nan(a) || is_nan(b) ==> is_nan(#[trigger] A::times_spec(a, b))
    &&& forall|a: Single, b: Single|
        is_count(a) && is_count(b) ==> is_count(#[trigger] A::times_spec(a, b)) || is_nan(
            A::times_spec(a, b),
        )
    &&& forall|a: Single, b: Single|
        a < INFINITY && b < INFINITY ==> is_count(#[trigger] A::times_spec(a, b))
    &&& forall|a: Single|
        is_count(a) ==> #[trigger] A::times_spec(a, ZERO) == ZERO || is_nan(
            A::times_spec(a, ZERO),
        )
    &&& forall|a: Single, b: Single, c: Single|
        #![trigger A::times_spec(a, b), A::times_spec(a, c)]
        is_count(a) && b <= c && is_count(c) && !is_nan(A::times_spec(a, b)) && !is_nan(
            A::times_spec(a, c),
        ) ==> A::times_spec(a, b) <= A::times_spec(a, c)
    &&& forall|a: Single, b: Single, c: Single|
        #![trigger A::times_spec(b, a), A::times_spec(c, a)]
        is_count(a) && b <= c && is_count(c) && !is_nan(A::times_spec(b, a)) && !is_nan(
            A::times_spec(c, a),
        ) ==> A::times_spec(b, a) <= A::times_spec(c, a)
}

/// What [`rounds_in_order`] says of quotients.
pub open spec fn quotients_in_order<A: SingleArithmetic>() -> bool {
    &&& forall|a: Single, b: Single|
        is_nan(a) || is_nan(b) ==> is_nan(#[trigger] A::over_spec(a, b))
    &&& forall|a: Single, b: Single|
        is_count(a) && is_count(b) ==> is_count(#[trigger] A::over_spec(a, b)) || is_nan(
            A::over_spec(a, b),
        )
    &&& forall|a: Single, b: Single|
        a < INFINITY && ZERO < b && is_count(b) ==> is_count(#[trigger] A::over_spec(a, b))
    &&& forall|a: Single| is_count(a) ==> #[trigger] A::over_spec(a, ONE) == a
    &&& forall|b: Single|
        is_count(b) ==> #[trigger] A::over_spec(ZERO, b) == ZERO || is_nan(A::over_spec(ZERO, b))
    &&& forall|a: Single, b: Single, c: Single|
        #![trigger A::over_spec(b, a), A::over_spec(c, a)]
        is_count(a) && b <= c && is_count(c) && !is_nan(A::over_spec(b, a)) && !is_nan(
            A::over_spec(c, a),
        ) ==> A::over_spec(b, a) <= A::over_spec(c, a)
    &&& forall|a: Single, b: Single, c: Single|
        #![trigger A::over_spec(a, b), A::over_spec(a, c)]
        is_count(a) && b <= c && is_count(c) && !is_nan(A::over_spec(a, b)) && !is_nan(
            A::over_spec(a, c),
        ) ==> A::over_spec(a, c) <= A::over_spec(a, b)
}

/// Whether `a` is a number of positive sign or not a number.
spec fn is_unsigned(a: Single) -> bool {
    is_count(a) || is_nan(a)
}

/// The norm of a longer document is not the smaller one, and no norm is below what a
/// document without length has.
pub proof fn longer_documents_have_greater_norms<A: SingleArithmetic>(
    docs: DocSetView,
    shorter: u32,
    longer: u32,
)
    requires
        rounds_in_order::<A>(),
        shorter <= longer,
    ensures
        ({
            let b_over_avgdl = A::over_spec(B, docs.average_length::<A>());
            let norm = doc_norm::<A>(b_over_avgdl, A::of_int_spec(shorter as u64));
            &&& !less(doc_norm::<A>(b_over_avgdl, A::of_int_spec(longer as u64)), norm)
            &&& !less(norm, A::times_spec(K1, A::minus_spec(ONE, B)))
        }),
{
    let b_over_avgdl = A::over_spec(B, docs.average_length::<A>());
    assert(is_unsigned(docs.average_length::<A>()));
    assert(is_unsigned(b_over_avgdl));
    let m = A::of_int_spec(shorter as u64);
    let n = A::of_int_spec(longer as u64);
    lemma_norms_in_order::<A>(b_over_avgdl, m, n);
    lemma_norms_in_order::<A>(b_over_avgdl, m, m);
}

proof fn lemma_norms_in_order<A: SingleArithmetic>(b_over_avgdl: Single, m: Single, n: Single)
    requires
        rounds_in_order::<A>(),
        is_unsigned(b_over_avgdl),
        is_count(m) && is_count(n) && m <= n,
    ensures
        is_unsigned(doc_norm::<A>(b_over_avgdl, m)),
        is_unsigned(doc_norm::<A>(b_over_avgdl, n)),
        !less(doc_norm::<A>(b_over_avgdl, n), doc_norm::<A>(b_over_avgdl, m)),
        !less(doc_norm::<A>(b_over_avgdl, m), A::times_spec(K1, A::minus_spec(ONE, B))),
{
    let base = A::times_spec(K1, A::minus_spec(ONE, B));
    let slope = A::times_spec(K1, b_over_avgdl);
    assert(is_unsigned(base));
    assert(is_unsigned(slope));
    let x = A::times_spec(slope, m);
    let y = A::times_spec(slope, n);
    assert(is_unsigned(x) && is_unsigned(y));
    let p = A::plus_spec(base, x);
    let q = A::plus_spec(base, y);
    assert(p == doc_norm::<A>(b_over_avgdl, m));
    assert(q == doc_norm::<A>(b_over_avgdl, n));
}

/// Dividing by the sum with a greater norm gives no more.
proof fn lemma_quotients_in_order<A: SingleArithmetic>(
    top: Single,
    f: Single,
    norm: Single,
    greater: Single,
)
    requires
        rounds_in_order::<A>(),
        is_unsigned(top) && is_unsigned(norm) && is_unsigned(greater),
        is_count(f),
        !less(greater, norm),
    ensures
        is_unsigned(A::over_spec(top, A::plus_spec(f, norm))),
        is_unsigned(A::over_spec(top, A::plus_spec(f, greater))),
        !less(
            A::over_spec(top, A::plus_spec(f, norm)),
            A::over_spec(top, A::plus_spec(f, greater)),
        ),
{
    let p = A::plus_spec(f, norm);
    let q = A::plus_spec(f, greater);
    assert(is_unsigned(p) && is_unsigned(q));
    let x = A::over_spec(top, p);
    let y = A::over_spec(top, q);
    assert(is_unsigned(x) && is_unsigned(y));
}

/// In the lookup table the entry of a bucket of longer documents is not the greater one.
pub proof fn entries_fall_with_the_length<A: SingleArithmetic>(
    lut: LookupView,
    docs: DocSetView,
    freq: int,
    shorter: int,
    longer: int,
)
    requires
        rounds_in_order::<A>(),
        lut.is_of::<A>(docs),
        0 <= freq < MAX_FREQ_LUT,
        0 <= shorter <= longer < NUM_DL_BUCKETS,
    ensures
        !less(lut.entry(freq, shorter), lut.entry(freq, longer)),
{
    lemma_entries::<A>(lut, docs, freq, shorter, longer);
}

proof fn lemma_scale<A: SingleArithmetic>(lut: LookupView, docs: DocSetView)
    requires
        rounds_in_order::<A>(),
        lut.is_of::<A>(docs),
    ensures
        lut.dl_scale < INFINITY,
        is_unsigned(lut.avgdl),
{
    let top = A::of_int_spec((NUM_DL_BUCKETS - 1) as u64);
    let max_dl = if docs.num_tokens.len() == 0 {
        1
    } else {
        longest(docs.num_tokens)
    };
    let bottom = greater_of(A::of_int_spec(max_dl as u64), ONE);
    assert(A::of_int_spec(max_dl as u64) < INFINITY);
    assert(ONE <= bottom < INFINITY);
    assert(lut.dl_scale == A::over_spec(top, bottom));
    assert(A::over_spec(top, ONE) == top);
    assert(A::over_spec(top, bottom) <= A::over_spec(top, ONE));
}

proof fn lemma_entries<A: SingleArithmetic>(
    lut: LookupView,
    docs: DocSetView,
    freq: int,
    shorter: int,
    longer: int,
)
    requires
        rounds_in_order::<A>(),
        lut.is_of::<A>(docs),
        0 <= freq < MAX_FREQ_LUT,
        0 <= shorter <= longer < NUM_DL_BUCKETS,
    ensures
        is_unsigned(lut.entry(freq, shorter)),
        is_unsigned(lut.entry(freq, longer)),
        !less(lut.entry(freq, shorter), lut.entry(freq, longer)),
{
    lemma_scale::<A>(lut, docs);
    let f = A::of_int_spec(freq as u64);
    let b_over_avgdl = A::over_spec(B, lut.avgdl);
    let m = A::over_spec(A::of_int_spec(shorter as u64), lut.dl_scale);
    let n = A::over_spec(A::of_int_spec(longer as u64), lut.dl_scale);
    let k1_plus_1 = A::plus_spec(K1, ONE);
    let top = A::times_spec(k1_plus_1, f);
    assert(is_unsigned(b_over_avgdl) && is_unsigned(m) && is_unsigned(n) && is_unsigned(top));
    let p = doc_norm::<A>(b_over_avgdl, m);
    let q = doc_norm::<A>(b_over_avgdl, n);
    if !is_nan(m) && !is_nan(n) {
        lemma_norms_in_order::<A>(b_over_avgdl, m, n);
    } else {
        lemma_norm_unsigned::<A>(b_over_avgdl, m);
        lemma_norm_unsigned::<A>(b_over_avgdl, n);
        assert(is_nan(p) || is_nan(q));
    }
    lemma_quotients_in_order::<A>(top, f, p, q);
}

proof fn lemma_norm_unsigned<A: SingleArithmetic>(b_over_avgdl: Single, m: Single)
    requires
        rounds_in_order::<A>(),
        is_unsigned(b_over_avgdl),
        is_unsigned(m),
    ensures
        is_unsigned(doc_norm::<A>(b_over_avgdl, m)),
        is_nan(m) ==> is_nan(doc_norm::<A>(b_over_avgdl, m)),
{
    let base = A::times_spec(K1, A::minus_spec(ONE, B));
    let slope = A::times_spec(K1, b_over_avgdl);
    assert(is_unsigned(base));
    assert(is_unsigned(slope));
    let x = A::times_spec(slope, m);
    assert(is_unsigned(x));
    assert(doc_norm::<A>(b_over_avgdl, m) == A::plus_spec(base, x));
}

/// A term adds no more to a longer document than to a shorter one in which it occurs as
/// often.
pub proof fn longer_documents_score_no_higher<A: SingleArithmetic>(
    lut: LookupView,
    docs: DocSetView,
    freq: u32,
    shorter: u32,
    longer: u32,
    query_weight: Single,
)
    requires
        rounds_in_order::<A>(),
        lut.is_of::<A>(docs),
        is_count(query_weight),
        shorter <= longer,
    ensures
        !less(
            lut.score::<A>(freq, shorter, query_weight),
            lut.score::<A>(freq, longer, query_weight),
        ),
{
    lemma_scale::<A>(lut, docs);
    let m = A::of_int_spec(shorter as u64);
    let n = A::of_int_spec(longer as u64);
    assert(m <= n < INFINITY);
    if freq < MAX_FREQ_LUT {
        let p = A::times_spec(m, lut.dl_scale);
        let q = A::times_spec(n, lut.dl_scale);
        assert(p <= q && is_count(q));
        assert(A::to_usize_spec(p) <= A::to_usize_spec(q));
        let first = lut.bucket::<A>(shorter);
        let second = lut.bucket::<A>(longer);
        assert(first <= second);
        lemma_entries::<A>(lut, docs, freq as int, first, second);
        let e = lut.entry(freq as int, first);
        let g = lut.entry(freq as int, second);
        let x = A::times_spec(query_weight, e);
        let y = A::times_spec(query_weight, g);
        assert(lut.score::<A>(freq, shorter, query_weight) == x);
        assert(lut.score::<A>(freq, longer, query_weight) == y);
        assert(is_unsigned(x) && is_unsigned(y));
    } else {
        let f = A::of_int_spec(freq as u64);
        let p = lemma_direct_norm::<A>(lut, m, n);
        let q = direct_norm::<A>(lut, n);
        let weight = A::times_spec(query_weight, A::plus_spec(K1, ONE));
        assert(is_unsigned(weight));
        let top = A::times_spec(weight, f);
        assert(is_unsigned(top));
        lemma_quotients_in_order::<A>(top, f, p, q);
    }
}

/// K1 * (1 - B + B * dl / avgdl), the norm that the formula uses for a length `dl`.
spec fn direct_norm<A: SingleArithmetic>(lut: LookupView, dl: Single) -> Single {
    A::times_spec(
        K1,
        A::plus_spec(A::minus_spec(ONE, B), A::over_spec(A::times_spec(B, dl), lut.avgdl)),
    )
}

proof fn lemma_direct_norm<A: SingleArithmetic>(lut: LookupView, m: Single, n: Single) -> (p: Single)
    requires
        rounds_in_order::<A>(),
        is_unsigned(lut.avgdl),
        m <= n < INFINITY,
    ensures
        p == direct_norm::<A>(lut, m),
        is_unsigned(p),
        is_unsigned(direct_norm::<A>(lut, n)),
        !less(direct_norm::<A>(lut, n), p),
{
    let base = A::minus_spec(ONE, B);
    let x = A::times_spec(B, m);
    let y = A::times_spec(B, n);
    assert(x <= y && is_count(y));
    let s = A::over_spec(x, lut.avgdl);
    let t = A::over_spec(y, lut.avgdl);
    assert(is_unsigned(s) && is_unsigned(t));
    let u = A::plus_spec(base, s);
    let v = A::plus_spec(base, t);
    assert(is_unsigned(u) && is_unsigned(v));
    let p = A::times_spec(K1, u);
    let q = A::times_spec(K1, v);
    assert(is_unsigned(p) && is_unsigned(q));
    p
}

/// A term that does not occur adds nothing, where what it adds is a number.
pub proof fn absent_terms_add_nothing<A: SingleArithmetic>(
    lut: LookupView,
    docs: DocSetView,
    doc_tokens: u32,
    query_weight: Single,
)
    requires
        rounds_in_order::<A>(),
        lut.is_of::<A>(docs),
        is_count(query_weight),
    ensures
        ({
            let score = lut.score::<A>(0, doc_tokens, query_weight);
            score == ZERO || is_nan(score)
        }),
{
    let bucket = lut.bucket::<A>(doc_tokens);
    lemma_scale::<A>(lut, docs);
    lemma_entries::<A>(lut, docs, 0, bucket, bucket);
    let f = A::of_int_spec(0int as u64);
    assert(f == ZERO);
    let k1_plus_1 = A::plus_spec(K1, ONE);
    let top = A::times_spec(k1_plus_1, ZERO);
    let norm = doc_norm::<A>(
        A::over_spec(B, lut.avgdl),
        A::over_spec(A::of_int_spec(bucket as u64), lut.dl_scale),
    );
    let bottom = A::plus_spec(ZERO, norm);
    let entry = A::over_spec(top, bottom);
    assert(entry == lut.entry(0, bucket));
    if !is_nan(entry) {
        assert(!is_nan(top) && !is_nan(bottom));
        assert(top == ZERO);
        assert(is_unsigned(A::over_spec(B, lut.avgdl)));
        assert(is_unsigned(A::over_spec(A::of_int_spec(bucket as u64), lut.dl_scale)));
        lemma_norm_unsigned::<A>(
            A::over_spec(B, lut.avgdl),
            A::over_spec(A::of_int_spec(bucket as u64), lut.dl_scale),
        );
        assert(is_count(bottom));
        assert(entry == ZERO);
    }
}

} // verus!
