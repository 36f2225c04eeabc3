//! What scores are worth: the BM25 formula over real numbers, up to a few roundings.
use vstd::prelude::*;

use crate::accumulator::block_score;
use crate::data_laws::longest_is_the_greatest_length;
use crate::docs::{token_sum, DocSetView};
use crate::formula::{bucket_scale, doc_norm, doc_norms, longest, tf_score, LookupView};
use crate::single::{greater_of, less, Single, SingleArithmetic, B, K1, ONE};
use crate::values::{constants_have_their_values, is_finite, is_precise, near, value};
use crate::values::{factor, lemma_factor_bound, lemma_near_itself, lemma_near_weaken, vast};
use crate::values::{lemma_over, lemma_plus, lemma_times, lemma_value_order, lemma_value_sign};

verus! {

/// The BM25 score of a term of weight `w` that occurs `f` times in a document of length
/// `dl`, where the mean length is `avg`.
pub open spec fn bm25(w: real, f: real, dl: real, avg: real) -> real {
    w * ((value(K1) + 1 as real) * f / (f + length_norm(dl, avg)))
}

/// How far the length `dl` damps a score, where the mean length is `avg`.
pub open spec fn length_norm(dl: real, avg: real) -> real {
    value(K1) * (1 as real - value(B) + value(B) * dl / avg)
}

/// The mean length of the documents.
pub open spec fn mean_length(docs: DocSetView) -> real {
    token_sum(docs.num_tokens) as real / docs.num_tokens.len() as real
}

/// Whether there are documents, as many as ids can tell apart, and they hold a token.
pub open spec fn has_tokens(docs: DocSetView) -> bool {
    &&& 0 < docs.num_tokens.len() <= 0x1_0000_0000
    &&& 0 < token_sum(docs.num_tokens) <= u64::MAX
}

/// Whether a weight is a number between 2^-20 and 2^20.
pub open spec fn is_ordinary(w: Single) -> bool {
    is_finite(w) && 1 as real / 1048576 as real <= value(w) <= 1048576 as real
}

/// The longest length, at least 1.
pub open spec fn greatest_length(docs: DocSetView) -> real {
    if longest(docs.num_tokens) == 0 {
        1 as real
    } else {
        longest(docs.num_tokens) as real
    }
}

proof fn lemma_quotient_within(x: real, y: real, a: real, b: real, c: real, d: real)
    requires
        0 as real <= a <= x <= b,
        (0 as real) < c <= y <= d,
    ensures
        a / d <= x / y <= b / c,
{
    assert(a / d <= x / y) by (nonlinear_arith)
        requires
            0 as real <= a <= x,
            (0 as real) < y <= d,
    ;
    assert(x / y <= b / c) by (nonlinear_arith)
        requires
            0 as real <= x <= b,
            (0 as real) < c <= y,
    ;
}

proof fn lemma_product_within(x: real, y: real, a: real, b: real, c: real, d: real)
    requires
        0 as real <= a <= x <= b,
        0 as real <= c <= y <= d,
    ensures
        a * c <= x * y <= b * d,
{
    assert(a * c <= x * y && x * y <= b * d) by (nonlinear_arith)
        requires
            0 as real <= a <= x <= b,
            0 as real <= c <= y <= d,
    ;
}

/// The mean length comes out right, up to three roundings.
pub proof fn average_length_is_the_mean<A: SingleArithmetic>(docs: DocSetView)
    requires
        is_precise::<A>(),
        has_tokens(docs),
    ensures
        is_finite(docs.average_length::<A>()),
        near(value(docs.average_length::<A>()), mean_length(docs), 3),
        1 as real / 4294967296 as real <= mean_length(docs) <= 18446744073709551616 as real,
{
    let t = token_sum(docs.num_tokens);
    let n = docs.num_tokens.len();
    let a = A::of_int_spec(t as u64);
    let b = A::of_int_spec(n as u64);
    assert(near(value(a), t as real, 1));
    assert(near(value(b), n as real, 1));
    lemma_quotient_within(
        t as real,
        n as real,
        1 as real,
        18446744073709551616 as real,
        1 as real,
        4294967296 as real,
    );
    lemma_over::<A>(a, b, t as real, 1, n as real, 1);
}

/// The norm of a length that is known up to `n` roundings.
proof fn lemma_doc_norm<A: SingleArithmetic>(docs: DocSetView, dl: Single, dx: real, n: nat)
    requires
        is_precise::<A>(),
        has_tokens(docs),
        is_finite(dl),
        near(value(dl), dx, n),
        n <= 10,
        dx == 0 as real || 1 as real / 256 as real <= dx <= 8589934592 as real,
    ensures
        ({
            let norm = doc_norm::<A>(A::over_spec(B, docs.average_length::<A>()), dl);
            &&& is_finite(norm)
            &&& near(value(norm), length_norm(dx, mean_length(docs)), n + 7)
        }),
        1 as real / 4 as real <= length_norm(dx, mean_length(docs))
            <= 1180591620717411303424 as real * 8 as real,
{
    constants_have_their_values();
    average_length_is_the_mean::<A>(docs);
    let avg = docs.average_length::<A>();
    let av = mean_length(docs);
    let k = value(K1);
    let quarter = 1 as real / 4 as real;
    let b = value(B);
    lemma_near_itself(value(B));
    lemma_near_itself(value(K1));
    lemma_near_itself(value(ONE));
    // B / avgdl
    let bx = b / av;
    lemma_quotient_within(
        b,
        av,
        b,
        b,
        1 as real / 4294967296 as real,
        18446744073709551616 as real,
    );
    lemma_over::<A>(B, avg, b, 0, av, 3);
    let b_over = A::over_spec(B, avg);
    // K1 * (1 - B)
    let rest = A::minus_spec(ONE, B);
    assert(value(ONE) - value(B) == quarter);
    assert(is_finite(rest) && near(value(rest), quarter, 1));
    lemma_product_within(k, quarter, k, k, quarter, quarter);
    lemma_times::<A>(K1, rest, k, 0, quarter, 1);
    let base = A::times_spec(K1, rest);
    // K1 * B / avgdl
    lemma_product_within(
        k,
        bx,
        1 as real,
        2 as real,
        b / 18446744073709551616 as real,
        b / (1 as real / 4294967296 as real),
    );
    lemma_times::<A>(K1, b_over, k, 0, bx, 4);
    let slope = A::times_spec(K1, b_over);
    // times the length
    let y = k * bx;
    let lo = b / 18446744073709551616 as real;
    let hi = 2 as real * (b / (1 as real / 4294967296 as real));
    assert(lo <= y <= hi);
    if dx == 0 as real {
        assert(y * dx == 0 as real) by (nonlinear_arith)
            requires
                dx == 0 as real,
        ;
    } else {
        lemma_product_within(y, dx, lo, hi, 1 as real / 256 as real, 8589934592 as real);
        assert(lo * (1 as real / 256 as real) >= 4 as real / vast());
    }
    lemma_times::<A>(slope, dl, y, 5, dx, n);
    let damp = A::times_spec(slope, dl);
    lemma_value_sign(base);
    lemma_near_weaken(value(base), k * quarter, 2, n + 6);
    lemma_plus::<A>(base, damp, k * quarter, y * dx, n + 6);
    assert(k * quarter + (k * (b / av)) * dx == k * (quarter + b * dx / av)) by (nonlinear_arith)
        requires
            av > 0 as real,
    ;
}

/// The norm of a document is K1 * (1 - B + B * dl / avgdl) for its own length dl, up to
/// eight roundings.
pub proof fn norms_follow_the_formula<A: SingleArithmetic>(docs: DocSetView, d: int)
    requires
        is_precise::<A>(),
        has_tokens(docs),
        0 <= d < docs.num_tokens.len(),
    ensures
        doc_norms::<A>(docs).len() == docs.num_tokens.len(),
        is_finite(doc_norms::<A>(docs)[d]),
        near(
            value(doc_norms::<A>(docs)[d]),
            length_norm(docs.num_tokens[d] as real, mean_length(docs)),
            8,
        ),
{
    let dl = docs.num_tokens[d];
    lemma_doc_norm::<A>(docs, A::of_int_spec(dl as u64), dl as real, 1);
}

/// (K1 + 1) * f / (f + norm) for a norm that is known up to `m` roundings.
proof fn lemma_tf<A: SingleArithmetic>(freq: u32, norm: Single, nx: real, m: nat)
    requires
        is_precise::<A>(),
        is_finite(norm),
        1 <= m <= 100,
        near(value(norm), nx, m),
        1 as real / 8 as real <= nx <= 1180591620717411303424 as real * 16 as real,
    ensures
        ({
            let tf = tf_score::<A>(A::of_int_spec(freq as u64), norm);
            let x = (value(K1) + 1 as real) * freq as real / (freq as real + nx);
            &&& is_finite(tf)
            &&& near(value(tf), x, m + 5)
            &&& 0 as real <= x <= 3 as real
            &&& freq > 0 ==> x >= 1 as real / (1180591620717411303424 as real * 32 as real)
        }),
{
    constants_have_their_values();
    let fx = freq as real;
    let f = A::of_int_spec(freq as u64);
    let k = value(K1) + 1 as real;
    lemma_near_itself(value(K1));
    lemma_near_itself(value(ONE));
    lemma_plus::<A>(K1, ONE, value(K1), 1 as real, 0);
    let k1_plus_1 = A::plus_spec(K1, ONE);
    if freq == 0 {
        assert(k * fx == 0 as real) by (nonlinear_arith)
            requires
                fx == 0 as real,
        ;
    } else {
        lemma_product_within(k, fx, 2 as real, 3 as real, 1 as real, 4294967296 as real);
    }
    lemma_times::<A>(k1_plus_1, f, k, 1, fx, 1);
    let top = A::times_spec(k1_plus_1, f);
    lemma_value_sign(f);
    lemma_near_weaken(value(f), fx, 1, m);
    lemma_plus::<A>(f, norm, fx, nx, m);
    let bottom = A::plus_spec(f, norm);
    let t = k * fx;
    let d = fx + nx;
    if freq == 0 {
        assert(t / d == 0 as real) by (nonlinear_arith)
            requires
                t == 0 as real,
                d > 0 as real,
        ;
    } else {
        assert(t / d <= k) by (nonlinear_arith)
            requires
                t == k * fx,
                d == fx + nx,
                fx > 0 as real,
                nx > 0 as real,
                k > 0 as real,
        ;
        lemma_quotient_within(
            t,
            d,
            2 as real,
            3 as real * 4294967296 as real,
            1 as real,
            1180591620717411303424 as real * 17 as real,
        );
    }
    lemma_over::<A>(top, bottom, t, 3, d, m + 1);
}

/// The scale of the buckets is 255 to the longest length, up to three roundings.
proof fn lemma_bucket_scale<A: SingleArithmetic>(docs: DocSetView)
    requires
        is_precise::<A>(),
        has_tokens(docs),
    ensures
        is_finite(bucket_scale::<A>(docs.num_tokens)),
        near(
            value(bucket_scale::<A>(docs.num_tokens)),
            255 as real / greatest_length(docs),
            3,
        ),
        1 as real <= greatest_length(docs) <= 4294967296 as real,
        255 as real / 4294967296 as real <= 255 as real / greatest_length(docs) <= 255 as real,
{
    constants_have_their_values();
    let l = longest(docs.num_tokens);
    let x = A::of_int_spec(l as u64);
    let g = greater_of(x, ONE);
    let gx = greatest_length(docs);
    lemma_value_order(x, ONE);
    lemma_value_sign(x);
    lemma_factor_bound(1);
    let f = factor(1);
    let v = value(x);
    assert(near(v, l as real, 1));
    if l == 0 {
        assert(v <= 0 as real) by (nonlinear_arith)
            requires
                v <= l as real * f,
                l as real == 0 as real,
        ;
        assert(g == ONE);
        lemma_near_itself(1 as real);
        lemma_near_weaken(1 as real, 1 as real, 0, 1);
    } else if x < ONE {
        assert(g == ONE);
        assert(v < 1 as real);
        assert(1 as real <= l as real * f && l as real <= 1 as real * f) by (nonlinear_arith)
            requires
                l as real >= 1 as real,
                l as real <= v * f,
                v < 1 as real,
                f >= 1 as real,
        ;
    } else {
        assert(g == x);
    }
    assert(is_finite(g) && near(value(g), gx, 1));
    let top = A::of_int_spec(255u64);
    assert(near(value(top), 255 as real, 1));
    lemma_quotient_within(
        255 as real,
        gx,
        255 as real,
        255 as real,
        1 as real,
        4294967296 as real,
    );
    lemma_over::<A>(top, g, 255 as real, 1, gx, 1);
}

/// The length at which a bucket of the lookup table starts.
pub open spec fn bucket_start(docs: DocSetView, bucket: int) -> real {
    bucket as real / (255 as real / greatest_length(docs))
}

/// An entry of the lookup table is the BM25 score, for weight 1, of its frequency in a
/// document of the length at which its bucket starts, up to 17 roundings.
pub proof fn entries_follow_the_formula<A: SingleArithmetic>(
    lut: LookupView,
    docs: DocSetView,
    freq: u32,
    bucket: int,
)
    requires
        is_precise::<A>(),
        has_tokens(docs),
        lut.is_of::<A>(docs),
        freq < 64,
        0 <= bucket < 256,
    ensures
        is_finite(lut.entry(freq as int, bucket)),
        near(
            value(lut.entry(freq as int, bucket)),
            (value(K1) + 1 as real) * freq as real / (freq as real + length_norm(
                bucket_start(docs, bucket),
                mean_length(docs),
            )),
            17,
        ),
        0 as real <= (value(K1) + 1 as real) * freq as real / (freq as real + length_norm(
            bucket_start(docs, bucket),
            mean_length(docs),
        )) <= 3 as real,
        freq > 0 ==> (value(K1) + 1 as real) * freq as real / (freq as real + length_norm(
            bucket_start(docs, bucket),
            mean_length(docs),
        )) >= 1 as real / (1180591620717411303424 as real * 32 as real),
{
    lemma_bucket_scale::<A>(docs);
    let scale = bucket_scale::<A>(docs.num_tokens);
    let sx = 255 as real / greatest_length(docs);
    let c = A::of_int_spec(bucket as u64);
    let dx = bucket_start(docs, bucket);
    let bx = bucket as real;
    if bucket == 0 {
        assert(bx / sx == 0 as real) by (nonlinear_arith)
            requires
                bx == 0 as real,
                sx > 0 as real,
        ;
    } else {
        lemma_quotient_within(
            bx,
            sx,
            1 as real,
            255 as real,
            255 as real / 4294967296 as real,
            255 as real,
        );
    }
    lemma_over::<A>(c, scale, bx, 1, sx, 3);
    let dl = A::over_spec(c, scale);
    lemma_doc_norm::<A>(docs, dl, dx, 5);
    let norm = doc_norm::<A>(A::over_spec(B, docs.average_length::<A>()), dl);
    lemma_tf::<A>(freq, norm, length_norm(dx, mean_length(docs)), 12);
    assert(lut.entry(freq as int, bucket) == tf_score::<A>(A::of_int_spec(freq as u64), norm));
}

/// A score from the lookup table is the BM25 score of a document of the length at which its
/// bucket starts, up to 18 roundings.
pub proof fn table_scores_follow_the_formula<A: SingleArithmetic>(
    lut: LookupView,
    docs: DocSetView,
    freq: u32,
    doc_tokens: u32,
    query_weight: Single,
)
    requires
        is_precise::<A>(),
        has_tokens(docs),
        lut.is_of::<A>(docs),
        is_ordinary(query_weight),
        freq < 64,
    ensures
        is_finite(lut.score::<A>(freq, doc_tokens, query_weight)),
        near(
            value(lut.score::<A>(freq, doc_tokens, query_weight)),
            bm25(
                value(query_weight),
                freq as real,
                bucket_start(docs, lut.bucket::<A>(doc_tokens)),
                mean_length(docs),
            ),
            18,
        ),
{
    let bucket = lut.bucket::<A>(doc_tokens);
    entries_follow_the_formula::<A>(lut, docs, freq, bucket);
    let entry = lut.entry(freq as int, bucket);
    let x = (value(K1) + 1 as real) * freq as real / (freq as real + length_norm(
        bucket_start(docs, bucket),
        mean_length(docs),
    ));
    let w = value(query_weight);
    lemma_near_itself(w);
    if freq == 0 {
        constants_have_their_values();
        let n = length_norm(bucket_start(docs, bucket), mean_length(docs));
        assert((value(K1) + 1 as real) * freq as real == 0 as real) by (nonlinear_arith)
            requires
                freq as real == 0 as real,
        ;
        lemma_zero_quotient::<A>(docs, bucket);
        assert(w * x == 0 as real) by (nonlinear_arith)
            requires
                x == 0 as real,
        ;
    } else {
        lemma_product_within(
            w,
            x,
            1 as real / 1048576 as real,
            1048576 as real,
            1 as real / (1180591620717411303424 as real * 32 as real),
            3 as real,
        );
    }
    lemma_times::<A>(query_weight, entry, w, 0, x, 17);
}

proof fn lemma_zero_quotient<A: SingleArithmetic>(docs: DocSetView, bucket: int)
    requires
        is_precise::<A>(),
        has_tokens(docs),
        0 <= bucket < 256,
    ensures
        0 as real / (0 as real + length_norm(bucket_start(docs, bucket), mean_length(docs)))
            == 0 as real,
{
    constants_have_their_values();
    average_length_is_the_mean::<A>(docs);
    lemma_bucket_scale::<A>(docs);
    let dx = bucket_start(docs, bucket);
    let sx = 255 as real / greatest_length(docs);
    let bx = bucket as real;
    assert(dx >= 0 as real) by (nonlinear_arith)
        requires
            dx == bx / sx,
            bx >= 0 as real,
            sx > 0 as real,
    ;
    lemma_norm_positive(dx, mean_length(docs));
    let n = length_norm(dx, mean_length(docs));
    assert(0 as real / n == 0 as real) by (nonlinear_arith)
        requires
            n > 0 as real,
    ;
}

/// No length damps a score by less than a quarter of K1.
pub proof fn lemma_norm_positive(dl: real, avg: real)
    requires
        dl >= 0 as real,
        avg > 0 as real,
    ensures
        length_norm(dl, avg) >= 1 as real / 4 as real,
{
    constants_have_their_values();
    let b = value(B);
    let k = value(K1);
    let r = b * dl / avg;
    assert(r >= 0 as real) by (nonlinear_arith)
        requires
            r == b * dl / avg,
            b > 0 as real,
            dl >= 0 as real,
            avg > 0 as real,
    ;
    assert(k * (1 as real - b + r) >= 1 as real / 4 as real) by (nonlinear_arith)
        requires
            k >= 1 as real,
            b == 3 as real / 4 as real,
            r >= 0 as real,
    ;
}

/// The bucket of a document is the one that its length falls into: the length lies between
/// the start of the bucket and the start of the next one, up to five roundings.
pub proof fn buckets_hold_their_lengths<A: SingleArithmetic>(
    lut: LookupView,
    docs: DocSetView,
    doc_tokens: u32,
)
    requires
        is_precise::<A>(),
        has_tokens(docs),
        lut.is_of::<A>(docs),
    ensures
        0 <= lut.bucket::<A>(doc_tokens) < 256,
        bucket_start(docs, lut.bucket::<A>(doc_tokens)) <= doc_tokens as real * factor(5),
        doc_tokens <= longest(docs.num_tokens) ==> doc_tokens as real <= bucket_start(
            docs,
            lut.bucket::<A>(doc_tokens) + 1,
        ) * factor(5),
{
    lemma_bucket_scale::<A>(docs);
    lemma_factor_bound(5);
    let f = factor(5);
    let scale = bucket_scale::<A>(docs.num_tokens);
    let gx = greatest_length(docs);
    let sx = 255 as real / gx;
    let d = A::of_int_spec(doc_tokens as u64);
    let dx = doc_tokens as real;
    if doc_tokens == 0 {
        assert(dx * sx == 0 as real) by (nonlinear_arith)
            requires
                dx == 0 as real,
        ;
    } else {
        lemma_product_within(
            dx,
            sx,
            1 as real,
            4294967296 as real,
            255 as real / 4294967296 as real,
            255 as real,
        );
    }
    lemma_times::<A>(d, scale, dx, 1, sx, 3);
    let p = A::times_spec(d, scale);
    let v = value(p);
    let n = A::to_usize_spec(p);
    let bucket = lut.bucket::<A>(doc_tokens);
    let bx = bucket as real;
    assert(bx <= v);
    assert(bx / sx <= dx * f) by (nonlinear_arith)
        requires
            bx <= v,
            v <= (dx * sx) * f,
            sx > 0 as real,
    ;
    if doc_tokens <= longest(docs.num_tokens) {
        let cx = (bucket + 1) as real;
        assert(cx == bx + 1 as real);
        if bucket == 255 {
            assert(dx <= gx);
            assert(dx <= (cx / sx) * f) by (nonlinear_arith)
                requires
                    cx == 256 as real,
                    sx == 255 as real / gx,
                    gx >= 1 as real,
                    dx <= gx,
                    f >= 1 as real,
            ;
        } else {
            assert(v < cx);
            assert(dx <= (cx / sx) * f) by (nonlinear_arith)
                requires
                    v < cx,
                    dx * sx <= v * f,
                    sx > 0 as real,
                    f >= 1 as real,
            ;
        }
    }
}

/// Every document of the set falls into the bucket that holds its length: no length is
/// beyond the last bucket.
pub proof fn documents_fall_into_their_buckets<A: SingleArithmetic>(
    lut: LookupView,
    docs: DocSetView,
    d: int,
)
    requires
        is_precise::<A>(),
        has_tokens(docs),
        lut.is_of::<A>(docs),
        0 <= d < docs.num_tokens.len(),
    ensures
        ({
            let bucket = lut.bucket::<A>(docs.num_tokens[d]);
            let dl = docs.num_tokens[d] as real;
            &&& 0 <= bucket < 256
            &&& bucket_start(docs, bucket) <= dl * factor(5)
            &&& dl <= bucket_start(docs, bucket + 1) * factor(5)
            &&& dl <= bucket_start(docs, 255)
        }),
{
    longest_is_the_greatest_length(docs.num_tokens);
    buckets_hold_their_lengths::<A>(lut, docs, docs.num_tokens[d]);
    lemma_bucket_scale::<A>(docs);
    let g = greatest_length(docs);
    assert(255 as real / (255 as real / g) == g) by (nonlinear_arith)
        requires
            g > 0 as real,
    ;
}

/// A score beyond the lookup table is the BM25 score of the document, up to 14 roundings.
pub proof fn direct_scores_follow_the_formula<A: SingleArithmetic>(
    lut: LookupView,
    docs: DocSetView,
    freq: u32,
    doc_tokens: u32,
    query_weight: Single,
)
    requires
        is_precise::<A>(),
        has_tokens(docs),
        lut.is_of::<A>(docs),
        is_ordinary(query_weight),
        freq >= 64,
    ensures
        is_finite(lut.score::<A>(freq, doc_tokens, query_weight)),
        near(
            value(lut.score::<A>(freq, doc_tokens, query_weight)),
            bm25(value(query_weight), freq as real, doc_tokens as real, mean_length(docs)),
            14,
        ),
{
    constants_have_their_values();
    average_length_is_the_mean::<A>(docs);
    let av = mean_length(docs);
    let k = value(K1);
    let b = value(B);
    let w = value(query_weight);
    let fx = freq as real;
    let dx = doc_tokens as real;
    let quarter = 1 as real / 4 as real;
    lemma_near_itself(b);
    lemma_near_itself(k);
    lemma_near_itself(w);
    lemma_near_itself(value(ONE));
    let d = A::of_int_spec(doc_tokens as u64);
    let f = A::of_int_spec(freq as u64);
    if doc_tokens == 0 {
        assert(b * dx == 0 as real) by (nonlinear_arith)
            requires
                dx == 0 as real,
        ;
        assert(b * dx / av == 0 as real) by (nonlinear_arith)
            requires
                b * dx == 0 as real,
                av > 0 as real,
        ;
    } else {
        lemma_product_within(b, dx, b, b, 1 as real, 4294967296 as real);
        lemma_quotient_within(
            b * dx,
            av,
            b,
            b * 4294967296 as real,
            1 as real / 4294967296 as real,
            18446744073709551616 as real,
        );
    }
    lemma_times::<A>(B, d, b, 0, dx, 1);
    let bd = A::times_spec(B, d);
    lemma_over::<A>(bd, lut.avgdl, b * dx, 2, av, 3);
    let r = A::over_spec(bd, lut.avgdl);
    let rx = b * dx / av;
    let rest = A::minus_spec(ONE, B);
    assert(value(ONE) - value(B) == quarter);
    assert(is_finite(rest) && near(value(rest), quarter, 1));
    lemma_value_sign(rest);
    lemma_near_weaken(value(rest), quarter, 1, 6);
    assert(0 as real <= rx <= 18446744073709551616 as real);
    lemma_plus::<A>(rest, r, quarter, rx, 6);
    let s = A::plus_spec(rest, r);
    let sx = quarter + rx;
    lemma_product_within(k, sx, 1 as real, 2 as real, quarter, 18446744073709551617 as real);
    lemma_times::<A>(K1, s, k, 0, sx, 7);
    let norm = A::times_spec(K1, s);
    let nx = k * sx;
    assert(nx == length_norm(dx, av));
    lemma_value_sign(f);
    lemma_near_weaken(value(f), fx, 1, 8);
    lemma_plus::<A>(f, norm, fx, nx, 8);
    let bottom = A::plus_spec(f, norm);
    lemma_plus::<A>(K1, ONE, k, 1 as real, 0);
    let k1_plus_1 = A::plus_spec(K1, ONE);
    let kx = k + 1 as real;
    lemma_product_within(
        w,
        kx,
        1 as real / 1048576 as real,
        1048576 as real,
        2 as real,
        3 as real,
    );
    lemma_times::<A>(query_weight, k1_plus_1, w, 0, kx, 1);
    let wk = A::times_spec(query_weight, k1_plus_1);
    lemma_product_within(
        w * kx,
        fx,
        2 as real / 1048576 as real,
        3 as real * 1048576 as real,
        64 as real,
        4294967296 as real,
    );
    lemma_times::<A>(wk, f, w * kx, 2, fx, 1);
    let top = A::times_spec(wk, f);
    let t = (w * kx) * fx;
    let e = fx + nx;
    lemma_quotient_within(
        t,
        e,
        64 as real * 2 as real / 1048576 as real,
        3 as real * 1048576 as real * 4294967296 as real,
        64 as real,
        73786976294838206464 as real,
    );
    lemma_over::<A>(top, bottom, t, 4, e, 9);
    assert((w * kx) * fx / e == w * (kx * fx / e)) by (nonlinear_arith)
        requires
            e > 0 as real,
    ;
}

/// A term that occurs more often scores higher, within the lookup table.
pub proof fn frequent_terms_score_higher<A: SingleArithmetic>(
    lut: LookupView,
    docs: DocSetView,
    freq: u32,
    more: u32,
    doc_tokens: u32,
    query_weight: Single,
)
    requires
        is_precise::<A>(),
        has_tokens(docs),
        lut.is_of::<A>(docs),
        is_ordinary(query_weight),
        freq < more < 64,
    ensures
        less(
            lut.score::<A>(freq, doc_tokens, query_weight),
            lut.score::<A>(more, doc_tokens, query_weight),
        ),
{
    let bucket = lut.bucket::<A>(doc_tokens);
    lemma_entry_of_norm::<A>(lut, docs, freq, bucket);
    lemma_entry_of_norm::<A>(lut, docs, more, bucket);
    let v = value(table_norm::<A>(lut, bucket));
    let k = value(K1) + 1 as real;
    let w = value(query_weight);
    let a = freq as real;
    let c = more as real;
    let x = k * a / (a + v);
    let y = k * c / (c + v);
    if freq == 0 {
        assert(k * a / (a + v) == 0 as real) by (nonlinear_arith)
            requires
                a == 0 as real,
                v > 0 as real,
        ;
    }
    lemma_weighted::<A>(query_weight, lut.entry(freq as int, bucket), freq, x);
    lemma_weighted::<A>(query_weight, lut.entry(more as int, bucket), more, y);
    let p = lut.score::<A>(freq, doc_tokens, query_weight);
    let q = lut.score::<A>(more, doc_tokens, query_weight);
    constants_have_their_values();
    lemma_tf_grows(k, a, c, v);
    lemma_factor_bound(7);
    let f = factor(7);
    // The roundings change less than the frequency does.
    assert(value(p) < value(q)) by (nonlinear_arith)
        requires
            value(p) <= (w * x) * f,
            w * y <= value(q) * f,
            w > 0 as real,
            x >= 0 as real,
            y > 0 as real,
            y >= x * (1 as real + 1 as real / 32768 as real),
            1 as real <= f <= 1 as real + 7 as real / 4194304 as real,
    ;
    lemma_value_order(p, q);
}

/// The norm that the entries of a bucket have in common.
spec fn table_norm<A: SingleArithmetic>(lut: LookupView, bucket: int) -> Single {
    doc_norm::<A>(
        A::over_spec(B, lut.avgdl),
        A::over_spec(A::of_int_spec(bucket as u64), lut.dl_scale),
    )
}

proof fn lemma_entry_of_norm<A: SingleArithmetic>(
    lut: LookupView,
    docs: DocSetView,
    freq: u32,
    bucket: int,
)
    requires
        is_precise::<A>(),
        has_tokens(docs),
        lut.is_of::<A>(docs),
        freq < 64,
        0 <= bucket < 256,
    ensures
        ({
            let v = value(table_norm::<A>(lut, bucket));
            let x = (value(K1) + 1 as real) * freq as real / (freq as real + v);
            &&& is_finite(lut.entry(freq as int, bucket))
            &&& near(value(lut.entry(freq as int, bucket)), x, 6)
            &&& v >= 1 as real / 8 as real
            &&& 0 as real <= x <= 3 as real
            &&& freq > 0 ==> x >= 1 as real / (1180591620717411303424 as real * 32 as real)
        }),
{
    lemma_bucket_scale::<A>(docs);
    let scale = bucket_scale::<A>(docs.num_tokens);
    let sx = 255 as real / greatest_length(docs);
    let c = A::of_int_spec(bucket as u64);
    let bx = bucket as real;
    if bucket == 0 {
        assert(bx / sx == 0 as real) by (nonlinear_arith)
            requires
                bx == 0 as real,
                sx > 0 as real,
        ;
    } else {
        lemma_quotient_within(
            bx,
            sx,
            1 as real,
            255 as real,
            255 as real / 4294967296 as real,
            255 as real,
        );
    }
    lemma_over::<A>(c, scale, bx, 1, sx, 3);
    let dl = A::over_spec(c, scale);
    lemma_doc_norm::<A>(docs, dl, bucket_start(docs, bucket), 5);
    let norm = table_norm::<A>(lut, bucket);
    let nx = length_norm(bucket_start(docs, bucket), mean_length(docs));
    let v = value(norm);
    lemma_factor_bound(12);
    let f = factor(12);
    assert(v >= nx / 2 as real && v <= nx * 2 as real) by (nonlinear_arith)
        requires
            v <= nx * f,
            nx <= v * f,
            nx > 0 as real,
            1 as real <= f <= 2 as real,
            v >= 0 as real || v < 0 as real,
    ;
    lemma_near_itself(v);
    lemma_near_weaken(v, v, 0, 1);
    lemma_tf::<A>(freq, norm, v, 1);
}

proof fn lemma_weighted<A: SingleArithmetic>(
    query_weight: Single,
    entry: Single,
    freq: u32,
    x: real,
)
    requires
        is_precise::<A>(),
        is_ordinary(query_weight),
        is_finite(entry),
        near(value(entry), x, 6),
        0 as real <= x <= 3 as real,
        freq > 0 ==> x >= 1 as real / (1180591620717411303424 as real * 32 as real),
        freq == 0 ==> x == 0 as real,
    ensures
        is_finite(A::times_spec(query_weight, entry)),
        near(value(A::times_spec(query_weight, entry)), value(query_weight) * x, 7),
{
    let w = value(query_weight);
    lemma_near_itself(w);
    if freq == 0 {
        assert(w * x == 0 as real) by (nonlinear_arith)
            requires
                x == 0 as real,
        ;
    } else {
        lemma_product_within(
            w,
            x,
            1 as real / 1048576 as real,
            1048576 as real,
            1 as real / (1180591620717411303424 as real * 32 as real),
            3 as real,
        );
    }
    lemma_times::<A>(query_weight, entry, w, 0, x, 6);
}

/// How fast a score grows with the frequency, up to 63.
proof fn lemma_tf_grows(k: real, a: real, c: real, v: real)
    requires
        k > 0 as real,
        0 as real <= a,
        a + 1 as real <= c <= 63 as real,
        v >= 1 as real / 8 as real,
    ensures
        k * c / (c + v) >= (k * a / (a + v)) * (1 as real + 1 as real / 32768 as real),
        k * c / (c + v) > 0 as real,
{
    let g = 1 as real + 1 as real / 32768 as real;
    assert(c * (a + v) >= a * (c + v) * g) by (nonlinear_arith)
        requires
            0 as real <= a,
            a + 1 as real <= c <= 63 as real,
            v >= 1 as real / 8 as real,
            g == 1 as real + 1 as real / 32768 as real,
    ;
    let p = a + v;
    let q = c + v;
    let x = k * a / p;
    let y = k * c / q;
    assert(x * p == k * a) by (nonlinear_arith)
        requires
            x == k * a / p,
            p > 0 as real,
    ;
    assert(y * q == k * c) by (nonlinear_arith)
        requires
            y == k * c / q,
            q > 0 as real,
    ;
    assert(y >= x * g) by (nonlinear_arith)
        requires
            x * p == k * a,
            y * q == k * c,
            c * p >= a * q * g,
            p > 0 as real,
            q > 0 as real,
            k > 0 as real,
    ;
    assert(y > 0 as real) by (nonlinear_arith)
        requires
            y == k * c / q,
            q > 0 as real,
            k > 0 as real,
            c > 0 as real,
    ;
}

/// A score of a block is qw * f / (f + K1 * (1 - B + b * dl)), up to eight roundings.
pub proof fn block_scores_follow_the_formula<A: SingleArithmetic>(
    freq: u32,
    doc_tokens: u32,
    qw_k1p1: Single,
    b_over_avgdl: Single,
)
    requires
        is_precise::<A>(),
        is_ordinary(qw_k1p1),
        is_finite(b_over_avgdl),
        value(b_over_avgdl) == 0 as real || 1 as real / 4294967296 as real <= value(b_over_avgdl)
            <= 4294967296 as real,
    ensures
        is_finite(block_score::<A>(freq, doc_tokens, qw_k1p1, b_over_avgdl)),
        near(
            value(block_score::<A>(freq, doc_tokens, qw_k1p1, b_over_avgdl)),
            value(qw_k1p1) * freq as real / (freq as real + value(K1) * (1 as real - value(B)
                + value(b_over_avgdl) * doc_tokens as real)),
            8,
        ),
{
    constants_have_their_values();
    let k = value(K1);
    let b = value(b_over_avgdl);
    let w = value(qw_k1p1);
    let fx = freq as real;
    let dx = doc_tokens as real;
    let quarter = 1 as real / 4 as real;
    lemma_near_itself(b);
    lemma_near_itself(k);
    lemma_near_itself(w);
    let d = A::of_int_spec(doc_tokens as u64);
    let f = A::of_int_spec(freq as u64);
    let rx = b * dx;
    if doc_tokens == 0 || b == 0 as real {
        assert(rx == 0 as real) by (nonlinear_arith)
            requires
                rx == b * dx,
                dx == 0 as real || b == 0 as real,
        ;
    } else {
        lemma_product_within(
            b,
            dx,
            1 as real / 4294967296 as real,
            4294967296 as real,
            1 as real,
            4294967296 as real,
        );
    }
    lemma_value_sign(b_over_avgdl);
    lemma_times::<A>(b_over_avgdl, d, b, 0, dx, 1);
    let r = A::times_spec(b_over_avgdl, d);
    let rest = A::minus_spec(ONE, B);
    assert(value(ONE) - value(B) == quarter);
    assert(is_finite(rest) && near(value(rest), quarter, 1));
    lemma_value_sign(rest);
    lemma_near_weaken(value(rest), quarter, 1, 2);
    lemma_plus::<A>(rest, r, quarter, rx, 2);
    let s = A::plus_spec(rest, r);
    let sx = quarter + rx;
    lemma_product_within(k, sx, 1 as real, 2 as real, quarter, 18446744073709551617 as real);
    lemma_times::<A>(K1, s, k, 0, sx, 3);
    let norm = A::times_spec(K1, s);
    let nx = k * sx;
    lemma_value_sign(f);
    lemma_near_weaken(value(f), fx, 1, 4);
    lemma_plus::<A>(f, norm, fx, nx, 4);
    let bottom = A::plus_spec(f, norm);
    let t = w * fx;
    let e = fx + nx;
    if freq == 0 {
        assert(t == 0 as real) by (nonlinear_arith)
            requires
                t == w * fx,
                fx == 0 as real,
        ;
        assert(t / e == 0 as real) by (nonlinear_arith)
            requires
                t == 0 as real,
                e > 0 as real,
        ;
    } else {
        lemma_product_within(
            w,
            fx,
            1 as real / 1048576 as real,
            1048576 as real,
            1 as real,
            4294967296 as real,
        );
        lemma_quotient_within(
            t,
            e,
            1 as real / 1048576 as real,
            1048576 as real * 4294967296 as real,
            quarter,
            73786976294838206464 as real,
        );
    }
    lemma_times::<A>(qw_k1p1, f, w, 0, fx, 1);
    let top = A::times_spec(qw_k1p1, f);
    lemma_over::<A>(top, bottom, t, 2, e, 5);
}

} // verus!
