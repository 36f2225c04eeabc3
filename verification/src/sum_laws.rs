//! What sums of scores are worth: what a score can be at most, and how it is quantized.
use vstd::prelude::*;

use crate::accumulator::{AccumulatorView, Hit};
use crate::docs::DocSetView;
use crate::formula::LookupView;
use crate::length_laws::{longer_documents_score_no_higher, rounds_in_order};
use crate::laws::{keeps_order, keeps_sign};
use crate::posting::BlockCodec;
use crate::query_laws::{capped_scores_do_not_overflow, is_capped, processed_sum};
use crate::query_laws::{sum_from, term_hits};
use crate::score_laws::{bm25, bucket_start, has_tokens, is_ordinary, length_norm, mean_length};
use crate::score_laws::{direct_scores_follow_the_formula, greatest_length, lemma_norm_positive};
use crate::score_laws::{average_length_is_the_mean, frequent_terms_score_higher};
use crate::score_laws::table_scores_follow_the_formula;
use crate::search::{is_term_order, list_len, list_prefix, remaining_max, Query};
use crate::single::{total_order, Single, SingleArithmetic, K1, ONE, QUANTIZED_TOP, ZERO};
use crate::values::{constants_have_their_values, factor, is_cut, is_finite, is_precise, near};
use crate::values::{value, vast};
use crate::values::{lemma_factor_adds, lemma_factor_bound, lemma_near_itself, lemma_near_weaken};
use crate::values::{lemma_near_product, lemma_over, lemma_plus, lemma_times};
use crate::values::{lemma_value_order, lemma_value_sign};

verus! {

/// The sum of real numbers.
pub open spec fn real_sum(xs: Seq<real>) -> real
    decreases xs.len(),
{
    if xs.len() == 0 {
        0 as real
    } else {
        real_sum(xs.drop_last()) + xs.last()
    }
}

/// The weights of the terms of `order` from place `i` on.
pub open spec fn weights_from(order: Seq<(usize, Single)>, i: int) -> Seq<real> {
    Seq::new((order.len() - i) as nat, |j: int| value(order[i + j].1))
}

/// The greatest score that the terms of `order` from place `i` on can add up to: K1 + 1
/// times the sum of their weights.
pub open spec fn greatest_score(order: Seq<(usize, Single)>, i: int) -> real {
    (value(K1) + 1 as real) * real_sum(weights_from(order, i))
}

/// Whether there are no more than 30000 terms, and their weights are ordinary.
pub open spec fn has_ordinary_weights(order: Seq<(usize, Single)>) -> bool {
    &&& order.len() <= 30000
    &&& forall|i: int| 0 <= i < order.len() ==> is_ordinary((#[trigger] order[i]).1)
}

proof fn lemma_sum_from_front(xs: Seq<real>)
    requires
        xs.len() > 0,
    ensures
        real_sum(xs) == xs[0] + real_sum(xs.skip(1)),
    decreases xs.len(),
{
    if xs.len() == 1 {
        assert(xs.drop_last() =~= Seq::empty());
        assert(xs.skip(1) =~= Seq::empty());
    } else {
        lemma_sum_from_front(xs.drop_last());
        assert(xs.drop_last().skip(1) =~= xs.skip(1).drop_last());
        assert(xs.skip(1).last() == xs.last());
    }
}

proof fn lemma_greatest_score(order: Seq<(usize, Single)>, i: int)
    requires
        0 <= i <= order.len(),
    ensures
        i == order.len() ==> greatest_score(order, i) == 0 as real,
        i < order.len() ==> greatest_score(order, i) == greatest_score(order, i + 1)
            + value(order[i].1) * (value(K1) + 1 as real),
{
    let xs = weights_from(order, i);
    let k = value(K1) + 1 as real;
    if i < order.len() {
        lemma_sum_from_front(xs);
        assert(xs.skip(1) =~= weights_from(order, i + 1));
        assert(k * (xs[0] + real_sum(xs.skip(1))) == k * real_sum(xs.skip(1)) + xs[0] * k)
            by (nonlinear_arith);
    } else {
        assert(xs =~= Seq::empty());
    }
}

/// What the remaining terms can add at most is K1 + 1 times the sum of all their weights, up
/// to a rounding for each term and two more.
pub proof fn remaining_max_is_the_sum<A: SingleArithmetic>(order: Seq<(usize, Single)>, i: int)
    requires
        is_precise::<A>(),
        has_ordinary_weights(order),
        0 <= i <= order.len(),
    ensures
        is_finite(remaining_max::<A>(order, i)),
        near(
            value(remaining_max::<A>(order, i)),
            greatest_score(order, i),
            (order.len() - i + 2) as nat,
        ),
        i < order.len() ==> greatest_score(order, i) >= 1 as real / 1048576 as real,
        0 as real <= greatest_score(order, i) <= (order.len() - i) as real * 3145728 as real,
    decreases order.len() - i,
{
    constants_have_their_values();
    lemma_greatest_score(order, i);
    let n = (order.len() - i + 2) as nat;
    if i == order.len() {
        lemma_near_itself(0 as real);
        lemma_near_weaken(0 as real, 0 as real, 0, n);
    } else {
        remaining_max_is_the_sum::<A>(order, i + 1);
        let w = value(order[i].1);
        let k = value(K1) + 1 as real;
        let rest = greatest_score(order, i + 1);
        assert(is_ordinary(order[i].1));
        lemma_near_itself(w);
        lemma_near_itself(value(K1));
        lemma_near_itself(1 as real);
        lemma_plus::<A>(K1, ONE, value(K1), 1 as real, 0);
        let k1_plus_1 = A::plus_spec(K1, ONE);
        assert(1 as real / 1048576 as real <= w * k <= 3145728 as real) by (nonlinear_arith)
            requires
                1 as real / 1048576 as real <= w <= 1048576 as real,
                2 as real <= k <= 3 as real,
        ;
        lemma_times::<A>(order[i].1, k1_plus_1, w, 0, k, 1);
        let most = A::times_spec(order[i].1, k1_plus_1);
        lemma_value_sign(most);
        lemma_near_weaken(value(most), w * k, 2, (n - 1) as nat);
        let m = (order.len() - i) as real;
        assert((order.len() - (i + 1)) as real == m - 1 as real);
        assert((m - 1 as real) * 3145728 as real == m * 3145728 as real - 3145728 as real)
            by (nonlinear_arith);
        assert(m <= 30000 as real);
        assert(m * 3145728 as real <= 30000 as real * 3145728 as real) by (nonlinear_arith)
            requires
                m <= 30000 as real,
        ;
        lemma_plus::<A>(remaining_max::<A>(order, i + 1), most, rest, w * k, (n - 1) as nat);
    }
}

/// The scale maps the greatest score that the terms can add up to to 65000, and the inverse
/// scale maps back.
pub proof fn scale_maps_the_greatest_score<A: SingleArithmetic>(
    query: Query,
    order: Seq<(usize, Single)>,
)
    requires
        is_precise::<A>(),
        has_ordinary_weights(order),
        order.len() > 0,
    ensures
        ({
            let acc = query.begin::<A>(order).acc;
            let most = greatest_score(order, 0);
            &&& is_finite(acc.scale)
            &&& is_finite(acc.inv_scale)
            &&& near(value(acc.scale), 65000 as real / most, order.len() + 3)
            &&& near(value(acc.inv_scale), most / 65000 as real, order.len() + 4)
            &&& 1 as real / 1048576 as real <= most <= 94371840000 as real
        }),
{
    constants_have_their_values();
    remaining_max_is_the_sum::<A>(order, 0);
    let n = order.len();
    let max = remaining_max::<A>(order, 0);
    let x = greatest_score(order, 0);
    assert(n as real * 3145728 as real <= 30000 as real * 3145728 as real) by (nonlinear_arith)
        requires
            n as real <= 30000 as real,
    ;
    lemma_near_itself(65000 as real);
    lemma_near_itself(1 as real);
    let s = 65000 as real / x;
    assert(65000 as real / 94371840000 as real <= s <= 65000 as real * 1048576 as real)
        by (nonlinear_arith)
        requires
            s == 65000 as real / x,
            1 as real / 1048576 as real <= x <= 94371840000 as real,
    ;
    lemma_over::<A>(QUANTIZED_TOP, max, 65000 as real, 0, x, n + 2);
    let scale = A::over_spec(QUANTIZED_TOP, max);
    assert(query.begin::<A>(order).acc.scale == scale);
    assert(1 as real / s == x / 65000 as real) by (nonlinear_arith)
        requires
            s == 65000 as real / x,
            x > 0 as real,
    ;
    lemma_over::<A>(ONE, scale, 1 as real, 0, s, n + 3);
}

/// Scaling back keeps the order of the quantized sums and gives nothing negative.
pub proof fn scaling_back_keeps_order<A: SingleArithmetic>(
    query: Query,
    order: Seq<(usize, Single)>,
)
    requires
        is_precise::<A>(),
        has_ordinary_weights(order),
        order.len() > 0,
    ensures
        keeps_order::<A>(query.begin::<A>(order).acc.inv_scale),
        keeps_sign::<A>(query.begin::<A>(order).acc.inv_scale),
{
    scale_maps_the_greatest_score::<A>(query, order);
    let inv = query.begin::<A>(order).acc.inv_scale;
    let most = greatest_score(order, 0);
    let y = most / 65000 as real;
    let v = value(inv);
    let n = (order.len() + 4) as nat;
    lemma_factor_bound(n);
    lemma_value_sign(inv);
    let f = factor(n);
    assert(v >= y / 2 as real && v <= y * 2 as real) by (nonlinear_arith)
        requires
            v <= y * f,
            y <= v * f,
            y > 0 as real,
            v >= 0 as real,
            1 as real <= f <= 2 as real,
    ;
    assert forall|q: u16| total_order(ZERO) <= total_order(
        #[trigger] A::times_spec(A::of_int_spec(q as u64), inv),
    ) by {
        lemma_scaled_back::<A>(inv, q);
    }
    assert forall|p: u16, q: u16| p < q implies total_order(
        #[trigger] A::times_spec(A::of_int_spec(p as u64), inv),
    ) < total_order(#[trigger] A::times_spec(A::of_int_spec(q as u64), inv)) by {
        lemma_scaled_back::<A>(inv, p);
        lemma_scaled_back::<A>(inv, q);
        let a = A::times_spec(A::of_int_spec(p as u64), inv);
        let b = A::times_spec(A::of_int_spec(q as u64), inv);
        lemma_factor_bound(2);
        let g = factor(2);
        let x = p as real;
        let z = q as real;
        assert(x + 1 as real <= z);
        assert(x * g * g < z) by (nonlinear_arith)
            requires
                0 as real <= x <= 65535 as real,
                x + 1 as real <= z,
                1 as real <= g <= 1 as real + 2 as real / 4194304 as real,
        ;
        assert(value(a) < value(b)) by (nonlinear_arith)
            requires
                value(a) <= (x * v) * g,
                z * v <= value(b) * g,
                x * g * g < z,
                v > 0 as real,
                g >= 1 as real,
        ;
        lemma_value_order(a, b);
    }
}

proof fn lemma_scaled_back<A: SingleArithmetic>(inv: Single, q: u16)
    requires
        is_precise::<A>(),
        is_finite(inv),
        1 as real / (1048576 as real * 131072 as real) <= value(inv) <= 94371840000 as real,
    ensures
        ({
            let a = A::times_spec(A::of_int_spec(q as u64), inv);
            &&& is_finite(a)
            &&& near(value(a), q as real * value(inv), 2)
        }),
{
    let x = q as real;
    let v = value(inv);
    lemma_near_itself(v);
    if q == 0 {
        assert(x * v == 0 as real) by (nonlinear_arith)
            requires
                x == 0 as real,
        ;
    } else {
        assert(v <= x * v <= 65535 as real * v) by (nonlinear_arith)
            requires
                1 as real <= x <= 65535 as real,
                v > 0 as real,
        ;
    }
    lemma_times::<A>(A::of_int_spec(q as u64), inv, x, 1, v, 0);
}

/// The score of a document is its quantized sum, mapped back from 65000 to the greatest
/// score, up to a rounding for each term and seven more.
pub proof fn scores_are_scaled_back<A: SingleArithmetic>(
    query: Query,
    order: Seq<(usize, Single)>,
    acc: AccumulatorView,
    d: int,
)
    requires
        is_precise::<A>(),
        has_ordinary_weights(order),
        order.len() > 0,
        acc.inv_scale == query.begin::<A>(order).acc.inv_scale,
    ensures
        is_finite(acc.score::<A>(d)),
        near(
            value(acc.score::<A>(d)),
            acc.scores[d] as real * (greatest_score(order, 0) / 65000 as real),
            order.len() + 7,
        ),
{
    scale_maps_the_greatest_score::<A>(query, order);
    let q = acc.scores[d];
    let x = q as real;
    let y = greatest_score(order, 0) / 65000 as real;
    if q == 0 {
        assert(x * y == 0 as real) by (nonlinear_arith)
            requires
                x == 0 as real,
        ;
    } else {
        assert(y <= x * y <= 65535 as real * y) by (nonlinear_arith)
            requires
                1 as real <= x <= 65535 as real,
                y > 0 as real,
        ;
    }
    let n = order.len();
    lemma_times::<A>(A::of_int_spec(q as u64), acc.inv_scale, x, 1, y, n + 4);
    lemma_value_sign(acc.score::<A>(d));
    assert(x * y >= 0 as real);
    lemma_near_weaken(value(acc.score::<A>(d)), x * y, n + 6, n + 7);
}

/// The length for which a posting of `freq` occurrences in a document of `doc_tokens` tokens
/// is scored: its own, or the start of its bucket where the lookup table is used.
pub open spec fn scored_length<A: SingleArithmetic>(
    lut: LookupView,
    docs: DocSetView,
    freq: u32,
    doc_tokens: u32,
) -> real {
    if freq < 64 {
        bucket_start(docs, lut.bucket::<A>(doc_tokens))
    } else {
        doc_tokens as real
    }
}

/// A score follows the BM25 formula, and is no more than the weight times K1 + 1.
pub proof fn scores_follow_the_formula<A: SingleArithmetic>(
    lut: LookupView,
    docs: DocSetView,
    freq: u32,
    doc_tokens: u32,
    query_weight: Single,
)
    requires
        is_precise::<A>(),
        has_tokens(docs),
        lut.is_of::<A>(docs),
        is_ordinary(query_weight),
    ensures
        ({
            let score = lut.score::<A>(freq, doc_tokens, query_weight);
            let exact = bm25(
                value(query_weight),
                freq as real,
                scored_length::<A>(lut, docs, freq, doc_tokens),
                mean_length(docs),
            );
            &&& is_finite(score)
            &&& near(value(score), exact, 18)
            &&& 0 as real <= exact <= value(query_weight) * (value(K1) + 1 as real)
            &&& freq > 0 ==> exact > 0 as real
            &&& freq > 0 ==> score > 0
        }),
{
    constants_have_their_values();
    average_length_is_the_mean::<A>(docs);
    let score = lut.score::<A>(freq, doc_tokens, query_weight);
    let w = value(query_weight);
    let f = freq as real;
    let dl = scored_length::<A>(lut, docs, freq, doc_tokens);
    let avg = mean_length(docs);
    let k = value(K1) + 1 as real;
    if freq < 64 {
        table_scores_follow_the_formula::<A>(lut, docs, freq, doc_tokens, query_weight);
        let b = lut.bucket::<A>(doc_tokens) as real;
        let g = greatest_length(docs);
        assert(b / (255 as real / g) >= 0 as real) by (nonlinear_arith)
            requires
                b >= 0 as real,
                g > 0 as real,
        ;
    } else {
        direct_scores_follow_the_formula::<A>(lut, docs, freq, doc_tokens, query_weight);
    }
    lemma_norm_positive(dl, avg);
    let n = length_norm(dl, avg);
    let tf = k * f / (f + n);
    assert(0 as real <= tf <= k) by (nonlinear_arith)
        requires
            tf == k * f / (f + n),
            f >= 0 as real,
            n > 0 as real,
            k > 0 as real,
    ;
    assert(0 as real <= w * tf <= w * k) by (nonlinear_arith)
        requires
            w > 0 as real,
            0 as real <= tf <= k,
    ;
    lemma_value_sign(score);
    let exact = w * tf;
    if freq >= 64 {
        lemma_near_weaken(value(score), exact, 14, 18);
    }
    if freq > 0 {
        assert(tf > 0 as real) by (nonlinear_arith)
            requires
                tf == k * f / (f + n),
                f > 0 as real,
                n > 0 as real,
                k > 0 as real,
        ;
        assert(exact > 0 as real) by (nonlinear_arith)
            requires
                exact == w * tf,
                w > 0 as real,
                tf > 0 as real,
        ;
        let g = factor(18);
        if value(score) == 0 as real {
            assert(value(score) * g == 0 as real) by (nonlinear_arith)
                requires
                    value(score) == 0 as real,
            ;
        }
    }
}

/// A quantized score is the BM25 score mapped from the greatest score to 65000, up to the
/// fraction that is cut off and roundings.
pub proof fn hits_are_scaled_scores<A: SingleArithmetic>(
    query: Query,
    order: Seq<(usize, Single)>,
    i: int,
    freq: u32,
    doc_tokens: u32,
)
    requires
        is_precise::<A>(),
        has_tokens(query.docs),
        query.lut.is_of::<A>(query.docs),
        has_ordinary_weights(order),
        0 <= i < order.len(),
    ensures
        ({
            let weight = order[i].1;
            let hit = query.begin::<A>(order).acc.quantize::<A>(
                query.lut.score::<A>(freq, doc_tokens, weight),
            ) as real;
            let exact = bm25(
                value(weight),
                freq as real,
                scored_length::<A>(query.lut, query.docs, freq, doc_tokens),
                mean_length(query.docs),
            ) * (65000 as real / greatest_score(order, 0));
            let share = value(weight) * (value(K1) + 1 as real) * (65000 as real
                / greatest_score(order, 0));
            &&& hit <= exact * factor(order.len() + 22) + 1 as real / vast()
            &&& exact <= (hit + 1 as real) * factor(order.len() + 22) + 2 as real / vast()
            &&& hit <= share * factor(order.len() + 22) + 1 as real / vast()
        }),
{
    constants_have_their_values();
    scale_maps_the_greatest_score::<A>(query, order);
    let weight = order[i].1;
    assert(is_ordinary(weight));
    scores_follow_the_formula::<A>(query.lut, query.docs, freq, doc_tokens, weight);
    let acc = query.begin::<A>(order).acc;
    let score = query.lut.score::<A>(freq, doc_tokens, weight);
    let p = A::times_spec(score, acc.scale);
    let q = A::to_u16_spec(p) as real;
    let n = order.len();
    let most = greatest_score(order, 0);
    let s = 65000 as real / most;
    let e = bm25(
        value(weight),
        freq as real,
        scored_length::<A>(query.lut, query.docs, freq, doc_tokens),
        mean_length(query.docs),
    );
    let w = value(weight) * (value(K1) + 1 as real);
    let vs = value(score);
    let vc = value(acc.scale);
    lemma_value_sign(score);
    lemma_value_sign(acc.scale);
    assert(s > 0 as real) by (nonlinear_arith)
        requires
            s == 65000 as real / most,
            most > 0 as real,
    ;
    lemma_near_product(vs, e, 18, vc, s, n + 3);
    lemma_factor_adds(n + 21, 1);
    lemma_factor_bound(n + 22);
    lemma_factor_bound(n + 21);
    lemma_factor_bound(1);
    let f = factor(n + 21);
    let g = factor(1);
    let h = factor(n + 22);
    assert(n + 3 + 18 == n + 21);
    let x = vs * vc;
    let y = e * s;
    assert(near(x, y, n + 21));
    // The share of the term.
    lemma_share(order, i);
    assert(0 as real <= y <= w * s) by (nonlinear_arith)
        requires
            y == e * s,
            0 as real <= e <= w,
            s > 0 as real,
    ;
    assert(w * s <= 65000 as real) by (nonlinear_arith)
        requires
            w <= most,
            s == 65000 as real / most,
            most > 0 as real,
    ;
    assert(0 as real <= x <= 130000 as real) by (nonlinear_arith)
        requires
            x <= y * f,
            x == vs * vc,
            vs >= 0 as real,
            vc >= 0 as real,
            0 as real <= y <= 65000 as real,
            1 as real <= f <= 2 as real,
    ;
    let v = value(p);
    let tiny = 1 as real / vast();
    assert(v <= x * g + tiny && x <= v * g + tiny);
    assert(x * g <= y * h) by (nonlinear_arith)
        requires
            x <= y * f,
            h == f * g,
            g >= 1 as real,
            y >= 0 as real,
    ;
    assert(q <= v);
    assert(y * h <= (w * s) * h) by (nonlinear_arith)
        requires
            y <= w * s,
            h >= 1 as real,
    ;
    // No hit is cut off at the greatest 16-bit number.
    assert(h <= 1 as real + 30022 as real / 4194304 as real);
    assert(y * h <= 65000 as real * (1 as real + 30022 as real / 4194304 as real))
        by (nonlinear_arith)
        requires
            0 as real <= y <= 65000 as real,
            1 as real <= h <= 1 as real + 30022 as real / 4194304 as real,
    ;
    assert(v < q + 1 as real);
    assert(y <= (q + 1 as real) * h + 2 as real * tiny) by (nonlinear_arith)
        requires
            y <= x * f,
            x <= v * g + tiny,
            v < q + 1 as real,
            q >= 0 as real,
            h == f * g,
            1 as real <= f <= 2 as real,
            g >= 1 as real,
            tiny > 0 as real,
    ;
}

/// Of two scores the greater one is not quantized to less.
proof fn lemma_quantize_in_order<A: SingleArithmetic>(
    query: Query,
    order: Seq<(usize, Single)>,
    a: Single,
    b: Single,
)
    requires
        is_precise::<A>(),
        rounds_in_order::<A>(),
        has_ordinary_weights(order),
        order.len() > 0,
        is_finite(a) && is_finite(b),
        a <= b,
        value(b) <= 8388608 as real,
    ensures
        query.begin::<A>(order).acc.quantize::<A>(a) <= query.begin::<A>(order).acc.quantize::<A>(
            b,
        ),
{
    scale_maps_the_greatest_score::<A>(query, order);
    let scale = query.begin::<A>(order).acc.scale;
    let n = (order.len() + 3) as nat;
    lemma_factor_bound(n);
    let f = factor(n);
    let most = greatest_score(order, 0);
    let s = 65000 as real / most;
    let c = value(scale);
    lemma_value_sign(scale);
    lemma_value_sign(a);
    lemma_value_sign(b);
    lemma_value_order(b, a);
    assert(s <= 65000 as real * 1048576 as real) by (nonlinear_arith)
        requires
            s == 65000 as real / most,
            most >= 1 as real / 1048576 as real,
    ;
    assert(c <= 130000 as real * 1048576 as real) by (nonlinear_arith)
        requires
            c <= s * f,
            s <= 65000 as real * 1048576 as real,
            1 as real <= f <= 2 as real,
            s > 0 as real || s <= 0 as real,
    ;
    let x = value(a);
    let y = value(b);
    assert(x * c <= vast() && y * c <= vast()) by (nonlinear_arith)
        requires
            0 as real <= x <= 8388608 as real,
            0 as real <= y <= 8388608 as real,
            0 as real <= c <= 130000 as real * 1048576 as real,
            vast() >= 8388608 as real * (130000 as real * 1048576 as real),
    ;
    let p = A::times_spec(a, scale);
    let q = A::times_spec(b, scale);
    assert(is_finite(p) && is_finite(q));
    assert(p <= q);
    lemma_value_order(q, p);
    let m = A::to_u16_spec(p) as int;
    let k = A::to_u16_spec(q) as int;
    assert(is_cut(value(p), m, 65535));
    assert(is_cut(value(q), k, 65535));
    if k < 65535 {
        assert(m as real <= value(p));
        assert((m as real) < k as real + 1 as real);
    }
}

/// A score is not beyond what is quantized in order.
proof fn lemma_score_bound<A: SingleArithmetic>(
    lut: LookupView,
    docs: DocSetView,
    freq: u32,
    doc_tokens: u32,
    weight: Single,
)
    requires
        is_precise::<A>(),
        has_tokens(docs),
        lut.is_of::<A>(docs),
        is_ordinary(weight),
    ensures
        is_finite(lut.score::<A>(freq, doc_tokens, weight)),
        value(lut.score::<A>(freq, doc_tokens, weight)) <= 8388608 as real,
{
    constants_have_their_values();
    scores_follow_the_formula::<A>(lut, docs, freq, doc_tokens, weight);
    lemma_factor_bound(18);
    let e = bm25(
        value(weight),
        freq as real,
        scored_length::<A>(lut, docs, freq, doc_tokens),
        mean_length(docs),
    );
    let v = value(lut.score::<A>(freq, doc_tokens, weight));
    let w = value(weight);
    let k = value(K1) + 1 as real;
    let f = factor(18);
    assert(v <= 8388608 as real) by (nonlinear_arith)
        requires
            v <= e * f,
            0 as real <= e <= w * k,
            (0 as real) < w <= 1048576 as real,
            2 as real <= k <= 3 as real,
            1 as real <= f <= 2 as real,
    ;
}

/// Of two postings of a term with the same frequency, the one in the longer document does
/// not add more.
pub proof fn longer_documents_get_no_greater_hits<A: SingleArithmetic>(
    query: Query,
    order: Seq<(usize, Single)>,
    i: int,
    freq: u32,
    shorter: u32,
    longer: u32,
)
    requires
        is_precise::<A>(),
        rounds_in_order::<A>(),
        has_tokens(query.docs),
        query.lut.is_of::<A>(query.docs),
        has_ordinary_weights(order),
        0 <= i < order.len(),
        shorter <= longer,
    ensures
        ({
            let acc = query.begin::<A>(order).acc;
            let weight = order[i].1;
            acc.quantize::<A>(query.lut.score::<A>(freq, longer, weight)) <= acc.quantize::<A>(
                query.lut.score::<A>(freq, shorter, weight),
            )
        }),
{
    let weight = order[i].1;
    assert(is_ordinary(weight));
    lemma_score_bound::<A>(query.lut, query.docs, freq, shorter, weight);
    lemma_score_bound::<A>(query.lut, query.docs, freq, longer, weight);
    longer_documents_score_no_higher::<A>(
        query.lut,
        query.docs,
        freq,
        shorter,
        longer,
        weight,
    );
    lemma_quantize_in_order::<A>(
        query,
        order,
        query.lut.score::<A>(freq, longer, weight),
        query.lut.score::<A>(freq, shorter, weight),
    );
}

/// Of two postings of a term in documents of the same length, the one with the greater
/// frequency does not add less, within the lookup table.
pub proof fn frequent_terms_get_no_smaller_hits<A: SingleArithmetic>(
    query: Query,
    order: Seq<(usize, Single)>,
    i: int,
    freq: u32,
    more: u32,
    doc_tokens: u32,
)
    requires
        is_precise::<A>(),
        rounds_in_order::<A>(),
        has_tokens(query.docs),
        query.lut.is_of::<A>(query.docs),
        has_ordinary_weights(order),
        0 <= i < order.len(),
        freq <= more < 64,
    ensures
        ({
            let acc = query.begin::<A>(order).acc;
            let weight = order[i].1;
            acc.quantize::<A>(query.lut.score::<A>(freq, doc_tokens, weight)) <= acc.quantize::<A>(
                query.lut.score::<A>(more, doc_tokens, weight),
            )
        }),
{
    let weight = order[i].1;
    assert(is_ordinary(weight));
    lemma_score_bound::<A>(query.lut, query.docs, freq, doc_tokens, weight);
    lemma_score_bound::<A>(query.lut, query.docs, more, doc_tokens, weight);
    if freq < more {
        frequent_terms_score_higher::<A>(query.lut, query.docs, freq, more, doc_tokens, weight);
    }
    lemma_quantize_in_order::<A>(
        query,
        order,
        query.lut.score::<A>(freq, doc_tokens, weight),
        query.lut.score::<A>(more, doc_tokens, weight),
    );
}

/// A term has its share in the greatest score.
proof fn lemma_share(order: Seq<(usize, Single)>, i: int)
    requires
        has_ordinary_weights(order),
        0 <= i < order.len(),
    ensures
        value(order[i].1) * (value(K1) + 1 as real) <= greatest_score(order, 0),
{
    lemma_suffix_at_most(order, i, 0);
    lemma_greatest_score(order, i);
    lemma_suffix_not_negative(order, i + 1);
}

proof fn lemma_suffix_not_negative(order: Seq<(usize, Single)>, i: int)
    requires
        has_ordinary_weights(order),
        0 <= i <= order.len(),
    ensures
        greatest_score(order, i) >= 0 as real,
    decreases order.len() - i,
{
    constants_have_their_values();
    lemma_greatest_score(order, i);
    if i < order.len() {
        lemma_suffix_not_negative(order, i + 1);
        let w = value(order[i].1);
        let k = value(K1) + 1 as real;
        assert(is_ordinary(order[i].1));
        assert(w * k >= 0 as real) by (nonlinear_arith)
            requires
                w >= 0 as real,
                k >= 0 as real,
        ;
    }
}

proof fn lemma_suffix_at_most(order: Seq<(usize, Single)>, i: int, j: int)
    requires
        has_ordinary_weights(order),
        0 <= j <= i <= order.len(),
    ensures
        greatest_score(order, i) <= greatest_score(order, j),
    decreases i - j,
{
    constants_have_their_values();
    if j < i {
        lemma_suffix_at_most(order, i, j + 1);
        lemma_greatest_score(order, j);
        let w = value(order[j].1);
        let k = value(K1) + 1 as real;
        assert(is_ordinary(order[j].1));
        assert(w * k >= 0 as real) by (nonlinear_arith)
            requires
                w >= 0 as real,
                k >= 0 as real,
        ;
    }
}

/// What `hits` add to document `d`, if they name it at most once.
spec fn cap_of(hits: Seq<Hit>, d: int) -> nat {
    if exists|j: int| 0 <= j < hits.len() && (#[trigger] hits[j]).doc_id == d {
        hits[choose|j: int| 0 <= j < hits.len() && (#[trigger] hits[j]).doc_id == d].quantized as nat
    } else {
        0
    }
}

/// Whether `hits` name document `d` at most once.
pub open spec fn names_once(hits: Seq<Hit>, d: int) -> bool {
    forall|i: int, j: int|
        #![trigger hits[i], hits[j]]
        0 <= i < j < hits.len() && hits[i].doc_id == d ==> hits[j].doc_id != d
}

/// No score of a search saturates: where each list names a document at most once, its score
/// is the exact sum of the hits that were processed, and 16 bits hold it.
pub proof fn searches_do_not_saturate<A: SingleArithmetic, C: BlockCodec>(
    query: Query,
    order: Seq<(usize, Single)>,
    d: int,
)
    requires
        is_precise::<A>(),
        has_tokens(query.docs),
        query.lut.is_of::<A>(query.docs),
        is_term_order(query.postings, order),
        has_ordinary_weights(order),
        0 <= d < query.docs.row_ids.len(),
        forall|i: int|
            0 <= i < order.len() ==> names_once(
                term_hits::<A, C>(
                    query,
                    query.begin::<A>(order).acc,
                    #[trigger] query.term(order, i),
                ),
                d,
            ),
    ensures
        query.finish::<A, C>(order).acc.scores[d] == processed_sum::<A, C>(
            query,
            order,
            0,
            query.begin::<A>(order),
            d,
        ),
        query.finish::<A, C>(order).acc.scores[d] < u16::MAX,
{
    let acc = query.begin::<A>(order).acc;
    let caps = Seq::new(
        order.len(),
        |i: int| cap_of(term_hits::<A, C>(query, acc, query.term(order, i)), d),
    );
    assert forall|i: int| 0 <= i < order.len() implies is_capped(
        term_hits::<A, C>(query, acc, #[trigger] query.term(order, i)),
        d,
        caps[i],
    ) by {
        let hits = term_hits::<A, C>(query, acc, query.term(order, i));
        assert(names_once(hits, d));
        assert forall|j: int|
            0 <= j < hits.len() && (#[trigger] hits[j]).doc_id == d implies hits[j].quantized
            <= caps[i] by {
            let one = choose|j: int| 0 <= j < hits.len() && (#[trigger] hits[j]).doc_id == d;
            assert(hits[one].doc_id == d);
            if one < j {
                assert(hits[j].doc_id != d);
            } else if j < one {
                assert(hits[one].doc_id != d);
            }
        }
    }
    lemma_caps_sum::<A, C>(query, order, caps, d, 0);
    if order.len() > 0 {
        scale_maps_the_greatest_score::<A>(query, order);
        let n = order.len();
        let most = greatest_score(order, 0);
        let h = factor(n + 22);
        lemma_factor_bound(n + 22);
        assert(most * (65000 as real / most) == 65000 as real) by (nonlinear_arith)
            requires
                most > 0 as real,
        ;
        assert(h <= 1 as real + 30022 as real / 4194304 as real);
        assert(65000 as real * h <= 65500 as real);
        assert(n as real / vast() <= 1 as real) by (nonlinear_arith)
            requires
                n as real <= 30000 as real,
                vast() >= 30000 as real,
        ;
        assert(sum_from(caps, 0) as real <= 65501 as real);
        assert(sum_from(caps, 0) <= 65501);
    }
    capped_scores_do_not_overflow::<A, C>(query, order, caps, d);
}

proof fn lemma_caps_sum<A: SingleArithmetic, C: BlockCodec>(
    query: Query,
    order: Seq<(usize, Single)>,
    caps: Seq<nat>,
    d: int,
    i: int,
)
    requires
        is_precise::<A>(),
        has_tokens(query.docs),
        query.lut.is_of::<A>(query.docs),
        is_term_order(query.postings, order),
        has_ordinary_weights(order),
        0 <= i <= order.len(),
        caps == Seq::new(
            order.len(),
            |j: int|
                cap_of(
                    term_hits::<A, C>(query, query.begin::<A>(order).acc, query.term(order, j)),
                    d,
                ),
        ),
    ensures
        sum_from(caps, i) as real <= (greatest_score(order, i) * (65000 as real / greatest_score(
            order,
            0,
        ))) * factor(order.len() + 22) + (order.len() - i) as real / vast(),
    decreases order.len() - i,
{
    let acc = query.begin::<A>(order).acc;
    let n = order.len();
    let s = 65000 as real / greatest_score(order, 0);
    let h = factor(n + 22);
    lemma_factor_bound(n + 22);
    lemma_greatest_score(order, i);
    if i < order.len() {
        lemma_caps_sum::<A, C>(query, order, caps, d, i + 1);
        let term = query.term(order, i);
        let hits = term_hits::<A, C>(query, acc, term);
        let w = value(order[i].1) * (value(K1) + 1 as real);
        assert(term.query_weight == order[i].1);
        scale_maps_the_greatest_score::<A>(query, order);
        constants_have_their_values();
        assert(is_ordinary(order[i].1));
        assert(w >= 0 as real) by (nonlinear_arith)
            requires
                w == value(order[i].1) * (value(K1) + 1 as real),
                value(order[i].1) >= 0 as real,
                value(K1) >= 0 as real,
        ;
        assert(s > 0 as real) by (nonlinear_arith)
            requires
                s == 65000 as real / greatest_score(order, 0),
                greatest_score(order, 0) > 0 as real,
        ;
        assert((w * s) * h >= 0 as real) by (nonlinear_arith)
            requires
                w >= 0 as real,
                s > 0 as real,
                h >= 1 as real,
        ;
        let c = caps[i] as real;
        if exists|j: int| 0 <= j < hits.len() && (#[trigger] hits[j]).doc_id == d {
            let j = choose|j: int| 0 <= j < hits.len() && (#[trigger] hits[j]).doc_id == d;
            let posting = list_prefix::<A, C>(
                term.list,
                query.docs,
                list_len::<C>(term.list) as int,
            )[j];
            let tokens = query.docs.num_tokens[posting.doc_id as int];
            hits_are_scaled_scores::<A>(query, order, i, posting.freq, tokens);
            assert(c <= (w * s) * h + 1 as real / vast());
        } else {
            assert(c <= (w * s) * h + 1 as real / vast());
        }
        let g = greatest_score(order, i + 1);
        assert((g * s) * h + (w * s) * h == ((g + w) * s) * h) by (nonlinear_arith);
        let m = (n - (i + 1)) as real;
        assert((n - i) as real == m + 1 as real);
        assert((m + 1 as real) / vast() == m / vast() + 1 as real / vast()) by (nonlinear_arith)
            requires
                vast() > 0 as real,
        ;
        assert(sum_from(caps, i) == caps[i] + sum_from(caps, i + 1));
        assert(sum_from(caps, i) as real == c + sum_from(caps, i + 1) as real);
    } else {
        assert((0 as real * s) * h == 0 as real) by (nonlinear_arith);
        assert(0 as real / vast() == 0 as real);
    }
}

} // verus!
