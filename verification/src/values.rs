//! What patterns are worth as real numbers, and how near to it arithmetic comes.
use vstd::prelude::*;

use crate::single::{magnitude, Single, SingleArithmetic, B, INFINITY, K1, ONE, QUANTIZED_TOP};
use crate::single::{EXIT_SHARE, SIGN_BIT, ZERO};

verus! {

/// 2 to the power `k`.
pub open spec fn exp2(k: int) -> real
    decreases (if k < 0 { -k } else { k }),
{
    if k == 0 {
        1 as real
    } else if k > 0 {
        2 as real * exp2(k - 1)
    } else {
        exp2(k + 1) / 2 as real
    }
}

/// The number that a finite pattern stands for: the fraction of 23 bits, with a leading 1
/// unless the exponent of 8 bits is 0, times a power of 2.
pub open spec fn value(a: Single) -> real {
    let exponent = magnitude(a) / 0x80_0000;
    let fraction = magnitude(a) % 0x80_0000;
    let size = if exponent == 0 {
        fraction as real * exp2(-149)
    } else {
        (fraction + 0x80_0000) as real * exp2(exponent - 150)
    };
    if a < SIGN_BIT {
        size
    } else {
        0 as real - size
    }
}

/// The most that `n` roundings change a number, as a factor: each by one part in 2^23.
pub open spec fn factor(n: nat) -> real
    decreases n,
{
    if n == 0 {
        1 as real
    } else {
        factor((n - 1) as nat) * (8388609 as real / 8388608 as real)
    }
}

/// Whether `x` is `y` up to `n` roundings.
pub open spec fn near(x: real, y: real, n: nat) -> bool {
    x <= y * factor(n) && y <= x * factor(n)
}

pub proof fn lemma_exp2_positive(k: int)
    ensures
        exp2(k) > 0 as real,
    decreases (if k < 0 { -k } else { k }),
{
    if k > 0 {
        lemma_exp2_positive(k - 1);
    } else if k < 0 {
        lemma_exp2_positive(k + 1);
    }
}

proof fn lemma_exp2_step(k: int)
    ensures
        exp2(k + 1) == 2 as real * exp2(k),
{
}

/// What the constants of the score are worth. K1 is 1.2 as near as a pattern comes to it.
pub proof fn constants_have_their_values()
    ensures
        value(ZERO) == 0 as real,
        value(ONE) == 1 as real,
        value(B) == 3 as real / 4 as real,
        value(K1) == 10066330 as real / 8388608 as real,
        near(value(K1), 6 as real / 5 as real, 1),
        value(QUANTIZED_TOP) == 65000 as real,
        near(value(EXIT_SHARE), 1 as real / 20 as real, 1),
{
    reveal_with_fuel(factor, 2);
    assert(exp2(-4) == 1 as real / 16 as real) by {
        reveal_with_fuel(exp2, 5);
    }
    assert(exp2(-8) == 1 as real / 256 as real) by {
        reveal_with_fuel(exp2, 9);
    }
    assert(exp2(-23) == 1 as real / 8388608 as real) by {
        reveal_with_fuel(exp2, 24);
    }
    assert(exp2(-24) == 1 as real / 16777216 as real);
    assert(exp2(-25) == 1 as real / 33554432 as real);
    assert(exp2(-26) == 1 as real / 67108864 as real);
    assert(exp2(-27) == 1 as real / 134217728 as real);
    assert(exp2(-28) == 1 as real / 268435456 as real);
    assert(magnitude(ONE) / 0x80_0000 == 127 && magnitude(ONE) % 0x80_0000 == 0);
    assert(magnitude(B) / 0x80_0000 == 126 && magnitude(B) % 0x80_0000 == 0x40_0000);
    assert(magnitude(K1) / 0x80_0000 == 127 && magnitude(K1) % 0x80_0000 == 0x19_999a);
    assert(magnitude(QUANTIZED_TOP) / 0x80_0000 == 142 && magnitude(QUANTIZED_TOP) % 0x80_0000
        == 0x7d_e800);
    assert(magnitude(EXIT_SHARE) / 0x80_0000 == 122 && magnitude(EXIT_SHARE) % 0x80_0000
        == 0x4c_cccd);
    assert(value(EXIT_SHARE) == 13421773 as real / 268435456 as real);
    assert(factor(1) == 8388609 as real / 8388608 as real);
}

pub proof fn lemma_factor_adds(m: nat, n: nat)
    ensures
        factor(m + n) == factor(m) * factor(n),
        factor(n) >= 1 as real,
    decreases n,
{
    if n > 0 {
        lemma_factor_adds(m, (n - 1) as nat);
        let f = factor(m);
        let g = factor((n - 1) as nat);
        let u = 8388609 as real / 8388608 as real;
        assert(factor(m + n) == (f * g) * u);
        assert((f * g) * u == f * (g * u)) by (nonlinear_arith);
        assert(g * u >= 1 as real) by (nonlinear_arith) requires g >= 1 as real, u >= 1 as real;
    }
}

/// Few roundings change little.
pub proof fn lemma_factor_bound(n: nat)
    requires
        n <= 0x10_0000,
    ensures
        1 as real <= factor(n) <= 1 as real + n as real / 4194304 as real,
        factor(n) <= 2 as real,
    decreases n,
{
    if n > 0 {
        lemma_factor_bound((n - 1) as nat);
        let m = (n - 1) as real;
        let g = factor((n - 1) as nat);
        let e = 1 as real / 8388608 as real;
        let u = 8388609 as real / 8388608 as real;
        assert(u == 1 as real + e);
        assert(n as real == m + 1 as real);
        assert(g * u <= 1 as real + (m + 1 as real) * (2 as real * e) && g * u >= 1 as real)
            by (nonlinear_arith)
            requires
                u == 1 as real + e,
                e == 1 as real / 8388608 as real,
                0 as real <= m <= 1048576 as real,
                1 as real <= g <= 1 as real + m / 4194304 as real,
        ;
    }
}

pub proof fn lemma_near_weaken(x: real, y: real, m: nat, n: nat)
    requires
        near(x, y, m),
        m <= n,
        x >= 0 as real,
        y >= 0 as real,
    ensures
        near(x, y, n),
{
    let d = (n - m) as nat;
    lemma_factor_adds(m, d);
    lemma_factor_adds(0, m);
    let f = factor(m);
    let g = factor(d);
    assert(x * f <= x * (f * g) && y * f <= y * (f * g)) by (nonlinear_arith)
        requires
            x >= 0 as real,
            y >= 0 as real,
            f >= 1 as real,
            g >= 1 as real,
    ;
}

pub proof fn lemma_near_trans(x: real, y: real, z: real, m: nat, n: nat)
    requires
        near(x, y, m),
        near(y, z, n),
    ensures
        near(x, z, m + n),
{
    lemma_factor_adds(m, n);
    lemma_factor_adds(0, m);
    let f = factor(m);
    let g = factor(n);
    assert(x <= z * (f * g) && z <= x * (f * g)) by (nonlinear_arith)
        requires
            x <= y * f,
            y <= x * f,
            y <= z * g,
            z <= y * g,
            f >= 1 as real,
            g >= 1 as real,
    ;
}

pub proof fn lemma_near_product(x: real, y: real, m: nat, v: real, w: real, n: nat)
    requires
        near(x, y, m),
        near(v, w, n),
        x >= 0 as real,
        y >= 0 as real,
        v >= 0 as real,
        w >= 0 as real,
    ensures
        near(x * v, y * w, m + n),
{
    lemma_factor_adds(m, n);
    lemma_factor_adds(0, m);
    let f = factor(m);
    let g = factor(n);
    lemma_product_bound(x, y * f, v, w * g);
    lemma_product_bound(y, x * f, w, v * g);
    assert((y * f) * (w * g) == (y * w) * (f * g)) by (nonlinear_arith);
    assert((x * f) * (v * g) == (x * v) * (f * g)) by (nonlinear_arith);
}

proof fn lemma_product_bound(a: real, b: real, c: real, d: real)
    requires
        0 as real <= a <= b,
        0 as real <= c <= d,
    ensures
        a * c <= b * d,
{
    assert(a * c <= b * d) by (nonlinear_arith)
        requires
            0 as real <= a <= b,
            0 as real <= c <= d,
    ;
}

pub proof fn lemma_near_sum(x: real, y: real, v: real, w: real, n: nat)
    requires
        near(x, y, n),
        near(v, w, n),
    ensures
        near(x + v, y + w, n),
{
    let f = factor(n);
    assert((y + w) * f == y * f + w * f) by (nonlinear_arith);
    assert((x + v) * f == x * f + v * f) by (nonlinear_arith);
}

pub proof fn lemma_near_quotient(x: real, y: real, m: nat, v: real, w: real, n: nat)
    requires
        near(x, y, m),
        near(v, w, n),
        x >= 0 as real,
        y >= 0 as real,
        v > 0 as real,
        w > 0 as real,
    ensures
        near(x / v, y / w, m + n),
{
    let p = 1 as real / v;
    let q = 1 as real / w;
    let g = factor(n);
    assert(p > 0 as real && q > 0 as real && p <= q * g && q <= p * g) by (nonlinear_arith)
        requires
            p == 1 as real / v,
            q == 1 as real / w,
            v > 0 as real,
            w > 0 as real,
            v <= w * g,
            w <= v * g,
    ;
    lemma_near_product(x, y, m, p, q, n);
    assert(x * p == x / v) by (nonlinear_arith)
        requires
            p == 1 as real / v,
            v > 0 as real,
    ;
    assert(y * q == y / w) by (nonlinear_arith)
        requires
            q == 1 as real / w,
            w > 0 as real,
    ;
}

/// A number that is far from what overflows or loses digits by being small: 2^100 and its
/// inverse.
pub open spec fn is_moderate(x: real) -> bool {
    x == 0 as real || 1 as real / vast() <= x <= vast()
}

/// 2^100.
pub open spec fn vast() -> real {
    1267650600228229401496703205376 as real
}

/// Whether `x` is 0 or between 2^-98 and 2^98: what is near to it is moderate.
pub open spec fn is_safe(x: real) -> bool {
    x == 0 as real || 4 as real / vast() <= x <= vast() / 4 as real
}

/// Whether `a` is a finite number of positive sign.
pub open spec fn is_finite(a: Single) -> bool {
    a < INFINITY
}

/// Whether the operations of `A` round as those of IEEE 754 do: a result that is moderate
/// is off by no more than one rounding, a product that is small by no more than a very small
/// number besides, and conversions to integers cut off the fraction.
pub open spec fn is_precise<A: SingleArithmetic>() -> bool {
    &&& forall|a: Single, b: Single|
        is_finite(a) && is_finite(b) && is_moderate(value(a) + value(b)) ==> is_finite(
            #[trigger] A::plus_spec(a, b),
        ) && near(value(A::plus_spec(a, b)), value(a) + value(b), 1)
    &&& forall|a: Single, b: Single|
        is_finite(a) && b <= a && is_moderate(value(a) - value(b)) ==> is_finite(
            #[trigger] A::minus_spec(a, b),
        ) && near(value(A::minus_spec(a, b)), value(a) - value(b), 1)
    &&& forall|a: Single, b: Single|
        is_finite(a) && is_finite(b) && is_moderate(value(a) * value(b)) ==> is_finite(
            #[trigger] A::times_spec(a, b),
        ) && near(value(A::times_spec(a, b)), value(a) * value(b), 1)
    &&& forall|a: Single, b: Single|
        is_finite(a) && is_finite(b) && value(a) * value(b) <= vast() ==> is_finite(
            #[trigger] A::times_spec(a, b),
        ) && value(A::times_spec(a, b)) <= value(a) * value(b) * factor(1) + 1 as real / vast()
            && value(a) * value(b) <= value(A::times_spec(a, b)) * factor(1) + 1 as real / vast()
    &&& forall|a: Single, b: Single|
        is_finite(a) && is_finite(b) && b > 0 && is_moderate(value(a) / value(b)) ==> is_finite(
            #[trigger] A::over_spec(a, b),
        ) && near(value(A::over_spec(a, b)), value(a) / value(b), 1)
    &&& forall|n: u64|
        is_finite(#[trigger] A::of_int_spec(n)) && near(value(A::of_int_spec(n)), n as real, 1)
    &&& forall|a: Single| is_finite(a) ==> is_cut(value(a), #[trigger] A::to_u16_spec(a) as int, 65535)
    &&& forall|a: Single|
        is_finite(a) ==> is_cut(value(a), #[trigger] A::to_u32_spec(a) as int, u32::MAX as int)
    &&& forall|a: Single|
        is_finite(a) ==> is_cut(value(a), #[trigger] A::to_usize_spec(a) as int, usize::MAX as int)
}

/// Whether `n` is `x` without its fraction, or `most` if that is beyond.
pub open spec fn is_cut(x: real, n: int, most: int) -> bool {
    n as real <= x && (x < n as real + 1 as real || n == most)
}

/// A finite number of positive sign is worth something unless it is 0.
pub proof fn lemma_value_sign(a: Single)
    requires
        is_finite(a),
    ensures
        value(a) >= 0 as real,
        value(a) == 0 as real <==> a == 0,
{
    let exponent = magnitude(a) / 0x80_0000;
    let fraction = magnitude(a) % 0x80_0000;
    let scale = if exponent == 0 {
        exp2(-149)
    } else {
        exp2(exponent - 150)
    };
    lemma_exp2_positive(-149);
    lemma_exp2_positive(exponent - 150);
    let digits = if exponent == 0 {
        fraction
    } else {
        fraction + 0x80_0000
    };
    assert(value(a) == digits as real * scale);
    assert(digits as real * scale >= 0 as real) by (nonlinear_arith)
        requires
            digits as real >= 0 as real,
            scale > 0 as real,
    ;
    if digits > 0 {
        assert(digits as real * scale > 0 as real) by (nonlinear_arith)
            requires
                digits as real > 0 as real,
                scale > 0 as real,
        ;
    } else {
        assert(digits as real * scale == 0 as real) by (nonlinear_arith)
            requires
                digits as real == 0 as real,
        ;
        assert(a == 0);
    }
}

proof fn lemma_exp2_grows(j: int, k: int)
    requires
        j <= k,
    ensures
        exp2(j) <= exp2(k),
    decreases k - j,
{
    if j < k {
        lemma_exp2_grows(j, k - 1);
        lemma_exp2_positive(k - 1);
        lemma_exp2_step(k - 1);
    }
}

/// Patterns of positive sign are ordered as the numbers they stand for.
pub proof fn lemma_value_order(a: Single, b: Single)
    requires
        is_finite(a),
        is_finite(b),
    ensures
        a < b <==> value(a) < value(b),
{
    lemma_value_grows(a, b);
    lemma_value_grows(b, a);
}

proof fn lemma_value_grows(a: Single, b: Single)
    requires
        is_finite(a),
        is_finite(b),
    ensures
        a < b ==> value(a) < value(b),
{
    if a < b {
        let e = a as int / 0x80_0000;
        let g = b as int / 0x80_0000;
        let m = a as int % 0x80_0000;
        let n = b as int % 0x80_0000;
        assert(magnitude(a) == a && magnitude(b) == b);
        let p = if e == 0 { m } else { m + 0x80_0000 };
        let q = if g == 0 { n } else { n + 0x80_0000 };
        let s = if e == 0 { exp2(-149) } else { exp2(e - 150) };
        let t = if g == 0 { exp2(-149) } else { exp2(g - 150) };
        assert(value(a) == p as real * s);
        assert(value(b) == q as real * t);
        lemma_exp2_positive(-149);
        lemma_exp2_positive(e - 150);
        if e == g {
            assert(p < q);
            assert(p as real * s < q as real * s) by (nonlinear_arith)
                requires
                    (p as real) < (q as real),
                    s > 0 as real,
            ;
        } else {
            assert(e < g);
            if e == 0 {
                lemma_exp2_grows(-149, g - 150);
                assert(s <= t);
                assert(p as real * s < q as real * t) by (nonlinear_arith)
                    requires
                        0 as real <= (p as real) < (q as real),
                        (0 as real) < s <= t,
                ;
            } else {
                lemma_exp2_step(e - 150);
                lemma_exp2_grows(e - 149, g - 150);
                assert(2 as real * s <= t);
                assert(p as real * s < q as real * t) by (nonlinear_arith)
                    requires
                        0 as real <= (p as real) < 16777216 as real,
                        q as real >= 8388608 as real,
                        (0 as real) < s,
                        2 as real * s <= t,
                ;
            }
        }
    }
}

/// What is near to a safe number is moderate.
proof fn lemma_near_safe(x: real, y: real, n: nat)
    requires
        near(x, y, n),
        n <= 0x10_0000,
        is_safe(y),
        x >= 0 as real,
    ensures
        is_moderate(x),
{
    lemma_factor_bound(n);
    let f = factor(n);
    if y == 0 as real {
        assert(x <= 0 as real) by (nonlinear_arith)
            requires
                x <= y * f,
                y == 0 as real,
        ;
    } else {
        assert(x <= 2 as real * y && y <= 2 as real * x) by (nonlinear_arith)
            requires
                x <= y * f,
                y <= x * f,
                x >= 0 as real,
                y >= 0 as real,
                f <= 2 as real,
        ;
    }
}

/// A sum of what is near to `x` and to `y`.
pub proof fn lemma_plus<A: SingleArithmetic>(a: Single, b: Single, x: real, y: real, n: nat)
    requires
        is_precise::<A>(),
        is_finite(a) && is_finite(b),
        near(value(a), x, n),
        near(value(b), y, n),
        n <= 0x10_0000,
        is_safe(x + y),
    ensures
        is_finite(A::plus_spec(a, b)),
        near(value(A::plus_spec(a, b)), x + y, n + 1),
{
    lemma_value_sign(a);
    lemma_value_sign(b);
    lemma_near_sum(value(a), x, value(b), y, n);
    lemma_near_safe(value(a) + value(b), x + y, n);
    lemma_near_trans(value(A::plus_spec(a, b)), value(a) + value(b), x + y, 1, n);
}

/// A product of what is near to `x` and to `y`.
pub proof fn lemma_times<A: SingleArithmetic>(
    a: Single,
    b: Single,
    x: real,
    m: nat,
    y: real,
    n: nat,
)
    requires
        is_precise::<A>(),
        is_finite(a) && is_finite(b),
        near(value(a), x, m),
        near(value(b), y, n),
        x >= 0 as real && y >= 0 as real,
        m + n <= 0x10_0000,
        is_safe(x * y),
    ensures
        is_finite(A::times_spec(a, b)),
        near(value(A::times_spec(a, b)), x * y, m + n + 1),
{
    lemma_value_sign(a);
    lemma_value_sign(b);
    lemma_near_product(value(a), x, m, value(b), y, n);
    assert(value(a) * value(b) >= 0 as real) by (nonlinear_arith)
        requires
            value(a) >= 0 as real,
            value(b) >= 0 as real,
    ;
    lemma_near_safe(value(a) * value(b), x * y, m + n);
    lemma_near_trans(value(A::times_spec(a, b)), value(a) * value(b), x * y, 1, m + n);
}

/// A quotient of what is near to `x` and to `y`.
pub proof fn lemma_over<A: SingleArithmetic>(
    a: Single,
    b: Single,
    x: real,
    m: nat,
    y: real,
    n: nat,
)
    requires
        is_precise::<A>(),
        is_finite(a) && is_finite(b),
        near(value(a), x, m),
        near(value(b), y, n),
        x >= 0 as real && y > 0 as real,
        m + n <= 0x10_0000,
        is_safe(x / y),
    ensures
        b > 0,
        is_finite(A::over_spec(a, b)),
        near(value(A::over_spec(a, b)), x / y, m + n + 1),
{
    lemma_value_sign(a);
    lemma_value_sign(b);
    lemma_factor_bound(n);
    let f = factor(n);
    let w = value(b);
    assert(w > 0 as real) by (nonlinear_arith)
        requires
            y <= w * f,
            y > 0 as real,
            w >= 0 as real,
            f >= 1 as real,
    ;
    lemma_near_quotient(value(a), x, m, w, y, n);
    assert(value(a) / w >= 0 as real) by (nonlinear_arith)
        requires
            value(a) >= 0 as real,
            w > 0 as real,
    ;
    lemma_near_safe(value(a) / w, x / y, m + n);
    lemma_near_trans(value(A::over_spec(a, b)), value(a) / w, x / y, 1, m + n);
}

pub proof fn lemma_near_itself(x: real)
    ensures
        near(x, x, 0),
{
    assert(x * factor(0) == x);
}

} // verus!
