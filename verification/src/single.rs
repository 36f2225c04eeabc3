//! Single-precision numbers, held as their bit patterns.
//!
//! A [`Single`] is the 32-bit pattern of an IEEE 754 binary32 number. What the
//! pattern alone decides (which of two numbers is the smaller, which pattern is
//! not a number) is computed here. What rounds (sums, products, quotients,
//! conversions) comes from a [`SingleArithmetic`], which the caller supplies.
use vstd::prelude::*;

verus! {

/// The bit pattern of an IEEE 754 binary32 number.
pub type Single = u32;

/// The pattern with only the sign bit set; a pattern below it is not negative.
pub const SIGN_BIT: u32 = 0x8000_0000;

/// The pattern of positive infinity. A greater magnitude is not a number.
pub const INFINITY: Single = 0x7f80_0000;

/// The number 0.
pub const ZERO: Single = 0;

/// The number 1.
pub const ONE: Single = 0x3f80_0000;

/// How fast a repeated term stops adding to a BM25 score: 1.2.
pub const K1: Single = 0x3f99_999a;

/// How much the length of a document weighs in its BM25 score: 0.75.
pub const B: Single = 0x3f40_0000;

/// The quantized value to which the greatest possible score is mapped: 65000.
pub const QUANTIZED_TOP: Single = 0x477d_e800;

/// The share of the threshold under which the terms that are left are skipped: 0.05.
pub const EXIT_SHARE: Single = 0x3d4c_cccd;

/// The operations on single-precision numbers that round.
///
/// The trait promises nothing. For each operation `op` there is a specification
/// function `op_spec`, by default whatever `op` returns; [`lawful`] says that the
/// two agree, which makes each operation a function of its arguments.
pub trait SingleArithmetic {
    open spec fn plus_spec(a: Single, b: Single) -> Single {
        choose|r: Single| call_ensures(Self::plus, (a, b), r)
    }

    open spec fn minus_spec(a: Single, b: Single) -> Single {
        choose|r: Single| call_ensures(Self::minus, (a, b), r)
    }

    open spec fn times_spec(a: Single, b: Single) -> Single {
        choose|r: Single| call_ensures(Self::times, (a, b), r)
    }

    open spec fn over_spec(a: Single, b: Single) -> Single {
        choose|r: Single| call_ensures(Self::over, (a, b), r)
    }

    open spec fn of_int_spec(n: u64) -> Single {
        choose|r: Single| call_ensures(Self::of_int, (n,), r)
    }

    open spec fn to_u16_spec(a: Single) -> u16 {
        choose|r: u16| call_ensures(Self::to_u16, (a,), r)
    }

    open spec fn to_u32_spec(a: Single) -> u32 {
        choose|r: u32| call_ensures(Self::to_u32, (a,), r)
    }

    open spec fn to_usize_spec(a: Single) -> usize {
        choose|r: usize| call_ensures(Self::to_usize, (a,), r)
    }

    /// The sum of `a` and `b`.
    fn plus(a: Single, b: Single) -> Single;

    /// The difference of `a` and `b`.
    fn minus(a: Single, b: Single) -> Single;

    /// The product of `a` and `b`.
    fn times(a: Single, b: Single) -> Single;

    /// The quotient of `a` and `b`.
    fn over(a: Single, b: Single) -> Single;

    /// The number nearest to the integer `n`.
    fn of_int(n: u64) -> Single;

    /// The integer part of `a`, brought into the range of `u16`.
    fn to_u16(a: Single) -> u16;

    /// The integer part of `a`, brought into the range of `u32`.
    fn to_u32(a: Single) -> u32;

    /// The integer part of `a`, brought into the range of `usize`.
    fn to_usize(a: Single) -> usize;
}

/// Each operation of `A` returns what its specification function says.
pub open spec fn lawful<A: SingleArithmetic>() -> bool {
    &&& forall|a: Single, b: Single, r: Single|
        #[trigger] call_ensures(A::plus, (a, b), r) ==> r == A::plus_spec(a, b)
    &&& forall|a: Single, b: Single, r: Single|
        #[trigger] call_ensures(A::minus, (a, b), r) ==> r == A::minus_spec(a, b)
    &&& forall|a: Single, b: Single, r: Single|
        #[trigger] call_ensures(A::times, (a, b), r) ==> r == A::times_spec(a, b)
    &&& forall|a: Single, b: Single, r: Single|
        #[trigger] call_ensures(A::over, (a, b), r) ==> r == A::over_spec(a, b)
    &&& forall|n: u64, r: Single|
        #[trigger] call_ensures(A::of_int, (n,), r) ==> r == A::of_int_spec(n)
    &&& forall|a: Single, r: u16|
        #[trigger] call_ensures(A::to_u16, (a,), r) ==> r == A::to_u16_spec(a)
    &&& forall|a: Single, r: u32|
        #[trigger] call_ensures(A::to_u32, (a,), r) ==> r == A::to_u32_spec(a)
    &&& forall|a: Single, r: usize|
        #[trigger] call_ensures(A::to_usize, (a,), r) ==> r == A::to_usize_spec(a)
}

/// The pattern without its sign bit.
pub open spec fn magnitude(a: Single) -> int {
    if a < SIGN_BIT {
        a as int
    } else {
        a - SIGN_BIT
    }
}

/// Whether the pattern stands for no number.
pub open spec fn is_nan(a: Single) -> bool {
    magnitude(a) > INFINITY
}

/// An integer that orders numbers by their value; the two zeros share one.
pub open spec fn value_order(a: Single) -> int {
    if a < SIGN_BIT {
        a as int
    } else {
        -magnitude(a)
    }
}

/// Whether `a` is a smaller number than `b`. Nothing is smaller or greater than
/// what is not a number.
pub open spec fn less(a: Single, b: Single) -> bool {
    !is_nan(a) && !is_nan(b) && value_order(a) < value_order(b)
}

/// An integer that orders all patterns: numbers by value, the negative zero
/// before the positive one, and what is not a number at the two ends.
pub open spec fn total_order(a: Single) -> int {
    if a < SIGN_BIT {
        a as int
    } else {
        -magnitude(a) - 1
    }
}

/// The greater of `a` and `b`; the other one where one of them is not a number.
pub open spec fn greater_of(a: Single, b: Single) -> Single {
    if is_nan(a) || less(a, b) {
        b
    } else {
        a
    }
}

/// Decides [`is_nan`].
pub fn not_a_number(a: Single) -> (r: bool)
    ensures
        r == is_nan(a),
{
    if a < SIGN_BIT {
        a > INFINITY
    } else {
        a - SIGN_BIT > INFINITY
    }
}

/// Decides [`less`].
pub fn less_than(a: Single, b: Single) -> (r: bool)
    ensures
        r == less(a, b),
{
    if not_a_number(a) || not_a_number(b) {
        false
    } else if a < SIGN_BIT {
        b < SIGN_BIT && a < b
    } else if b < SIGN_BIT {
        a > SIGN_BIT || b > 0
    } else {
        a > b
    }
}

/// Decides whether `a` comes before `b` in [`total_order`].
pub fn comes_before(a: Single, b: Single) -> (r: bool)
    ensures
        r == (total_order(a) < total_order(b)),
{
    if a < SIGN_BIT {
        b < SIGN_BIT && a < b
    } else {
        b < SIGN_BIT || a > b
    }
}

/// Computes [`greater_of`].
pub fn maximum(a: Single, b: Single) -> (r: Single)
    ensures
        r == greater_of(a, b),
{
    if not_a_number(a) || less_than(a, b) {
        b
    } else {
        a
    }
}

} // verus!
