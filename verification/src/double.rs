//! Comparing binary64 floating point numbers by their bit patterns.

use vstd::arithmetic::power2::{lemma_pow2_adds, lemma_pow2_pos, lemma_pow2_unfold, pow2};
use vstd::prelude::*;
use vstd::std_specs::cmp::PartialEqSpecImpl;

verus! {

/// The bit pattern of the sign.
pub const SIGN_BIT: u64 = 0x8000_0000_0000_0000;

/// The bit pattern of positive infinity. A larger magnitude is not a number.
pub const INFINITY_BITS: u64 = 0x7ff0_0000_0000_0000;

/// One more than the largest fraction field.
pub const FRACTION_LIMIT: u64 = 0x10_0000_0000_0000;

/// The bit pattern of zero.
pub const ZERO_BITS: u64 = 0;

/// The bit pattern of five.
pub const FIVE_BITS: u64 = 0x4014_0000_0000_0000;

/// The bit pattern of one hundred.
pub const HUNDRED_BITS: u64 = 0x4059_0000_0000_0000;

/// A binary64 floating point number, held as its bit pattern.
///
/// `==` compares numbers: zero has two patterns that are equal, and what is not a number
/// equals nothing. In contracts `==` compares patterns, and `spec_equals` numbers.
#[derive(Clone, Copy, Debug)]
pub struct Double {
    pub bits: u64,
}

impl PartialEq for Double {
    fn eq(&self, other: &Double) -> (r: bool) {
        self.equals(other)
    }
}

impl PartialEqSpecImpl for Double {
    open spec fn obeys_eq_spec() -> bool {
        true
    }

    open spec fn eq_spec(&self, other: &Double) -> bool {
        self.spec_equals(*other)
    }
}

/// What the exponent and fraction fields say, in units of the smallest positive
/// number, which is two to the power of -1074. Infinity comes out as the number
/// that would follow the largest finite one.
pub open spec fn magnitude_value(magnitude: int) -> int {
    let exponent = magnitude / FRACTION_LIMIT as int;
    let fraction = magnitude % FRACTION_LIMIT as int;
    if exponent == 0 {
        fraction
    } else {
        (FRACTION_LIMIT + fraction) * pow2((exponent - 1) as nat)
    }
}

/// The whole number `n`, in the units of [`Double::value`].
pub open spec fn whole(n: int) -> int {
    n * pow2(1074)
}

/// One half, in the units of [`Double::value`].
pub open spec fn half() -> int {
    pow2(1073) as int
}

/// How far apart two numbers are.
pub open spec fn distance(a: int, b: int) -> int {
    if a < b {
        b - a
    } else {
        a - b
    }
}

impl Double {
    /// The number is what `exact` is rounded to: none is nearer, and of two that are
    /// equally near it is the one with the even pattern.
    pub open spec fn is_nearest(self, exact: int) -> bool {
        &&& !self.is_nan()
        &&& forall|other: Double|
            !(#[trigger] other.is_nan()) ==> {
                ||| distance(exact, self.value()) < distance(exact, other.value())
                ||| self.value() == other.value()
                ||| distance(exact, self.value()) == distance(exact, other.value()) && self.bits % 2
                    == 0
            }
    }

    /// The pattern without the sign.
    pub open spec fn magnitude(self) -> int {
        if self.bits >= SIGN_BIT {
            self.bits - SIGN_BIT
        } else {
            self.bits as int
        }
    }

    pub open spec fn is_nan(self) -> bool {
        self.magnitude() > INFINITY_BITS
    }

    /// The number itself, in units of two to the power of -1074.
    pub open spec fn value(self) -> int {
        if self.bits >= SIGN_BIT {
            -magnitude_value(self.magnitude())
        } else {
            magnitude_value(self.magnitude())
        }
    }

    pub open spec fn spec_at_most(self, other: Double) -> bool {
        !self.is_nan() && !other.is_nan() && self.value() <= other.value()
    }

    /// Whether the number is at most the whole number `n`.
    pub open spec fn spec_at_most_whole(self, n: int) -> bool {
        !self.is_nan() && self.value() <= whole(n)
    }

    pub open spec fn spec_less_than(self, other: Double) -> bool {
        !self.is_nan() && !other.is_nan() && self.value() < other.value()
    }

    pub open spec fn spec_equals(self, other: Double) -> bool {
        !self.is_nan() && !other.is_nan() && self.value() == other.value()
    }

    /// The position of the number among all numbers: patterns in order of value.
    spec fn rank(self) -> int {
        if self.bits >= SIGN_BIT {
            -self.magnitude()
        } else {
            self.magnitude()
        }
    }

    proof fn lemma_rank_orders(self, other: Double)
        ensures
            self.rank() < other.rank() ==> self.value() < other.value(),
            self.rank() == other.rank() ==> self.value() == other.value(),
    {
        lemma_magnitude_values_are_not_negative(self.magnitude());
        lemma_magnitude_values_are_not_negative(other.magnitude());
        if self.magnitude() < other.magnitude() {
            lemma_magnitude_values_ascend(self.magnitude(), other.magnitude());
        }
        if other.magnitude() < self.magnitude() {
            lemma_magnitude_values_ascend(other.magnitude(), self.magnitude());
        }
    }

    /// A number is rounded to one number only.
    pub proof fn lemma_nearest_is_unique(self, other: Double, exact: int)
        requires
            self.is_nearest(exact),
            other.is_nearest(exact),
        ensures
            self.value() == other.value(),
    {
        self.lemma_nearest_is_not_less(other, exact);
        other.lemma_nearest_is_not_less(self, exact);
    }

    proof fn lemma_nearest_is_not_less(self, other: Double, exact: int)
        requires
            self.is_nearest(exact),
            other.is_nearest(exact),
        ensures
            self.value() >= other.value(),
    {
        assert(!self.is_nan() && !other.is_nan());
        self.lemma_rank_orders(other);
        other.lemma_rank_orders(self);
        let rank = self.rank() + 1;
        let between = if rank >= 0 {
            Double { bits: rank as u64 }
        } else {
            Double { bits: (SIGN_BIT - rank) as u64 }
        };
        assert(between.rank() == rank);
        if self.value() < other.value() && rank < other.rank() {
            self.lemma_rank_orders(between);
            between.lemma_rank_orders(other);
            assert(!between.is_nan());
        }
    }

    fn nan(&self) -> (r: bool)
        ensures
            r == self.is_nan(),
    {
        let magnitude: u64 = if self.bits >= SIGN_BIT {
            self.bits - SIGN_BIT
        } else {
            self.bits
        };
        magnitude > INFINITY_BITS
    }

    fn position(&self) -> (r: i128)
        ensures
            r == self.rank(),
    {
        if self.bits >= SIGN_BIT {
            -((self.bits - SIGN_BIT) as i128)
        } else {
            self.bits as i128
        }
    }

    /// Whether the number is less than or equal to the other; false where either
    /// is not a number.
    pub fn at_most(&self, other: &Double) -> (r: bool)
        ensures
            r == self.spec_at_most(*other),
    {
        proof {
            self.lemma_rank_orders(*other);
            other.lemma_rank_orders(*self);
        }
        !self.nan() && !other.nan() && self.position() <= other.position()
    }

    /// Whether the number is less than the other; false where either is not a
    /// number.
    pub fn less_than(&self, other: &Double) -> (r: bool)
        ensures
            r == self.spec_less_than(*other),
    {
        proof {
            self.lemma_rank_orders(*other);
            other.lemma_rank_orders(*self);
        }
        !self.nan() && !other.nan() && self.position() < other.position()
    }

    /// Whether the two are the same number; false where either is not a number.
    pub fn equals(&self, other: &Double) -> (r: bool)
        ensures
            r == self.spec_equals(*other),
    {
        proof {
            self.lemma_rank_orders(*other);
            other.lemma_rank_orders(*self);
        }
        !self.nan() && !other.nan() && self.position() == other.position()
    }
}

proof fn lemma_next_magnitude_value(magnitude: int)
    requires
        0 <= magnitude,
    ensures
        magnitude_value(magnitude) < magnitude_value(magnitude + 1),
{
    let limit = FRACTION_LIMIT as int;
    let exponent = magnitude / limit;
    let fraction = magnitude % limit;
    assert(magnitude == exponent * limit + fraction && 0 <= exponent && 0 <= fraction < limit)
        by (nonlinear_arith)
        requires
            0 <= magnitude,
            limit == 0x10_0000_0000_0000,
            exponent == magnitude / limit,
            fraction == magnitude % limit,
    ;
    if fraction + 1 < limit {
        assert((magnitude + 1) / limit == exponent && (magnitude + 1) % limit == fraction + 1)
            by (nonlinear_arith)
            requires
                magnitude == exponent * limit + fraction,
                0 <= fraction,
                fraction + 1 < limit,
        ;
        if exponent > 0 {
            let unit = pow2((exponent - 1) as nat) as int;
            lemma_pow2_pos((exponent - 1) as nat);
            assert((limit + fraction) * unit < (limit + fraction + 1) * unit) by (nonlinear_arith)
                requires
                    unit > 0,
            ;
        }
    } else {
        assert((magnitude + 1) / limit == exponent + 1 && (magnitude + 1) % limit == 0)
            by (nonlinear_arith)
            requires
                magnitude == exponent * limit + fraction,
                limit > 0,
                fraction + 1 == limit,
        ;
        if exponent > 0 {
            let unit = pow2((exponent - 1) as nat) as int;
            lemma_pow2_pos((exponent - 1) as nat);
            lemma_pow2_unfold(exponent as nat);
            assert((limit + fraction) * unit < (limit + 0) * (2 * unit)) by (nonlinear_arith)
                requires
                    unit > 0,
                    fraction + 1 == limit,
            ;
        } else {
            vstd::arithmetic::power2::lemma2_to64();
        }
    }
}

proof fn lemma_magnitude_values_ascend(low: int, high: int)
    requires
        0 <= low < high,
    ensures
        magnitude_value(low) < magnitude_value(high),
    decreases high - low,
{
    lemma_next_magnitude_value(high - 1);
    if low < high - 1 {
        lemma_magnitude_values_ascend(low, high - 1);
    }
}

proof fn lemma_magnitude_values_are_not_negative(magnitude: int)
    requires
        0 <= magnitude,
    ensures
        0 <= magnitude_value(magnitude),
        0 < magnitude ==> 0 < magnitude_value(magnitude),
{
    if 0 < magnitude {
        lemma_magnitude_values_ascend(0, magnitude);
    }
}

/// Zero, one hundred and five have the patterns that the constants give them.
pub proof fn lemma_patterns_of_whole_numbers()
    ensures
        (Double { bits: ZERO_BITS }).value() == whole(0),
        (Double { bits: FIVE_BITS }).value() == whole(5),
        (Double { bits: HUNDRED_BITS }).value() == whole(100),
        !(Double { bits: ZERO_BITS }).is_nan(),
        !(Double { bits: FIVE_BITS }).is_nan(),
        !(Double { bits: HUNDRED_BITS }).is_nan(),
{
    vstd::arithmetic::power2::lemma2_to64();
    let limit = FRACTION_LIMIT as int;
    assert(FIVE_BITS as int / limit == 1025 && FIVE_BITS as int % limit == 0x4_0000_0000_0000);
    assert(HUNDRED_BITS as int / limit == 1029 && HUNDRED_BITS as int % limit == 0x9_0000_0000_0000);
    lemma_pow2_adds(1024, 50);
    lemma_pow2_adds(1028, 46);
    lemma_pow2_adds(32, 18);
    lemma_pow2_adds(32, 14);
    assert(pow2(50) == 0x4_0000_0000_0000);
    assert(pow2(46) == 0x4000_0000_0000);
    let p = pow2(1024) as int;
    let q = pow2(1028) as int;
    assert((limit + 0x4_0000_0000_0000) * p == 5 * (p * 0x4_0000_0000_0000)) by (nonlinear_arith)
        requires
            limit == 0x10_0000_0000_0000,
    ;
    assert((limit + 0x9_0000_0000_0000) * q == 100 * (q * 0x4000_0000_0000)) by (nonlinear_arith)
        requires
            limit == 0x10_0000_0000_0000,
    ;
}

/// What the fields of a pattern say: with exponent field `e` and fraction field `f` it is
/// `f` units where `e` is zero, and otherwise two to the power of 52, and `f`, times two
/// to the power of `e` less one. The highest bit is the sign. The highest exponent with a
/// fraction is not a number.
pub proof fn law_fields_make_the_number(e: int, f: int)
    requires
        0 <= e < 2048,
        0 <= f < 0x10_0000_0000_0000,
    ensures
        ({
            let magnitude = e * 0x10_0000_0000_0000 + f;
            let positive = Double { bits: magnitude as u64 };
            let negative = Double { bits: (0x8000_0000_0000_0000 + magnitude) as u64 };
            let units = if e == 0 {
                f
            } else {
                (0x10_0000_0000_0000 + f) * pow2((e - 1) as nat)
            };
            &&& positive.is_nan() == (e == 2047 && f > 0)
            &&& negative.is_nan() == (e == 2047 && f > 0)
            &&& positive.value() == units
            &&& negative.value() == -units
        }),
{
    let magnitude = e * 0x10_0000_0000_0000 + f;
    assert(0 <= magnitude < 0x8000_0000_0000_0000);
    assert(magnitude / 0x10_0000_0000_0000 == e && magnitude % 0x10_0000_0000_0000 == f);
}

/// Comparisons are those of the numbers, and fail where either is not a number.
pub proof fn law_comparisons_are_of_numbers(a: Double, b: Double, n: int)
    ensures
        a.spec_at_most(b) == (!a.is_nan() && !b.is_nan() && a.value() <= b.value()),
        a.spec_less_than(b) == (!a.is_nan() && !b.is_nan() && a.value() < b.value()),
        a.spec_equals(b) == (!a.is_nan() && !b.is_nan() && a.value() == b.value()),
        a.spec_at_most_whole(n) == (!a.is_nan() && a.value() <= n * pow2(1074)),
        whole(n) == n * pow2(1074),
        2 * half() == whole(1),
{
    lemma_pow2_unfold(1074);
}

} // verus!
