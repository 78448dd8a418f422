//! Double-precision numbers, carried by their IEEE 754 bit patterns.
//!
//! The library compares such numbers, stores them and hands them back; it does no
//! arithmetic on them. Which of two numbers is the larger can be read off the bit
//! patterns: the sign is the top bit, and the rest of the pattern grows with the
//! magnitude.
use vstd::prelude::*;

verus! {

/// The sign bit; also the pattern of the negative zero.
pub const SIGN_BIT: u64 = 0x8000_0000_0000_0000;

/// The pattern of positive infinity. A magnitude above it is not a number.
pub const INFINITY_BITS: u64 = 0x7FF0_0000_0000_0000;

/// The pattern of negative infinity.
pub const NEG_INFINITY_BITS: u64 = 0xFFF0_0000_0000_0000;

/// The pattern of 1.
pub const ONE_BITS: u64 = 0x3FF0_0000_0000_0000;

/// The pattern of one half.
pub const HALF_BITS: u64 = 0x3FE0_0000_0000_0000;

/// The pattern of the double nearest to one tenth.
pub const TENTH_BITS: u64 = 0x3FB9_9999_9999_999A;

/// A double-precision number.
#[derive(Clone, Copy, Debug, PartialEq, Eq, Structural)]
pub struct Real {
    pub bits: u64,
}

impl Real {
    /// The pattern without its sign.
    pub open spec fn magnitude(self) -> int {
        if self.bits >= SIGN_BIT {
            self.bits - SIGN_BIT
        } else {
            self.bits as int
        }
    }

    pub open spec fn is_nan(self) -> bool {
        self.magnitude() > INFINITY_BITS
    }

    /// Grows with the number that the pattern stands for. The two zeros share rank zero.
    pub open spec fn rank(self) -> int {
        if self.bits >= SIGN_BIT {
            -self.magnitude()
        } else {
            self.magnitude()
        }
    }

    /// `<` on doubles: false where either side is not a number.
    pub open spec fn lt(self, other: Real) -> bool {
        !self.is_nan() && !other.is_nan() && self.rank() < other.rank()
    }

    /// `>=` on doubles: false where either side is not a number.
    pub open spec fn ge(self, other: Real) -> bool {
        !self.is_nan() && !other.is_nan() && self.rank() >= other.rank()
    }

    /// The larger of two doubles; the other one where one is not a number.
    pub open spec fn larger(self, other: Real) -> Real {
        if other.is_nan() {
            self
        } else if self.is_nan() || self.rank() < other.rank() {
            other
        } else {
            self
        }
    }

    /// The smaller of two doubles; the other one where one is not a number.
    pub open spec fn smaller(self, other: Real) -> Real {
        if other.is_nan() {
            self
        } else if self.is_nan() || other.rank() < self.rank() {
            other
        } else {
            self
        }
    }

    pub fn from_bits(bits: u64) -> (r: Real)
        ensures
            r.bits == bits,
    {
        Real { bits }
    }

    pub fn zero() -> (r: Real)
        ensures
            r == zero(),
    {
        Real { bits: 0 }
    }

    fn not_a_number(&self) -> (r: bool)
        ensures
            r == self.is_nan(),
    {
        let magnitude: u64 = if self.bits >= SIGN_BIT {
            self.bits - SIGN_BIT
        } else {
            self.bits
        };
        magnitude > INFINITY_BITS
    }

    fn rank_below(&self, other: &Real) -> (r: bool)
        ensures
            r == (self.rank() < other.rank()),
    {
        if self.bits >= SIGN_BIT {
            if other.bits >= SIGN_BIT {
                self.bits > other.bits
            } else {
                self.bits > SIGN_BIT || other.bits > 0
            }
        } else {
            other.bits < SIGN_BIT && self.bits < other.bits
        }
    }

    /// `self < other`.
    pub fn less_than(&self, other: &Real) -> (r: bool)
        ensures
            r == self.lt(*other),
    {
        !self.not_a_number() && !other.not_a_number() && self.rank_below(other)
    }

    /// `self >= other`.
    pub fn at_least(&self, other: &Real) -> (r: bool)
        ensures
            r == self.ge(*other),
    {
        !self.not_a_number() && !other.not_a_number() && !self.rank_below(other)
    }

    /// The larger of the two, as `max` of doubles.
    pub fn max_with(&self, other: &Real) -> (r: Real)
        ensures
            r == self.larger(*other),
    {
        if !other.not_a_number() && (self.not_a_number() || self.rank_below(other)) {
            *other
        } else {
            *self
        }
    }

    /// The smaller of the two, as `min` of doubles.
    pub fn min_with(&self, other: &Real) -> (r: Real)
        ensures
            r == self.smaller(*other),
    {
        if !other.not_a_number() && (self.not_a_number() || other.rank_below(self)) {
            *other
        } else {
            *self
        }
    }
}

pub open spec fn zero() -> Real {
    Real { bits: 0 }
}

pub open spec fn infinity() -> Real {
    Real { bits: INFINITY_BITS }
}

pub open spec fn neg_infinity() -> Real {
    Real { bits: NEG_INFINITY_BITS }
}

/// The largest number of `s`, starting from negative infinity.
pub open spec fn largest(s: Seq<Real>) -> Real
    decreases s.len(),
{
    if s.len() == 0 {
        neg_infinity()
    } else {
        largest(s.drop_last()).larger(s.last())
    }
}

/// The smallest number of `s`, starting from infinity.
pub open spec fn smallest(s: Seq<Real>) -> Real
    decreases s.len(),
{
    if s.len() == 0 {
        infinity()
    } else {
        smallest(s.drop_last()).smaller(s.last())
    }
}

/// The largest number is a number, none of the list is above it, and it is in the list
/// unless it is negative infinity.
pub proof fn law_largest_is_bound(s: Seq<Real>)
    ensures
        !largest(s).is_nan(),
        forall|i: int| 0 <= i < s.len() ==> !largest(s).lt(#[trigger] s[i]),
        s.contains(largest(s)) || largest(s) == neg_infinity(),
    decreases s.len(),
{
    if s.len() > 0 {
        let rest = s.drop_last();
        law_largest_is_bound(rest);
        assert forall|i: int| 0 <= i < s.len() implies !largest(s).lt(#[trigger] s[i]) by {
            if i < rest.len() {
                assert(!largest(rest).lt(rest[i]));
            }
        }
        if largest(s) == s.last() {
            assert(s[s.len() - 1] == largest(s));
        } else if rest.contains(largest(rest)) {
            let k = choose|k: int| 0 <= k < rest.len() && rest[k] == largest(rest);
            assert(s[k] == largest(s));
        }
    }
}

/// The smallest number is a number, none of the list is below it, and it is in the list
/// unless it is infinity.
pub proof fn law_smallest_is_bound(s: Seq<Real>)
    ensures
        !smallest(s).is_nan(),
        forall|i: int| 0 <= i < s.len() ==> !(#[trigger] s[i]).lt(smallest(s)),
        s.contains(smallest(s)) || smallest(s) == infinity(),
    decreases s.len(),
{
    if s.len() > 0 {
        let rest = s.drop_last();
        law_smallest_is_bound(rest);
        assert forall|i: int| 0 <= i < s.len() implies !(#[trigger] s[i]).lt(smallest(s)) by {
            if i < rest.len() {
                assert(!rest[i].lt(smallest(rest)));
            }
        }
        if smallest(s) == s.last() {
            assert(s[s.len() - 1] == smallest(s));
        } else if rest.contains(smallest(rest)) {
            let k = choose|k: int| 0 <= k < rest.len() && rest[k] == smallest(rest);
            assert(s[k] == smallest(s));
        }
    }
}

/// The order of numbers: one that is no number stands in no order, and any two numbers are the
/// one below the other or as large as one another.
pub proof fn law_order(a: Real, b: Real, c: Real)
    ensures
        !a.lt(a),
        a.lt(b) ==> !b.lt(a),
        a.lt(b) && b.lt(c) ==> a.lt(c),
        a.is_nan() ==> !a.lt(b) && !b.lt(a) && !a.ge(b) && !b.ge(a),
        !a.is_nan() && !b.is_nan() ==> a.ge(b) == !a.lt(b),
        !a.is_nan() ==> a.ge(a),
{
}

/// The order of numbers by their bits: without a sign the larger bits are the larger number, with
/// one the smaller, and a number with a sign is below one without unless both are zero.
pub proof fn law_order_of_bits(a: Real, b: Real)
    requires
        a.bits <= 0x7FF0_0000_0000_0000 || 0x8000_0000_0000_0000 <= a.bits
            <= 0xFFF0_0000_0000_0000,
        b.bits <= 0x7FF0_0000_0000_0000 || 0x8000_0000_0000_0000 <= b.bits
            <= 0xFFF0_0000_0000_0000,
    ensures
        a.bits < 0x8000_0000_0000_0000 && b.bits < 0x8000_0000_0000_0000 ==> (a.lt(b) <==> a.bits
            < b.bits),
        a.bits >= 0x8000_0000_0000_0000 && b.bits >= 0x8000_0000_0000_0000 ==> (a.lt(b) <==> a.bits
            > b.bits),
        a.bits >= 0x8000_0000_0000_0000 && b.bits < 0x8000_0000_0000_0000 ==> (a.lt(b) <==> !(
        a.bits == 0x8000_0000_0000_0000 && b.bits == 0)),
        a.bits < 0x8000_0000_0000_0000 && b.bits >= 0x8000_0000_0000_0000 ==> !a.lt(b),
        a.ge(b) == !a.lt(b),
{
}

/// Bits beyond those of the two infinities are no number.
pub proof fn law_no_numbers(a: Real)
    ensures
        a.is_nan() <==> (0x7FF0_0000_0000_0000 < a.bits < 0x8000_0000_0000_0000 || a.bits
            > 0xFFF0_0000_0000_0000),
{
}

/// Of two numbers the larger and the smaller one are among the two and bound them; what is no
/// number gives way.
pub proof fn law_larger_and_smaller(a: Real, b: Real)
    ensures
        a.is_nan() && !b.is_nan() ==> a.larger(b) == b && a.smaller(b) == b,
        b.is_nan() ==> a.larger(b) == a && a.smaller(b) == a,
        a.larger(b) == a || a.larger(b) == b,
        a.smaller(b) == a || a.smaller(b) == b,
        !a.larger(b).lt(a) && !a.larger(b).lt(b),
        !a.lt(a.smaller(b)) && !b.lt(a.smaller(b)),
{
}

/// The bits of the numbers that have a name.
pub proof fn law_named_numbers()
    ensures
        zero().bits == 0,
        infinity().bits == 0x7FF0_0000_0000_0000,
        neg_infinity().bits == 0xFFF0_0000_0000_0000,
        forall|x: Real| !x.is_nan() ==> !infinity().lt(x) && !(#[trigger] x.lt(neg_infinity())),
{
}

/// The largest and the smallest of some numbers do not depend on how they are grouped, and of one
/// number they are that number.
pub proof fn law_extremes_join(a: Seq<Real>, b: Seq<Real>)
    ensures
        largest(a + b) == largest(a) || largest(a + b) == largest(b),
        !largest(a + b).lt(largest(a)) && !largest(a + b).lt(largest(b)),
        smallest(a + b) == smallest(a) || smallest(a + b) == smallest(b),
        !smallest(a).lt(smallest(a + b)) && !smallest(b).lt(smallest(a + b)),
        a.len() == 0 ==> largest(a) == neg_infinity() && smallest(a) == infinity(),
        a.len() == 1 && !a[0].is_nan() ==> largest(a) == a[0] && smallest(a) == a[0],
    decreases b.len(),
{
    law_largest_is_bound(a);
    law_smallest_is_bound(a);
    law_largest_is_bound(b);
    law_smallest_is_bound(b);
    if a.len() == 1 {
        assert(a.drop_last() =~= seq![]);
    }
    if b.len() == 0 {
        assert(a + b =~= a);
    } else {
        assert((a + b).drop_last() =~= a + b.drop_last());
        law_extremes_join(a, b.drop_last());
        law_largest_is_bound(b.drop_last());
        law_smallest_is_bound(b.drop_last());
    }
}

} // verus!
