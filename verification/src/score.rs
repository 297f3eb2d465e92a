//! The two kinds of fractional numbers that ranking needs, held exactly: the
//! score that a caller gives a candidate, and the share of a text that is
//! mistyped.

use vstd::prelude::*;

verus! {

/// A caller's score: the bits of an IEEE 754 double.
#[derive(Clone, Copy, Debug)]
pub struct Score {
    pub bits: u64,
}

impl Score {
    /// Where the score stands among all: higher scores have higher ranks. A
    /// double whose sign bit is clear ranks as its bits do; one whose sign bit
    /// is set ranks below all of those, the lower the greater its magnitude.
    pub open spec fn rank(self) -> int {
        if self.bits < 0x8000_0000_0000_0000u64 {
            self.bits as int
        } else {
            0x7fff_ffff_ffff_ffff - self.bits
        }
    }

    /// The bits without the sign bit.
    pub open spec fn magnitude(self) -> int {
        if self.bits < 0x8000_0000_0000_0000u64 {
            self.bits as int
        } else {
            self.bits - 0x8000_0000_0000_0000
        }
    }

    /// Whether the double is not a number: its magnitude is beyond that of
    /// infinity.
    pub open spec fn is_nan(self) -> bool {
        self.magnitude() > 0x7ff0_0000_0000_0000
    }

    /// Whether the doubles are equal as numbers: both zeros are, and what is not
    /// a number equals nothing.
    pub open spec fn equals(self, other: Score) -> bool {
        &&& !self.is_nan()
        &&& !other.is_nan()
        &&& self.bits == other.bits || self.magnitude() == 0 && other.magnitude() == 0
    }

    /// The score whose double has these bits.
    pub fn from_bits(bits: u64) -> (score: Score)
        ensures
            score.bits == bits,
    {
        Score { bits }
    }

    /// The bits of the score's double.
    pub fn to_bits(self) -> (bits: u64)
        ensures
            bits == self.bits,
    {
        self.bits
    }

    fn size(&self) -> (magnitude: u64)
        ensures
            magnitude == self.magnitude(),
    {
        let sign: u64 = 0x8000_0000_0000_0000u64;
        if self.bits < sign {
            self.bits
        } else {
            self.bits - sign
        }
    }

    /// Whether this score is higher than `other`.
    pub fn exceeds(&self, other: &Score) -> (higher: bool)
        ensures
            higher == (self.rank() > other.rank()),
    {
        let sign: u64 = 0x8000_0000_0000_0000u64;
        if self.bits < sign {
            other.bits >= sign || self.bits > other.bits
        } else {
            other.bits >= sign && self.bits < other.bits
        }
    }
}

impl PartialEq for Score {
    fn eq(&self, other: &Score) -> (same: bool) {
        let infinity: u64 = 0x7ff0_0000_0000_0000u64;
        let (left, right) = (self.size(), other.size());
        left <= infinity && right <= infinity && (self.bits == other.bits || left == 0 && right
            == 0)
    }
}

impl vstd::std_specs::cmp::PartialEqSpecImpl for Score {
    open spec fn obeys_eq_spec() -> bool {
        true
    }

    open spec fn eq_spec(&self, other: &Score) -> bool {
        self.equals(*other)
    }
}

/// Scores that are numbers are equal as numbers if and only if they are the same
/// or both zero.
pub proof fn score_equality_is_numeric(left: Score, right: Score)
    requires
        !left.is_nan(),
        !right.is_nan(),
    ensures
        left.equals(right) <==> left == right || left.magnitude() == 0
            && right.magnitude() == 0,
        left.equals(right) <==> right.equals(left),
        left.equals(left),
{
}

/// Scores are ordered without ties: two of the same rank are the same score.
pub proof fn score_rank_is_injective(left: Score, right: Score)
    requires
        left.rank() == right.rank(),
    ensures
        left == right,
{
}

/// Scores are ranked as numbers are: one whose sign is set below one whose sign is
/// not, of two without sign the one of greater magnitude above, of two with sign
/// below.
pub proof fn score_rank_is_numeric(left: Score, right: Score)
    ensures
        left.bits >= 0x8000_0000_0000_0000u64 > right.bits ==> left.rank() < right.rank(),
        left.bits < 0x8000_0000_0000_0000u64 && right.bits < 0x8000_0000_0000_0000u64 ==> (
        left.rank() < right.rank() <==> left.bits < right.bits),
        left.bits >= 0x8000_0000_0000_0000u64 && right.bits >= 0x8000_0000_0000_0000u64 ==> (
        left.rank() < right.rank() <==> left.bits > right.bits),
{
}

/// A ratio of two counts.
#[derive(Clone, Copy, Debug)]
pub struct Ratio {
    pub numerator: usize,
    pub denominator: usize,
}

/// The counts of a [`Ratio`].
pub struct Fraction {
    pub numerator: nat,
    pub denominator: nat,
}

impl View for Ratio {
    type V = Fraction;

    open spec fn view(&self) -> Fraction {
        Fraction { numerator: self.numerator as nat, denominator: self.denominator as nat }
    }
}

impl Fraction {
    /// Whether this is less than `other`, with neither divided out.
    pub open spec fn less(self, other: Fraction) -> bool {
        self.numerator * other.denominator < other.numerator * self.denominator
    }

    /// The greater of the two.
    pub open spec fn max(self, other: Fraction) -> Fraction {
        if self.less(other) {
            other
        } else {
            self
        }
    }

    /// Whether this is more than one half.
    pub open spec fn over_half(self) -> bool {
        2 * self.numerator > self.denominator
    }

    /// Whether this is one fifth or less.
    pub open spec fn at_most_a_fifth(self) -> bool {
        5 * self.numerator <= self.denominator
    }

    /// `count` divided by the ratio, to the nearest whole number and at least
    /// one; one for the ratio zero.
    pub open spec fn whole_of(self, count: nat) -> nat {
        if self.numerator == 0 {
            1
        } else {
            let product = count * self.denominator;
            let floor = product / self.numerator;
            let rounded = if 2 * (product % self.numerator) >= self.numerator {
                floor + 1
            } else {
                floor
            };
            if rounded == 0 {
                1
            } else {
                rounded
            }
        }
    }
}

/// `number`, or the greatest `usize` if it is more.
pub open spec fn clamped(number: nat) -> nat {
    if number > usize::MAX {
        usize::MAX as nat
    } else {
        number
    }
}

/// The whole of which `count` is the share `count / len`.
pub proof fn whole_of_share(count: nat, len: nat)
    requires
        count > 0,
        len > 0,
    ensures
        (Fraction { numerator: count, denominator: len }).whole_of(count) == len,
{
    vstd::arithmetic::div_mod::lemma_div_multiples_vanish(len as int, count as int);
    vstd::arithmetic::div_mod::lemma_mod_multiples_basic(len as int, count as int);
    vstd::arithmetic::mul::lemma_mul_is_commutative(count as int, len as int);
}

impl Ratio {
    pub(crate) fn is_less(&self, other: &Ratio) -> (less: bool)
        ensures
            less == self@.less(other@),
    {
        product(self.numerator, other.denominator) < product(other.numerator, self.denominator)
    }

    /// The greater of the two.
    pub(crate) fn max(self, other: Ratio) -> (greater: Ratio)
        ensures
            greater@ == self@.max(other@),
    {
        if self.is_less(&other) {
            other
        } else {
            self
        }
    }

    /// Whether the ratio is more than one half.
    pub fn is_over_half(&self) -> (over: bool)
        ensures
            over == self@.over_half(),
    {
        product(2, self.numerator) > self.denominator as u128
    }

    /// Whether the ratio is one fifth or less.
    pub fn is_at_most_a_fifth(&self) -> (small: bool)
        ensures
            small == self@.at_most_a_fifth(),
    {
        product(5, self.numerator) <= self.denominator as u128
    }

    /// `count` divided by the ratio, to the nearest whole number and at least
    /// one; one for the ratio zero.
    pub fn whole_of(&self, count: usize) -> (whole: usize)
        ensures
            whole == clamped(self@.whole_of(count as nat)),
    {
        if self.numerator == 0 {
            return 1;
        }
        let total: u128 = product(count, self.denominator);
        let divisor: u128 = self.numerator as u128;
        let floor: u128 = total / divisor;
        let rest: u128 = total % divisor;
        proof {
            vstd::arithmetic::div_mod::lemma_fundamental_div_mod(total as int, divisor as int);
            vstd::arithmetic::div_mod::lemma_div_is_ordered_by_denominator(
                total as int,
                1,
                divisor as int,
            );
        }
        let rounded: u128 = if 2 * rest >= divisor {
            if floor > usize::MAX as u128 {
                floor
            } else {
                floor + 1
            }
        } else {
            floor
        };
        if rounded == 0 {
            1
        } else if rounded > usize::MAX as u128 {
            usize::MAX
        } else {
            rounded as usize
        }
    }
}

fn product(left: usize, right: usize) -> (result: u128)
    ensures
        result == left * right,
{
    assert(left * right <= usize::MAX * usize::MAX) by (nonlinear_arith)
        requires
            left <= usize::MAX,
            right <= usize::MAX,
    ;
    assert(usize::MAX * usize::MAX <= u128::MAX) by (nonlinear_arith)
        requires
            usize::MAX <= u64::MAX,
    ;
    left as u128 * right as u128
}

impl PartialEq for Ratio {
    fn eq(&self, other: &Ratio) -> (same: bool) {
        product(self.numerator, other.denominator) == product(other.numerator, self.denominator)
    }
}

impl vstd::std_specs::cmp::PartialEqSpecImpl for Ratio {
    open spec fn obeys_eq_spec() -> bool {
        true
    }

    open spec fn eq_spec(&self, other: &Ratio) -> bool {
        self.numerator * other.denominator == other.numerator * self.denominator
    }
}

/// The share `distance / compared_len` in thousandths, rounded down. A length of
/// zero counts as one.
pub open spec fn milli(distance: nat, compared_len: nat) -> nat {
    let len = if compared_len == 0 {
        1
    } else {
        compared_len
    };
    clamped(1000 * distance / len)
}

/// The share `distance / compared_len` in thousandths, rounded down. A length of
/// zero counts as one.
pub fn ratio_milli(distance: usize, compared_len: usize) -> (thousandths: usize)
    ensures
        thousandths == milli(distance as nat, compared_len as nat),
{
    let len: usize = if compared_len == 0 {
        1
    } else {
        compared_len
    };
    let share: u128 = product(1000, distance) / len as u128;
    if share > usize::MAX as u128 {
        usize::MAX
    } else {
        share as usize
    }
}

} // verus!
