//! Single and double precision numbers, held as their bit patterns.
use crate::ieee;
use crate::roots;
use crate::rounding::Format;
use vstd::prelude::*;

verus! {

/// A single precision number.
#[derive(Clone, Copy, PartialEq, Eq, Structural, Debug)]
pub struct Binary32 {
    pub bits: u32,
}

/// A double precision number.
#[derive(Clone, Copy, PartialEq, Eq, Structural, Debug)]
pub struct Binary64 {
    pub bits: u64,
}

pub open spec fn single(a: u64) -> Binary32 {
    Binary32 { bits: a as u32 }
}

pub open spec fn double(a: u64) -> Binary64 {
    Binary64 { bits: a }
}

impl Binary32 {
    pub open spec fn pattern(self) -> u64 {
        self.bits as u64
    }

    pub open spec fn is_nan(self) -> bool {
        ieee::is_nan(Format::Binary32, self.pattern())
    }

    pub open spec fn is_finite(self) -> bool {
        ieee::is_finite(Format::Binary32, self.pattern())
    }

    /// The value of a finite number, in units of two to the power of -149.
    pub open spec fn value(self) -> int {
        ieee::value(Format::Binary32, self.pattern())
    }

    pub open spec fn sum(self, other: Self) -> Self {
        single(ieee::sum(Format::Binary32, self.pattern(), other.pattern()))
    }

    pub open spec fn difference(self, other: Self) -> Self {
        single(ieee::difference(Format::Binary32, self.pattern(), other.pattern()))
    }

    pub open spec fn product(self, other: Self) -> Self {
        single(ieee::product(Format::Binary32, self.pattern(), other.pattern()))
    }

    pub open spec fn negated(self) -> Self {
        single(ieee::negated(Format::Binary32, self.pattern()))
    }

    /// This number without its sign.
    pub open spec fn absolute(self) -> Self {
        single(ieee::body(Format::Binary32, self.pattern()) as u64)
    }

    pub open spec fn at_most(self, other: Self) -> bool {
        ieee::at_most(Format::Binary32, self.pattern(), other.pattern())
    }

    pub open spec fn larger(self, other: Self) -> Self {
        single(ieee::larger(Format::Binary32, self.pattern(), other.pattern()))
    }

    /// This number in double precision.
    pub open spec fn widened(self) -> Binary64 {
        double(ieee::converted(Format::Binary32, Format::Binary64, self.pattern()))
    }

    pub fn plus(self, other: Self) -> (r: Self)
        ensures
            r == self.sum(other),
    {
        Binary32 { bits: ieee::plus(Format::Binary32, self.bits as u64, other.bits as u64) as u32 }
    }

    pub fn minus(self, other: Self) -> (r: Self)
        ensures
            r == self.difference(other),
    {
        Binary32 { bits: ieee::minus(Format::Binary32, self.bits as u64, other.bits as u64) as u32 }
    }

    pub fn times(self, other: Self) -> (r: Self)
        ensures
            r == self.product(other),
    {
        Binary32 { bits: ieee::times(Format::Binary32, self.bits as u64, other.bits as u64) as u32 }
    }

    pub fn negate(self) -> (r: Self)
        ensures
            r == self.negated(),
    {
        Binary32 { bits: ieee::negate(Format::Binary32, self.bits as u64) as u32 }
    }

    pub fn abs(self) -> (r: Self)
        ensures
            r == self.absolute(),
    {
        Binary32 { bits: ieee::split(Format::Binary32, self.bits as u64).1 as u32 }
    }

    pub fn is_at_most(self, other: Self) -> (r: bool)
        ensures
            r == self.at_most(other),
    {
        ieee::is_at_most(Format::Binary32, self.bits as u64, other.bits as u64)
    }

    pub fn max(self, other: Self) -> (r: Self)
        ensures
            r == self.larger(other),
    {
        Binary32 { bits: ieee::max(Format::Binary32, self.bits as u64, other.bits as u64) as u32 }
    }

    pub fn widen(self) -> (r: Binary64)
        ensures
            r == self.widened(),
    {
        Binary64 { bits: ieee::convert(Format::Binary32, Format::Binary64, self.bits as u64) }
    }
}

impl Binary64 {
    pub open spec fn is_nan(self) -> bool {
        ieee::is_nan(Format::Binary64, self.bits)
    }

    pub open spec fn is_finite(self) -> bool {
        ieee::is_finite(Format::Binary64, self.bits)
    }

    /// The value of a finite number, in units of two to the power of -1074.
    pub open spec fn value(self) -> int {
        ieee::value(Format::Binary64, self.bits)
    }

    pub open spec fn sum(self, other: Self) -> Self {
        double(ieee::sum(Format::Binary64, self.bits, other.bits))
    }

    pub open spec fn difference(self, other: Self) -> Self {
        double(ieee::difference(Format::Binary64, self.bits, other.bits))
    }

    pub open spec fn product(self, other: Self) -> Self {
        double(ieee::product(Format::Binary64, self.bits, other.bits))
    }

    pub open spec fn less(self, other: Self) -> bool {
        ieee::less(Format::Binary64, self.bits, other.bits)
    }

    /// 1 divided by this number.
    pub open spec fn reciprocal(self) -> Self {
        double(roots::inverse(self.bits))
    }

    pub open spec fn root(self) -> Self {
        double(roots::square_root(self.bits))
    }

    /// The number nearest to `n`.
    pub open spec fn natural(n: nat) -> Self {
        double(ieee::of_natural(Format::Binary64, n))
    }

    /// This number in single precision.
    pub open spec fn narrowed(self) -> Binary32 {
        single(ieee::converted(Format::Binary64, Format::Binary32, self.bits))
    }

    pub fn plus(self, other: Self) -> (r: Self)
        ensures
            r == self.sum(other),
    {
        Binary64 { bits: ieee::plus(Format::Binary64, self.bits, other.bits) }
    }

    pub fn minus(self, other: Self) -> (r: Self)
        ensures
            r == self.difference(other),
    {
        Binary64 { bits: ieee::minus(Format::Binary64, self.bits, other.bits) }
    }

    pub fn times(self, other: Self) -> (r: Self)
        ensures
            r == self.product(other),
    {
        Binary64 { bits: ieee::times(Format::Binary64, self.bits, other.bits) }
    }

    pub fn is_less(self, other: Self) -> (r: bool)
        ensures
            r == self.less(other),
    {
        ieee::is_less(Format::Binary64, self.bits, other.bits)
    }

    pub fn invert(self) -> (r: Self)
        ensures
            r == self.reciprocal(),
    {
        Binary64 { bits: roots::invert(self.bits) }
    }

    pub fn sqrt(self) -> (r: Self)
        ensures
            r == self.root(),
    {
        Binary64 { bits: roots::take_root(self.bits) }
    }

    pub fn from_natural(n: u64) -> (r: Self)
        ensures
            r == Self::natural(n as nat),
    {
        Binary64 { bits: ieee::from_natural(Format::Binary64, n) }
    }

    pub fn narrow(self) -> (r: Binary32)
        ensures
            r == self.narrowed(),
    {
        Binary32 { bits: ieee::convert(Format::Binary64, Format::Binary32, self.bits) as u32 }
    }
}

} // verus!
