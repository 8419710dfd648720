//! Floating-point numbers by their bits.
//!
//! The library moves, selects, compares, rounds and encodes numbers; it does not
//! add or multiply them. A number is its IEEE 754 bit pattern.

use vstd::prelude::*;

verus! {

/// The magnitude of the infinite values of 64 bits.
pub const INFINITE_64: u64 = 0x7ff0_0000_0000_0000;

/// The bits of the value that stands for "not a number".
pub const NAN_BITS_64: u64 = 0x7ff8_0000_0000_0000;

/// The weight of the sign bit of 64 bits.
pub const SIGN_64: u64 = 0x8000_0000_0000_0000;

/// The bits of the 32-bit value that stands for "not a number".
pub const NAN_BITS_32: u32 = 0x7fc0_0000;

/// The magnitude of the infinite values of 32 bits.
pub const INFINITE_32: u32 = 0x7f80_0000;

/// The weight of the sign bit of 32 bits.
pub const SIGN_32: u32 = 0x8000_0000;

/// A number of 64 bits. Two values are equal where they are the same number: both zeros
/// are, and "not a number" never is.
#[derive(Clone, Copy, Debug)]
pub struct F64 {
    pub bits: u64,
}

/// A number of 32 bits. Two values are equal where they are the same number: both zeros
/// are, and "not a number" never is.
#[derive(Clone, Copy, Debug)]
pub struct F32 {
    pub bits: u32,
}

impl PartialEq for F64 {
    fn eq(&self, other: &Self) -> (r: bool) {
        self.equals(*other)
    }
}

impl vstd::std_specs::cmp::PartialEqSpecImpl for F64 {
    open spec fn obeys_eq_spec() -> bool {
        true
    }

    open spec fn eq_spec(&self, other: &Self) -> bool {
        self.same_number(*other)
    }
}

impl PartialEq for F32 {
    fn eq(&self, other: &Self) -> (r: bool) {
        self.equals(*other)
    }
}

impl vstd::std_specs::cmp::PartialEqSpecImpl for F32 {
    open spec fn obeys_eq_spec() -> bool {
        true
    }

    open spec fn eq_spec(&self, other: &Self) -> bool {
        self.same_number(*other)
    }
}

impl F64 {
    /// The bits without the sign.
    pub open spec fn magnitude(self) -> int {
        if self.bits >= SIGN_64 {
            self.bits - SIGN_64
        } else {
            self.bits as int
        }
    }

    pub open spec fn nan(self) -> bool {
        self.magnitude() > INFINITE_64
    }

    pub open spec fn finite(self) -> bool {
        self.magnitude() < INFINITE_64
    }

    /// An integer that orders numbers as their values do; both zeros have the same.
    pub open spec fn rank(self) -> int {
        if self.bits >= SIGN_64 {
            -self.magnitude()
        } else {
            self.magnitude()
        }
    }

    /// An integer that orders all bit patterns: negative before positive zero,
    /// and "not a number" at both ends.
    pub open spec fn total_rank(self) -> int {
        if self.bits >= SIGN_64 {
            -self.magnitude() - 1
        } else {
            self.magnitude()
        }
    }

    /// `self < other` as numbers; false where either is not a number.
    pub open spec fn less(self, other: F64) -> bool {
        !self.nan() && !other.nan() && self.rank() < other.rank()
    }

    /// `self <= other` as numbers; false where either is not a number.
    pub open spec fn at_most(self, other: F64) -> bool {
        !self.nan() && !other.nan() && self.rank() <= other.rank()
    }

    /// `self == other` as numbers; false where either is not a number.
    pub open spec fn same_number(self, other: F64) -> bool {
        !self.nan() && !other.nan() && self.rank() == other.rank()
    }

    /// The number without its sign.
    pub open spec fn abs(self) -> F64 {
        F64 { bits: self.magnitude() as u64 }
    }

    pub fn from_bits(bits: u64) -> (r: F64)
        ensures
            r.bits == bits,
    {
        F64 { bits }
    }

    pub fn to_bits(self) -> (r: u64)
        ensures
            r == self.bits,
    {
        self.bits
    }

    fn magnitude_of(self) -> (r: u64)
        ensures
            r == self.magnitude(),
    {
        if self.bits >= SIGN_64 {
            self.bits - SIGN_64
        } else {
            self.bits
        }
    }

    pub fn absolute(self) -> (r: F64)
        ensures
            r == self.abs(),
    {
        F64 { bits: self.magnitude_of() }
    }

    pub fn is_nan(self) -> (r: bool)
        ensures
            r == self.nan(),
    {
        self.magnitude_of() > INFINITE_64
    }

    pub fn is_finite(self) -> (r: bool)
        ensures
            r == self.finite(),
    {
        self.magnitude_of() < INFINITE_64
    }

    fn rank_of(self) -> (r: i128)
        ensures
            r == self.rank(),
    {
        let m: i128 = self.magnitude_of() as i128;
        if self.bits >= SIGN_64 {
            -m
        } else {
            m
        }
    }

    pub fn lt(self, other: F64) -> (r: bool)
        ensures
            r == self.less(other),
    {
        !self.is_nan() && !other.is_nan() && self.rank_of() < other.rank_of()
    }

    pub fn le(self, other: F64) -> (r: bool)
        ensures
            r == self.at_most(other),
    {
        !self.is_nan() && !other.is_nan() && self.rank_of() <= other.rank_of()
    }

    pub fn equals(self, other: F64) -> (r: bool)
        ensures
            r == self.same_number(other),
    {
        !self.is_nan() && !other.is_nan() && self.rank_of() == other.rank_of()
    }

    /// Whether `self` comes before `other` in the total order of bit patterns.
    pub fn totally_before(self, other: F64) -> (r: bool)
        ensures
            r == (self.total_rank() < other.total_rank()),
    {
        let a_negative = self.bits >= SIGN_64;
        let b_negative = other.bits >= SIGN_64;
        if a_negative != b_negative {
            a_negative
        } else if a_negative {
            self.bits > other.bits
        } else {
            self.bits < other.bits
        }
    }
}

impl F32 {
    /// The bits without the sign.
    pub open spec fn magnitude(self) -> int {
        if self.bits >= SIGN_32 {
            self.bits - SIGN_32
        } else {
            self.bits as int
        }
    }

    pub open spec fn nan(self) -> bool {
        self.magnitude() > INFINITE_32
    }

    pub open spec fn finite(self) -> bool {
        self.magnitude() < INFINITE_32
    }

    /// An integer that orders numbers as their values do; both zeros have the same.
    pub open spec fn rank(self) -> int {
        if self.bits >= SIGN_32 {
            -self.magnitude()
        } else {
            self.magnitude()
        }
    }

    /// `self == other` as numbers; false where either is not a number.
    pub open spec fn same_number(self, other: F32) -> bool {
        !self.nan() && !other.nan() && self.rank() == other.rank()
    }

    pub fn equals(self, other: F32) -> (r: bool)
        ensures
            r == self.same_number(other),
    {
        let a: u32 = self.magnitude_of();
        let b: u32 = other.magnitude_of();
        a <= INFINITE_32 && b <= INFINITE_32 && a == b && (a == 0 || self.bits == other.bits)
    }

    fn magnitude_of(self) -> (r: u32)
        ensures
            r == self.magnitude(),
    {
        if self.bits >= SIGN_32 {
            self.bits - SIGN_32
        } else {
            self.bits
        }
    }

    pub fn from_bits(bits: u32) -> (r: F32)
        ensures
            r.bits == bits,
    {
        F32 { bits }
    }

    pub fn to_bits(self) -> (r: u32)
        ensures
            r == self.bits,
    {
        self.bits
    }

    pub fn is_finite(self) -> (r: bool)
        ensures
            r == self.finite(),
    {
        if self.bits >= SIGN_32 {
            self.bits - SIGN_32 < INFINITE_32
        } else {
            self.bits < INFINITE_32
        }
    }
}

/// The total order tells any two bit patterns apart.
pub proof fn lemma_total_rank_injective(a: F64, b: F64)
    requires
        a.total_rank() == b.total_rank(),
    ensures
        a == b,
{
}

/// Where the numbers differ, the total order agrees with their order.
pub proof fn lemma_total_rank_refines(a: F64, b: F64)
    requires
        a.less(b),
    ensures
        a.total_rank() < b.total_rank(),
{
}

} // verus!
