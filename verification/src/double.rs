//! IEEE 754 binary64 values carried by their bit pattern, with the
//! comparisons that the engine's rules make on them.
//!
//! Arithmetic on these values happens outside the library; inside it a value
//! is only stored, copied and compared.
use vstd::prelude::*;

verus! {

/// A binary64 value, as its 64-bit pattern (`f64::to_bits`).
#[derive(Debug, Clone, Copy, PartialEq, Eq, Structural)]
pub struct Double {
    pub bits: u64,
}

pub open spec fn sign_bit() -> nat {
    0x8000_0000_0000_0000
}

/// The magnitude bits (exponent and fraction).
pub open spec fn magnitude(bits: u64) -> nat {
    (bits as nat) % sign_bit()
}

/// Not a number: all exponent bits set and a non-zero fraction.
pub open spec fn is_nan(bits: u64) -> bool {
    magnitude(bits) > 0x7FF0_0000_0000_0000
}

/// The position of a non-NaN value on the number line, as an integer that
/// orders values as IEEE 754 compares them (both zeros map to 0).
pub open spec fn order_key(bits: u64) -> int {
    if bits as nat >= sign_bit() {
        -(magnitude(bits) as int)
    } else {
        magnitude(bits) as int
    }
}

/// `a < b` as IEEE 754 defines it: false whenever either is NaN.
pub open spec fn spec_lt(a: Double, b: Double) -> bool {
    !is_nan(a.bits) && !is_nan(b.bits) && order_key(a.bits) < order_key(b.bits)
}

/// `a <= b` as IEEE 754 defines it: false whenever either is NaN.
pub open spec fn spec_le(a: Double, b: Double) -> bool {
    !is_nan(a.bits) && !is_nan(b.bits) && order_key(a.bits) <= order_key(b.bits)
}

/// The key of `f64::total_cmp`: negative values (sign bit set) order by
/// flipped bits below all positive values, which order by their bits.
pub open spec fn total_key(bits: u64) -> nat {
    if bits as nat >= sign_bit() {
        (0xFFFF_FFFF_FFFF_FFFF - bits) as nat
    } else {
        bits as nat + sign_bit()
    }
}

/// Positive zero.
pub open spec fn zero() -> Double {
    Double { bits: 0 }
}

impl Double {
    /// Positive zero.
    pub fn zero() -> (d: Double)
        ensures
            d == zero(),
    {
        Double { bits: 0 }
    }

    /// Positive infinity.
    pub fn infinity() -> (d: Double)
        ensures
            d.bits == 0x7FF0_0000_0000_0000,
    {
        Double { bits: 0x7FF0_0000_0000_0000 }
    }

    pub fn is_nan(self) -> (b: bool)
        ensures
            b == is_nan(self.bits),
    {
        let (_, m) = self.key();
        m > 0x7FF0_0000_0000_0000
    }

    fn key(self) -> (r: (bool, u64))
        ensures
            r.0 == (self.bits as nat >= sign_bit()),
            r.1 == magnitude(self.bits),
    {
        let b = self.bits;
        let m = b & 0x7FFF_FFFF_FFFF_FFFF;
        assert(b & 0x7FFF_FFFF_FFFF_FFFF == b % 0x8000_0000_0000_0000) by (bit_vector);
        (b >= 0x8000_0000_0000_0000, m)
    }

    /// `self < other`, as `f64` compares.
    pub fn lt(self, other: Double) -> (b: bool)
        ensures
            b == spec_lt(self, other),
    {
        if self.is_nan() || other.is_nan() {
            return false;
        }
        let (sa, ma) = self.key();
        let (sb, mb) = other.key();
        if sa && sb {
            mb < ma
        } else if sa {
            !(ma == 0 && mb == 0)
        } else if sb {
            false
        } else {
            ma < mb
        }
    }

    /// `self <= other`, as `f64` compares.
    pub fn le(self, other: Double) -> (b: bool)
        ensures
            b == spec_le(self, other),
    {
        if self.is_nan() || other.is_nan() {
            return false;
        }
        let (sa, ma) = self.key();
        let (sb, mb) = other.key();
        if sa && sb {
            mb <= ma
        } else if sa {
            true
        } else if sb {
            ma == 0 && mb == 0
        } else {
            ma <= mb
        }
    }

    /// The key that `f64::total_cmp` orders by.
    pub fn total_key(self) -> (k: u64)
        ensures
            k == total_key(self.bits),
    {
        if self.bits >= 0x8000_0000_0000_0000 {
            0xFFFF_FFFF_FFFF_FFFF - self.bits
        } else {
            self.bits + 0x8000_0000_0000_0000
        }
    }
}

} // verus!
