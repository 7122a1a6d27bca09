//! Configured real numbers, held exactly.
//!
//! The few settings that are real numbers (a font size, a confidence, two
//! factors) are only ever compared with a bound here; the arithmetic on them is
//! the renderer's and the recogniser's. They are held as their IEEE 754 bits, so
//! they pass through unchanged and the comparisons are exact on the bits.

use vstd::prelude::*;

verus! {

/// A binary64 number, as its bits.
#[derive(Debug, Clone, Copy, PartialEq, Eq, Structural)]
pub struct Double {
    pub bits: u64,
}

/// A binary32 number, as its bits.
#[derive(Debug, Clone, Copy, PartialEq, Eq, Structural)]
pub struct Single {
    pub bits: u32,
}

/// The sign bit of a binary64 number.
pub const DOUBLE_SIGN: u64 = 0x8000_0000_0000_0000;

/// The bits of positive infinity; larger magnitudes are not numbers.
pub const DOUBLE_INFINITY: u64 = 0x7ff0_0000_0000_0000;

/// The sign bit of a binary32 number.
pub const SINGLE_SIGN: u32 = 0x8000_0000;

/// The bits of the binary32 number 100: the bits of positive numbers are ordered
/// as the numbers are.
pub const SINGLE_HUNDRED: u32 = 0x42c8_0000;

impl Double {
    /// The number is written with a minus sign.
    pub open spec fn negative(self) -> bool {
        self.bits >= DOUBLE_SIGN
    }

    /// The bits without the sign.
    pub open spec fn magnitude(self) -> int {
        if self.negative() {
            self.bits - DOUBLE_SIGN
        } else {
            self.bits as int
        }
    }

    /// The bits stand for no number at all.
    pub open spec fn nan(self) -> bool {
        self.magnitude() > DOUBLE_INFINITY
    }

    /// The number is at most zero. Nothing can be said to be at most zero of
    /// bits that stand for no number.
    pub open spec fn at_most_zero(self) -> bool {
        !self.nan() && (self.negative() || self.magnitude() == 0)
    }

    /// Whether the number is at most zero.
    pub fn is_at_most_zero(&self) -> (r: bool)
        ensures
            r == self.at_most_zero(),
    {
        if self.bits >= DOUBLE_SIGN {
            self.bits - DOUBLE_SIGN <= DOUBLE_INFINITY
        } else {
            self.bits == 0
        }
    }
}

impl Single {
    /// The number lies between 0 and 100, both counted in. Zero may carry a
    /// sign.
    pub open spec fn percentage(self) -> bool {
        self.bits <= SINGLE_HUNDRED || self.bits == SINGLE_SIGN
    }

    /// Whether the number lies between 0 and 100.
    pub fn is_percentage(&self) -> (r: bool)
        ensures
            r == self.percentage(),
    {
        self.bits <= SINGLE_HUNDRED || self.bits == SINGLE_SIGN
    }
}

// --- Laws -----------------------------------------------------------------

/// Of a number and its negation, exactly the negative one is at most zero; zero is
/// both ways; and of what is no number neither is.
pub proof fn law_negation_decides_the_sign(p: Double, n: Double)
    requires
        p.bits < 0x8000_0000_0000_0000,
        n.bits == p.bits + 0x8000_0000_0000_0000,
    ensures
        p.bits == 0 ==> p.at_most_zero() && n.at_most_zero(),
        0 < p.bits <= 0x7ff0_0000_0000_0000 ==> !p.at_most_zero() && n.at_most_zero(),
        p.bits > 0x7ff0_0000_0000_0000 ==> !p.at_most_zero() && !n.at_most_zero(),
{
}

/// The percentages are the numbers from 0 to 100: whatever lies between two of them
/// is one, 100 is the last, and nothing negative is one but a zero.
pub proof fn law_percentages_end_at_a_hundred(a: Single, b: Single)
    ensures
        b.bits < 0x8000_0000 && a.bits <= b.bits && b.percentage() ==> a.percentage(),
        b.bits == 0x42c8_0000 ==> b.percentage(),
        a.bits < 0x8000_0000 && a.bits > 0x42c8_0000 ==> !a.percentage(),
        a.bits >= 0x8000_0000 ==> (a.percentage() <==> a.bits == 0x8000_0000),
{
}

} // verus!
