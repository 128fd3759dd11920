//! Products of a 128-bit and a 64-bit number, kept whole.

use vstd::prelude::*;

verus! {

/// `2^64`.
pub open spec fn base() -> int {
    0x1_0000_0000_0000_0000
}

/// A number below `2^192`, as `high * 2^64 + low`.
#[derive(Clone, Copy, Debug, PartialEq, Eq, Structural)]
pub struct Wide {
    pub high: u128,
    pub low: u64,
}

impl View for Wide {
    type V = int;

    open spec fn view(&self) -> int {
        self.high * base() + self.low
    }
}

impl Wide {
    /// The product `a * b`.
    pub fn product(a: u128, b: u64) -> (p: Wide)
        ensures
            p@ == a * b,
    {
        let upper: u128 = a >> 64;
        let lower: u128 = a & 0xffff_ffff_ffff_ffff;
        assert(upper == a / 0x1_0000_0000_0000_0000 && lower == a % 0x1_0000_0000_0000_0000)
            by (bit_vector)
            requires
                upper == a >> 64,
                lower == a & 0xffff_ffff_ffff_ffff,
        ;
        assert(lower * b <= 0xffff_ffff_ffff_ffff * 0xffff_ffff_ffff_ffff) by (nonlinear_arith)
            requires
                0 <= lower <= 0xffff_ffff_ffff_ffff,
                0 <= b <= 0xffff_ffff_ffff_ffff,
        ;
        assert(upper * b <= 0xffff_ffff_ffff_ffff * 0xffff_ffff_ffff_ffff) by (nonlinear_arith)
            requires
                0 <= upper <= 0xffff_ffff_ffff_ffff,
                0 <= b <= 0xffff_ffff_ffff_ffff,
        ;
        let small: u128 = lower * (b as u128);
        let large: u128 = upper * (b as u128);
        let carry: u128 = small >> 64;
        let low: u128 = small & 0xffff_ffff_ffff_ffff;
        assert(carry == small / 0x1_0000_0000_0000_0000 && low == small % 0x1_0000_0000_0000_0000)
            by (bit_vector)
            requires
                carry == small >> 64,
                low == small & 0xffff_ffff_ffff_ffff,
        ;
        let high: u128 = large + carry;
        assert(a * b == high * base() + low) by (nonlinear_arith)
            requires
                a == upper * base() + lower,
                small == lower * b,
                large == upper * b,
                small == carry * base() + low,
                high == large + carry,
        ;
        Wide { high, low: low as u64 }
    }

    /// Whether `self` is less than `other`.
    pub fn lt(&self, other: &Wide) -> (less: bool)
        ensures
            less == (self@ < other@),
    {
        self.high < other.high || (self.high == other.high && self.low < other.low)
    }

    /// Whether `self` equals `other`.
    pub fn same(&self, other: &Wide) -> (same: bool)
        ensures
            same == (self@ == other@),
    {
        self.high == other.high && self.low == other.low
    }

    /// The difference `self - other`, where it is known to fit 128 bits.
    pub fn minus(&self, other: &Wide) -> (difference: u128)
        requires
            other@ <= self@,
            self@ - other@ <= u128::MAX,
        ensures
            difference == self@ - other@,
    {
        if self.low >= other.low {
            let top: u128 = self.high - other.high;
            top * 0x1_0000_0000_0000_0000 + ((self.low - other.low) as u128)
        } else {
            let top: u128 = self.high - other.high - 1;
            let rest: u128 = 0x1_0000_0000_0000_0000 - (other.low - self.low) as u128;
            top * 0x1_0000_0000_0000_0000 + rest
        }
    }
}

} // verus!
