//! The two scalar types of the library: IEEE 754 binary32 and binary64
//! numbers, each held as its bit pattern.
use crate::float_utils::FloatType;
use crate::ieee::{
    gap, lemma_mean_between, lemma_mean_is_nearest, lemma_mean_respects_rank,
    lemma_rank_is_worth, Format,
};
use crate::round::mean;
use std::cmp::Ordering;
use vstd::arithmetic::power2::{lemma2_to64, lemma2_to64_rest};
use vstd::prelude::*;

verus! {

/// The sign bit of a binary64 number.
pub const SIGN64: u64 = 0x8000_0000_0000_0000;

/// The magnitude of the binary64 infinities.
pub const INF64: u64 = 0x7ff0_0000_0000_0000;

/// The sign bit of a binary32 number.
pub const SIGN32: u32 = 0x8000_0000;

/// The magnitude of the binary32 infinities.
pub const INF32: u32 = 0x7f80_0000;

impl Format {
    /// The binary64 format: 52 bits of trailing significand, 11 of exponent.
    pub open spec fn binary64() -> Format {
        Format { frac: 52, inf: INF64 }
    }

    /// The binary32 format: 23 bits of trailing significand, 8 of exponent.
    pub open spec fn binary32() -> Format {
        Format { frac: 23, inf: 0x7f80_0000 }
    }

    /// Both formats are well-formed.
    pub proof fn lemma_formats()
        ensures
            Format::binary64().wf(),
            Format::binary64().unit() == 0x10_0000_0000_0000,
            Format::binary32().wf(),
            Format::binary32().unit() == 0x80_0000,
    {
        lemma2_to64();
        lemma2_to64_rest();
    }
}

/// A binary64 number, as its bit pattern.
#[derive(Clone, Copy, Debug, PartialEq, Eq, Hash)]
pub struct Binary64(pub u64);

impl Binary64 {
    /// Whether the sign bit is set.
    pub open spec fn negative(self) -> bool {
        self.0 >= SIGN64
    }

    /// The bit pattern without the sign bit.
    pub open spec fn magnitude(self) -> int {
        if self.0 >= SIGN64 {
            self.0 - SIGN64
        } else {
            self.0 as int
        }
    }

    /// The number with the given sign and magnitude.
    pub open spec fn compose(neg: bool, k: int) -> Binary64 {
        if neg {
            Binary64((k + SIGN64) as u64)
        } else {
            Binary64(k as u64)
        }
    }

    /// Whether the number is neither an infinity nor a NaN.
    pub open spec fn finite(self) -> bool {
        self.magnitude() < INF64
    }

    /// What a finite number is worth, in units of the smallest subnormal
    /// number, two to the power of -1074.
    pub open spec fn scaled(self) -> int {
        Format::binary64().signed(self.negative(), self.magnitude())
    }

    /// The order of the ranks is the order of what the numbers are worth: of
    /// two finite numbers the one with the smaller rank is worth less, and two
    /// have the same rank exactly when they are worth the same, as the two
    /// zeros are.
    pub proof fn lemma_rank_is_worth(a: Self, b: Self)
        requires
            a.finite(),
            b.finite(),
        ensures
            a.rank() < b.rank() <==> a.scaled() < b.scaled(),
            a.rank() == b.rank() <==> a.scaled() == b.scaled(),
            Binary64(0).rank() == Binary64(SIGN64).rank(),
    {
        Format::lemma_formats();
        lemma_rank_is_worth(
            Format::binary64(),
            a.negative(),
            a.magnitude(),
            b.negative(),
            b.magnitude(),
        );
    }

    /// The infinities are the ends of the order: every finite number is above
    /// the negative one and below the positive one.
    pub proof fn lemma_rank_of_infinities(a: Self)
        requires
            a.finite(),
        ensures
            !Self::compose(true, INF64 as int).nan(),
            !Self::compose(false, INF64 as int).nan(),
            Self::compose(true, INF64 as int).rank() < a.rank() < Self::compose(
                false,
                INF64 as int,
            ).rank(),
    {
    }

    /// The midpoint of two finite numbers is the finite number nearest to half
    /// their sum, and of two equally near the one with the even significand.
    /// It has the sign of the sum; where the sum is zero, it is negative only
    /// where both numbers are.
    pub proof fn lemma_mean_of_finite(a: Self, b: Self)
        requires
            a.finite(),
            b.finite(),
        ensures
            a.mean(b).finite(),
            Format::binary64().nearest_even(a.mean(b).magnitude(), gap(a.scaled() + b.scaled(), 0)),
            a.mean(b).negative() == (a.scaled() + b.scaled() < 0 || (a.scaled() + b.scaled() == 0
                && a.negative() && b.negative())),
    {
        Format::lemma_formats();
        lemma_mean_is_nearest(
            Format::binary64(),
            a.negative(),
            a.magnitude(),
            b.negative(),
            b.magnitude(),
        );
    }

    /// The midpoint of the two infinities is zero, that of an infinity and
    /// itself or a finite number is the infinity.
    pub proof fn lemma_mean_of_infinite(a: Self, b: Self)
        requires
            !a.nan(),
            !b.nan(),
            !a.finite(),
        ensures
            !b.finite() && a != b ==> a.mean(b) == Binary64(0) && b.mean(a) == Binary64(0),
            b.finite() || a == b ==> a.mean(b) == a && b.mean(a) == a,
    {
    }

    /// The sign and the magnitude of the number.
    pub fn parts(self) -> (r: (bool, u64))
        ensures
            r.0 == self.negative(),
            r.1 == self.magnitude(),
            r.1 < SIGN64,
    {
        if self.0 >= SIGN64 {
            (true, self.0 - SIGN64)
        } else {
            (false, self.0)
        }
    }
}

impl FloatType for Binary64 {
    proof fn lemma_mean_between(a: Self, b: Self) {
        Format::lemma_formats();
        lemma_mean_between(
            Format::binary64(),
            a.negative(),
            a.magnitude(),
            b.negative(),
            b.magnitude(),
        );
    }

    proof fn lemma_mean_respects_rank(a: Self, b: Self, c: Self, d: Self) {
        Format::lemma_formats();
        lemma_mean_between(
            Format::binary64(),
            a.negative(),
            a.magnitude(),
            b.negative(),
            b.magnitude(),
        );
        lemma_mean_between(
            Format::binary64(),
            c.negative(),
            c.magnitude(),
            d.negative(),
            d.magnitude(),
        );
        lemma_mean_respects_rank(
            Format::binary64(),
            a.negative(),
            a.magnitude(),
            b.negative(),
            b.magnitude(),
            c.negative(),
            c.magnitude(),
            d.negative(),
            d.magnitude(),
        );
    }

    open spec fn nan(self) -> bool {
        self.magnitude() > INF64
    }

    open spec fn rank(self) -> int {
        Format::rank_of(self.negative(), self.magnitude())
    }

    open spec fn mean(self, other: Self) -> Self {
        let r = Format::binary64().mean_of(
            self.negative(),
            self.magnitude(),
            other.negative(),
            other.magnitude(),
        );
        Binary64::compose(r.0, r.1)
    }

    fn cmp(&self, other: &Self) -> (o: Ordering) {
        let (a_neg, ka) = self.parts();
        let (b_neg, kb) = other.parts();
        if a_neg && b_neg {
            if ka > kb {
                Ordering::Less
            } else if ka == kb {
                Ordering::Equal
            } else {
                Ordering::Greater
            }
        } else if a_neg {
            if ka == 0 && kb == 0 {
                Ordering::Equal
            } else {
                Ordering::Less
            }
        } else if b_neg {
            if ka == 0 && kb == 0 {
                Ordering::Equal
            } else {
                Ordering::Greater
            }
        } else {
            if ka < kb {
                Ordering::Less
            } else if ka == kb {
                Ordering::Equal
            } else {
                Ordering::Greater
            }
        }
    }

    fn is_nan(self) -> (b: bool) {
        let (_, k) = self.parts();
        k > INF64
    }

    fn midpoint(self, other: Self) -> (m: Self) {
        let (a_neg, ka) = self.parts();
        let (b_neg, kb) = other.parts();
        proof {
            Format::lemma_formats();
        }
        let (neg, k) = mean(Format { frac: 52, inf: INF64 }, a_neg, ka, b_neg, kb);
        if neg {
            Binary64(k + SIGN64)
        } else {
            Binary64(k)
        }
    }
}

/// A binary32 number, as its bit pattern.
#[derive(Clone, Copy, Debug, PartialEq, Eq, Hash)]
pub struct Binary32(pub u32);

impl Binary32 {
    /// Whether the sign bit is set.
    pub open spec fn negative(self) -> bool {
        self.0 >= SIGN32
    }

    /// The bit pattern without the sign bit.
    pub open spec fn magnitude(self) -> int {
        if self.0 >= SIGN32 {
            self.0 - SIGN32
        } else {
            self.0 as int
        }
    }

    /// The number with the given sign and magnitude.
    pub open spec fn compose(neg: bool, k: int) -> Binary32 {
        if neg {
            Binary32((k + SIGN32) as u32)
        } else {
            Binary32(k as u32)
        }
    }

    /// Whether the number is neither an infinity nor a NaN.
    pub open spec fn finite(self) -> bool {
        self.magnitude() < INF32
    }

    /// What a finite number is worth, in units of the smallest subnormal
    /// number, two to the power of -149.
    pub open spec fn scaled(self) -> int {
        Format::binary32().signed(self.negative(), self.magnitude())
    }

    /// The order of the ranks is the order of what the numbers are worth: of
    /// two finite numbers the one with the smaller rank is worth less, and two
    /// have the same rank exactly when they are worth the same, as the two
    /// zeros are.
    pub proof fn lemma_rank_is_worth(a: Self, b: Self)
        requires
            a.finite(),
            b.finite(),
        ensures
            a.rank() < b.rank() <==> a.scaled() < b.scaled(),
            a.rank() == b.rank() <==> a.scaled() == b.scaled(),
            Binary32(0).rank() == Binary32(SIGN32).rank(),
    {
        Format::lemma_formats();
        lemma_rank_is_worth(
            Format::binary32(),
            a.negative(),
            a.magnitude(),
            b.negative(),
            b.magnitude(),
        );
    }

    /// The infinities are the ends of the order: every finite number is above
    /// the negative one and below the positive one.
    pub proof fn lemma_rank_of_infinities(a: Self)
        requires
            a.finite(),
        ensures
            !Self::compose(true, INF32 as int).nan(),
            !Self::compose(false, INF32 as int).nan(),
            Self::compose(true, INF32 as int).rank() < a.rank() < Self::compose(
                false,
                INF32 as int,
            ).rank(),
    {
    }

    /// The midpoint of two finite numbers is the finite number nearest to half
    /// their sum, and of two equally near the one with the even significand.
    /// It has the sign of the sum; where the sum is zero, it is negative only
    /// where both numbers are.
    pub proof fn lemma_mean_of_finite(a: Self, b: Self)
        requires
            a.finite(),
            b.finite(),
        ensures
            a.mean(b).finite(),
            Format::binary32().nearest_even(a.mean(b).magnitude(), gap(a.scaled() + b.scaled(), 0)),
            a.mean(b).negative() == (a.scaled() + b.scaled() < 0 || (a.scaled() + b.scaled() == 0
                && a.negative() && b.negative())),
    {
        Format::lemma_formats();
        lemma_mean_is_nearest(
            Format::binary32(),
            a.negative(),
            a.magnitude(),
            b.negative(),
            b.magnitude(),
        );
    }

    /// The midpoint of the two infinities is zero, that of an infinity and
    /// itself or a finite number is the infinity.
    pub proof fn lemma_mean_of_infinite(a: Self, b: Self)
        requires
            !a.nan(),
            !b.nan(),
            !a.finite(),
        ensures
            !b.finite() && a != b ==> a.mean(b) == Binary32(0) && b.mean(a) == Binary32(0),
            b.finite() || a == b ==> a.mean(b) == a && b.mean(a) == a,
    {
    }

    /// The sign and the magnitude of the number.
    pub fn parts(self) -> (r: (bool, u32))
        ensures
            r.0 == self.negative(),
            r.1 == self.magnitude(),
            r.1 < SIGN32,
    {
        if self.0 >= SIGN32 {
            (true, self.0 - SIGN32)
        } else {
            (false, self.0)
        }
    }
}

impl FloatType for Binary32 {
    proof fn lemma_mean_between(a: Self, b: Self) {
        Format::lemma_formats();
        lemma_mean_between(
            Format::binary32(),
            a.negative(),
            a.magnitude(),
            b.negative(),
            b.magnitude(),
        );
    }

    proof fn lemma_mean_respects_rank(a: Self, b: Self, c: Self, d: Self) {
        Format::lemma_formats();
        lemma_mean_between(
            Format::binary32(),
            a.negative(),
            a.magnitude(),
            b.negative(),
            b.magnitude(),
        );
        lemma_mean_between(
            Format::binary32(),
            c.negative(),
            c.magnitude(),
            d.negative(),
            d.magnitude(),
        );
        lemma_mean_respects_rank(
            Format::binary32(),
            a.negative(),
            a.magnitude(),
            b.negative(),
            b.magnitude(),
            c.negative(),
            c.magnitude(),
            d.negative(),
            d.magnitude(),
        );
    }

    open spec fn nan(self) -> bool {
        self.magnitude() > INF32
    }

    open spec fn rank(self) -> int {
        Format::rank_of(self.negative(), self.magnitude())
    }

    open spec fn mean(self, other: Self) -> Self {
        let r = Format::binary32().mean_of(
            self.negative(),
            self.magnitude(),
            other.negative(),
            other.magnitude(),
        );
        Binary32::compose(r.0, r.1)
    }

    fn cmp(&self, other: &Self) -> (o: Ordering) {
        let (a_neg, ka) = self.parts();
        let (b_neg, kb) = other.parts();
        if a_neg && b_neg {
            if ka > kb {
                Ordering::Less
            } else if ka == kb {
                Ordering::Equal
            } else {
                Ordering::Greater
            }
        } else if a_neg {
            if ka == 0 && kb == 0 {
                Ordering::Equal
            } else {
                Ordering::Less
            }
        } else if b_neg {
            if ka == 0 && kb == 0 {
                Ordering::Equal
            } else {
                Ordering::Greater
            }
        } else {
            if ka < kb {
                Ordering::Less
            } else if ka == kb {
                Ordering::Equal
            } else {
                Ordering::Greater
            }
        }
    }

    fn is_nan(self) -> (b: bool) {
        let (_, k) = self.parts();
        k > INF32
    }

    fn midpoint(self, other: Self) -> (m: Self) {
        let (a_neg, ka) = self.parts();
        let (b_neg, kb) = other.parts();
        proof {
            Format::lemma_formats();
        }
        let (neg, k) = mean(Format { frac: 23, inf: 0x7f80_0000 }, a_neg, ka as u64, b_neg, kb as u64);
        if neg {
            Binary32(k as u32 + SIGN32)
        } else {
            Binary32(k as u32)
        }
    }
}

} // verus!
