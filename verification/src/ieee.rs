//! IEEE 754 binary formats as integers: a number is a sign and a magnitude,
//! the magnitude being the format's bit pattern without the sign bit. This
//! module says what a magnitude is worth and what it means to round to the
//! nearest one.
use vstd::arithmetic::div_mod::*;
use vstd::arithmetic::power2::*;
use vstd::prelude::*;

verus! {

/// A binary format: the number of bits of the trailing significand, and the
/// magnitude of infinity. Magnitudes below `inf` are the finite numbers, those
/// above it are the NaNs.
#[derive(Clone, Copy, Debug, PartialEq, Eq)]
pub struct Format {
    pub frac: u32,
    pub inf: u64,
}

impl Format {
    /// The significand's implicit leading bit: the smallest normal magnitude.
    pub open spec fn unit(self) -> int {
        pow2(self.frac as nat) as int
    }

    /// The format has a trailing significand of at most 52 bits, at least one
    /// binade of normal numbers, and an exponent field of at most 11 bits.
    pub open spec fn wf(self) -> bool {
        &&& 1 <= self.frac <= 52
        &&& 2 * self.unit() <= self.inf <= 2047 * self.unit()
    }

    /// The binary exponent of the last place of magnitude `k`, counted from
    /// that of the subnormal numbers.
    pub open spec fn shift(self, k: int) -> int {
        if k < 2 * self.unit() {
            0
        } else {
            k / self.unit() - 1
        }
    }

    /// The significand of magnitude `k`, with its leading bit.
    pub open spec fn mant(self, k: int) -> int {
        k - self.shift(k) * self.unit()
    }

    /// What magnitude `k` is worth, in units of the smallest subnormal number.
    pub open spec fn scaled(self, k: int) -> int {
        self.mant(k) * pow2(self.shift(k) as nat)
    }

    /// What the number with the given sign and magnitude is worth, in units of
    /// the smallest subnormal number.
    pub open spec fn signed(self, neg: bool, k: int) -> int {
        if neg {
            -self.scaled(k)
        } else {
            self.scaled(k)
        }
    }

    /// Whether `k` is the finite magnitude nearest to `n` halves of the
    /// smallest subnormal number, and has an even significand where two
    /// magnitudes are equally near.
    pub open spec fn nearest_even(self, k: int, n: int) -> bool {
        &&& 0 <= k < self.inf
        &&& forall|j: int|
            0 <= j < self.inf ==> gap(2 * self.scaled(k), n) <= gap(2 * #[trigger] self.scaled(j), n)
        &&& forall|j: int|
            0 <= j < self.inf && j != k && gap(2 * #[trigger] self.scaled(j), n) == gap(
                2 * self.scaled(k),
                n,
            ) ==> k % 2 == 0
    }

    /// The magnitude that `n` halves of the smallest subnormal number round
    /// to.
    pub open spec fn rounded(self, n: int) -> int {
        choose|k: int| self.nearest_even(k, n)
    }

    /// The rank of a number in the total order of its format: its magnitude,
    /// taken below zero where the sign is set. Both zeros have rank zero.
    pub open spec fn rank_of(neg: bool, k: int) -> int {
        if neg {
            -k
        } else {
            k
        }
    }

    /// The sign and the magnitude of the midpoint of two numbers, neither of
    /// them a NaN. Of two infinities it is that infinity where they agree and
    /// zero where they do not; of an infinity and a finite number it is the
    /// infinity. Of two finite numbers it is half their sum, rounded to the
    /// nearest magnitude; an exact zero is negative only where both numbers
    /// are.
    pub open spec fn mean_of(self, a_neg: bool, ka: int, b_neg: bool, kb: int) -> (bool, int) {
        if ka == self.inf && kb == self.inf {
            if a_neg == b_neg {
                (a_neg, ka)
            } else {
                (false, 0)
            }
        } else if ka == self.inf {
            (a_neg, ka)
        } else if kb == self.inf {
            (b_neg, kb)
        } else {
            let sum = self.signed(a_neg, ka) + self.signed(b_neg, kb);
            (sum < 0 || (sum == 0 && a_neg && b_neg), self.rounded(gap(sum, 0)))
        }
    }
}

/// A well-formed format fits in 64 bits with its sign.
pub proof fn lemma_format_bounds(fmt: Format)
    requires
        fmt.wf(),
    ensures
        2 <= fmt.unit() <= 0x10_0000_0000_0000,
        fmt.inf <= 0x7ff0_0000_0000_0000,
{
    lemma2_to64();
    lemma2_to64_rest();
    if fmt.frac < 52 {
        lemma_pow2_strictly_increases(fmt.frac as nat, 52);
    }
    if fmt.frac > 1 {
        lemma_pow2_strictly_increases(1, fmt.frac as nat);
    }
}

/// The distance between two integers.
pub open spec fn gap(a: int, b: int) -> int {
    if a <= b {
        b - a
    } else {
        a - b
    }
}

/// A magnitude splits into an exponent and a significand, which is below
/// twice the unit, and not below the unit but for subnormal numbers.
pub proof fn lemma_split(fmt: Format, k: int)
    requires
        fmt.wf(),
        0 <= k,
    ensures
        0 <= fmt.shift(k),
        0 <= fmt.mant(k) < 2 * fmt.unit(),
        fmt.shift(k) > 0 ==> fmt.unit() <= fmt.mant(k),
        k == fmt.shift(k) * fmt.unit() + fmt.mant(k),
{
    let u = fmt.unit();
    lemma_pow2_pos(fmt.frac as nat);
    if k >= 2 * u {
        lemma_fundamental_div_mod(k, u);
        lemma_mod_bound(k, u);
        let e = k / u;
        assert(e >= 2) by (nonlinear_arith)
            requires
                k == u * e + k % u,
                0 <= k % u < u,
                k >= 2 * u,
                u > 0,
        ;
        assert(k - (e - 1) * u == u + k % u) by (nonlinear_arith)
            requires
                k == u * e + k % u,
        ;
    }
}

/// An exponent and a significand in range make the magnitude that splits
/// into them.
pub proof fn lemma_join(fmt: Format, q: int, m: int)
    requires
        fmt.wf(),
        0 <= q,
        0 <= m < 2 * fmt.unit(),
        q > 0 ==> fmt.unit() <= m,
    ensures
        fmt.shift(q * fmt.unit() + m) == q,
        fmt.mant(q * fmt.unit() + m) == m,
        fmt.scaled(q * fmt.unit() + m) == m * pow2(q as nat),
        0 <= q * fmt.unit() + m,
{
    let u = fmt.unit();
    let k = q * u + m;
    lemma_pow2_pos(fmt.frac as nat);
    if q > 0 {
        assert(k == (q + 1) * u + (m - u)) by (nonlinear_arith)
            requires
                k == q * u + m,
        ;
        lemma_fundamental_div_mod_converse(k, u, q + 1, m - u);
        assert(k >= 2 * u) by (nonlinear_arith)
            requires
                k == (q + 1) * u + (m - u),
                q >= 1,
                m >= u,
                u > 0,
        ;
    } else {
        assert(k == m) by (nonlinear_arith)
            requires
                k == q * u + m,
                q == 0,
        ;
    }
}

/// The next magnitude is worth one unit in the last place more.
pub proof fn lemma_next(fmt: Format, k: int)
    requires
        fmt.wf(),
        0 <= k,
    ensures
        fmt.scaled(k + 1) == fmt.scaled(k) + pow2(fmt.shift(k) as nat),
        fmt.shift(k) <= fmt.shift(k + 1) <= fmt.shift(k) + 1,
{
    let u = fmt.unit();
    let q = fmt.shift(k);
    let m = fmt.mant(k);
    lemma_pow2_pos(fmt.frac as nat);
    lemma_split(fmt, k);
    lemma2_to64();
    if m + 1 < 2 * u {
        lemma_join(fmt, q, m + 1);
        assert((m + 1) * pow2(q as nat) == m * pow2(q as nat) + pow2(q as nat))
            by (nonlinear_arith);
    } else {
        lemma_join(fmt, q + 1, u);
        assert(k + 1 == (q + 1) * u + u) by (nonlinear_arith)
            requires
                k == q * u + m,
                m + 1 == 2 * u,
        ;
        lemma_pow2_unfold((q + 1) as nat);
        assert(u * (2 * pow2(q as nat)) == m * pow2(q as nat) + pow2(q as nat))
            by (nonlinear_arith)
            requires
                m + 1 == 2 * u,
        ;
    }
}

/// A greater magnitude has an exponent that is not smaller, and is worth
/// more.
pub proof fn lemma_increases(fmt: Format, j: int, k: int)
    requires
        fmt.wf(),
        0 <= j < k,
    ensures
        fmt.scaled(j) < fmt.scaled(k),
        fmt.shift(j) <= fmt.shift(k),
        fmt.scaled(j) + pow2(fmt.shift(j) as nat) <= fmt.scaled(k),
    decreases k - j,
{
    lemma_next(fmt, j);
    lemma_split(fmt, j);
    lemma_pow2_pos(fmt.shift(j) as nat);
    if j + 1 < k {
        lemma_increases(fmt, j + 1, k);
    }
}

/// No magnitude is worth less than nothing, and zero is worth nothing.
pub proof fn lemma_scaled_bounds(fmt: Format, k: int)
    requires
        fmt.wf(),
        0 <= k,
    ensures
        0 <= fmt.scaled(k),
        fmt.scaled(0) == 0,
        k > 0 ==> fmt.scaled(k) > 0,
{
    lemma_pow2_pos(fmt.frac as nat);
    lemma_join(fmt, 0, 0);
    assert(0 * fmt.unit() + 0 == 0);
    if k > 0 {
        lemma_increases(fmt, 0, k);
    }
}

/// Where `n` lies between twice the worth of `k0` and twice that of the next
/// magnitude, the nearer of the two is the nearest of all; where they are
/// equally near, the even one is.
pub proof fn lemma_nearest_of_two(fmt: Format, k0: int, k: int, n: int)
    requires
        fmt.wf(),
        0 <= k0,
        0 <= k < fmt.inf,
        2 * fmt.scaled(k0) <= n <= 2 * fmt.scaled(k0 + 1),
        k == k0 || k == k0 + 1,
        k == k0 ==> n - 2 * fmt.scaled(k0) <= 2 * fmt.scaled(k0 + 1) - n,
        k == k0 + 1 ==> n - 2 * fmt.scaled(k0) >= 2 * fmt.scaled(k0 + 1) - n,
        n - 2 * fmt.scaled(k0) == 2 * fmt.scaled(k0 + 1) - n ==> k % 2 == 0,
    ensures
        fmt.nearest_even(k, n),
{
    lemma_increases(fmt, k0, k0 + 1);
    assert forall|j: int| 0 <= j < fmt.inf implies gap(2 * fmt.scaled(k), n) <= gap(
        2 * #[trigger] fmt.scaled(j),
        n,
    ) && (j != k && gap(2 * fmt.scaled(j), n) == gap(2 * fmt.scaled(k), n) ==> k % 2 == 0) by {
        if j < k0 {
            lemma_increases(fmt, j, k0);
        } else if j > k0 + 1 {
            lemma_increases(fmt, k0 + 1, j);
        }
    }
}

/// At most one magnitude is the nearest with an even significand on ties.
pub proof fn lemma_nearest_unique(fmt: Format, k1: int, k2: int, n: int)
    requires
        fmt.wf(),
        fmt.nearest_even(k1, n),
        fmt.nearest_even(k2, n),
    ensures
        k1 == k2,
{
    if k1 != k2 {
        let lo = if k1 < k2 {
            k1
        } else {
            k2
        };
        let hi = if k1 < k2 {
            k2
        } else {
            k1
        };
        assert(gap(2 * fmt.scaled(k1), n) <= gap(2 * fmt.scaled(k2), n));
        assert(gap(2 * fmt.scaled(k2), n) <= gap(2 * fmt.scaled(k1), n));
        assert(lo % 2 == 0 && hi % 2 == 0);
        lemma_increases(fmt, lo, lo + 1);
        lemma_increases(fmt, lo + 1, hi);
        assert(gap(2 * fmt.scaled(lo), n) <= gap(2 * fmt.scaled(lo + 1), n));
        assert(gap(2 * fmt.scaled(hi), n) <= gap(2 * fmt.scaled(lo + 1), n));
    }
}

/// Where the exponent of `ka` is more than that of `kb` by at least the
/// significand's width and two, the sum and the difference of the two numbers
/// are nearest to `ka` itself: half of either rounds to half of `ka`.
pub proof fn lemma_far_apart(fmt: Format, ka: int, kb: int)
    requires
        fmt.wf(),
        0 <= ka < fmt.inf,
        0 <= kb < fmt.inf,
        fmt.shift(ka) >= fmt.shift(kb) + fmt.frac + 3,
    ensures
        0 <= ka - fmt.unit(),
        fmt.scaled(kb) < fmt.scaled(ka),
        fmt.nearest_even(ka - fmt.unit(), fmt.scaled(ka) + fmt.scaled(kb)),
        fmt.nearest_even(ka - fmt.unit(), fmt.scaled(ka) - fmt.scaled(kb)),
{
    let u = fmt.unit();
    let qa = fmt.shift(ka);
    let ma = fmt.mant(ka);
    let qb = fmt.shift(kb);
    let mb = fmt.mant(kb);
    let kr = ka - u;
    let va = fmt.scaled(ka);
    let vb = fmt.scaled(kb);
    lemma_format_bounds(fmt);
    lemma_split(fmt, ka);
    lemma_split(fmt, kb);
    lemma_join(fmt, qa - 1, ma);
    assert(kr == (qa - 1) * u + ma) by (nonlinear_arith)
        requires
            ka == qa * u + ma,
            kr == ka - u,
    ;
    let g = pow2((qa - 2) as nat) as int;
    lemma_pow2_pos((qa - 2) as nat);
    lemma_pow2_unfold((qa - 1) as nat);
    lemma_pow2_unfold(qa as nat);
    assert(va == 2 * fmt.scaled(kr)) by (nonlinear_arith)
        requires
            va == ma * (4 * g),
            fmt.scaled(kr) == ma * (2 * g),
    ;
    // the smaller number is worth less than a quarter of the last place of the greater
    let edge = pow2((fmt.frac + 1 + qb) as nat) as int;
    lemma_pow2_adds((fmt.frac + 1) as nat, qb as nat);
    lemma_pow2_unfold((fmt.frac + 1) as nat);
    lemma_pow2_pos(qb as nat);
    if fmt.frac + 1 + qb < qa - 2 {
        lemma_pow2_strictly_increases((fmt.frac + 1 + qb) as nat, (qa - 2) as nat);
    }
    assert(0 <= vb < g) by (nonlinear_arith)
        requires
            vb == mb * pow2(qb as nat),
            0 <= mb < 2 * u,
            edge == (2 * u) * pow2(qb as nat),
            edge <= g,
            pow2(qb as nat) > 0,
    ;
    assert(va >= 4 * g) by (nonlinear_arith)
        requires
            va == ma * (4 * g),
            ma >= u,
            u >= 2,
            g > 0,
    ;
    lemma_next(fmt, kr);
    lemma_nearest_of_two(fmt, kr, kr, va + vb);
    if vb == 0 {
        assert(va - vb == va + vb);
    } else {
        lemma_next(fmt, kr - 1);
        lemma_split(fmt, kr - 1);
        let below = fmt.shift(kr - 1);
        if qa - 2 < below {
            lemma_pow2_strictly_increases((qa - 2) as nat, below as nat);
        }
        lemma_nearest_of_two(fmt, kr - 1, kr, va - vb);
    }
}

/// What `n` rounds to, where some magnitude is known to be the nearest.
pub proof fn lemma_rounded(fmt: Format, k: int, n: int)
    requires
        fmt.wf(),
        fmt.nearest_even(k, n),
    ensures
        fmt.rounded(n) == k,
{
    lemma_nearest_unique(fmt, k, fmt.rounded(n), n);
}

/// A magnitude that is worth exactly half of `n` is what `n` rounds to.
pub proof fn lemma_exact(fmt: Format, k: int, n: int)
    requires
        fmt.wf(),
        0 <= k < fmt.inf,
        2 * fmt.scaled(k) == n,
    ensures
        fmt.nearest_even(k, n),
        fmt.rounded(n) == k,
{
    lemma_next(fmt, k);
    lemma_split(fmt, k);
    lemma_pow2_pos(fmt.shift(k) as nat);
    lemma_nearest_of_two(fmt, k, k, n);
    lemma_rounded(fmt, k, n);
}

/// The order of the ranks is the order of what the numbers are worth: of two
/// finite numbers the one with the smaller rank is worth less, and two have
/// the same rank exactly when they are worth the same.
pub proof fn lemma_rank_is_worth(fmt: Format, a_neg: bool, ka: int, b_neg: bool, kb: int)
    requires
        fmt.wf(),
        0 <= ka < fmt.inf,
        0 <= kb < fmt.inf,
    ensures
        Format::rank_of(a_neg, ka) < Format::rank_of(b_neg, kb) <==> fmt.signed(a_neg, ka)
            < fmt.signed(b_neg, kb),
        Format::rank_of(a_neg, ka) == Format::rank_of(b_neg, kb) <==> fmt.signed(a_neg, ka)
            == fmt.signed(b_neg, kb),
{
    lemma_scaled_bounds(fmt, ka);
    lemma_scaled_bounds(fmt, kb);
    if ka < kb {
        lemma_increases(fmt, ka, kb);
    } else if kb < ka {
        lemma_increases(fmt, kb, ka);
    }
}

/// The midpoint does not depend on the order of the two numbers.
pub proof fn lemma_mean_symmetric(fmt: Format, a_neg: bool, ka: int, b_neg: bool, kb: int)
    ensures
        fmt.mean_of(a_neg, ka, b_neg, kb) == fmt.mean_of(b_neg, kb, a_neg, ka),
{
}

/// Some magnitude at or above `k` is worth at most half of `n`, while the next
/// one, if there is one, is worth more.
proof fn lemma_floor(fmt: Format, n: int, k: int) -> (k0: int)
    requires
        fmt.wf(),
        0 <= k < fmt.inf,
        2 * fmt.scaled(k) <= n <= 2 * fmt.scaled(fmt.inf - 1),
    ensures
        k <= k0 < fmt.inf,
        2 * fmt.scaled(k0) <= n,
        k0 + 1 < fmt.inf ==> n < 2 * fmt.scaled(k0 + 1),
        k0 + 1 == fmt.inf ==> n == 2 * fmt.scaled(k0),
    decreases fmt.inf - k,
{
    if k + 1 < fmt.inf && 2 * fmt.scaled(k + 1) <= n {
        lemma_floor(fmt, n, k + 1)
    } else {
        k
    }
}

/// Whatever is not more than twice the worth of the greatest finite
/// magnitude rounds to the nearest magnitude, and to the even one of two
/// equally near.
pub proof fn lemma_rounds_to_nearest(fmt: Format, n: int)
    requires
        fmt.wf(),
        0 <= n <= 2 * fmt.scaled(fmt.inf - 1),
    ensures
        fmt.nearest_even(fmt.rounded(n), n),
{
    lemma_format_bounds(fmt);
    lemma_scaled_bounds(fmt, 0);
    let k0 = lemma_floor(fmt, n, 0);
    if k0 + 1 == fmt.inf {
        lemma_exact(fmt, k0, n);
    } else {
        let lo = n - 2 * fmt.scaled(k0);
        let hi = 2 * fmt.scaled(k0 + 1) - n;
        let k = if lo < hi || (lo == hi && k0 % 2 == 0) {
            k0
        } else {
            k0 + 1
        };
        lemma_nearest_of_two(fmt, k0, k, n);
        lemma_rounded(fmt, k, n);
    }
}

/// Half the sum of two finite numbers is not more than the greater of them,
/// so it rounds to a finite magnitude.
pub proof fn lemma_sum_in_range(fmt: Format, a_neg: bool, ka: int, b_neg: bool, kb: int)
    requires
        fmt.wf(),
        0 <= ka < fmt.inf,
        0 <= kb < fmt.inf,
    ensures
        0 <= gap(fmt.signed(a_neg, ka) + fmt.signed(b_neg, kb), 0) <= 2 * fmt.scaled(fmt.inf - 1),
{
    lemma_scaled_bounds(fmt, ka);
    lemma_scaled_bounds(fmt, kb);
    if ka < fmt.inf - 1 {
        lemma_increases(fmt, ka, fmt.inf - 1);
    }
    if kb < fmt.inf - 1 {
        lemma_increases(fmt, kb, fmt.inf - 1);
    }
}

/// The midpoint of two finite numbers is the finite number nearest to half
/// their sum, and of two equally near the one with the even significand.
pub proof fn lemma_mean_is_nearest(fmt: Format, a_neg: bool, ka: int, b_neg: bool, kb: int)
    requires
        fmt.wf(),
        0 <= ka < fmt.inf,
        0 <= kb < fmt.inf,
    ensures
        fmt.nearest_even(
            fmt.mean_of(a_neg, ka, b_neg, kb).1,
            gap(fmt.signed(a_neg, ka) + fmt.signed(b_neg, kb), 0),
        ),
{
    lemma_sum_in_range(fmt, a_neg, ka, b_neg, kb);
    lemma_rounds_to_nearest(fmt, gap(fmt.signed(a_neg, ka) + fmt.signed(b_neg, kb), 0));
}

/// The nearest magnitude to something between the worths of two magnitudes
/// lies between the two.
proof fn lemma_nearest_between(fmt: Format, k: int, lo: int, hi: int, n: int)
    requires
        fmt.wf(),
        0 <= lo <= hi < fmt.inf,
        fmt.nearest_even(k, n),
        2 * fmt.scaled(lo) <= n <= 2 * fmt.scaled(hi),
    ensures
        lo <= k <= hi,
{
    if k < lo {
        lemma_increases(fmt, k, lo);
        assert(gap(2 * fmt.scaled(k), n) <= gap(2 * fmt.scaled(lo), n));
    }
    if k > hi {
        lemma_increases(fmt, hi, k);
        assert(gap(2 * fmt.scaled(k), n) <= gap(2 * fmt.scaled(hi), n));
    }
}

/// The midpoint of two numbers is a number, and lies between the two: its
/// rank is not below the smaller of their ranks and not above the greater.
pub proof fn lemma_mean_between(fmt: Format, a_neg: bool, ka: int, b_neg: bool, kb: int)
    requires
        fmt.wf(),
        0 <= ka <= fmt.inf,
        0 <= kb <= fmt.inf,
    ensures
        0 <= fmt.mean_of(a_neg, ka, b_neg, kb).1 <= fmt.inf,
        (ka < fmt.inf && kb < fmt.inf) ==> fmt.mean_of(a_neg, ka, b_neg, kb).1 < fmt.inf,
        Format::rank_of(a_neg, ka) <= Format::rank_of(b_neg, kb) ==> Format::rank_of(a_neg, ka)
            <= Format::rank_of(
            fmt.mean_of(a_neg, ka, b_neg, kb).0,
            fmt.mean_of(a_neg, ka, b_neg, kb).1,
        ) <= Format::rank_of(b_neg, kb),
        Format::rank_of(b_neg, kb) <= Format::rank_of(a_neg, ka) ==> Format::rank_of(b_neg, kb)
            <= Format::rank_of(
            fmt.mean_of(a_neg, ka, b_neg, kb).0,
            fmt.mean_of(a_neg, ka, b_neg, kb).1,
        ) <= Format::rank_of(a_neg, ka),
{
    lemma_format_bounds(fmt);
    if ka < fmt.inf && kb < fmt.inf {
        let sum = fmt.signed(a_neg, ka) + fmt.signed(b_neg, kb);
        let n = gap(sum, 0);
        let k = fmt.mean_of(a_neg, ka, b_neg, kb).1;
        lemma_mean_is_nearest(fmt, a_neg, ka, b_neg, kb);
        lemma_scaled_bounds(fmt, ka);
        lemma_scaled_bounds(fmt, kb);
        lemma_scaled_bounds(fmt, 0);
        let lo = if ka <= kb {
            ka
        } else {
            kb
        };
        let hi = if ka <= kb {
            kb
        } else {
            ka
        };
        if lo < hi {
            lemma_increases(fmt, lo, hi);
        }
        if a_neg == b_neg {
            lemma_nearest_between(fmt, k, lo, hi, n);
        } else if sum == 0 {
            lemma_nearest_between(fmt, k, 0, 0, n);
        } else if (sum > 0) == b_neg {
            lemma_nearest_between(fmt, k, 0, ka, n);
        } else {
            lemma_nearest_between(fmt, k, 0, kb, n);
        }
    }
}

/// The rank of the midpoint depends only on the ranks of the two numbers:
/// it is the same for the one zero as for the other.
pub proof fn lemma_mean_respects_rank(
    fmt: Format,
    a_neg: bool,
    ka: int,
    b_neg: bool,
    kb: int,
    c_neg: bool,
    kc: int,
    d_neg: bool,
    kd: int,
)
    requires
        fmt.wf(),
        0 <= ka <= fmt.inf,
        0 <= kb <= fmt.inf,
        0 <= kc <= fmt.inf,
        0 <= kd <= fmt.inf,
        Format::rank_of(a_neg, ka) == Format::rank_of(c_neg, kc),
        Format::rank_of(b_neg, kb) == Format::rank_of(d_neg, kd),
    ensures
        Format::rank_of(fmt.mean_of(a_neg, ka, b_neg, kb).0, fmt.mean_of(a_neg, ka, b_neg, kb).1)
            == Format::rank_of(
            fmt.mean_of(c_neg, kc, d_neg, kd).0,
            fmt.mean_of(c_neg, kc, d_neg, kd).1,
        ),
{
    lemma_format_bounds(fmt);
    lemma_scaled_bounds(fmt, 0);
    if ka < fmt.inf && kb < fmt.inf {
        let sum = fmt.signed(a_neg, ka) + fmt.signed(b_neg, kb);
        assert(sum == fmt.signed(c_neg, kc) + fmt.signed(d_neg, kd));
        if sum == 0 {
            lemma_exact(fmt, 0, 0);
        }
    }
}

} // verus!
