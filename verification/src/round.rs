//! Arithmetic on the magnitudes of a binary format, in integers: taking a
//! magnitude apart, and rounding an exact value to the nearest magnitude.
use crate::ieee::{
    gap, lemma_far_apart, lemma_format_bounds, lemma_increases, lemma_join,
    lemma_nearest_of_two, lemma_next, lemma_rounded, lemma_scaled_bounds, lemma_split, Format,
};
use vstd::arithmetic::div_mod::*;
use vstd::arithmetic::power2::*;
use vstd::bits::*;
use vstd::prelude::*;

verus! {

/// Shifting one to the left gives a power of two.
proof fn lemma_one_shifted(s: u128)
    requires
        s < 128,
    ensures
        (1u128 << s) == pow2(s as nat),
    decreases s,
{
    if s == 0 {
        assert((1u128 << 0u128) == 1) by (bit_vector);
        lemma2_to64();
    } else {
        let r = (s - 1) as u128;
        lemma_one_shifted(r);
        assert((1u128 << s) == 2 * (1u128 << r)) by (bit_vector)
            requires
                0 < s < 128,
                r == s - 1,
        ;
        lemma_pow2_unfold(s as nat);
    }
}

/// Two to the power `s`.
pub fn power_of_two(s: u32) -> (p: u128)
    requires
        s < 128,
    ensures
        p == pow2(s as nat),
{
    proof {
        lemma_one_shifted(s as u128);
    }
    1u128 << (s as u128)
}

/// The number of bits that `t` takes: none for zero, else the place of its
/// leading one.
pub fn bit_length(t: u128) -> (l: u32)
    ensures
        l <= 128,
        t == 0 ==> l == 0,
        t > 0 ==> 1 <= l && pow2((l - 1) as nat) <= t < pow2(l as nat),
{
    if t == 0 {
        return 0;
    }
    let mut x = t;
    let mut l: u32 = 0;
    let mut w: u32 = 128;
    proof {
        lemma2_to64();
        lemma2_to64_rest();
        lemma_pow2_adds(64, 64);
    }
    while w > 1
        invariant
            1 <= w,
            l + w <= 128,
            1 <= x < pow2(w as nat),
            x == t as int / pow2(l as nat) as int,
        decreases w,
    {
        let s = w / 2;
        let p = power_of_two(s);
        proof {
            lemma_pow2_adds(s as nat, (w - s) as nat);
            lemma_pow2_pos((w - s) as nat);
            lemma_pow2_pos(l as nat);
        }
        if x >= p {
            let ghost before = x;
            x = x >> (s as u128);
            proof {
                lemma_u128_shr_is_div(before, s as u128);
                lemma_div_denominator(t as int, pow2(l as nat) as int, p as int);
                lemma_pow2_adds(l as nat, s as nat);
                let rest = pow2((w - s) as nat) as int;
                let high = before as int / (p as int);
                assert(1 <= high < rest) by (nonlinear_arith)
                    requires
                        high == before as int / (p as int),
                        p <= before < p * rest,
                        p > 0,
                ;
            }
            l = l + s;
            w = w - s;
        } else {
            w = s;
        }
    }
    proof {
        lemma2_to64();
        let d = pow2(l as nat) as int;
        lemma_pow2_pos(l as nat);
        lemma_pow2_unfold((l + 1) as nat);
        lemma_fundamental_div_mod(t as int, d);
        lemma_mod_bound(t as int, d);
        assert(d * 1 == d);
    }
    l + 1
}

/// The format's unit: the smallest normal magnitude.
pub fn unit_of(fmt: Format) -> (u: u64)
    requires
        fmt.wf(),
    ensures
        u == fmt.unit(),
{
    proof {
        lemma_format_bounds(fmt);
        lemma_u64_shl_is_mul(1, fmt.frac as u64);
    }
    1u64 << (fmt.frac as u64)
}

/// Takes the magnitude `k` apart, into its exponent and its significand.
pub fn split(fmt: Format, k: u64) -> (r: (u32, u64))
    requires
        fmt.wf(),
        k <= fmt.inf,
    ensures
        r.0 == fmt.shift(k as int),
        r.1 == fmt.mant(k as int),
        r.0 <= 2046,
        r.1 < 2 * fmt.unit(),
        r.0 > 0 ==> fmt.unit() <= r.1,
{
    let unit = unit_of(fmt);
    let e = k >> (fmt.frac as u64);
    proof {
        lemma_format_bounds(fmt);
        lemma_split(fmt, k as int);
        lemma_u64_shr_is_div(k, fmt.frac as u64);
        lemma_fundamental_div_mod(k as int, unit as int);
        lemma_mod_bound(k as int, unit as int);
        let rest = (k as int) % (unit as int);
        assert(e <= 2047 && (e <= 1 <==> k < 2 * unit)) by (nonlinear_arith)
            requires
                k == unit * e + rest,
                0 <= rest < unit,
                k <= 2047 * unit,
                unit > 0,
        ;
    }
    if e <= 1 {
        (0, k)
    } else {
        let q = e - 1;
        proof {
            let rest = (k as int) % (unit as int);
            assert(q * unit <= k) by (nonlinear_arith)
                requires
                    k == unit * e + rest,
                    0 <= rest,
                    q == e - 1,
                    unit > 0,
            ;
        }
        (q as u32, k - q * unit)
    }
}

/// Dropping the last `sh` bits of `t`, which leaves `m0`, gives the
/// significand of a magnitude whose worth is at most `t` times two to the
/// `qb`, in halves of the smallest subnormal number, while that of the next
/// magnitude is more.
proof fn lemma_dropped_bits(fmt: Format, t: int, l: int, qb: int, sh: int, m0: int, rem: int)
    requires
        fmt.wf(),
        0 < t,
        pow2((l - 1) as nat) <= t < pow2(l as nat),
        1 <= l,
        0 <= qb,
        1 <= sh,
        sh == l - (fmt.frac + 1) || (sh == 1 && qb == 0 && l <= fmt.frac + 1),
        t == m0 * pow2(sh as nat) + rem,
        0 <= rem < pow2(sh as nat),
    ensures
        0 <= m0 < 2 * fmt.unit(),
        0 <= (qb + sh - 1) * fmt.unit() + m0,
        2 * fmt.scaled((qb + sh - 1) * fmt.unit() + m0) == m0 * pow2(sh as nat) * pow2(qb as nat),
        2 * fmt.scaled((qb + sh - 1) * fmt.unit() + m0 + 1) == (m0 + 1) * pow2(sh as nat) * pow2(
            qb as nat,
        ),
        ((qb + sh - 1) * fmt.unit() + m0) % 2 == m0 % 2,
{
    let u = fmt.unit();
    let p = pow2(sh as nat) as int;
    let big = pow2(qb as nat) as int;
    let q = qb + sh - 1;
    let k0 = q * u + m0;
    lemma_pow2_pos(sh as nat);
    lemma_pow2_pos(qb as nat);
    lemma_pow2_pos(fmt.frac as nat);
    lemma_pow2_unfold((fmt.frac + 1) as nat);
    assert(m0 >= 0) by (nonlinear_arith)
        requires
            t == m0 * p + rem,
            rem < p,
            t > 0,
            p > 0,
    ;
    // the significand is below twice the unit
    let top = pow2((sh + fmt.frac + 1) as nat) as int;
    lemma_pow2_adds(sh as nat, (fmt.frac + 1) as nat);
    if l < sh + fmt.frac + 1 {
        lemma_pow2_strictly_increases(l as nat, (sh + fmt.frac + 1) as nat);
    }
    assert(m0 < 2 * u) by (nonlinear_arith)
        requires
            t == m0 * p + rem,
            0 <= rem,
            t < top,
            top == p * (2 * u),
            p > 0,
    ;
    // and not below the unit, but for subnormal numbers
    if q > 0 {
        lemma_pow2_adds(sh as nat, fmt.frac as nat);
        assert(m0 >= u) by (nonlinear_arith)
            requires
                t == m0 * p + rem,
                rem < p,
                p * u <= t,
                p > 0,
        ;
    }
    lemma_join(fmt, q, m0);
    lemma_next(fmt, k0);
    lemma_pow2_unfold((q + 1) as nat);
    lemma_pow2_adds(sh as nat, qb as nat);
    let one = pow2(q as nat) as int;
    assert(2 * (m0 * one) == m0 * p * big) by (nonlinear_arith)
        requires
            2 * one == p * big,
    ;
    assert(2 * (m0 * one + one) == (m0 + 1) * p * big) by (nonlinear_arith)
        requires
            2 * one == p * big,
    ;
    lemma_pow2_unfold(fmt.frac as nat);
    let half_unit = pow2((fmt.frac - 1) as nat) as int;
    let pairs = q * half_unit;
    assert(q * u == 2 * pairs) by (nonlinear_arith)
        requires
            u == 2 * half_unit,
            pairs == q * half_unit,
    ;
    assert((2 * pairs + m0) % 2 == m0 % 2);
}

/// Rounds `t` times two to the `qb`, in halves of the smallest subnormal
/// number, to the nearest magnitude, and to the even one of two equally near.
pub fn round_halves(fmt: Format, t: u128, qb: u32) -> (k: u64)
    requires
        fmt.wf(),
        0 < t,
        qb <= 2046,
        t * pow2(qb as nat) <= 2 * fmt.scaled(fmt.inf - 1),
    ensures
        k < fmt.inf,
        fmt.nearest_even(k as int, t * pow2(qb as nat)),
{
    let unit = unit_of(fmt);
    let width = fmt.frac + 1;
    let l = bit_length(t);
    let ghost n = t * pow2(qb as nat);
    let ghost big = pow2(qb as nat) as int;
    proof {
        lemma_format_bounds(fmt);
        lemma_pow2_pos(qb as nat);
    }
    if l > width || qb == 0 {
        let sh: u32 = if l > width {
            l - width
        } else {
            1
        };
        let p = power_of_two(sh);
        let half = power_of_two(sh - 1);
        let m0 = t >> (sh as u128);
        proof {
            lemma_pow2_pos(sh as nat);
            lemma_u128_shr_is_div(t, sh as u128);
            lemma_fundamental_div_mod(t as int, p as int);
            lemma_mod_bound(t as int, p as int);
            lemma_pow2_unfold(sh as nat);
            assert(m0 * p <= t) by (nonlinear_arith)
                requires
                    t == p * m0 + (t as int) % (p as int),
                    0 <= (t as int) % (p as int),
            ;
        }
        let rem = t - m0 * p;
        let q = qb + sh - 1;
        let ghost k0 = q * unit + m0;
        proof {
            assert(t == m0 * p + rem);
            assert(rem == (t as int) % (p as int)) by (nonlinear_arith)
                requires
                    t == p * m0 + (t as int) % (p as int),
                    rem == t - m0 * p,
            ;
            lemma_dropped_bits(fmt, t as int, l as int, qb as int, sh as int, m0 as int, rem as int);
            assert(n == m0 * p * big + rem * big) by (nonlinear_arith)
                requires
                    n == t * big,
                    t == m0 * p + rem,
            ;
            assert((m0 + 1) * p * big == m0 * p * big + p * big) by (nonlinear_arith);
            assert(0 <= rem * big <= p * big) by (nonlinear_arith)
                requires
                    0 <= rem < p,
                    big > 0,
            ;
            // the magnitude below is finite, and is the last one only where nothing is dropped
            if k0 >= fmt.inf {
                lemma_increases(fmt, fmt.inf - 1, k0);
            }
            if k0 == fmt.inf - 1 {
                assert(rem == 0) by (nonlinear_arith)
                    requires
                        rem * big <= 0,
                        rem >= 0,
                        big > 0,
                ;
            }
        }
        let up = rem > half || (rem == half && m0 % 2 == 1);
        proof {
            assert(q * unit <= 2200 * 0x10_0000_0000_0000) by (nonlinear_arith)
                requires
                    0 <= q <= 2200,
                    0 <= unit <= 0x10_0000_0000_0000,
            ;
        }
        let k_wide = (q as u128) * (unit as u128) + m0 + if up {
            1
        } else {
            0
        };
        proof {
            assert(up ==> rem * big >= (p - rem) * big) by (nonlinear_arith)
                requires
                    p == 2 * half,
                    up ==> rem >= half,
                    big > 0,
            ;
            assert(!up ==> rem * big <= (p - rem) * big) by (nonlinear_arith)
                requires
                    p == 2 * half,
                    !up ==> rem <= half,
                    big > 0,
            ;
            assert(rem * big == (p - rem) * big ==> rem == half) by (nonlinear_arith)
                requires
                    p == 2 * half,
                    big > 0,
            ;
            assert((p - rem) * big == p * big - rem * big) by (nonlinear_arith);
            lemma_nearest_of_two(fmt, k0, k_wide as int, n);
        }
        k_wide as u64
    } else {
        let spare = width - l;
        let ls = if spare < qb - 1 {
            spare
        } else {
            qb - 1
        };
        let scale = power_of_two(ls);
        proof {
            lemma_pow2_pos(ls as nat);
            lemma_pow2_adds(l as nat, ls as nat);
            lemma_pow2_adds((l - 1) as nat, ls as nat);
            lemma_pow2_unfold(width as nat);
            if l + ls < width {
                lemma_pow2_strictly_increases((l + ls) as nat, width as nat);
            }
            assert(t * scale < 2 * unit) by (nonlinear_arith)
                requires
                    t < pow2(l as nat),
                    pow2(l as nat) * scale <= 2 * unit,
                    scale > 0,
            ;
        }
        let m = t * scale;
        let q = qb - 1 - ls;
        proof {
            assert(q * unit <= 2046 * 0x10_0000_0000_0000) by (nonlinear_arith)
                requires
                    0 <= q <= 2046,
                    0 <= unit <= 0x10_0000_0000_0000,
            ;
        }
        let k_wide = (q as u128) * (unit as u128) + m;
        proof {
            if q > 0 {
                assert(l - 1 + ls == fmt.frac);
                assert(m >= unit) by (nonlinear_arith)
                    requires
                        m == t * scale,
                        pow2((l - 1) as nat) <= t,
                        pow2((l - 1) as nat) * scale == unit,
                        scale > 0,
                ;
            }
            lemma_join(fmt, q as int, m as int);
            lemma_next(fmt, k_wide as int);
            lemma_pow2_adds(ls as nat, q as nat);
            lemma_pow2_unfold(qb as nat);
            lemma_pow2_pos(q as nat);
            let one = pow2(q as nat) as int;
            assert(2 * (m * one) == n) by (nonlinear_arith)
                requires
                    m == t * scale,
                    n == t * big,
                    big == 2 * (scale * one),
            ;
            if k_wide >= fmt.inf {
                lemma_increases(fmt, fmt.inf - 1, k_wide as int);
            }
            lemma_nearest_of_two(fmt, k_wide as int, k_wide as int, n);
        }
        k_wide as u64
    }
}

/// The midpoint of two finite numbers, the first of which has the exponent
/// that is not smaller.
fn mean_ordered(fmt: Format, a_neg: bool, ka: u64, b_neg: bool, kb: u64) -> (r: (bool, u64))
    requires
        fmt.wf(),
        ka < fmt.inf,
        kb < fmt.inf,
        fmt.shift(ka as int) >= fmt.shift(kb as int),
    ensures
        r.1 < fmt.inf,
        r.0 == fmt.mean_of(a_neg, ka as int, b_neg, kb as int).0,
        r.1 == fmt.mean_of(a_neg, ka as int, b_neg, kb as int).1,
{
    let unit = unit_of(fmt);
    let (qa, ma) = split(fmt, ka);
    let (qb, mb) = split(fmt, kb);
    let d = qa - qb;
    let ghost va = fmt.scaled(ka as int);
    let ghost vb = fmt.scaled(kb as int);
    let ghost sum = fmt.signed(a_neg, ka as int) + fmt.signed(b_neg, kb as int);
    proof {
        lemma_format_bounds(fmt);
        lemma_scaled_bounds(fmt, ka as int);
        lemma_scaled_bounds(fmt, kb as int);
    }
    if d > fmt.frac + 2 {
        proof {
            lemma_far_apart(fmt, ka as int, kb as int);
            lemma_rounded(fmt, ka - unit, gap(sum, 0));
        }
        return (a_neg, ka - unit);
    }
    let scale = power_of_two(d);
    let ghost big = pow2(qb as nat) as int;
    proof {
        lemma_pow2_pos(d as nat);
        lemma_pow2_pos(qb as nat);
        lemma_pow2_adds(d as nat, qb as nat);
        lemma2_to64();
        lemma2_to64_rest();
        if d < 54 {
            lemma_pow2_strictly_increases(d as nat, 54);
        }
        assert(ma * scale < 0x40_0000_0000_0000 * 0x20_0000_0000_0000) by (nonlinear_arith)
            requires
                0 <= ma < 0x20_0000_0000_0000,
                0 < scale <= 0x40_0000_0000_0000,
        ;
    }
    let wide = (ma as u128) * scale;
    let small = mb as u128;
    proof {
        assert(va == wide * big) by (nonlinear_arith)
            requires
                va == ma * (scale * big),
                wide == ma * scale,
        ;
        assert((wide + small) * big == va + vb) by (nonlinear_arith)
            requires
                va == wide * big,
                vb == small * big,
        ;
        assert((wide - small) * big == va - vb) by (nonlinear_arith)
            requires
                va == wide * big,
                vb == small * big,
        ;
        assert((small - wide) * big == vb - va) by (nonlinear_arith)
            requires
                va == wide * big,
                vb == small * big,
        ;
        assert((wide < small <==> va < vb) && (wide == small <==> va == vb)) by (nonlinear_arith)
            requires
                va == wide * big,
                vb == small * big,
                big > 0,
        ;
        // neither number is worth more than the greatest finite one
        if ka < fmt.inf - 1 {
            lemma_increases(fmt, ka as int, fmt.inf - 1);
        }
        if kb < fmt.inf - 1 {
            lemma_increases(fmt, kb as int, fmt.inf - 1);
        }
    }
    let (neg, t) = if a_neg == b_neg {
        (a_neg, wide + small)
    } else if wide > small {
        (a_neg, wide - small)
    } else if wide < small {
        (b_neg, small - wide)
    } else {
        (false, 0)
    };
    assert(t * big == gap(sum, 0));
    assert(neg == (sum < 0 || (sum == 0 && a_neg && b_neg)));
    if t == 0 {
        proof {
            lemma_scaled_bounds(fmt, 0);
            lemma_next(fmt, 0);
            lemma_pow2_pos(fmt.shift(0) as nat);
            lemma_nearest_of_two(fmt, 0, 0, 0);
            lemma_rounded(fmt, 0, gap(sum, 0));
        }
        return (neg, 0);
    }
    let k = round_halves(fmt, t, qb);
    proof {
        lemma_rounded(fmt, k as int, gap(sum, 0));
    }
    (neg, k)
}

/// The midpoint of two numbers of a format, neither of them a NaN, each
/// given by its sign and its magnitude.
pub fn mean(fmt: Format, a_neg: bool, ka: u64, b_neg: bool, kb: u64) -> (r: (bool, u64))
    requires
        fmt.wf(),
        ka <= fmt.inf,
        kb <= fmt.inf,
    ensures
        r.1 <= fmt.inf,
        r.0 == fmt.mean_of(a_neg, ka as int, b_neg, kb as int).0,
        r.1 == fmt.mean_of(a_neg, ka as int, b_neg, kb as int).1,
{
    if ka == fmt.inf && kb == fmt.inf {
        if a_neg == b_neg {
            (a_neg, ka)
        } else {
            (false, 0)
        }
    } else if ka == fmt.inf {
        (a_neg, ka)
    } else if kb == fmt.inf {
        (b_neg, kb)
    } else {
        let (qa, _) = split(fmt, ka);
        let (qb, _) = split(fmt, kb);
        if qa >= qb {
            mean_ordered(fmt, a_neg, ka, b_neg, kb)
        } else {
            mean_ordered(fmt, b_neg, kb, a_neg, ka)
        }
    }
}

} // verus!
