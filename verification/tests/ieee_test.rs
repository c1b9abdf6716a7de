use rolling_median::ieee::Format;
use rolling_median::round::{bit_length, mean, power_of_two, round_halves, split, unit_of};

fn double() -> Format {
    Format { frac: 52, inf: 0x7ff0_0000_0000_0000 }
}

fn single() -> Format {
    Format { frac: 23, inf: 0x7f80_0000 }
}

/// A toy format: two bits of trailing significand, three of exponent.
fn toy() -> Format {
    Format { frac: 2, inf: 7 << 2 }
}

/// What a magnitude of the toy format is worth, in units of its smallest
/// subnormal number.
fn toy_worth(k: u64) -> u64 {
    let e = k >> 2;
    let f = k & 3;
    if e == 0 {
        f
    } else {
        (4 + f) << (e - 1)
    }
}

#[test]
fn powers_of_two() {
    assert_eq!(power_of_two(0), 1);
    assert_eq!(power_of_two(1), 2);
    assert_eq!(power_of_two(10), 1024);
    assert_eq!(power_of_two(64), 1u128 << 64);
    assert_eq!(power_of_two(127), 1u128 << 127);
}

#[test]
fn bit_lengths() {
    assert_eq!(bit_length(0), 0);
    assert_eq!(bit_length(1), 1);
    assert_eq!(bit_length(2), 2);
    assert_eq!(bit_length(3), 2);
    assert_eq!(bit_length(4), 3);
    assert_eq!(bit_length(255), 8);
    assert_eq!(bit_length(256), 9);
    assert_eq!(bit_length(u64::MAX as u128), 64);
    assert_eq!(bit_length(1u128 << 64), 65);
    assert_eq!(bit_length(u128::MAX), 128);
    for s in 0..128u32 {
        assert_eq!(bit_length(1u128 << s), s + 1);
        assert_eq!(bit_length((1u128 << s) | 1), s + 1);
        assert_eq!(bit_length((1u128 << s) - 1), s);
    }
}

#[test]
fn units() {
    assert_eq!(unit_of(double()), 1u64 << 52);
    assert_eq!(unit_of(single()), 1u64 << 23);
    assert_eq!(unit_of(toy()), 4);
}

#[test]
fn split_takes_magnitudes_apart() {
    // zero and the subnormal numbers have no leading bit
    assert_eq!(split(double(), 0), (0, 0));
    assert_eq!(split(double(), 1), (0, 1));
    assert_eq!(split(double(), (1u64 << 52) - 1), (0, (1u64 << 52) - 1));
    // the first normal binade shares their exponent
    assert_eq!(split(double(), 1u64 << 52), (0, 1u64 << 52));
    assert_eq!(split(double(), (2u64 << 52) - 1), (0, (2u64 << 52) - 1));
    assert_eq!(split(double(), 2u64 << 52), (1, 1u64 << 52));
    // 1.0 and 1.5
    assert_eq!(split(double(), 0x3ff0_0000_0000_0000), (1022, 1u64 << 52));
    assert_eq!(split(double(), 0x3ff8_0000_0000_0000), (1022, 3u64 << 51));
    // the greatest finite number
    assert_eq!(split(double(), 0x7fef_ffff_ffff_ffff), (2045, (2u64 << 52) - 1));
    assert_eq!(split(single(), 0x3f80_0000), (126, 1u64 << 23));
    assert_eq!(split(single(), 0x7f7f_ffff), (253, (2u64 << 23) - 1));
    assert_eq!(split(toy(), 3), (0, 3));
    assert_eq!(split(toy(), 4), (0, 4));
    assert_eq!(split(toy(), 8), (1, 4));
    assert_eq!(split(toy(), 27), (5, 7));
}

#[test]
fn rounding_in_the_toy_format() {
    // every exact value, in halves of the smallest subnormal number, goes to the
    // nearest magnitude, and to the even one of two equally near
    let fmt = toy();
    let greatest = toy_worth(27);
    for n in 1..=(2 * greatest) {
        let mut best = 0u64;
        let mut best_gap = u64::MAX;
        for k in 0..28u64 {
            let gap = (2 * toy_worth(k)).abs_diff(n);
            if gap < best_gap || (gap == best_gap && k % 2 == 0) {
                best = k;
                best_gap = gap;
            }
        }
        assert_eq!(round_halves(fmt, n as u128, 0), best, "rounding {}", n);
        if n % 2 == 0 {
            assert_eq!(round_halves(fmt, (n / 2) as u128, 1), best, "rounding {}", n);
        }
        if n % 8 == 0 {
            assert_eq!(round_halves(fmt, (n / 8) as u128, 3), best, "rounding {}", n);
        }
    }
}

#[test]
fn means_in_the_toy_format() {
    let fmt = toy();
    for ka in 0..28u64 {
        for kb in 0..28u64 {
            for signs in 0..4u32 {
                let a_neg = signs & 1 == 1;
                let b_neg = signs & 2 == 2;
                let wa = toy_worth(ka) as i64 * if a_neg { -1 } else { 1 };
                let wb = toy_worth(kb) as i64 * if b_neg { -1 } else { 1 };
                let sum = wa + wb;
                let n = sum.unsigned_abs();
                let mut best = 0u64;
                let mut best_gap = u64::MAX;
                for k in 0..28u64 {
                    let gap = (2 * toy_worth(k)).abs_diff(n);
                    if gap < best_gap || (gap == best_gap && k % 2 == 0) {
                        best = k;
                        best_gap = gap;
                    }
                }
                let neg = sum < 0 || (sum == 0 && a_neg && b_neg);
                assert_eq!(mean(fmt, a_neg, ka, b_neg, kb), (neg, best));
            }
        }
    }
}

#[test]
fn means_with_infinities() {
    let fmt = double();
    let inf = fmt.inf;
    assert_eq!(mean(fmt, false, inf, false, inf), (false, inf));
    assert_eq!(mean(fmt, true, inf, true, inf), (true, inf));
    assert_eq!(mean(fmt, false, inf, true, inf), (false, 0));
    assert_eq!(mean(fmt, true, inf, false, inf), (false, 0));
    assert_eq!(mean(fmt, true, inf, false, 5), (true, inf));
    assert_eq!(mean(fmt, true, 5, false, inf), (false, inf));
    assert_eq!(mean(fmt, false, 0x7fef_ffff_ffff_ffff, true, inf), (true, inf));
}

#[test]
fn means_of_chosen_magnitudes() {
    let fmt = double();
    // 1.0 and 2.0 give 1.5
    assert_eq!(
        mean(fmt, false, 0x3ff0_0000_0000_0000, false, 0x4000_0000_0000_0000),
        (false, 0x3ff8_0000_0000_0000)
    );
    // -1.0 and -2.0 give -1.5
    assert_eq!(
        mean(fmt, true, 0x3ff0_0000_0000_0000, true, 0x4000_0000_0000_0000),
        (true, 0x3ff8_0000_0000_0000)
    );
    // the greatest finite number and its negative give zero
    assert_eq!(mean(fmt, false, 0x7fef_ffff_ffff_ffff, true, 0x7fef_ffff_ffff_ffff), (false, 0));
    // a number and one far below it give half the number
    assert_eq!(mean(fmt, false, 0x4340_0000_0000_0000, false, 1), (false, 0x4330_0000_0000_0000));
    assert_eq!(mean(fmt, true, 1, false, 0x4340_0000_0000_0000), (false, 0x4330_0000_0000_0000));
}
