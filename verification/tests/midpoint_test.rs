use rand_pcg::{
    rand_core::{RngCore, SeedableRng},
    Pcg64,
};
use rolling_median::binary::{Binary32, Binary64};
use rolling_median::float_utils::FloatType;

fn mid32(a: f32, b: f32) -> f32 {
    f32::from_bits(FloatType::midpoint(Binary32(a.to_bits()), Binary32(b.to_bits())).0)
}

fn mid64(a: f64, b: f64) -> f64 {
    f64::from_bits(FloatType::midpoint(Binary64(a.to_bits()), Binary64(b.to_bits())).0)
}

/// The midpoint that the floating-point unit computes, zero where it has none.
fn reference32(a: f32, b: f32) -> f32 {
    let m = f32::midpoint(a, b);
    if m.is_nan() {
        0.0f32
    } else {
        m
    }
}

/// The midpoint that the floating-point unit computes, zero where it has none.
fn reference64(a: f64, b: f64) -> f64 {
    let m = f64::midpoint(a, b);
    if m.is_nan() {
        0.0f64
    } else {
        m
    }
}

fn check32(a: f32, b: f32) {
    let got = mid32(a, b);
    let want = reference32(a, b);
    assert_eq!(got.to_bits(), want.to_bits(), "midpoint of {:?} and {:?}: {:?}, not {:?}", a, b, got, want);
}

fn check64(a: f64, b: f64) {
    let got = mid64(a, b);
    let want = reference64(a, b);
    assert_eq!(got.to_bits(), want.to_bits(), "midpoint of {:?} and {:?}: {:?}, not {:?}", a, b, got, want);
}

fn corners32() -> Vec<f32> {
    let mut values = vec![
        0.0f32,
        f32::from_bits(1),
        f32::from_bits(2),
        f32::from_bits(3),
        f32::from_bits(0x007f_ffff),
        f32::MIN_POSITIVE,
        f32::from_bits(0x0080_0001),
        f32::from_bits(0x00ff_ffff),
        f32::from_bits(0x0100_0000),
        f32::EPSILON,
        0.5f32,
        1.0f32,
        f32::from_bits(0x3f80_0001),
        1.5f32,
        2.0f32,
        3.0f32,
        16777215.0f32,
        16777216.0f32,
        f32::MAX / 2.0f32,
        f32::from_bits(0x7f7f_fffe),
        f32::MAX,
        f32::INFINITY,
    ];
    let negated: Vec<f32> = values.iter().map(|v| -*v).collect();
    values.extend(negated);
    values
}

fn corners64() -> Vec<f64> {
    let mut values = vec![
        0.0f64,
        f64::from_bits(1),
        f64::from_bits(2),
        f64::from_bits(3),
        f64::from_bits(0x000f_ffff_ffff_ffff),
        f64::MIN_POSITIVE,
        f64::from_bits(0x0010_0000_0000_0001),
        f64::from_bits(0x001f_ffff_ffff_ffff),
        f64::from_bits(0x0020_0000_0000_0000),
        f64::EPSILON,
        0.5f64,
        1.0f64,
        f64::from_bits(0x3ff0_0000_0000_0001),
        1.5f64,
        2.0f64,
        3.0f64,
        9007199254740991.0f64,
        9007199254740992.0f64,
        f64::MAX / 2.0f64,
        f64::from_bits(0x7fef_ffff_ffff_fffe),
        f64::MAX,
        f64::INFINITY,
    ];
    let negated: Vec<f64> = values.iter().map(|v| -*v).collect();
    values.extend(negated);
    values
}

#[test]
fn midpoint_of_infinities_32() {
    assert_eq!(mid32(f32::INFINITY, f32::INFINITY), f32::INFINITY);
    assert_eq!(mid32(f32::NEG_INFINITY, f32::NEG_INFINITY), f32::NEG_INFINITY);
    assert_eq!(mid32(f32::INFINITY, f32::NEG_INFINITY).to_bits(), 0.0f32.to_bits());
    assert_eq!(mid32(f32::NEG_INFINITY, f32::INFINITY).to_bits(), 0.0f32.to_bits());
}

#[test]
fn midpoint_of_infinities_64() {
    assert_eq!(mid64(f64::INFINITY, f64::INFINITY), f64::INFINITY);
    assert_eq!(mid64(f64::NEG_INFINITY, f64::NEG_INFINITY), f64::NEG_INFINITY);
    assert_eq!(mid64(f64::INFINITY, f64::NEG_INFINITY).to_bits(), 0.0f64.to_bits());
    assert_eq!(mid64(f64::NEG_INFINITY, f64::INFINITY).to_bits(), 0.0f64.to_bits());
}

#[test]
fn midpoint_of_infinity_and_finite() {
    assert_eq!(mid64(f64::INFINITY, 1.0), f64::INFINITY);
    assert_eq!(mid64(-7.5, f64::INFINITY), f64::INFINITY);
    assert_eq!(mid64(f64::NEG_INFINITY, f64::MAX), f64::NEG_INFINITY);
    assert_eq!(mid32(f32::MIN, f32::INFINITY), f32::INFINITY);
    assert_eq!(mid32(f32::NEG_INFINITY, 0.0), f32::NEG_INFINITY);
}

#[test]
fn midpoint_does_not_overflow() {
    assert_eq!(mid64(f64::MAX, f64::MAX), f64::MAX);
    assert_eq!(mid64(f64::MIN, f64::MIN), f64::MIN);
    assert_eq!(mid64(f64::MIN, f64::MAX), 0.0);
    assert_eq!(mid64(f64::MAX, f64::MAX / 2.0), f64::MAX * 0.75);
    assert_eq!(mid32(f32::MAX, f32::MAX), f32::MAX);
    assert_eq!(mid32(f32::MIN, f32::MAX), 0.0);
    assert_eq!(mid32(f32::MAX, f32::MAX / 2.0), f32::MAX * 0.75);
}

#[test]
fn midpoint_exact_values() {
    assert_eq!(mid64(3.27, 4.60), (3.27 + 4.60) / 2.0);
    assert_eq!(mid64(3.27, 4.60).to_bits(), 0x400f_7ae1_47ae_147a);
    assert_eq!(mid64(4.60, 4.95), 4.775);
    assert_eq!(mid64(4.60, 5.95), 5.275);
    assert_eq!(mid64(1.0, 4.0), 2.5);
    assert_eq!(mid64(-3.0, 1.0), -1.0);
    assert_eq!(mid64(1e300, 3e300), 2e300);
    assert_eq!(mid64(1.0, 1e-300), 0.5);
    assert_eq!(mid32(1.0, 4.0), 2.5);
    assert_eq!(mid32(-3.0, 1.0), -1.0);
    assert_eq!(mid32(1.0, 1e-30), 0.5);
}

#[test]
fn midpoint_rounds_ties_to_even() {
    // half of the smallest subnormal number lies between zero and that number
    assert_eq!(mid64(f64::from_bits(1), 0.0).to_bits(), 0);
    assert_eq!(mid64(f64::from_bits(1), f64::from_bits(2)).to_bits(), 2);
    assert_eq!(mid64(f64::from_bits(2), f64::from_bits(3)).to_bits(), 2);
    assert_eq!(mid64(f64::from_bits(3), f64::from_bits(4)).to_bits(), 4);
    assert_eq!(mid32(f32::from_bits(1), 0.0).to_bits(), 0);
    assert_eq!(mid32(f32::from_bits(1), f32::from_bits(2)).to_bits(), 2);
    assert_eq!(mid32(f32::from_bits(2), f32::from_bits(3)).to_bits(), 2);
    assert_eq!(mid32(f32::from_bits(3), f32::from_bits(4)).to_bits(), 4);
}

#[test]
fn midpoint_sign_of_zero() {
    assert_eq!(mid64(0.0, 0.0).to_bits(), 0.0f64.to_bits());
    assert_eq!(mid64(-0.0, -0.0).to_bits(), (-0.0f64).to_bits());
    assert_eq!(mid64(-0.0, 0.0).to_bits(), 0.0f64.to_bits());
    assert_eq!(mid64(0.0, -0.0).to_bits(), 0.0f64.to_bits());
    assert_eq!(mid64(1.0, -1.0).to_bits(), 0.0f64.to_bits());
    assert_eq!(mid64(-f64::from_bits(1), 0.0).to_bits(), (-0.0f64).to_bits());
    assert_eq!(mid32(-0.0, -0.0).to_bits(), (-0.0f32).to_bits());
    assert_eq!(mid32(-0.0, 0.0).to_bits(), 0.0f32.to_bits());
    assert_eq!(mid32(-1.0, 1.0).to_bits(), 0.0f32.to_bits());
}

#[test]
fn midpoint_of_corners_32() {
    let values = corners32();
    for a in values.iter().copied() {
        for b in values.iter().copied() {
            check32(a, b);
        }
    }
}

#[test]
fn midpoint_of_corners_64() {
    let values = corners64();
    for a in values.iter().copied() {
        for b in values.iter().copied() {
            check64(a, b);
        }
    }
}

#[test]
fn midpoint_of_random_bits_32() {
    let mut random = Pcg64::seed_from_u64(32);
    let mut done = 0usize;
    while done < 200_000 {
        let a = f32::from_bits(random.next_u32());
        let b = f32::from_bits(random.next_u32());
        if a.is_nan() || b.is_nan() {
            continue;
        }
        check32(a, b);
        done += 1;
    }
}

#[test]
fn midpoint_of_random_bits_64() {
    let mut random = Pcg64::seed_from_u64(64);
    let mut done = 0usize;
    while done < 200_000 {
        let a = f64::from_bits(random.next_u64());
        let b = f64::from_bits(random.next_u64());
        if a.is_nan() || b.is_nan() {
            continue;
        }
        check64(a, b);
        done += 1;
    }
}

#[test]
fn midpoint_of_near_numbers_32() {
    let mut random = Pcg64::seed_from_u64(33);
    let mut done = 0usize;
    while done < 200_000 {
        let bits = random.next_u32();
        let step = random.next_u32() % 64;
        let sign = random.next_u32() & 0x8000_0000;
        let a = f32::from_bits(bits);
        let b = f32::from_bits((bits & 0x7fff_ffff).saturating_sub(step) | sign);
        if a.is_nan() || b.is_nan() {
            continue;
        }
        check32(a, b);
        check32(b, a);
        done += 1;
    }
}

#[test]
fn midpoint_of_near_numbers_64() {
    let mut random = Pcg64::seed_from_u64(65);
    let mut done = 0usize;
    while done < 200_000 {
        let bits = random.next_u64();
        let step = random.next_u64() % 64;
        let sign = random.next_u64() & 0x8000_0000_0000_0000;
        let a = f64::from_bits(bits);
        let b = f64::from_bits((bits & 0x7fff_ffff_ffff_ffff).saturating_sub(step) | sign);
        if a.is_nan() || b.is_nan() {
            continue;
        }
        check64(a, b);
        check64(b, a);
        done += 1;
    }
}

#[test]
fn midpoint_of_numbers_few_binades_apart_32() {
    let mut random = Pcg64::seed_from_u64(34);
    for _ in 0..200_000 {
        let exp_a = 1 + random.next_u32() % 254;
        let exp_b = exp_a.saturating_sub(random.next_u32() % 32);
        let a = f32::from_bits((exp_a << 23) | (random.next_u32() >> 9) | (random.next_u32() & 0x8000_0000));
        let b = f32::from_bits((exp_b << 23) | (random.next_u32() >> 9) | (random.next_u32() & 0x8000_0000));
        check32(a, b);
        check32(b, a);
    }
}

#[test]
fn midpoint_of_numbers_few_binades_apart_64() {
    let mut random = Pcg64::seed_from_u64(66);
    for _ in 0..200_000 {
        let exp_a = 1 + random.next_u64() % 2046;
        let exp_b = exp_a.saturating_sub(random.next_u64() % 64);
        let a = f64::from_bits((exp_a << 52) | (random.next_u64() >> 12) | (random.next_u64() & 0x8000_0000_0000_0000));
        let b = f64::from_bits((exp_b << 52) | (random.next_u64() >> 12) | (random.next_u64() & 0x8000_0000_0000_0000));
        check64(a, b);
        check64(b, a);
    }
}

#[test]
fn midpoint_of_sparse_significands_64() {
    // significands with few bits set make ties, which go to the even neighbour
    let mut random = Pcg64::seed_from_u64(67);
    for _ in 0..200_000 {
        let exp_a = random.next_u64() % 2047;
        let exp_b = exp_a.saturating_sub(random.next_u64() % 60);
        let frac_a = (1u64 << (random.next_u64() % 52)) | (1u64 << (random.next_u64() % 52));
        let frac_b = (1u64 << (random.next_u64() % 52)) | (random.next_u64() & 1);
        let a = f64::from_bits((exp_a << 52) | frac_a | (random.next_u64() & 0x8000_0000_0000_0000));
        let b = f64::from_bits((exp_b << 52) | frac_b | (random.next_u64() & 0x8000_0000_0000_0000));
        check64(a, b);
        check64(b, a);
    }
}

#[test]
fn midpoint_of_sparse_significands_32() {
    let mut random = Pcg64::seed_from_u64(35);
    for _ in 0..200_000 {
        let exp_a = random.next_u32() % 255;
        let exp_b = exp_a.saturating_sub(random.next_u32() % 30);
        let frac_a = (1u32 << (random.next_u32() % 23)) | (1u32 << (random.next_u32() % 23));
        let frac_b = (1u32 << (random.next_u32() % 23)) | (random.next_u32() & 1);
        let a = f32::from_bits((exp_a << 23) | frac_a | (random.next_u32() & 0x8000_0000));
        let b = f32::from_bits((exp_b << 23) | frac_b | (random.next_u32() & 0x8000_0000));
        check32(a, b);
        check32(b, a);
    }
}
