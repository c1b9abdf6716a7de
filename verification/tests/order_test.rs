use ordered_float::OrderedFloat;
use rand_pcg::{
    rand_core::{RngCore, SeedableRng},
    Pcg64,
};
use rolling_median::binary::{Binary32, Binary64};
use rolling_median::float_utils::{FloatOrd, FloatType, InvalidValue};
use std::cmp::Ordering;

fn b32(value: f32) -> Binary32 {
    Binary32(value.to_bits())
}

fn b64(value: f64) -> Binary64 {
    Binary64(value.to_bits())
}

fn ord32(value: f32) -> FloatOrd<Binary32> {
    FloatOrd::new(b32(value)).unwrap()
}

fn ord64(value: f64) -> FloatOrd<Binary64> {
    FloatOrd::new(b64(value)).unwrap()
}

#[test]
fn nan_is_every_pattern_above_infinity() {
    assert!(FloatType::is_nan(Binary64(0x7ff0_0000_0000_0001)));
    assert!(FloatType::is_nan(Binary64(0x7ff8_0000_0000_0000)));
    assert!(FloatType::is_nan(Binary64(0x7fff_ffff_ffff_ffff)));
    assert!(FloatType::is_nan(Binary64(0xfff0_0000_0000_0001)));
    assert!(FloatType::is_nan(Binary64(0xffff_ffff_ffff_ffff)));
    assert!(!FloatType::is_nan(Binary64(0x7ff0_0000_0000_0000)));
    assert!(!FloatType::is_nan(Binary64(0xfff0_0000_0000_0000)));
    assert!(!FloatType::is_nan(Binary64(0x7fef_ffff_ffff_ffff)));
    assert!(!FloatType::is_nan(Binary64(0x8000_0000_0000_0000)));
    assert!(FloatType::is_nan(Binary32(0x7f80_0001)));
    assert!(FloatType::is_nan(Binary32(0x7fc0_0000)));
    assert!(FloatType::is_nan(Binary32(0xffff_ffff)));
    assert!(!FloatType::is_nan(Binary32(0x7f80_0000)));
    assert!(!FloatType::is_nan(Binary32(0xff80_0000)));
    assert!(!FloatType::is_nan(Binary32(0x8000_0000)));
}

#[test]
fn is_nan_agrees_with_the_hardware() {
    let mut random = Pcg64::seed_from_u64(7);
    for _ in 0..100_000 {
        let wide = random.next_u64() | 0x7fe0_0000_0000_0000;
        assert_eq!(FloatType::is_nan(Binary64(wide)), f64::from_bits(wide).is_nan());
        let narrow = random.next_u32() | 0x7f00_0000;
        assert_eq!(FloatType::is_nan(Binary32(narrow)), f32::from_bits(narrow).is_nan());
    }
}

#[test]
fn new_rejects_nan_only() {
    assert_eq!(FloatOrd::new(b64(f64::NAN)).unwrap_err(), InvalidValue);
    assert_eq!(FloatOrd::new(b32(f32::NAN)).unwrap_err(), InvalidValue);
    assert_eq!(FloatOrd::new(Binary64(0xfff0_0000_0000_0001)).unwrap_err(), InvalidValue);
    assert_eq!(FloatOrd::new(b64(5e-324)).unwrap().into_inner(), b64(5e-324));
    assert_eq!(FloatOrd::new(b64(-0.0)).unwrap().into_inner(), b64(-0.0));
    assert_eq!(FloatOrd::new(b32(f32::NEG_INFINITY)).unwrap().into_inner(), b32(f32::NEG_INFINITY));
}

#[test]
fn signed_zeros_are_equal() {
    assert_eq!(FloatType::cmp(&b64(0.0), &b64(-0.0)), Ordering::Equal);
    assert_eq!(FloatType::cmp(&b64(-0.0), &b64(0.0)), Ordering::Equal);
    assert_eq!(FloatType::cmp(&b32(0.0), &b32(-0.0)), Ordering::Equal);
    assert!(FloatType::eq(b64(0.0), &b64(-0.0)));
    assert!(FloatType::leq(&b64(0.0), &b64(-0.0)));
    assert!(FloatType::leq(&b64(-0.0), &b64(0.0)));
    assert!(ord64(0.0) == ord64(-0.0));
    assert!(ord32(-0.0) == ord32(0.0));
    assert!(!(ord64(0.0) < ord64(-0.0)));
    assert!(!(ord64(0.0) > ord64(-0.0)));
}

#[test]
fn infinities_are_the_ends() {
    let finite = [f64::MIN, -1.0, -5e-324, -0.0, 0.0, 5e-324, 1.0, f64::MAX];
    for v in finite.iter().copied() {
        assert_eq!(FloatType::cmp(&b64(f64::NEG_INFINITY), &b64(v)), Ordering::Less);
        assert_eq!(FloatType::cmp(&b64(v), &b64(f64::INFINITY)), Ordering::Less);
        assert_eq!(FloatType::cmp(&b64(f64::INFINITY), &b64(v)), Ordering::Greater);
        assert!(ord64(f64::NEG_INFINITY) < ord64(v));
        assert!(ord64(v) < ord64(f64::INFINITY));
    }
    assert_eq!(FloatType::cmp(&b64(f64::INFINITY), &b64(f64::INFINITY)), Ordering::Equal);
    assert_eq!(FloatType::cmp(&b64(f64::NEG_INFINITY), &b64(f64::INFINITY)), Ordering::Less);
    assert_eq!(FloatType::cmp(&b32(f32::NEG_INFINITY), &b32(f32::MIN)), Ordering::Less);
    assert_eq!(FloatType::cmp(&b32(f32::MAX), &b32(f32::INFINITY)), Ordering::Less);
}

#[test]
fn three_way_comparison_on_chosen_values() {
    assert_eq!(FloatType::cmp(&b64(1.0), &b64(2.0)), Ordering::Less);
    assert_eq!(FloatType::cmp(&b64(2.0), &b64(1.0)), Ordering::Greater);
    assert_eq!(FloatType::cmp(&b64(-1.0), &b64(-2.0)), Ordering::Greater);
    assert_eq!(FloatType::cmp(&b64(-2.0), &b64(-1.0)), Ordering::Less);
    assert_eq!(FloatType::cmp(&b64(-1.0), &b64(1.0)), Ordering::Less);
    assert_eq!(FloatType::cmp(&b64(1.0), &b64(-1.0)), Ordering::Greater);
    assert_eq!(FloatType::cmp(&b64(1.5), &b64(1.5)), Ordering::Equal);
    assert_eq!(FloatType::cmp(&b64(-5e-324), &b64(0.0)), Ordering::Less);
    assert_eq!(FloatType::cmp(&b64(-0.0), &b64(5e-324)), Ordering::Less);
    assert_eq!(FloatType::cmp(&b32(-1.0), &b32(-2.0)), Ordering::Greater);
    assert_eq!(FloatType::cmp(&b32(1.0), &b32(-2.0)), Ordering::Greater);
    assert_eq!(FloatType::cmp(&b32(0.25), &b32(0.25)), Ordering::Equal);
    assert!(!FloatType::eq(b64(1.0), &b64(2.0)));
    assert!(FloatType::leq(&b64(1.0), &b64(2.0)));
    assert!(!FloatType::leq(&b64(2.0), &b64(1.0)));
    assert!(FloatType::leq(&b32(2.0), &b32(2.0)));
}

#[test]
fn comparison_agrees_with_ordered_float_64() {
    let mut random = Pcg64::seed_from_u64(11);
    let mut done = 0usize;
    while done < 200_000 {
        let a = f64::from_bits(random.next_u64());
        let b = if done % 4 == 0 {
            f64::from_bits(a.to_bits() ^ (random.next_u64() & 0x8000_0000_0000_0003))
        } else {
            f64::from_bits(random.next_u64())
        };
        if a.is_nan() || b.is_nan() {
            continue;
        }
        let want = OrderedFloat(a).cmp(&OrderedFloat(b));
        assert_eq!(FloatType::cmp(&b64(a), &b64(b)), want);
        assert_eq!(ord64(a).cmp(&ord64(b)), want);
        assert_eq!(ord64(a).partial_cmp(&ord64(b)), Some(want));
        assert_eq!(FloatType::eq(b64(a), &b64(b)), a == b);
        assert_eq!(FloatType::leq(&b64(a), &b64(b)), a <= b);
        assert_eq!(ord64(a) == ord64(b), a == b);
        assert_eq!(ord64(a) < ord64(b), a < b);
        assert_eq!(ord64(a) >= ord64(b), a >= b);
        done += 1;
    }
}

#[test]
fn comparison_agrees_with_ordered_float_32() {
    let mut random = Pcg64::seed_from_u64(13);
    let mut done = 0usize;
    while done < 200_000 {
        let a = f32::from_bits(random.next_u32());
        let b = if done % 4 == 0 {
            f32::from_bits(a.to_bits() ^ (random.next_u32() & 0x8000_0003))
        } else {
            f32::from_bits(random.next_u32())
        };
        if a.is_nan() || b.is_nan() {
            continue;
        }
        let want = OrderedFloat(a).cmp(&OrderedFloat(b));
        assert_eq!(FloatType::cmp(&b32(a), &b32(b)), want);
        assert_eq!(ord32(a).cmp(&ord32(b)), want);
        assert_eq!(FloatType::eq(b32(a), &b32(b)), a == b);
        assert_eq!(FloatType::leq(&b32(a), &b32(b)), a <= b);
        assert_eq!(ord32(a) <= ord32(b), a <= b);
        done += 1;
    }
}

#[test]
fn wrapper_is_a_plain_value() {
    let a = ord64(2.5);
    let b = a;
    let c = a.clone();
    assert_eq!(a.into_inner(), b64(2.5));
    assert_eq!(b.into_inner(), c.into_inner());
}
