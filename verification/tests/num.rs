use raytracer::num::{
    fixed, is_power_of_2, maxn, minn, Float0to1, MinMax, PositiveNonzeroF32, ToFixed,
};

#[test]
fn to_fixed() {
    let n: f32 = 0.1234;
    assert_eq!(n.to_fixed(0), "0");
    assert_eq!(n.to_fixed(3), "0.123");
    assert_eq!(n.to_fixed(5), "0.12340");

    let n: f32 = 0.01;
    assert_eq!(n.to_fixed(0), "0");
    assert_eq!(n.to_fixed(5), "0.01000");

    let n: f32 = 100.0;
    assert_eq!(n.to_fixed(0), "100");
    assert_eq!(n.to_fixed(1), "100.0");
}

#[test]
fn test_is_power_of_2() {
    assert_eq!(is_power_of_2(0), false);
    assert_eq!(is_power_of_2(1), true);
    assert_eq!(is_power_of_2(2), true);
    assert_eq!(is_power_of_2(3), false);
    assert_eq!(is_power_of_2(1024), true);
}

#[test]
fn is_power_of_2_at_the_ends_of_the_range() {
    assert_eq!(is_power_of_2(1usize << (usize::BITS - 1)), true);
    assert_eq!(is_power_of_2(usize::MAX), false);
    assert_eq!(is_power_of_2(6), false);
    assert_eq!(is_power_of_2(12), false);
}

#[test]
fn fixed_cuts_and_fills() {
    assert_eq!(fixed("12.3456".to_string(), 2), "12.34");
    assert_eq!(fixed("12.3456".to_string(), 4), "12.3456");
    assert_eq!(fixed("12.3456".to_string(), 6), "12.345600");
    assert_eq!(fixed("12".to_string(), 3), "12.000");
    assert_eq!(fixed("12".to_string(), 0), "12");
    assert_eq!(fixed("12.9".to_string(), 0), "12");
    assert_eq!(fixed(".5".to_string(), 1), ".5");
    assert_eq!(fixed("1.2.3".to_string(), 3), "1.2.3");
    assert_eq!(fixed("".to_string(), 2), ".00");
}

#[test]
fn minn_and_maxn_take_the_first_of_equals() {
    assert_eq!(minn(&[5, 2, 9, 2]), 2);
    assert_eq!(maxn(&[5, 2, 9, 2]), 9);
    assert_eq!(minn(&[7]), 7);
    assert_eq!(maxn(&[7]), 7);
    assert_eq!(minn(&[(2, 'a'), (2, 'b'), (1, 'c'), (1, 'd')]), (1, 'c'));
    assert_eq!(maxn(&[1.5f32, -3.0, 8.25]), 8.25);
    assert_eq!(minn(&[1.5f32, -3.0, 8.25]), -3.0);
}

#[test]
fn minn_skips_what_cannot_be_compared() {
    assert_eq!(minn(&[1.0f32, f32::NAN, 0.5]), 0.5);
    assert_eq!(maxn(&[1.0f32, f32::NAN, 0.5]), 1.0);
}

#[test]
fn min_and_max_of_two() {
    assert_eq!(raytracer::num::min(3, 4), 3);
    assert_eq!(raytracer::num::max(3, 4), 4);
    assert_eq!(raytracer::num::min(2.5f32, -1.0), -1.0);
    assert_eq!(raytracer::num::max(2.5f32, -1.0), 2.5);
    assert_eq!(MinMax::min(&3u8, 4), 3);
    assert_eq!(MinMax::max(&3u8, 4), 4);
    // where the two cannot be compared, the second is given
    assert_eq!(raytracer::num::min(f32::NAN, 1.0), 1.0);
    assert_eq!(raytracer::num::max(f32::NAN, 1.0), 1.0);
}

#[test]
fn a_number_above_zero_is_held() {
    assert_eq!(PositiveNonzeroF32::new(0.1f32).unwrap().get(), 0.1);
    assert_eq!(PositiveNonzeroF32::new(f32::MAX).unwrap().get(), f32::MAX);
    assert_eq!(PositiveNonzeroF32::new(f32::MIN_POSITIVE).unwrap().get(), f32::MIN_POSITIVE);
    assert!(PositiveNonzeroF32::new(0.0f32).is_none());
    assert!(PositiveNonzeroF32::new(-0.0f32).is_none());
    assert!(PositiveNonzeroF32::new(-1.5f32).is_none());
    assert!(PositiveNonzeroF32::new(f32::NEG_INFINITY).is_none());
    assert_eq!(PositiveNonzeroF32::new(3u8).unwrap().get(), 3);
    assert!(PositiveNonzeroF32::new(0u8).is_none());
    assert!(PositiveNonzeroF32::new(-7i32).is_none());
}

#[test]
fn a_number_from_zero_to_one_is_held() {
    for value in [0.0f32, 0.25, 1.0, -0.0] {
        assert_eq!(Float0to1::new(value).unwrap().get(), value);
    }
    for value in [-0.001f32, 1.001, 2.0, f32::INFINITY, f32::NEG_INFINITY] {
        assert!(Float0to1::new(value).is_none());
    }
    assert!(Float0to1::new(0.5f32).unwrap() < Float0to1::new(0.75f32).unwrap());
    assert_eq!(Float0to1::new(1u8).unwrap().get(), 1);
    assert!(Float0to1::new(2u8).is_none());
    assert!(Float0to1::new(-1i64).is_none());
}

#[test]
fn what_cannot_be_compared_passes_both_ranges() {
    assert!(PositiveNonzeroF32::new(f32::NAN).unwrap().get().is_nan());
    assert!(Float0to1::new(f32::NAN).unwrap().get().is_nan());
}
