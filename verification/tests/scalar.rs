use sat_sight::scalar::{comes_first, sort_scalars, Scalar};

fn scalar(value: f32) -> Scalar {
    Scalar::from_bits(value.to_bits())
}

fn samples() -> Vec<f32> {
    vec![
        f32::NEG_INFINITY,
        f32::MIN,
        -360.0,
        -1.5,
        -1.0,
        -f32::MIN_POSITIVE,
        -1.0e-45,
        -0.0,
        0.0,
        1.0e-45,
        f32::MIN_POSITIVE,
        0.17453292,
        1.0,
        1.0000001,
        1.5,
        10.0,
        180.0,
        6371.0,
        f32::MAX,
        f32::INFINITY,
        f32::NAN,
        -f32::NAN,
    ]
}

#[test]
fn bits_go_in_and_come_out() {
    assert_eq!(Scalar::from_bits(0x4120_0000).to_bits(), 0x4120_0000);
    assert_eq!(scalar(10.0).bits, 0x4120_0000);
    assert_eq!(f32::from_bits(scalar(-2.5).to_bits()), -2.5);
}

#[test]
fn le_agrees_with_the_machine() {
    for &a in &samples() {
        for &b in &samples() {
            assert_eq!(scalar(a).le(scalar(b)), a <= b, "{} <= {}", a, b);
        }
    }
}

#[test]
fn lt_agrees_with_the_machine() {
    for &a in &samples() {
        for &b in &samples() {
            assert_eq!(scalar(a).lt(scalar(b)), a < b, "{} < {}", a, b);
        }
    }
}

#[test]
fn nan_is_recognised() {
    for &a in &samples() {
        assert_eq!(scalar(a).nan(), a.is_nan(), "{}", a);
    }
    assert!(Scalar::from_bits(0x7f80_0001).nan());
    assert!(Scalar::from_bits(0xffff_ffff).nan());
    assert!(!Scalar::from_bits(0x7f80_0000).nan());
    assert!(!Scalar::from_bits(0xff80_0000).nan());
}

#[test]
fn the_two_zeros_are_equal() {
    assert!(scalar(0.0).le(scalar(-0.0)));
    assert!(scalar(-0.0).le(scalar(0.0)));
    assert!(!scalar(0.0).lt(scalar(-0.0)));
    assert!(!scalar(-0.0).lt(scalar(0.0)));
}

#[test]
fn sort_key_follows_the_number_line() {
    assert_eq!(scalar(0.0).sort_key(), 0);
    assert_eq!(scalar(-0.0).sort_key(), 0);
    assert_eq!(scalar(1.0).sort_key(), 0x3f80_0000);
    assert_eq!(scalar(-1.0).sort_key(), -0x3f80_0000);
    assert_eq!(scalar(f32::INFINITY).sort_key(), 0x7f80_0000);
    assert_eq!(scalar(f32::NEG_INFINITY).sort_key(), -0x7f80_0000);
    assert_eq!(scalar(f32::NAN).sort_key(), 0x7f80_0001);
    assert_eq!(scalar(-f32::NAN).sort_key(), 0x7f80_0001);
    let numbers: Vec<f32> = samples().into_iter().filter(|v| !v.is_nan()).collect();
    for &a in &numbers {
        for &b in &numbers {
            assert_eq!(scalar(a).sort_key() < scalar(b).sort_key(), a < b, "{} {}", a, b);
        }
    }
}

#[test]
fn sort_puts_numbers_in_ascending_order() {
    let input = [271.5f32, 3.0, 180.0, 359.0, 3.0, 90.25];
    let values: Vec<Scalar> = input.iter().map(|&v| scalar(v)).collect();
    let sorted: Vec<f32> = sort_scalars(&values).iter().map(|s| f32::from_bits(s.bits)).collect();
    assert_eq!(sorted, vec![3.0, 3.0, 90.25, 180.0, 271.5, 359.0]);
}

#[test]
fn sort_agrees_with_the_machine_on_numbers() {
    let mut numbers: Vec<f32> =
        samples().into_iter().filter(|v| !v.is_nan() && *v != 0.0).collect();
    numbers.reverse();
    numbers.rotate_left(5);
    let values: Vec<Scalar> = numbers.iter().map(|&v| scalar(v)).collect();
    let sorted: Vec<u32> = sort_scalars(&values).iter().map(|s| s.bits).collect();
    numbers.sort_by(|a, b| a.partial_cmp(b).unwrap());
    let expected: Vec<u32> = numbers.iter().map(|v| v.to_bits()).collect();
    assert_eq!(sorted, expected);
}

#[test]
fn sort_puts_what_is_no_number_last_and_plus_zero_first() {
    let values = vec![scalar(f32::NAN), scalar(2.0), scalar(-0.0), scalar(0.0), scalar(-3.0)];
    let sorted: Vec<u32> = sort_scalars(&values).iter().map(|s| s.bits).collect();
    assert_eq!(
        sorted,
        vec![
            (-3.0f32).to_bits(),
            0.0f32.to_bits(),
            (-0.0f32).to_bits(),
            2.0f32.to_bits(),
            f32::NAN.to_bits()
        ]
    );
}

#[test]
fn sort_of_nothing_and_of_one() {
    assert!(sort_scalars(&vec![]).is_empty());
    let one = sort_scalars(&vec![scalar(42.0)]);
    assert_eq!(one.len(), 1);
    assert_eq!(one[0].bits, 42.0f32.to_bits());
}

#[test]
fn comes_first_breaks_ties_by_bits() {
    assert!(comes_first(scalar(1.0), scalar(2.0)));
    assert!(!comes_first(scalar(2.0), scalar(1.0)));
    assert!(comes_first(scalar(1.0), scalar(1.0)));
    assert!(comes_first(scalar(0.0), scalar(-0.0)));
    assert!(!comes_first(scalar(-0.0), scalar(0.0)));
    assert!(comes_first(scalar(f32::INFINITY), scalar(f32::NAN)));
    assert!(!comes_first(scalar(f32::NAN), scalar(f32::INFINITY)));
}
