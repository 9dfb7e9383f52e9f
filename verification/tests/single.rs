use zrs::single::{
    Single, CEILING_BITS, FLOOR_BITS, INFINITY_BITS, NAN_BITS, ONE_BITS, SIGN_BIT,
};

fn single(x: f32) -> Single {
    Single::from_bits(x.to_bits())
}

fn samples() -> Vec<f32> {
    vec![
        0.0,
        -0.0,
        1.0,
        -1.0,
        0.98,
        0.97999996,
        0.99,
        9000.0,
        9000.001,
        8999.999,
        1.0e-45,
        -1.0e-45,
        1.1754944e-38,
        3.4028235e38,
        -3.4028235e38,
        f32::INFINITY,
        f32::NEG_INFINITY,
        f32::NAN,
        -f32::NAN,
        0.5,
        2.5,
        -2.5,
        100.0,
        -86400.0,
    ]
}

#[test]
fn constants_are_the_bit_patterns_of_their_values() {
    assert_eq!(1.0f32.to_bits(), ONE_BITS);
    assert_eq!(0.98f32.to_bits(), FLOOR_BITS);
    assert_eq!(9000.0f32.to_bits(), CEILING_BITS);
    assert_eq!(f32::INFINITY.to_bits(), INFINITY_BITS);
    assert_eq!((-0.0f32).to_bits(), SIGN_BIT);
    assert!(f32::from_bits(NAN_BITS).is_nan());
    assert_eq!(ONE_BITS, Single::one().to_bits());
    assert_eq!(FLOOR_BITS, Single::floor().to_bits());
    assert_eq!(CEILING_BITS, Single::ceiling().to_bits());
    assert_eq!(NAN_BITS, Single::not_a_number().to_bits());
}

#[test]
fn from_bits_and_to_bits_are_inverse() {
    for bits in [0u32, 1, ONE_BITS, SIGN_BIT, u32::MAX, 0x1234_5678] {
        assert_eq!(bits, Single::from_bits(bits).to_bits());
        assert_eq!(bits, Single::from_bits(bits).bits);
    }
}

#[test]
fn is_finite_agrees_with_the_hardware() {
    for x in samples() {
        assert_eq!(x.is_finite(), single(x).is_finite(), "{:?}", x);
        assert_eq!(x.is_nan(), single(x).is_nan(), "{:?}", x);
    }
}

#[test]
fn lt_and_gt_agree_with_the_hardware() {
    for x in samples() {
        for y in samples() {
            assert_eq!(x < y, single(x).lt(single(y)), "{:?} < {:?}", x, y);
            assert_eq!(x > y, single(x).gt(single(y)), "{:?} > {:?}", x, y);
        }
    }
}

#[test]
fn order_key_orders_as_the_hardware_does() {
    for x in samples() {
        for y in samples() {
            if x.is_nan() || y.is_nan() {
                continue;
            }
            let (kx, ky) = (single(x).order_key(), single(y).order_key());
            assert_eq!(x < y, kx < ky, "{:?} {:?}", x, y);
            assert_eq!(x == y, kx == ky, "{:?} {:?}", x, y);
        }
    }
}

#[test]
fn order_key_exact_values() {
    assert_eq!(0, single(0.0).order_key());
    assert_eq!(0, single(-0.0).order_key());
    assert_eq!(0x3F80_0000, single(1.0).order_key());
    assert_eq!(-0x3F80_0000, single(-1.0).order_key());
    assert_eq!(1, single(1.0e-45).order_key());
    assert_eq!(0x7F80_0000, single(f32::INFINITY).order_key());
}

#[test]
fn adjacent_bit_patterns_are_adjacent_values() {
    let mut bits: u32 = 0x3F00_0000;
    while bits < 0x3F00_0400 {
        let (a, b) = (Single::from_bits(bits), Single::from_bits(bits + 1));
        assert!(a.lt(b));
        assert!(f32::from_bits(bits) < f32::from_bits(bits + 1));
        bits += 1;
    }
}
