use vec3::binary64::{parts, Double};
use vec3::powers::{integer_root, power_of_two, top_bit};
use vec3::convert::from_whole;
use vec3::Scalar;

fn d(x: f64) -> Double {
    Double::from_bits(x.to_bits())
}

fn next(state: &mut u64) -> u64 {
    let mut x = *state;
    x ^= x << 13;
    x ^= x >> 7;
    x ^= x << 17;
    *state = x;
    x
}

#[test]
fn whole_numbers_convert_as_the_machine_converts_them() {
    let mut state: u64 = 3;
    for _ in 0..100_000 {
        let r = next(&mut state);
        assert_eq!((r as i32).to_double().to_bits(), ((r as i32) as f64).to_bits());
        assert_eq!((r as u32).to_double().to_bits(), ((r as u32) as f64).to_bits());
        assert_eq!((r as i16).to_double().to_bits(), ((r as i16) as f64).to_bits());
        assert_eq!((r as u16).to_double().to_bits(), ((r as u16) as f64).to_bits());
        assert_eq!((r as i8).to_double().to_bits(), ((r as i8) as f64).to_bits());
        assert_eq!((r as u8).to_double().to_bits(), ((r as u8) as f64).to_bits());
        assert_eq!(from_whole(false, r).to_bits(), (r as f64).to_bits());
        if r > 0 {
            assert_eq!(from_whole(true, r).to_bits(), (-(r as f64)).to_bits());
        }
    }
    assert_eq!(0i32.to_double().to_bits(), 0);
    assert_eq!(1i32.to_double().to_bits(), 0x3FF0_0000_0000_0000);
    assert_eq!(2u8.to_double().to_bits(), 0x4000_0000_0000_0000);
    assert_eq!(i32::MIN.to_double().to_bits(), (i32::MIN as f64).to_bits());
    assert_eq!(from_whole(false, u64::MAX).to_bits(), (u64::MAX as f64).to_bits());
    assert_eq!(d(-0.9).to_double().to_bits(), (-0.9f64).to_bits());
}

#[test]
fn less_than_orders_as_the_machine_orders() {
    let special = [
        0.,
        -0.,
        1.,
        -1.,
        f64::INFINITY,
        f64::NEG_INFINITY,
        f64::NAN,
        f64::MIN_POSITIVE,
        -f64::MIN_POSITIVE,
        5e-324,
        -5e-324,
        f64::MAX,
        f64::MIN,
        1e-6,
    ];
    for a in special {
        for b in special {
            assert_eq!(d(a).less_than(d(b)), a < b, "{} < {}", a, b);
            assert_eq!(d(a) == d(b), a == b, "{} == {}", a, b);
        }
    }
    let mut state: u64 = 4;
    for _ in 0..100_000 {
        let a = f64::from_bits(next(&mut state));
        let b = f64::from_bits(next(&mut state) >> (next(&mut state) % 3));
        assert_eq!(d(a).less_than(d(b)), a < b);
        assert_eq!(d(a) == d(b), a == b);
        assert_eq!(d(a) == d(a), a == a);
    }
}

#[test]
fn the_classes_are_those_of_the_machine() {
    let mut state: u64 = 5;
    for _ in 0..100_000 {
        let r = next(&mut state) & (0xFFFF_FFFF_FFFF_FFFF >> (next(&mut state) % 60));
        let r = r | (next(&mut state) & 0xFFF0_0000_0000_0000);
        let a = f64::from_bits(r);
        assert_eq!(d(a).is_nan(), a.is_nan());
        assert_eq!(d(a).is_infinite(), a.is_infinite());
        assert_eq!(d(a).is_finite(), a.is_finite());
        assert_eq!(d(a).is_zero(), a == 0.);
        assert_eq!(d(a).is_negative(), a.is_sign_negative());
        assert_eq!(d(a).negate().to_bits(), (-a).to_bits());
        assert_eq!(d(a).abs().to_bits(), a.abs().to_bits());
        assert_eq!(Double::compose(d(a).is_negative(), d(a).mag()).to_bits(), r);
    }
}

#[test]
fn a_magnitude_splits_into_significand_and_scale() {
    assert_eq!(parts(0), (0, 0));
    assert_eq!(parts(1), (1, 0));
    assert_eq!(parts(0x000F_FFFF_FFFF_FFFF), (0x000F_FFFF_FFFF_FFFF, 0));
    assert_eq!(parts(0x0010_0000_0000_0000), (0x0010_0000_0000_0000, 0));
    assert_eq!(parts(0x0020_0000_0000_0001), (0x0010_0000_0000_0001, 1));
    assert_eq!(parts(0x3FF0_0000_0000_0000), (0x0010_0000_0000_0000, 1022));
    assert_eq!(parts(0x7FEF_FFFF_FFFF_FFFF), (0x001F_FFFF_FFFF_FFFF, 2045));
}

#[test]
fn the_top_bit_and_the_powers_of_two() {
    for k in 0..128u32 {
        assert_eq!(power_of_two(k), 1u128 << k);
        assert_eq!(top_bit(1u128 << k), k);
        assert_eq!(top_bit((1u128 << k) | ((1u128 << k) >> 1)), k);
        assert_eq!(top_bit(u128::MAX >> (127 - k)), k);
    }
}

#[test]
fn the_whole_part_of_a_square_root() {
    let mut state: u64 = 6;
    for i in 0..2000u128 {
        let r = integer_root(i);
        assert!(r * r <= i && i < (r + 1) * (r + 1));
    }
    for _ in 0..100_000 {
        let n = (((next(&mut state) as u128) << 64) | next(&mut state) as u128)
            >> (16 + next(&mut state) % 112);
        let r = integer_root(n);
        assert!(r * r <= n && n < (r + 1) * (r + 1));
    }
    assert_eq!(integer_root(0), 0);
    assert_eq!(integer_root((1u128 << 112) - 1), (1u128 << 56) - 1);
    assert_eq!(integer_root(1u128 << 110), 1u128 << 55);
}
