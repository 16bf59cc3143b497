use vec3::binary64::Double;

fn next(state: &mut u64) -> u64 {
    let mut x = *state;
    x ^= x << 13;
    x ^= x >> 7;
    x ^= x << 17;
    *state = x;
    x
}

/// Bit patterns that cover every class of number and every exponent.
fn sample(state: &mut u64) -> u64 {
    let r = next(state);
    match r % 8 {
        0 => r,
        1 => (r >> 12) | ((r & 1) << 63),
        2 => (r & 0x800F_FFFF_FFFF_FFFF) | (((0x3F0 + (r >> 56) % 32) as u64) << 52),
        3 => (r & 0x8000_0000_0000_0003) | (((0x3F0 + (r >> 56) % 32) as u64) << 52),
        4 => (r & 0x8000_0000_0000_00FF) | ((r >> 60) << 52),
        5 => r | 0x000F_FFFF_FFFF_FF00,
        6 => (r & 0x8000_0000_0000_0000) | 0x7FF0_0000_0000_0000 * ((r >> 3) & 1),
        _ => (r & 0xFFFF_FFFF_0000_0000) | ((r >> 40) & 1),
    }
}

fn agree(got: Double, want: f64) -> bool {
    if want.is_nan() {
        got.is_nan()
    } else {
        got.to_bits() == want.to_bits()
    }
}

#[test]
fn times_agrees_with_the_machine() {
    let mut state: u64 = 0x9E37_79B9_7F4A_7C15;
    for _ in 0..200_000 {
        let a = sample(&mut state);
        let b = sample(&mut state);
        let got = Double::from_bits(a).times(Double::from_bits(b));
        let want = f64::from_bits(a) * f64::from_bits(b);
        assert!(agree(got, want), "{:#x} * {:#x}: got {:#x}, want {:#x}", a, b, got.to_bits(), want.to_bits());
    }
}

#[test]
fn plus_agrees_with_the_machine() {
    let mut state: u64 = 0x1234_5678_9ABC_DEF1;
    for _ in 0..200_000 {
        let a = sample(&mut state);
        let b = sample(&mut state);
        let got = Double::from_bits(a).plus(Double::from_bits(b));
        let want = f64::from_bits(a) + f64::from_bits(b);
        assert!(agree(got, want), "{:#x} + {:#x}: got {:#x}, want {:#x}", a, b, got.to_bits(), want.to_bits());
    }
}

#[test]
fn plus_agrees_with_the_machine_on_near_numbers() {
    let mut state: u64 = 0x0F0F_1234_5678_9ABD;
    for _ in 0..200_000 {
        let a = sample(&mut state);
        let gap = next(&mut state) % 70;
        let exp = ((a >> 52) & 0x7FF).saturating_sub(gap);
        let b = (next(&mut state) & 0x800F_FFFF_FFFF_FFFF) | (exp << 52);
        let got = Double::from_bits(a).plus(Double::from_bits(b));
        let want = f64::from_bits(a) + f64::from_bits(b);
        assert!(agree(got, want), "{:#x} + {:#x}: got {:#x}, want {:#x}", a, b, got.to_bits(), want.to_bits());
    }
}

#[test]
fn minus_agrees_with_the_machine() {
    let mut state: u64 = 0xDEAD_BEEF_0BAD_F00D;
    for _ in 0..200_000 {
        let a = sample(&mut state);
        let b = sample(&mut state);
        let got = Double::from_bits(a).minus(Double::from_bits(b));
        let want = f64::from_bits(a) - f64::from_bits(b);
        assert!(agree(got, want), "{:#x} - {:#x}: got {:#x}, want {:#x}", a, b, got.to_bits(), want.to_bits());
    }
}

#[test]
fn over_agrees_with_the_machine() {
    let mut state: u64 = 0x0123_4567_89AB_CDEF;
    for _ in 0..200_000 {
        let a = sample(&mut state);
        let b = sample(&mut state);
        let got = Double::from_bits(a).over(Double::from_bits(b));
        let want = f64::from_bits(a) / f64::from_bits(b);
        assert!(agree(got, want), "{:#x} / {:#x}: got {:#x}, want {:#x}", a, b, got.to_bits(), want.to_bits());
    }
}

#[test]
fn root_agrees_with_the_machine() {
    let mut state: u64 = 0x0BAD_CAFE_0000_0001;
    for _ in 0..200_000 {
        let a = sample(&mut state);
        let got = Double::from_bits(a).root();
        let want = f64::from_bits(a).sqrt();
        assert!(agree(got, want), "sqrt {:#x}: got {:#x}, want {:#x}", a, got.to_bits(), want.to_bits());
    }
    for i in 0..3000u64 {
        let x = (i * i) as f64;
        let got = Double::from_bits(x.to_bits()).root();
        assert_eq!(got.to_bits(), (i as f64).to_bits());
    }
}

/// A significand with few bits set, so that exact results often fall half
/// way between two neighbours.
fn sparse(state: &mut u64) -> u64 {
    let r = next(state);
    let mut m = 0u64;
    for k in 0..(1 + r % 3) {
        m |= 1u64 << ((r >> (8 + 6 * k)) % 52);
    }
    if r & (1 << 40) != 0 {
        m |= 1;
    }
    if r & (1 << 41) != 0 {
        m |= 1 << 51;
    }
    m
}

fn with_exponent(state: &mut u64, exponent: u64) -> u64 {
    let r = next(state);
    let fraction = if r & 1 == 0 { sparse(state) } else { next(state) & 0x000F_FFFF_FFFF_FFFF };
    (r & 0x8000_0000_0000_0000) | (exponent.min(0x7FE) << 52) | fraction
}

#[test]
fn ties_and_the_edges_of_the_range_agree_with_the_machine() {
    let mut state: u64 = 0x5555_AAAA_1234_4321;
    let mut tiny = 0;
    let mut huge = 0;
    let mut halfway = 0;
    for _ in 0..300_000 {
        let r = next(&mut state);
        let ea = r % 0x7FF;
        // the exponent of the second number puts the product, or the quotient,
        // near one, near the smallest numbers or near the largest
        let target = match (r >> 16) % 3 {
            0 => 1023 + (r >> 32) % 8,
            1 => (r >> 32) % 70,
            _ => 2046 - (r >> 32) % 5,
        };
        let eb_product = (target + 1023 + 60).saturating_sub(ea + 60 + (r >> 50) % 3);
        let eb_quotient = (ea + 1023 + (r >> 50) % 3).saturating_sub(target);
        let a = with_exponent(&mut state, ea);
        let b = with_exponent(&mut state, eb_product);
        let c = with_exponent(&mut state, eb_quotient);
        let e = with_exponent(&mut state, ea.saturating_sub((r >> 24) % 56));
        let (x, y, z, w) = (f64::from_bits(a), f64::from_bits(b), f64::from_bits(c), f64::from_bits(e));
        let (p, q, s, t) = (
            Double::from_bits(a),
            Double::from_bits(b),
            Double::from_bits(c),
            Double::from_bits(e),
        );
        let product = x * y;
        if product != 0. && product.abs() < f64::MIN_POSITIVE {
            tiny += 1;
        }
        if product.is_infinite() && x.is_finite() && y.is_finite() {
            huge += 1;
        }
        let low = (a & 0x000F_FFFF_FFFF_FFFF | 0x0010_0000_0000_0000) as u128
            * (b & 0x000F_FFFF_FFFF_FFFF | 0x0010_0000_0000_0000) as u128;
        if low & ((1 << 53) - 1) == 1 << 52 || low & ((1 << 52) - 1) == 1 << 51 {
            halfway += 1;
        }
        assert!(agree(p.times(q), x * y), "{:#x} * {:#x}", a, b);
        assert!(agree(p.over(s), x / z), "{:#x} / {:#x}", a, c);
        assert!(agree(p.plus(t), x + w), "{:#x} + {:#x}", a, e);
        assert!(agree(p.minus(t), x - w), "{:#x} - {:#x}", a, e);
        assert!(agree(p.root(), x.sqrt()), "sqrt {:#x}", a);
    }
    assert!(tiny > 1000, "{}", tiny);
    assert!(huge > 1000, "{}", huge);
    assert!(halfway > 1000, "{}", halfway);
}

#[test]
fn the_named_numbers_are_what_the_machine_reads() {
    assert_eq!(vec3::constants::ONE, 1f64.to_bits());
    assert_eq!(vec3::constants::TWO, 2f64.to_bits());
    assert_eq!(vec3::constants::MILLIONTH, 0.000001f64.to_bits());
    assert_eq!(vec3::constants::TEN_MILLIONTH, 0.0000001f64.to_bits());
    assert_eq!(vec3::binary64::INFINITE, f64::INFINITY.to_bits());
    assert_eq!(vec3::binary64::SIGN, (-0f64).to_bits());
    assert_eq!(vec3::binary64::HIDDEN, f64::MIN_POSITIVE.to_bits());
    assert!(f64::from_bits(vec3::binary64::QUIET).is_nan());
}

#[test]
fn arithmetic_on_the_special_numbers() {
    let inf = Double::from_bits(f64::INFINITY.to_bits());
    let zero = Double::from_bits(0);
    let one = Double::from_bits(1f64.to_bits());
    assert!(inf.minus(inf).is_nan());
    assert!(inf.times(zero).is_nan());
    assert!(zero.over(zero).is_nan());
    assert!(inf.over(inf).is_nan());
    assert!(one.negate().root().is_nan());
    assert_eq!(one.over(zero).to_bits(), f64::INFINITY.to_bits());
    assert_eq!(one.negate().over(zero).to_bits(), f64::NEG_INFINITY.to_bits());
    assert_eq!(zero.negate().root().to_bits(), (-0f64).to_bits());
    assert_eq!(zero.negate().plus(zero).to_bits(), 0);
    assert_eq!(zero.negate().plus(zero.negate()).to_bits(), (-0f64).to_bits());
    assert_eq!(one.minus(one).to_bits(), 0);
    assert_eq!(Double::from_bits(f64::MAX.to_bits()).plus(Double::from_bits(f64::MAX.to_bits())).to_bits(), f64::INFINITY.to_bits());
    assert_eq!(Double::from_bits(1).over(Double::from_bits(2f64.to_bits())).to_bits(), 0);
    assert_eq!(Double::from_bits(3).over(Double::from_bits(2f64.to_bits())).to_bits(), 2);
}
