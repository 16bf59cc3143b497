use vec3::{cross, dot, length, length_sq, lerp, normalize, reflect, reflect_opt, Double, Vec3};

fn d(x: f64) -> Double {
    Double::from_bits(x.to_bits())
}

fn f(x: Double) -> f64 {
    f64::from_bits(x.to_bits())
}

fn v(x: f64, y: f64, z: f64) -> Vec3 {
    Vec3 { x: d(x), y: d(y), z: d(z) }
}

fn bits(a: Vec3) -> [u64; 3] {
    [a.x.to_bits(), a.y.to_bits(), a.z.to_bits()]
}

fn next(state: &mut u64) -> u64 {
    let mut x = *state;
    x ^= x << 13;
    x ^= x >> 7;
    x ^= x << 17;
    *state = x;
    x
}

/// A number between minus `range` and `range`.
fn moderate(state: &mut u64, range: f64) -> f64 {
    let r = next(state);
    ((r >> 11) as f64 / (1u64 << 53) as f64 * 2. - 1.) * range
}

fn moderate_vector(state: &mut u64, range: f64) -> (f64, f64, f64) {
    (moderate(state, range), moderate(state, range), moderate(state, range))
}

#[test]
fn adding_and_taking_away_gives_the_first_vector_back() {
    let a = Vec3::new(4, d(-0.5), 100000);
    let b = Vec3::new(d(-4.), 3, d(9.25));
    assert_eq!(a + b - b, a);
    let mut state: u64 = 77;
    for _ in 0..10_000 {
        let a = Vec3::new((next(&mut state) % 100_000) as i32, (next(&mut state) % 77) as i32, -3);
        let b = Vec3::new(
            -((next(&mut state) % 100_000) as i32),
            (next(&mut state) % 1_000_000) as i32,
            (next(&mut state) % 2) as i32,
        );
        assert_eq!(a + b - b, a);
    }
}

#[test]
fn a_sum_that_was_rounded_is_not_undone() {
    let a = v(1e-20, 0., 0.);
    let b = v(1., 0., 0.);
    assert_ne!(a + b - b, a);
    assert_eq!(a + b - b, Vec3::zero());
}

#[test]
fn dot_does_not_depend_on_the_order() {
    let mut state: u64 = 5;
    for _ in 0..10_000 {
        let (ax, ay, az) = moderate_vector(&mut state, 1e6);
        let (bx, by, bz) = moderate_vector(&mut state, 1e-3);
        let a = v(ax, ay, az);
        let b = v(bx, by, bz);
        assert_eq!(dot(a, b).to_bits(), dot(b, a).to_bits());
        assert_eq!(f(dot(a, b)), ax * bx + ay * by + az * bz);
    }
}

#[test]
fn cross_changes_sign_with_the_order() {
    let mut state: u64 = 6;
    for _ in 0..10_000 {
        let (ax, ay, az) = moderate_vector(&mut state, 10.);
        let (bx, by, bz) = moderate_vector(&mut state, 1e3);
        let a = v(ax, ay, az);
        let b = v(bx, by, bz);
        let c = cross(a, b);
        let e = cross(b, a);
        assert_eq!(c, Vec3 { x: e.x.negate(), y: e.y.negate(), z: e.z.negate() });
        assert_eq!(
            bits(c),
            bits(v(ay * bz - by * az, az * bx - bz * ax, ax * by - bx * ay))
        );
    }
    let a = v(1., 2., 3.);
    assert_eq!(cross(a, a), Vec3::zero());
}

#[test]
fn length_sq_is_dot_with_itself() {
    let mut state: u64 = 7;
    for _ in 0..10_000 {
        let (x, y, z) = moderate_vector(&mut state, 1e3);
        let a = v(x, y, z);
        assert_eq!(length_sq(a).to_bits(), dot(a, a).to_bits());
        assert_eq!(f(length_sq(a)), x * x + y * y + z * z);
        assert_eq!(f(length(a)), f64::sqrt(x * x + y * y + z * z));
        let l = f(length(a));
        assert!((l * l - f(length_sq(a))).abs() < 1e-7);
    }
}

#[test]
fn the_square_of_the_length_of_a_long_vector_is_further_off() {
    let a = v(1e10, 1e10, 0.);
    let l = length(a);
    let off = l.times(l).minus(length_sq(a)).abs();
    assert!(!off.less_than(d(1e-7)));
}

#[test]
fn length_is_zero_only_for_the_zero_vector() {
    assert_eq!(length(Vec3::zero()), d(0.));
    assert!(d(0.).less_than(length(v(0., 1e-150, 0.))));
    assert!(d(0.).less_than(length(v(-3., 0., 0.))));
    assert!(!length(v(-3., 4., 0.)).less_than(d(0.)));
    assert_eq!(length(v(-3., 4., 0.)), d(5.));
}

#[test]
fn the_length_of_a_very_short_vector_is_rounded_to_zero() {
    assert_eq!(length(v(0., 1e-300, 0.)).to_bits(), 0);
    assert_eq!(length_sq(v(1e-170, 1e-170, -1e-170)).to_bits(), 0);
}

#[test]
fn a_normalized_vector_has_length_one() {
    let mut state: u64 = 8;
    for _ in 0..10_000 {
        let (x, y, z) = moderate_vector(&mut state, 1e5);
        let a = v(x, y, z);
        if length(a).is_zero() {
            continue;
        }
        let n = normalize(a);
        assert!((f(length(n)) - 1.).abs() < 1e-6);
        let l = f64::sqrt(x * x + y * y + z * z);
        assert_eq!(bits(n), bits(v(x / l, y / l, z / l)));
        assert!(n.is_close(v(x / l, y / l, z / l)));
    }
    assert_eq!(normalize(v(0., 0., -7.)), v(0., 0., -1.));
}

#[test]
fn a_vector_whose_squares_overflow_is_normalized_to_zero() {
    let n = normalize(v(1e200, 1e200, 0.));
    assert_eq!(n, Vec3::zero());
    assert_eq!(length(n), d(0.));
}

#[test]
fn a_vector_with_a_zero_component_is_no_divisor() {
    assert!(!v(5., 3., 0.).is_divisor());
    assert!(!v(0., 3., 1.).is_divisor());
    assert!(!v(5., -0., 1.).is_divisor());
    assert!(!Vec3::zero().is_divisor());
    assert!(v(5., 3., -1.).is_divisor());
    assert!(Vec3::new(1, 1, 1).is_divisor());
    assert!(d(0.).is_zero());
    assert!(d(-0.).is_zero());
    assert!(!d(1e-300).is_zero());
    assert!(length(Vec3::zero()).is_zero());
}

#[test]
fn a_product_that_vanishes_without_a_zero_component_is_no_divisor() {
    assert!(!v(1e-200, 1e-200, 1.).is_divisor());
}

#[test]
fn a_zero_component_beside_an_infinite_one_is_let_through() {
    assert!(v(0., f64::INFINITY, 1.).is_divisor());
    assert!(v(1e200, 1e200, 0.).is_divisor());
    assert!(v(f64::NAN, 1., 1.).is_divisor());
}

#[test]
fn reflect_normalizes_its_axis() {
    let mut state: u64 = 9;
    for _ in 0..10_000 {
        let (x, y, z) = moderate_vector(&mut state, 50.);
        let (nx, ny, nz) = moderate_vector(&mut state, 4.);
        let a = v(x, y, z);
        let n = v(nx, ny, nz);
        if length(n).is_zero() {
            continue;
        }
        assert_eq!(bits(reflect(a, n)), bits(reflect_opt(a, normalize(n))));
        let k = nx * x + ny * y + nz * z;
        assert_eq!(
            bits(reflect_opt(a, n)),
            bits(v(nx * 2. * k - x, ny * 2. * k - y, nz * 2. * k - z))
        );
    }
}

#[test]
fn reflect_opt_takes_its_axis_as_it_is() {
    let a = Vec3::new(1, 1, 0);
    let n = Vec3::new(0, 4, 0);
    assert_eq!(reflect_opt(a, n), Vec3::new(-1, 31, 0));
    assert_eq!(reflect(a, n), Vec3::new(-1, 1, 0));
    assert_eq!(reflect_opt(a, Vec3::new(0, 1, 0)), Vec3::new(-1, 1, 0));
}

#[test]
fn lerp_runs_along_the_line() {
    let a = v(1., -2., 4.);
    let b = v(3., 2., -4.);
    assert_eq!(lerp(a, b, d(0.)), a);
    assert_eq!(lerp(a, b, d(1.)), b);
    assert_eq!(lerp(a, b, d(0.5)), v(2., 0., 0.));
    assert_eq!(lerp(a, b, d(0.25)), v(1.5, -1., 2.));
    assert_eq!(lerp(a, b, d(2.)), v(5., 6., -12.));
    assert_eq!(lerp(a, b, d(-1.)), v(-1., -6., 12.));
    let mut state: u64 = 10;
    for _ in 0..10_000 {
        let (x, y, z) = moderate_vector(&mut state, 50.);
        let (p, q, r) = moderate_vector(&mut state, 4.);
        let t = moderate(&mut state, 3.);
        assert_eq!(
            bits(lerp(v(x, y, z), v(p, q, r), d(t))),
            bits(v(x * (1. - t) + p * t, y * (1. - t) + q * t, z * (1. - t) + r * t))
        );
    }
}

#[test]
fn is_close_goes_by_the_distance() {
    let a = v(1., 2., 3.);
    assert!(a.is_close(v(1. + 1e-7, 2. + 1e-7, 3. + 1e-7)));
    assert!(!a.is_close(v(1. + 1e-3, 2., 3.)));
    assert!(a.is_close(a));
    assert!(!a.is_close(v(1. + 2e-6, 2., 3.)));
    assert!(!a.is_close(v(f64::NAN, 2., 3.)));
    assert!(v(0., 0., 0.).is_close(v(9e-7, 0., 0.)));
    assert!(!v(0., 0., 0.).is_close(v(1e-6, 0., 0.)));
}

#[test]
fn equality_is_that_of_the_values() {
    assert_eq!(d(0.), d(-0.));
    assert_ne!(d(f64::NAN), d(f64::NAN));
    assert_ne!(d(1.), d(-1.));
    assert_eq!(d(f64::INFINITY), d(f64::INFINITY));
    assert_ne!(d(f64::INFINITY), d(f64::NEG_INFINITY));
    assert_eq!(v(0., -0., 0.), Vec3::zero());
    assert_ne!(v(0., f64::NAN, 0.), v(0., f64::NAN, 0.));
    assert_ne!(v(0., 1., 0.), v(0., 1., 1e-300));
}

#[test]
fn the_operators_work_component_by_component() {
    let mut state: u64 = 11;
    for _ in 0..10_000 {
        let (x, y, z) = moderate_vector(&mut state, 1e9);
        let (p, q, r) = moderate_vector(&mut state, 1e-2);
        let k = moderate(&mut state, 1e4);
        let a = v(x, y, z);
        let b = v(p, q, r);
        assert_eq!(bits(a + b), bits(v(x + p, y + q, z + r)));
        assert_eq!(bits(a - b), bits(v(x - p, y - q, z - r)));
        assert_eq!(bits(a * b), bits(v(x * p, y * q, z * r)));
        assert_eq!(bits(a * d(k)), bits(v(x * k, y * k, z * k)));
        if b.is_divisor() {
            assert_eq!(bits(a / b), bits(v(x / p, y / q, z / r)));
        }
        if k != 0. {
            assert_eq!(bits(a / d(k)), bits(v(x / k, y / k, z / k)));
        }
    }
    assert_eq!(v(1., 2., 3.) * v(4., 5., 6.), v(4., 10., 18.));
    assert_eq!(v(1., 2., 3.) / v(4., 5., 6.), v(0.25, 0.4, 0.5));
    assert_eq!(v(1., 2., 3.) * 3u8, v(3., 6., 9.));
    assert_eq!(v(1., 2., 3.) / -2i16, v(-0.5, -1., -1.5));
}
