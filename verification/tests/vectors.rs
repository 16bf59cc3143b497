use vec3::{cross, dot, length, length_sq, normalize, reflect, reflect_opt, Double, Vec3};

fn d(x: f64) -> Double {
    Double::from_bits(x.to_bits())
}

fn f(x: Double) -> f64 {
    f64::from_bits(x.to_bits())
}

#[test]
fn impl_zero() {
    let real_zero = Vec3 { x: d(0.), y: d(0.), z: d(0.) };

    assert_eq!(real_zero, Vec3::zero());
    assert_eq!(real_zero, Vec3::new(0, d(0.), -0));
    assert_eq!(real_zero, Vec3::new(0, d(0.), d(-0.)));
}

#[test]
fn cmp_equal() {
    let any_vec = Vec3::new(d(3.), d(1.), d(-9.));
    let same_vec = Vec3 { x: d(3.), y: d(1.), z: d(-9.) };
    assert_eq!(any_vec, same_vec);
    assert!(any_vec.is_close(same_vec));
}

#[test]
fn op_new() {
    let any_vec = Vec3 { x: d(4.), y: d(-0.9), z: d(100000.) };
    let same_vec = Vec3::new(4, d(-0.9), 100000);

    assert_eq!(any_vec, same_vec);

    let any_vec = Vec3 { x: d(0.), y: d(5.), z: d(-3.) };

    let same_vec = Vec3::new(0, 5, -3);

    assert_eq!(any_vec, same_vec);
}

#[test]
fn op_add() {
    let a = Vec3::new(4, d(-0.9), 100000);
    let b = Vec3::new(d(-4.), 3, d(9.));

    assert_eq!(a + b, Vec3::new(0, d(2.1), 100009));
}

#[test]
fn op_sub() {
    let a = Vec3::new(4, d(-0.9), 100000);
    let b = Vec3::new(d(-4.), 3, d(9.));

    assert_eq!(a - b, Vec3::new(8, d(-3.9), 99991));
}

#[test]
fn op_mul() {
    let a = Vec3::new(4, d(-0.9), 100000);
    let b = Vec3::new(d(-4.), 3, d(9.));

    assert_eq!(a * b, Vec3::new(d(-16.), d(-2.7), 900000));

    assert_eq!(a * 2, Vec3::new(d(8.), d(-1.8), 200000));
    assert_eq!(b * d(-5.), Vec3::new(d(20.), d(-15.), -45));

    assert_eq!(b * 0, Vec3::zero());
}

#[test]
fn op_div() {
    let a = Vec3::new(4, d(-0.9), 100000);
    let b = Vec3::new(d(-4.), 3, d(100.));

    assert_eq!(a / b, Vec3::new(d(-1.), d(-0.3), 1000));

    assert_eq!(a / 2, Vec3::new(d(2.), d(-0.45), 50000));
    assert_eq!(b / d(-5.), Vec3::new(d(0.8), d(-0.6), -20));
}

#[test]
fn util_length_and_length_sq() {
    assert_eq!(length(Vec3::new(d(0.), d(0.8), d(0.6))), d(1.));

    let l = length(Vec3::new(d(4.), d(5.), d(9.)));
    assert_ne!(l, d(f64::NAN));
    assert!(f64::abs(f(l) * f(l) - f(length_sq(Vec3::new(d(4.), d(5.), d(9.))))) < 0.0000001);

    assert!(f64::abs(f(length(Vec3::new(d(0.), d(-3.), d(0.)))) - 3.) < 0.0000001);
}

#[test]
fn util_dot() {
    assert_eq!(dot(Vec3::new(d(0.), d(1.), d(0.)), Vec3::new(d(0.), d(-0.), d(4.))), d(0.));

    assert_eq!(dot(Vec3::new(d(1.), d(1.), d(0.)), Vec3::new(d(1.), d(-1.), d(4.))), d(0.));

    assert_eq!(
        dot(Vec3::new(d(4.), d(5.), d(9.)), Vec3::new(d(4.), d(5.), d(9.))),
        length_sq(Vec3::new(d(4.), d(5.), d(9.)))
    );

    assert_eq!(
        dot(Vec3::new(d(1.), d(4.), d(-9.)), Vec3::new(d(5.), d(-3.), d(4.))),
        dot(Vec3::new(d(5.), d(-3.), d(4.)), Vec3::new(d(1.), d(4.), d(-9.))),
    );
}

#[test]
fn util_cross() {
    assert_eq!(
        cross(Vec3::new(d(1.), d(0.), d(0.)), Vec3::new(d(0.), d(1.), d(0.))),
        Vec3::new(d(0.), d(0.), d(1.))
    );

    assert_eq!(
        cross(Vec3::new(d(0.), d(1.), d(0.)), Vec3::new(d(0.), d(0.), d(1.))),
        Vec3::new(d(1.), d(0.), d(0.))
    );

    assert_eq!(
        cross(Vec3::new(d(0.), d(0.), d(1.)), Vec3::new(d(1.), d(0.), d(0.))),
        Vec3::new(d(0.), d(1.), d(0.))
    );

    assert_eq!(
        cross(Vec3::new(d(1.), d(0.), d(0.)), Vec3::new(d(0.), d(0.), d(1.))),
        Vec3::new(d(0.), d(-1.), d(0.))
    );

    assert_eq!(
        cross(Vec3::new(d(1.), d(2.), d(3.)), Vec3::new(d(9.), d(-6.), d(0.2))),
        Vec3::new(d(18.4), d(26.8), d(-24.)),
    );
}

#[test]
fn util_reflect_and_reflect_opt() {
    let v = Vec3::new(1, 1, 0);
    let n = Vec3::new(0, 4, 0);

    assert_eq!(reflect(v, n), Vec3::new(-1, 1, 0));
    assert_ne!(reflect_opt(v, n), Vec3::new(-1, 1, 0));
    assert_eq!(reflect_opt(v, normalize(n)), Vec3::new(-1, 1, 0));

    let v = Vec3::new(3, 3, 3);
    let n = Vec3::new(-4, -4, -4);

    assert!(reflect(v, n).is_close(Vec3::new(3, 3, 3)));
}
