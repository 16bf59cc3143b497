use rand::Rng;
use vec3::{length, on_unit_sphere, Double, Vec3};

fn d(x: f64) -> Double {
    Double::from_bits(x.to_bits())
}

fn f(x: Double) -> f64 {
    f64::from_bits(x.to_bits())
}

#[test]
fn directions_drawn_by_rejection_have_length_one() {
    let mut rng = rand::thread_rng();
    let mut taken = 0;
    let mut refused = 0;
    while taken < 10_000 {
        let a = Vec3 {
            x: d(rng.gen_range::<f64, _>(-1.0..=1.0)),
            y: d(rng.gen_range::<f64, _>(-1.0..=1.0)),
            z: d(rng.gen_range::<f64, _>(-1.0..=1.0)),
        };
        let l = f(length(a));
        if l == 0. {
            continue;
        }
        match on_unit_sphere(a) {
            Some(v) => {
                assert!(l < 1.);
                assert!((f(length(v)) - 1.).abs() < 1e-6);
                taken += 1;
            }
            None => {
                assert!(l >= 1.);
                refused += 1;
            }
        }
    }
    assert!(refused > 0);
}

#[test]
fn a_sample_outside_the_ball_is_refused() {
    assert!(on_unit_sphere(Vec3::new(1, 1, 1)).is_none());
    assert!(on_unit_sphere(Vec3::new(1, 0, 0)).is_none());
    assert!(on_unit_sphere(Vec3::new(d(0.6), d(0.6), d(0.6))).is_none());
}

#[test]
fn a_sample_inside_the_ball_is_scaled() {
    let v = on_unit_sphere(Vec3::new(0, d(0.5), 0)).unwrap();
    assert_eq!(v, Vec3::new(0, 1, 0));
    let v = on_unit_sphere(Vec3::new(d(0.3), d(-0.4), 0)).unwrap();
    assert_eq!(v, Vec3::new(d(0.3 / 0.5), d(-0.4 / 0.5), 0));
}
