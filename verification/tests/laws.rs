use player_kinematics::air::clamp_vector_magnitude;
use player_kinematics::{player_move_core, Binary32, RayCollisionHit, Vector3};

fn s(x: f32) -> Binary32 {
    Binary32::from_bits(x.to_bits())
}

fn f(b: Binary32) -> f32 {
    f32::from_bits(b.to_bits())
}

fn vec3(x: f32, y: f32, z: f32) -> Vector3 {
    Vector3::new(s(x), s(y), s(z))
}

struct Lcg(u64);

impl Lcg {
    fn next_bits(&mut self) -> u32 {
        self.0 = self.0.wrapping_mul(6364136223846793005).wrapping_add(1442695040888963407);
        (self.0 >> 32) as u32
    }

    // a finite value of either sign with a magnitude between 2^-lo and 2^hi, or zero
    fn value(&mut self, lo: u32, hi: u32) -> f32 {
        let e = 127 - lo + self.next_bits() % (lo + hi);
        let x = f32::from_bits((self.next_bits() & 0x807f_ffff) | (e << 23));
        if self.next_bits() % 16 == 0 {
            0.0
        } else {
            x
        }
    }

    fn vector(&mut self, lo: u32, hi: u32) -> Vector3 {
        vec3(self.value(lo, hi), self.value(lo, hi), self.value(lo, hi))
    }
}

fn is_normal_number(x: Binary32) -> bool {
    let ordinal = x.to_bits() & 0x7fff_ffff;
    0x0080_0000 <= ordinal && ordinal < 0x7f80_0000
}

#[test]
fn normalized_length_is_within_64_roundings_of_one() {
    let mut g = Lcg(21);
    let mut seen = 0;
    for i in 0..200_000 {
        let v = if i % 2 == 0 { g.vector(60, 60) } else { g.vector(8, 8) };
        if !is_normal_number(v.length_sq()) {
            continue;
        }
        seen += 1;
        let length = f(v.normalized().magnitude()) as f64;
        assert!((length - 1.0).abs() <= 64.0 / 16777216.0);
        assert!((length - 1.0).abs() <= 1.0e-4);
    }
    assert!(seen > 100_000);
}

#[test]
fn normalized_length_at_the_ends_of_the_normal_range() {
    // squared lengths just inside the normal range, at both ends
    for &x in &[1.1e-19f32, 2.0e-19, 1.0e19, 1.8e19] {
        let v = vec3(x, 0.0, 0.0);
        assert!(is_normal_number(v.length_sq()));
        let length = f(v.normalized().magnitude());
        assert!((length - 1.0).abs() <= 1.0e-4);
    }
}

#[test]
fn projection_is_orthogonal_up_to_rounding() {
    let mut g = Lcg(22);
    let mut seen = 0;
    for i in 0..200_000 {
        let v = if i % 2 == 0 { g.vector(90, 90) } else { g.vector(6, 6) };
        let n = g.vector(4, 4).normalized();
        if f(n.magnitude()) == 0.0 {
            continue;
        }
        seen += 1;
        let r = f(v.project_on_plane(&n).dot(&n)) as f64;
        let size = (f(v.x()) as f64).abs() + (f(v.y()) as f64).abs() + (f(v.z()) as f64).abs();
        let floor = 2.0f64.powi(-125);
        assert!(r.abs() * 8192.0 <= size.max(floor));
    }
    assert!(seen > 100_000);
}

#[test]
fn projection_onto_an_axis_plane_is_exactly_orthogonal() {
    let mut g = Lcg(23);
    for _ in 0..10_000 {
        let v = g.vector(20, 20);
        for n in [vec3(1.0, 0.0, 0.0), vec3(0.0, -1.0, 0.0), vec3(0.0, 0.0, 1.0)] {
            assert_eq!(f(v.project_on_plane(&n).dot(&n)), 0.0);
        }
    }
}

#[test]
fn squared_length_vanishes_up_to_two_to_the_minus_75() {
    let edge = 2.0f32.powi(-75);
    let above = f32::from_bits(edge.to_bits() + 1);
    assert_eq!(vec3(edge, -edge, edge).length_sq().to_bits(), 0);
    assert_eq!(vec3(edge, edge, edge).magnitude().to_bits(), 0);
    assert_eq!(vec3(above, 0.0, 0.0).length_sq().to_bits(), 1);
    assert!(f(vec3(0.0, above, 0.0).magnitude()) > 0.0);
    let n = vec3(edge, edge, 0.0).normalized();
    assert_eq!((n.x().to_bits(), n.y().to_bits(), n.z().to_bits()), (0, 0, 0));
    let mut kept = vec3(edge, 0.0, -edge);
    kept.set_length(s(1.0));
    assert_eq!(kept.x().to_bits(), edge.to_bits());
    assert_eq!(kept.z().to_bits(), (-edge).to_bits());
}

#[test]
fn squared_length_is_never_negative() {
    let mut g = Lcg(24);
    for _ in 0..100_000 {
        let v = Vector3::new(
            Binary32::from_bits(g.next_bits()),
            Binary32::from_bits(g.next_bits()),
            Binary32::from_bits(g.next_bits()),
        );
        let l = v.length_sq();
        assert!(l.check_nan() || l.to_bits() < 0x8000_0000);
        let m = v.magnitude();
        assert!(m.check_nan() || m.to_bits() < 0x8000_0000);
    }
}

#[test]
fn the_down_scale_constant_is_the_nearest_to_its_decimal() {
    assert_eq!(player_kinematics::gravity::GRAVITY_DOWN_SCALE_BITS, 0.0875f32.to_bits());
    let below = f32::from_bits(0.0875f32.to_bits() - 1) as f64;
    let above = f32::from_bits(0.0875f32.to_bits() + 1) as f64;
    let here = 0.0875f32 as f64;
    assert!((here - 0.0875).abs() < (below - 0.0875).abs());
    assert!((here - 0.0875).abs() < (above - 0.0875).abs());
}

#[test]
fn equality_is_numeric() {
    assert!(s(0.0) == s(-0.0));
    assert!(s(1.5) == s(1.5));
    assert!(s(1.5) != s(-1.5));
    assert!(s(f32::NAN) != s(f32::NAN));
    assert!(vec3(1.0, 0.0, -2.0) == vec3(1.0, -0.0, -2.0));
    assert!(vec3(1.0, 0.0, -2.0) != vec3(1.0, 0.0, 2.0));
    assert!(vec3(f32::NAN, 0.0, 0.0) != vec3(f32::NAN, 0.0, 0.0));
}

#[test]
fn every_rounding_is_a_nearest_neighbour() {
    // the exact product lies between the result's two neighbours' midpoints
    let mut g = Lcg(25);
    for _ in 0..100_000 {
        let a = f32::from_bits((g.next_bits() & 0x007f_ffff) | 0x3f80_0000);
        let b = f32::from_bits((g.next_bits() & 0x007f_ffff) | 0x3f80_0000);
        let r = f(s(a).mul(s(b)));
        let exact = a as f64 * b as f64;
        let lower = (f32::from_bits(r.to_bits() - 1) as f64 + r as f64) / 2.0;
        let upper = (f32::from_bits(r.to_bits() + 1) as f64 + r as f64) / 2.0;
        assert!(lower <= exact && exact <= upper);
        if r.to_bits() % 2 == 1 {
            assert!(lower < exact && exact < upper);
        }
    }
}

#[test]
fn rescaled_length_is_within_160_roundings_of_the_request() {
    let mut g = Lcg(26);
    let mut seen = 0;
    for i in 0..200_000 {
        let mut v = if i % 2 == 0 { g.vector(60, 60) } else { g.vector(8, 8) };
        let length = g.value(60, 60).abs();
        if !is_normal_number(v.length_sq()) || length == 0.0 {
            continue;
        }
        seen += 1;
        v.set_length(s(length));
        let got = f(v.magnitude()) as f64;
        assert!((got - length as f64).abs() <= 160.0 / 16777216.0 * length as f64);
    }
    assert!(seen > 100_000);
}

#[test]
fn clamped_length_does_not_exceed_the_limit_by_more_than_rounding() {
    let mut g = Lcg(27);
    for _ in 0..200_000 {
        let v = g.vector(20, 20);
        let limit = g.value(20, 20).abs();
        if !is_normal_number(v.length_sq()) || limit == 0.0 {
            continue;
        }
        let got = f(clamp_vector_magnitude(v, s(limit)).magnitude()) as f64;
        assert!(got <= limit as f64 * (1.0 + 1.0 / 65536.0));
    }
}

#[test]
fn movement_on_a_slope_keeps_the_speed() {
    let mut g = Lcg(28);
    let mut seen = 0;
    for _ in 0..100_000 {
        let d = g.vector(10, 10);
        let n = g.vector(4, 4).normalized();
        let projected = d.project_on_plane(&n);
        if !is_normal_number(projected.length_sq()) || !is_normal_number(d.length_sq()) {
            continue;
        }
        seen += 1;
        let hit = RayCollisionHit::new_native(n, s(0.0));
        // a time step and multiplier of one leave the ground direction itself
        let moved = player_move_core(&d, s(1.0), s(1.0), Some(hit));
        let speed = f(moved.magnitude()) as f64;
        let wanted = f(d.magnitude()) as f64;
        assert!((speed - wanted).abs() <= wanted / 65536.0);
    }
    assert!(seen > 50_000);
}

#[test]
fn normalizing_and_rescaling_keep_the_direction() {
    let mut g = Lcg(29);
    let mut seen = 0;
    for _ in 0..100_000 {
        let v = g.vector(30, 30);
        let length = g.value(30, 30).abs();
        if !is_normal_number(v.length_sq()) || length == 0.0 {
            continue;
        }
        seen += 1;
        let m = f(v.magnitude()) as f64;
        let n = v.normalized();
        let mut r = v;
        r.set_length(s(length));
        for (x, nx, rx) in [(v.x(), n.x(), r.x()), (v.y(), n.y(), r.y()), (v.z(), n.z(), r.z())] {
            assert_eq!(nx.sign_bit(), x.sign_bit());
            assert_eq!(rx.sign_bit(), x.sign_bit());
            let exact = f(x) as f64 / m;
            assert!((f(nx) as f64 - exact).abs() <= 4.0 / 16777216.0);
            let wanted = exact * length as f64;
            assert!((f(rx) as f64 - wanted).abs() <= 12.0 / 16777216.0 * length as f64);
        }
    }
    assert!(seen > 50_000);
}
