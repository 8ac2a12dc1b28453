use player_kinematics::scalar::Binary32;

fn scalar(x: f32) -> Binary32 {
    Binary32::from_bits(x.to_bits())
}

fn agrees(got: Binary32, expected: f32) -> bool {
    if expected.is_nan() {
        got.check_nan()
    } else {
        got.to_bits() == expected.to_bits()
    }
}

fn landmarks() -> Vec<f32> {
    let mut v = vec![
        0.0f32,
        1.0,
        2.0,
        3.0,
        0.5,
        0.1,
        0.0875,
        9.8,
        1.5,
        0.67,
        30.0,
        1.0e-3,
        16777216.0,
        16777215.0,
        8388608.0,
        1.0e10,
        1.0e20,
        1.0e30,
        3.0e38,
        1.0e-10,
        1.0e-20,
        1.0e-30,
        1.0e-38,
        1.0e-40,
        1.0e-44,
        f32::MAX,
        f32::MIN_POSITIVE,
        f32::EPSILON,
        f32::INFINITY,
        f32::NAN,
        f32::from_bits(1),
        f32::from_bits(2),
        f32::from_bits(3),
        f32::from_bits(0x007f_ffff),
        f32::from_bits(0x0080_0001),
        f32::from_bits(0x3f80_0001),
        f32::from_bits(0x3f7f_ffff),
        f32::from_bits(0x7f7f_fffe),
        f32::from_bits(0x4b80_0001),
        f32::from_bits(0x3400_0000),
        f32::from_bits(0x3380_0000),
        f32::from_bits(0x3380_0001),
    ];
    let n = v.len();
    for i in 0..n {
        let x = v[i];
        v.push(-x);
    }
    v
}

struct Lcg(u64);

impl Lcg {
    fn next_bits(&mut self) -> u32 {
        self.0 = self.0.wrapping_mul(6364136223846793005).wrapping_add(1442695040888963407);
        (self.0 >> 32) as u32
    }

    // a datum close to `x` in exponent, so that sums cancel and align often
    fn near(&mut self, x: u32) -> u32 {
        let e = ((x >> 23) & 0xff) as i32 + (self.next_bits() % 61) as i32 - 30;
        let e = e.clamp(0, 255) as u32;
        (self.next_bits() & 0x807f_ffff) | (e << 23)
    }
}

#[test]
fn product_matches_hardware_on_landmarks() {
    let v = landmarks();
    for &a in &v {
        for &b in &v {
            assert!(agrees(scalar(a).mul(scalar(b)), a * b), "{:e} * {:e}", a, b);
        }
    }
}

#[test]
fn sum_matches_hardware_on_landmarks() {
    let v = landmarks();
    for &a in &v {
        for &b in &v {
            assert!(agrees(scalar(a).add(scalar(b)), a + b), "{:e} + {:e}", a, b);
            assert!(agrees(scalar(a).sub(scalar(b)), a - b), "{:e} - {:e}", a, b);
        }
    }
}

#[test]
fn product_matches_hardware_on_random_bits() {
    let mut g = Lcg(1);
    for _ in 0..300_000 {
        let a = f32::from_bits(g.next_bits());
        let b = f32::from_bits(g.next_bits());
        assert!(agrees(scalar(a).mul(scalar(b)), a * b), "{:e} * {:e}", a, b);
    }
}

#[test]
fn sum_matches_hardware_on_random_bits() {
    let mut g = Lcg(2);
    for _ in 0..300_000 {
        let x = g.next_bits();
        let a = f32::from_bits(x);
        let b = f32::from_bits(g.near(x));
        assert!(agrees(scalar(a).add(scalar(b)), a + b), "{:e} + {:e}", a, b);
        assert!(agrees(scalar(a).sub(scalar(b)), a - b), "{:e} - {:e}", a, b);
    }
}

#[test]
fn quotient_matches_hardware_on_landmarks() {
    let v = landmarks();
    for &a in &v {
        for &b in &v {
            assert!(agrees(scalar(a).div(scalar(b)), a / b), "{:e} / {:e}", a, b);
        }
    }
}

#[test]
fn quotient_matches_hardware_on_random_bits() {
    let mut g = Lcg(3);
    for _ in 0..300_000 {
        let a = f32::from_bits(g.next_bits());
        let b = f32::from_bits(g.next_bits());
        assert!(agrees(scalar(a).div(scalar(b)), a / b), "{:e} / {:e}", a, b);
    }
}

#[test]
fn quotient_matches_hardware_near_one() {
    let mut g = Lcg(4);
    for _ in 0..300_000 {
        let x = g.next_bits();
        let a = f32::from_bits(x);
        let b = f32::from_bits(g.near(x));
        assert!(agrees(scalar(a).div(scalar(b)), a / b), "{:e} / {:e}", a, b);
    }
}

#[test]
fn root_matches_hardware_on_landmarks() {
    for &a in &landmarks() {
        assert!(agrees(scalar(a).sqrt(), a.sqrt()), "sqrt {:e}", a);
    }
    assert_eq!(scalar(-0.0).sqrt().to_bits(), 0x8000_0000);
    assert_eq!(scalar(4.0).sqrt().to_bits(), 2.0f32.to_bits());
    assert_eq!(scalar(2.0).sqrt().to_bits(), 0x3fb5_04f3);
    assert!(scalar(-1.0).sqrt().check_nan());
}

#[test]
fn root_matches_hardware_on_random_bits() {
    let mut g = Lcg(5);
    for _ in 0..300_000 {
        let a = f32::from_bits(g.next_bits() & 0x7fff_ffff);
        assert!(agrees(scalar(a).sqrt(), a.sqrt()), "sqrt {:e}", a);
    }
}

#[test]
fn root_of_every_perfect_square_is_exact() {
    for i in 0..4096u32 {
        let x = i as f32;
        assert_eq!(scalar(x * x).sqrt().to_bits(), x.to_bits());
    }
}

#[test]
fn comparisons_match_hardware_on_landmarks() {
    let v = landmarks();
    for &a in &v {
        for &b in &v {
            assert_eq!(scalar(a).lt(scalar(b)), a < b, "{:e} < {:e}", a, b);
            assert_eq!(scalar(a).le(scalar(b)), a <= b, "{:e} <= {:e}", a, b);
            assert_eq!(scalar(a).gt(scalar(b)), a > b, "{:e} > {:e}", a, b);
            assert_eq!(scalar(a).eq(scalar(b)), a == b, "{:e} == {:e}", a, b);
        }
    }
}

#[test]
fn comparisons_match_hardware_on_random_bits() {
    let mut g = Lcg(6);
    for _ in 0..300_000 {
        let x = g.next_bits();
        let a = f32::from_bits(x);
        let b = f32::from_bits(g.near(x));
        assert_eq!(scalar(a).lt(scalar(b)), a < b);
        assert_eq!(scalar(a).le(scalar(b)), a <= b);
        assert_eq!(scalar(a).eq(scalar(b)), a == b);
    }
}

#[test]
fn zeros_compare_equal_and_nan_compares_false() {
    assert!(scalar(0.0).eq(scalar(-0.0)));
    assert!(scalar(0.0).le(scalar(-0.0)));
    assert!(!scalar(0.0).lt(scalar(-0.0)));
    assert!(!scalar(f32::NAN).eq(scalar(f32::NAN)));
    assert!(!scalar(f32::NAN).le(scalar(1.0)));
    assert!(!scalar(1.0).gt(scalar(f32::NAN)));
}

#[test]
fn ties_round_to_even() {
    // 2^24 + 1 lies halfway between 2^24 and 2^24 + 2
    assert_eq!(scalar(16777216.0).add(scalar(1.0)).to_bits(), 16777216.0f32.to_bits());
    // 2^24 + 3 lies halfway between 2^24 + 2 and 2^24 + 4
    assert_eq!(scalar(16777218.0).add(scalar(1.0)).to_bits(), 16777220.0f32.to_bits());
    // (1 + 2^-23) * (1 + 2^-23) = 1 + 2^-22 + 2^-46 rounds down
    let next = f32::from_bits(0x3f80_0001);
    assert_eq!(scalar(next).mul(scalar(next)).to_bits(), 0x3f80_0002);
}

#[test]
fn exceptional_operands_follow_the_standard() {
    let inf = f32::INFINITY;
    assert!(scalar(inf).sub(scalar(inf)).check_nan());
    assert!(scalar(inf).mul(scalar(0.0)).check_nan());
    assert!(scalar(0.0).div(scalar(0.0)).check_nan());
    assert!(scalar(inf).div(scalar(inf)).check_nan());
    assert_eq!(scalar(1.0).div(scalar(-0.0)).to_bits(), (-inf).to_bits());
    assert_eq!(scalar(-1.0).div(scalar(inf)).to_bits(), 0x8000_0000);
    assert_eq!(scalar(f32::MAX).add(scalar(f32::MAX)).to_bits(), inf.to_bits());
    assert_eq!(scalar(f32::MAX).mul(scalar(2.0)).to_bits(), inf.to_bits());
    assert_eq!(scalar(1.0).sub(scalar(1.0)).to_bits(), 0);
    assert_eq!(scalar(-0.0).add(scalar(-0.0)).to_bits(), 0x8000_0000);
    assert_eq!(scalar(f32::NAN).add(scalar(1.0)).to_bits(), 0x7fc0_0000);
    assert_eq!(Binary32::quiet_nan().to_bits(), 0x7fc0_0000);
    assert_eq!(Binary32::zero().to_bits(), 0);
}

#[test]
fn negation_flips_only_the_sign() {
    assert_eq!(scalar(1.5).neg().to_bits(), (-1.5f32).to_bits());
    assert_eq!(scalar(-0.0).neg().to_bits(), 0);
    assert_eq!(scalar(0.0).neg().to_bits(), 0x8000_0000);
}
