use player_kinematics::{
    air_accelerate_get_acceleration, gravity_influence_core, player_move_core, Binary32,
    RayCollisionHit, Vector3,
};

// The same formulas in the machine's own single-precision arithmetic.

#[derive(Clone, Copy)]
struct V(f32, f32, f32);

impl V {
    fn dot(self, o: V) -> f32 {
        self.0 * o.0 + self.1 * o.1 + self.2 * o.2
    }

    fn scaled(self, k: f32) -> V {
        V(self.0 * k, self.1 * k, self.2 * k)
    }

    fn magnitude(self) -> f32 {
        self.dot(self).sqrt()
    }

    fn normalized(self) -> V {
        let m = self.magnitude();
        if m > 0.0 {
            V(self.0 / m, self.1 / m, self.2 / m)
        } else {
            V(0.0, 0.0, 0.0)
        }
    }

    fn with_length(self, length: f32) -> V {
        let m = self.magnitude();
        if m == 0.0 {
            self
        } else {
            self.scaled(length / m)
        }
    }

    fn project_on_plane(self, n: V) -> V {
        let along = n.scaled(self.dot(n));
        V(self.0 - along.0, self.1 - along.1, self.2 - along.2)
    }
}

fn model_player_move(d: V, dt: f32, m: f32, hit: Option<V>) -> V {
    let mut dir = d;
    if let Some(n) = hit {
        let p = d.project_on_plane(n);
        if p.dot(p) != 0.0 {
            dir = p.with_length(d.magnitude());
        }
    }
    dir.scaled(dt * m)
}

fn model_gravity(acc: V, g: V, dt: f32) -> V {
    let k = dt * dt * 0.0875;
    V(acc.0 + g.0 * k, acc.1 + g.1 * k, acc.2 + g.2 * k)
}

fn model_clamp(v: V, max: f32) -> V {
    let m = v.magnitude();
    if m <= max || max <= 0.0 {
        v
    } else {
        v.scaled(max / m)
    }
}

fn model_air(vel: V, wish: V, accel: f32, cap: f32, dt: f32) -> V {
    let b2 = wish.dot(wish);
    let proj = if b2 == 0.0 { V(0.0, 0.0, 0.0) } else { wish.scaled(vel.dot(wish) / b2) };
    let away = wish.dot(proj) <= 0.0;
    if proj.magnitude() < cap || away {
        let step = wish.normalized().scaled(accel * dt);
        let ceiling = if away { cap + proj.magnitude() } else { cap - proj.magnitude() };
        model_clamp(step, ceiling)
    } else {
        V(0.0, 0.0, 0.0)
    }
}

fn s(x: f32) -> Binary32 {
    Binary32::from_bits(x.to_bits())
}

fn lift(v: V) -> Vector3 {
    Vector3::new(s(v.0), s(v.1), s(v.2))
}

fn same_scalar(got: Binary32, want: f32) -> bool {
    if want.is_nan() {
        got.check_nan()
    } else {
        got.to_bits() == want.to_bits()
    }
}

fn same(got: Vector3, want: V) -> bool {
    same_scalar(got.x(), want.0) && same_scalar(got.y(), want.1) && same_scalar(got.z(), want.2)
}

struct Lcg(u64);

impl Lcg {
    fn next_bits(&mut self) -> u32 {
        self.0 = self.0.wrapping_mul(6364136223846793005).wrapping_add(1442695040888963407);
        (self.0 >> 32) as u32
    }

    // a finite value of either sign with a magnitude between 2^-lo and 2^hi
    fn value(&mut self, lo: u32, hi: u32) -> f32 {
        let e = 127 - lo + self.next_bits() % (lo + hi);
        let x = f32::from_bits((self.next_bits() & 0x807f_ffff) | (e << 23));
        if self.next_bits() % 16 == 0 {
            0.0
        } else {
            x
        }
    }

    fn vector(&mut self, lo: u32, hi: u32) -> V {
        V(self.value(lo, hi), self.value(lo, hi), self.value(lo, hi))
    }

    fn direction(&mut self) -> V {
        if self.next_bits() % 8 == 0 {
            self.vector(4, 4)
        } else {
            self.vector(4, 4).normalized()
        }
    }
}

#[test]
fn vector_operations_match_the_model() {
    let mut g = Lcg(11);
    for _ in 0..100_000 {
        let a = g.vector(20, 20);
        let b = g.vector(20, 20);
        let k = g.value(10, 10);
        assert!(same_scalar(lift(a).dot(&lift(b)), a.dot(b)));
        assert!(same_scalar(lift(a).length_sq(), a.dot(a)));
        assert!(same_scalar(lift(a).magnitude(), a.magnitude()));
        assert!(same(lift(a).multiply_scalar(s(k)), a.scaled(k)));
        assert!(same(lift(a).normalized(), a.normalized()));
        assert!(same(lift(a).project_on_plane(&lift(b)), a.project_on_plane(b)));
        let mut c = lift(a);
        c.set_length(s(k));
        assert!(same(c, a.with_length(k)));
        let mut d = lift(a);
        d.add(&lift(b));
        assert!(same(d, V(a.0 + b.0, a.1 + b.1, a.2 + b.2)));
    }
}

#[test]
fn vector_operations_match_the_model_at_the_edges_of_the_range() {
    let mut g = Lcg(12);
    for _ in 0..100_000 {
        let a = g.vector(126, 127);
        let b = g.vector(126, 127);
        let k = g.value(126, 127);
        assert!(same_scalar(lift(a).dot(&lift(b)), a.dot(b)));
        assert!(same_scalar(lift(a).magnitude(), a.magnitude()));
        assert!(same(lift(a).normalized(), a.normalized()));
        assert!(same(lift(a).project_on_plane(&lift(b)), a.project_on_plane(b)));
        let mut c = lift(a);
        c.set_length(s(k));
        assert!(same(c, a.with_length(k)));
    }
}

#[test]
fn ground_movement_matches_the_model() {
    let mut g = Lcg(13);
    for i in 0..100_000 {
        let d = g.vector(6, 6);
        let dt = g.value(8, 1).abs();
        let m = g.value(2, 2).abs();
        let n = g.direction();
        let hit = if i % 4 == 0 { None } else { Some(n) };
        let got = player_move_core(
            &lift(d),
            s(dt),
            s(m),
            hit.map(|n| RayCollisionHit::new_native(lift(n), s(1.0))),
        );
        assert!(same(got, model_player_move(d, dt, m, hit)));
    }
}

#[test]
fn gravity_accumulation_matches_the_model() {
    let mut g = Lcg(14);
    for _ in 0..100_000 {
        let acc = g.vector(10, 10);
        let gravity = g.vector(6, 6);
        let dt = g.value(10, 2).abs();
        let mut got = lift(acc);
        let returned = gravity_influence_core(&mut got, &lift(gravity), s(dt));
        let want = model_gravity(acc, gravity, dt);
        assert!(same(got, want));
        assert!(same(returned, want));
    }
}

#[test]
fn air_acceleration_matches_the_model() {
    let mut g = Lcg(15);
    for _ in 0..100_000 {
        let vel = g.vector(4, 7);
        let wish = g.direction();
        let accel = g.value(2, 8).abs();
        let cap = g.value(2, 6);
        let dt = g.value(8, 1).abs();
        let got =
            air_accelerate_get_acceleration(&lift(vel), &lift(wish), s(0.0), s(accel), s(cap), s(dt));
        assert!(same(got, model_air(vel, wish, accel, cap, dt)));
    }
}

#[test]
fn air_acceleration_matches_the_model_along_the_axes() {
    let mut g = Lcg(16);
    let axes = [V(1.0, 0.0, 0.0), V(0.0, -1.0, 0.0), V(0.0, 0.0, 1.0), V(0.0, 0.0, 0.0)];
    for i in 0..40_000 {
        let wish = axes[i % 4];
        let speed = (g.next_bits() % 64) as f32 - 32.0;
        let vel = V(wish.0 * speed, wish.1 * speed + g.value(2, 2), wish.2 * speed);
        let accel = (g.next_bits() % 200) as f32;
        let got =
            air_accelerate_get_acceleration(&lift(vel), &lift(wish), s(1.0), s(accel), s(30.0), s(0.1));
        assert!(same(got, model_air(vel, wish, accel, 30.0, 0.1)));
    }
}
