use player_kinematics::{
    air_accelerate, air_accelerate_get_acceleration, air_accelerate_native, gravity_influence,
    gravity_influence_acceleration, gravity_influence_acceleration_native, gravity_influence_core,
    player_move, player_move_core, player_move_native, Binary32, RayCollisionHit, Vector3,
};

fn s(x: f32) -> Binary32 {
    Binary32::from_bits(x.to_bits())
}

fn f(b: Binary32) -> f32 {
    f32::from_bits(b.to_bits())
}

fn vec3(x: f32, y: f32, z: f32) -> Vector3 {
    Vector3::new(s(x), s(y), s(z))
}

#[test]
fn test_air_accelerate_basic() {
    let vel = vec3(0.0, 0.0, 0.0);
    let wish_dir = vec3(1.0, 0.0, 0.0);

    let acceleration =
        air_accelerate_get_acceleration(&vel, &wish_dir, s(100.0), s(10.0), s(30.0), s(0.1));

    assert!((f(acceleration.x()) - 1.0).abs() < 0.001);
    assert_eq!(f(acceleration.y()), 0.0);
    assert_eq!(f(acceleration.z()), 0.0);
}

#[test]
fn test_air_accelerate_with_existing_velocity_same_direction() {
    let vel = vec3(15.0, 0.0, 0.0);
    let wish_dir = vec3(1.0, 0.0, 0.0);

    let acceleration =
        air_accelerate_get_acceleration(&vel, &wish_dir, s(100.0), s(10.0), s(30.0), s(0.1));

    assert!((f(acceleration.x()) - 1.0).abs() < 0.001);
    assert_eq!(f(acceleration.y()), 0.0);
    assert_eq!(f(acceleration.z()), 0.0);
}

#[test]
fn test_air_accelerate_at_max_speed() {
    let vel = vec3(30.0, 0.0, 0.0);
    let wish_dir = vec3(1.0, 0.0, 0.0);

    let acceleration =
        air_accelerate_get_acceleration(&vel, &wish_dir, s(100.0), s(10.0), s(30.0), s(0.1));

    assert!((f(acceleration.x()) - 0.0).abs() < 0.001);
    assert!((f(acceleration.y()) - 0.0).abs() < 0.001);
    assert!((f(acceleration.z()) - 0.0).abs() < 0.001);
}

#[test]
fn test_air_accelerate_opposite_direction() {
    let vel = vec3(-20.0, 0.0, 0.0);
    let wish_dir = vec3(1.0, 0.0, 0.0);

    let acceleration =
        air_accelerate_get_acceleration(&vel, &wish_dir, s(100.0), s(10.0), s(30.0), s(0.1));

    assert!((f(acceleration.x()) - 1.0).abs() < 0.001);
    assert_eq!(f(acceleration.y()), 0.0);
    assert_eq!(f(acceleration.z()), 0.0);
}

#[test]
fn test_air_accelerate_max_speed_clamp() {
    let vel = vec3(10.0, 0.0, 0.0);
    let wish_dir = vec3(1.0, 0.0, 0.0);

    let acceleration =
        air_accelerate_get_acceleration(&vel, &wish_dir, s(100.0), s(100.0), s(30.0), s(0.1));

    assert!((f(acceleration.x()) - 10.0).abs() < 0.001);
}

#[test]
fn test_air_accelerate_wasm_api() {
    let vel = vec3(0.0, 0.0, 0.0);
    let wish_dir = vec3(1.0, 0.0, 0.0);

    let acceleration =
        air_accelerate_get_acceleration(&vel, &wish_dir, s(100.0), s(10.0), s(30.0), s(0.1));

    assert!(f(acceleration.x()) > 0.0);
    assert_eq!(f(acceleration.y()), 0.0);
    assert_eq!(f(acceleration.z()), 0.0);
}

#[test]
fn test_air_accelerate_native_api() {
    let mut vel = vec3(0.0, 0.0, 0.0);
    let wish_dir = vec3(1.0, 0.0, 0.0);

    air_accelerate_native(&mut vel, &wish_dir, s(100.0), s(10.0), s(30.0), s(0.1));

    assert!(f(vel.x()) > 0.0);
    assert_eq!(f(vel.y()), 0.0);
    assert_eq!(f(vel.z()), 0.0);
}

#[test]
fn test_vector3_operations() {
    let v1 = vec3(1.0, 2.0, 3.0);
    let v2 = vec3(4.0, 5.0, 6.0);

    let dot = v1.dot(&v2);
    assert_eq!(f(dot), 32.0);

    let scaled = v1.multiply_scalar(s(2.0));
    assert_eq!(f(scaled.x()), 2.0);
    assert_eq!(f(scaled.y()), 4.0);
    assert_eq!(f(scaled.z()), 6.0);

    let mag = f(vec3(3.0, 4.0, 0.0).magnitude());
    assert!((mag - 5.0).abs() < 0.001);
}

#[test]
fn test_plane_projection() {
    let direction = vec3(1.0, 1.0, 0.0);
    let ground_normal = vec3(0.0, 1.0, 0.0);

    let projected = direction.project_on_plane(&ground_normal);

    assert!((f(projected.x()) - 1.0).abs() < 0.001);
    assert!((f(projected.y()) - 0.0).abs() < 0.001);
    assert!((f(projected.z()) - 0.0).abs() < 0.001);
}

#[test]
fn test_player_move_basic() {
    let direction = vec3(1.0, 0.0, 0.0);
    let delta_time = 0.1;
    let normal_speed = 1.0;

    let result = player_move_core(&direction, s(delta_time), s(normal_speed), None);

    assert!((f(result.x()) - 0.1).abs() < 0.001);
    assert_eq!(f(result.y()), 0.0);
    assert_eq!(f(result.z()), 0.0);
}

#[test]
fn test_player_move_sprint() {
    let direction = vec3(1.0, 0.0, 0.0);
    let delta_time = 0.1;
    let sprint_speed = 1.5;

    let result = player_move_core(&direction, s(delta_time), s(sprint_speed), None);

    assert!((f(result.x()) - 0.15).abs() < 0.001);
    assert_eq!(f(result.y()), 0.0);
    assert_eq!(f(result.z()), 0.0);
}

#[test]
fn test_player_move_crouch() {
    let direction = vec3(1.0, 0.0, 0.0);
    let delta_time = 0.1;
    let crouch_speed = 0.67;

    let result = player_move_core(&direction, s(delta_time), s(crouch_speed), None);

    assert!((f(result.x()) - 0.067).abs() < 0.001);
    assert_eq!(f(result.y()), 0.0);
    assert_eq!(f(result.z()), 0.0);
}

#[test]
fn test_player_move_ground_projection() {
    let direction = vec3(1.0, 1.0, 0.0);
    let delta_time: f32 = 0.1;
    let normal_speed: f32 = 1.0;

    let ground_hit = RayCollisionHit::new(s(0.0), s(1.0), s(0.0), s(1.0));

    let result = player_move_core(&direction, s(delta_time), s(normal_speed), Some(ground_hit));

    let original_length = f(direction.length());
    let expected_x = original_length * delta_time * normal_speed;

    assert!((f(result.x()) - expected_x).abs() < 0.001);
    assert!((f(result.y()) - 0.0).abs() < 0.001);
    assert_eq!(f(result.z()), 0.0);
}

#[test]
fn test_vector_length_operations() {
    let mut v = vec3(3.0, 4.0, 0.0);
    assert!((f(v.length()) - 5.0).abs() < 0.001);
    assert!((f(v.length_sq()) - 25.0).abs() < 0.001);

    v.set_length(s(10.0));
    assert!((f(v.length()) - 10.0).abs() < 0.001);
    assert!((f(v.x()) - 6.0).abs() < 0.001);
    assert!((f(v.y()) - 8.0).abs() < 0.001);
}

#[test]
fn test_gravity_influence_basic() {
    let mut gravity_influence_vec = vec3(0.0, 0.0, 0.0);
    let gravity = vec3(0.0, -9.8, 0.0);
    let delta = 0.1;

    let result = gravity_influence_core(&mut gravity_influence_vec, &gravity, s(delta));

    let expected_y: f32 = -9.8 * 0.01 * 0.0875;
    assert!((f(result.y()) - expected_y).abs() < 0.0001);
    assert_eq!(f(result.x()), 0.0);
    assert_eq!(f(result.z()), 0.0);

    assert!((f(gravity_influence_vec.y()) - expected_y).abs() < 0.0001);
}

#[test]
fn test_gravity_influence_accumulation() {
    let mut gravity_influence_vec = vec3(1.0, 2.0, 3.0);
    let gravity = vec3(0.0, -9.8, 0.0);
    let delta = 0.1;

    let original_x = f(gravity_influence_vec.x());
    let original_z = f(gravity_influence_vec.z());

    gravity_influence_core(&mut gravity_influence_vec, &gravity, s(delta));

    assert_eq!(f(gravity_influence_vec.x()), original_x);
    assert_eq!(f(gravity_influence_vec.z()), original_z);

    let expected_y: f32 = 2.0 + (-9.8 * 0.01 * 0.0875);
    assert!((f(gravity_influence_vec.y()) - expected_y).abs() < 0.0001);
}

#[test]
fn test_gravity_influence_acceleration() {
    let gravity = vec3(0.0, -9.8, 0.0);
    let delta = 0.1;

    let acceleration = gravity_influence_acceleration_native(&gravity, s(delta));

    let expected_y: f32 = -9.8 * 0.01 * 0.0875;
    assert!((f(acceleration.y()) - expected_y).abs() < 0.0001);
    assert_eq!(f(acceleration.x()), 0.0);
    assert_eq!(f(acceleration.z()), 0.0);
}

#[test]
fn test_gravity_influence_core() {
    let mut gravity_influence_vec = vec3(0.0, 0.0, 0.0);
    let gravity = vec3(0.0, -9.8, 0.0);
    let delta = 0.1;

    gravity_influence_core(&mut gravity_influence_vec, &gravity, s(delta));

    let expected_y: f32 = -9.8 * 0.01 * 0.0875;
    assert!((f(gravity_influence_vec.y()) - expected_y).abs() < 0.0001);
    assert_eq!(f(gravity_influence_vec.x()), 0.0);
    assert_eq!(f(gravity_influence_vec.z()), 0.0);
}

#[test]
fn test_gravity_influence_multi_axis() {
    let mut gravity_influence_vec = vec3(0.0, 0.0, 0.0);
    let gravity = vec3(1.0, -9.8, 2.0);
    let delta: f32 = 0.05;

    gravity_influence_core(&mut gravity_influence_vec, &gravity, s(delta));

    let delta_sqrd = delta * delta;
    let scale_factor = delta_sqrd * 0.0875;

    assert!((f(gravity_influence_vec.x()) - (1.0 * scale_factor)).abs() < 0.0001);
    assert!((f(gravity_influence_vec.y()) - (-9.8 * scale_factor)).abs() < 0.0001);
    assert!((f(gravity_influence_vec.z()) - (2.0 * scale_factor)).abs() < 0.0001);
}

#[test]
fn normalized_has_unit_length_or_is_zero() {
    for &(x, y, z) in &[
        (3.0f32, 4.0f32, 0.0f32),
        (1.0, 1.0, 1.0),
        (-2.5, 0.125, 7.75),
        (1.0e-10, 2.0e-10, -3.0e-10),
        (1.0e15, -1.0e15, 1.0e12),
        (0.0, 0.0, 9.8),
    ] {
        let n = vec3(x, y, z).normalized();
        assert!((f(n.magnitude()) - 1.0).abs() <= 1.0e-4, "({}, {}, {})", x, y, z);
    }
    let zero = vec3(0.0, 0.0, 0.0).normalized();
    assert_eq!(zero.x().to_bits(), 0);
    assert_eq!(zero.y().to_bits(), 0);
    assert_eq!(zero.z().to_bits(), 0);
}

#[test]
fn normalized_of_an_underflowing_length_is_zero() {
    // the squared length rounds to zero, so the length is not above zero
    let n = vec3(1.0e-30, 0.0, 0.0).normalized();
    assert_eq!(n.x().to_bits(), 0);
    assert_eq!(n.y().to_bits(), 0);
    assert_eq!(n.z().to_bits(), 0);
}

#[test]
fn normalized_of_an_overflowing_length_is_zero() {
    // the squared length rounds to infinity, and a component over infinity is zero
    let v = vec3(1.0e30, 0.0, 0.0);
    assert_eq!(v.length().to_bits(), f32::INFINITY.to_bits());
    let n = v.normalized();
    assert_eq!(n.x().to_bits(), 0);
    assert_eq!(n.y().to_bits(), 0);
    assert_eq!(n.z().to_bits(), 0);
}

#[test]
fn normalized_of_a_subnormal_squared_length_is_coarse() {
    // the squared length keeps only a few bits, and the length of the result shows it
    let n = vec3(3.0e-22, 0.0, 0.0).normalized();
    let length = f(n.magnitude());
    assert!((length - 1.0).abs() > 1.0e-4);
    assert!((length - 1.0).abs() < 1.0e-2);
}

#[test]
fn plane_projection_is_orthogonal_to_the_normal() {
    let cases = [
        ((1.0f32, 1.0f32, 0.0f32), (0.0f32, 1.0f32, 0.0f32)),
        ((3.0, -2.0, 5.0), (0.0, 0.0, 1.0)),
        ((3.0, -2.0, 5.0), (0.6, 0.8, 0.0)),
        ((-1.5, 0.25, 2.0), (0.0, 0.6, -0.8)),
    ];
    for &((x, y, z), (nx, ny, nz)) in &cases {
        let n = vec3(nx, ny, nz);
        let p = vec3(x, y, z).project_on_plane(&n);
        assert!(f(p.dot(&n)).abs() < 1.0e-5);
        let q = vec3(x, y, z).project_on_plane_native(&n);
        assert_eq!(q.to_components().0.to_bits(), p.x().to_bits());
        assert_eq!(q.to_components().1.to_bits(), p.y().to_bits());
        assert_eq!(q.to_components().2.to_bits(), p.z().to_bits());
    }
}

#[test]
fn player_move_on_flat_ground_keeps_the_input_speed() {
    let hit = RayCollisionHit::new(s(0.0), s(1.0), s(0.0), s(1.0));
    let r = player_move_core(&vec3(1.0, 1.0, 0.0), s(0.1), s(1.0), Some(hit));
    assert!((f(r.x()) - 0.1414).abs() < 1.0e-4);
    assert_eq!(f(r.y()), 0.0);
    assert_eq!(f(r.z()), 0.0);
    // exactly: the projection (1, 0, 0) scaled by sqrt(2) / 1, then by 0.1 * 1
    let expected = (2.0f32.sqrt() / 1.0) * (0.1f32 * 1.0);
    assert_eq!(r.x().to_bits(), expected.to_bits());
}

#[test]
fn player_move_into_the_normal_keeps_the_direction() {
    // the projection of a direction parallel to the normal has length zero
    let hit = RayCollisionHit::new_native(vec3(0.0, 1.0, 0.0), s(0.5));
    let r = player_move_core(&vec3(0.0, -2.0, 0.0), s(0.5), s(1.0), Some(hit));
    assert_eq!(f(r.x()), 0.0);
    assert_eq!(f(r.y()), -1.0);
    assert_eq!(f(r.z()), 0.0);
}

#[test]
fn player_move_variants_agree() {
    let hit = RayCollisionHit::new(s(0.0), s(0.6), s(0.8), s(1.0));
    let d = vec3(1.0, 2.0, -3.0);
    let a = player_move_core(&d, s(0.016), s(1.5), Some(hit));
    let b = player_move_native(&d, s(0.016), s(1.5), Some(hit));
    let c = player_move(&d, s(0.016), s(1.5), Some(hit));
    for (p, q) in [(a, b), (a, c)] {
        assert_eq!(p.x().to_bits(), q.x().to_bits());
        assert_eq!(p.y().to_bits(), q.y().to_bits());
        assert_eq!(p.z().to_bits(), q.z().to_bits());
    }
}

#[test]
fn zero_time_step_gives_no_movement() {
    let r = player_move_core(&vec3(1.0, 2.0, 3.0), s(0.0), s(1.0), None);
    assert_eq!(f(r.x()), 0.0);
    assert_eq!(f(r.y()), 0.0);
    assert_eq!(f(r.z()), 0.0);
}

#[test]
fn gravity_scenario_from_rest() {
    let mut accum = vec3(0.0, 0.0, 0.0);
    let r = gravity_influence_core(&mut accum, &vec3(0.0, -9.8, 0.0), s(0.1));
    assert!((f(r.y()) - (-0.008575)).abs() < 1.0e-6);
    assert_eq!(f(r.x()), 0.0);
    assert_eq!(f(r.z()), 0.0);
    assert_eq!(accum.y().to_bits(), r.y().to_bits());
    // exactly: -9.8 * ((0.1 * 0.1) * 0.0875), each product rounded
    let expected = -9.8f32 * ((0.1f32 * 0.1f32) * 0.0875f32);
    assert_eq!(r.y().to_bits(), expected.to_bits());
}

#[test]
fn gravity_variants_agree() {
    let g = vec3(0.5, -9.8, 0.25);
    let pure = gravity_influence_acceleration_native(&g, s(0.02));
    let bound = gravity_influence_acceleration(&g, s(0.02));
    assert_eq!(pure.y().to_bits(), bound.y().to_bits());
    let mut a = vec3(1.0, 2.0, 3.0);
    let mut b = vec3(1.0, 2.0, 3.0);
    let ra = gravity_influence_core(&mut a, &g, s(0.02));
    let rb = gravity_influence(&mut b, &g, s(0.02));
    let mut c = vec3(1.0, 2.0, 3.0);
    c.add(&pure);
    for (p, q) in [(ra, rb), (ra, a), (ra, c)] {
        assert_eq!(p.x().to_bits(), q.x().to_bits());
        assert_eq!(p.y().to_bits(), q.y().to_bits());
        assert_eq!(p.z().to_bits(), q.z().to_bits());
    }
}

#[test]
fn air_acceleration_from_rest() {
    let a = air_accelerate_get_acceleration(
        &vec3(0.0, 0.0, 0.0),
        &vec3(1.0, 0.0, 0.0),
        s(100.0),
        s(10.0),
        s(30.0),
        s(0.1),
    );
    assert!((f(a.x()) - 1.0).abs() < 1.0e-3);
    assert_eq!(f(a.y()), 0.0);
    assert_eq!(f(a.z()), 0.0);
}

#[test]
fn air_acceleration_at_the_cap_is_gated_off() {
    let a = air_accelerate_get_acceleration(
        &vec3(30.0, 0.0, 0.0),
        &vec3(1.0, 0.0, 0.0),
        s(100.0),
        s(10.0),
        s(30.0),
        s(0.1),
    );
    assert_eq!(a.x().to_bits(), 0);
    assert_eq!(a.y().to_bits(), 0);
    assert_eq!(a.z().to_bits(), 0);
}

#[test]
fn air_acceleration_is_clamped_to_the_room_left() {
    // 25 of 30 used: a step of 10 is cut to 5
    let a = air_accelerate_get_acceleration(
        &vec3(25.0, 0.0, 0.0),
        &vec3(1.0, 0.0, 0.0),
        s(0.0),
        s(100.0),
        s(30.0),
        s(0.1),
    );
    assert!((f(a.x()) - 5.0).abs() < 1.0e-4);
    // moving away: the ceiling is 30 + 25, so a step of 60 is cut to 55
    let b = air_accelerate_get_acceleration(
        &vec3(-25.0, 0.0, 0.0),
        &vec3(1.0, 0.0, 0.0),
        s(0.0),
        s(600.0),
        s(30.0),
        s(0.1),
    );
    assert!((f(b.x()) - 55.0).abs() < 1.0e-3);
}

#[test]
fn air_acceleration_with_zero_wish_direction_is_zero() {
    let a = air_accelerate_get_acceleration(
        &vec3(3.0, 4.0, 5.0),
        &vec3(0.0, 0.0, 0.0),
        s(0.0),
        s(10.0),
        s(30.0),
        s(0.1),
    );
    assert_eq!(f(a.x()), 0.0);
    assert_eq!(f(a.y()), 0.0);
    assert_eq!(f(a.z()), 0.0);
}

#[test]
fn air_acceleration_with_zero_cap_moves_only_away() {
    let toward = air_accelerate_get_acceleration(
        &vec3(1.0, 0.0, 0.0),
        &vec3(1.0, 0.0, 0.0),
        s(0.0),
        s(10.0),
        s(0.0),
        s(0.1),
    );
    assert_eq!(f(toward.x()), 0.0);
    let away = air_accelerate_get_acceleration(
        &vec3(-1.0, 0.0, 0.0),
        &vec3(1.0, 0.0, 0.0),
        s(0.0),
        s(10.0),
        s(0.0),
        s(0.1),
    );
    assert!((f(away.x()) - 1.0).abs() < 1.0e-6);
}

#[test]
fn air_acceleration_is_repeatable_and_ignores_wish_speed() {
    let vel = vec3(12.5, -3.0, 4.0);
    let dir = vec3(0.6, 0.0, 0.8);
    let first = air_accelerate_get_acceleration(&vel, &dir, s(100.0), s(10.0), s(30.0), s(0.016));
    let second = air_accelerate_get_acceleration(&vel, &dir, s(100.0), s(10.0), s(30.0), s(0.016));
    let other = air_accelerate(&vel, &dir, s(-7.0), s(10.0), s(30.0), s(0.016));
    for r in [second, other] {
        assert_eq!(first.x().to_bits(), r.x().to_bits());
        assert_eq!(first.y().to_bits(), r.y().to_bits());
        assert_eq!(first.z().to_bits(), r.z().to_bits());
    }
    let mut moved = vel;
    air_accelerate_native(&mut moved, &dir, s(100.0), s(10.0), s(30.0), s(0.016));
    assert_eq!(moved.x().to_bits(), (f(vel.x()) + f(first.x())).to_bits());
    assert_eq!(moved.y().to_bits(), (f(vel.y()) + f(first.y())).to_bits());
    assert_eq!(moved.z().to_bits(), (f(vel.z()) + f(first.z())).to_bits());
}

#[test]
fn set_length_leaves_the_zero_vector_alone() {
    let mut v = vec3(0.0, 0.0, 0.0);
    v.set_length(s(10.0));
    assert_eq!(v.x().to_bits(), 0);
    assert_eq!(v.y().to_bits(), 0);
    assert_eq!(v.z().to_bits(), 0);
    let mut w = vec3(0.0, -3.0, 4.0);
    w.set_length_native(s(10.0));
    assert_eq!(f(w.y()), -6.0);
    assert_eq!(f(w.z()), 8.0);
}

#[test]
fn accessors_and_setters_round_trip() {
    let mut v = Vector3::from_components(s(1.0), s(2.0), s(3.0));
    v.set_x_native(s(4.0));
    v.set_y_native(s(5.0));
    v.set_z_native(s(6.0));
    let (x, y, z) = v.to_components();
    assert_eq!((f(x), f(y), f(z)), (4.0, 5.0, 6.0));
    let mut w = Vector3::zero();
    w.copy(&v);
    let c = w.clone();
    assert_eq!((f(c.x()), f(c.y()), f(c.z())), (4.0, 5.0, 6.0));
    let mut u = Vector3::new_wasm(s(7.0), s(8.0), s(9.0));
    assert_eq!((f(u.get_x()), f(u.get_y()), f(u.get_z())), (7.0, 8.0, 9.0));
    u.set_x(s(-1.0));
    u.set_y(s(-2.0));
    u.set_z(s(-3.0));
    assert_eq!((f(u.x()), f(u.y()), f(u.z())), (-1.0, -2.0, -3.0));
    let hit = RayCollisionHit::new_native(v, s(0.25));
    assert_eq!(f(hit.normal().y()), 5.0);
    assert_eq!(f(hit.normal_native().z()), 6.0);
    assert_eq!(f(hit.distance()), 0.25);
    assert_eq!(f(hit.distance_native()), 0.25);
}

#[test]
fn nan_components_propagate() {
    let v = vec3(f32::NAN, 1.0, 0.0);
    assert!(v.length_sq().check_nan());
    assert!(v.multiply_scalar(s(2.0)).x().check_nan());
    let r = player_move_core(&v, s(0.1), s(1.0), None);
    assert!(r.x().check_nan());
    assert_eq!(f(r.y()), 0.1);
}
