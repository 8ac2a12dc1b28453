//! The length of a normalized vector is close to one.
//!
//! The proof follows the computation: three rounded squares, two rounded
//! sums, a rounded root, three rounded quotients, and the same once more on
//! the result. Each step is within rounding error of its exact counterpart,
//! and the errors add up to less than 2^-17.
use vstd::prelude::*;
use vstd::arithmetic::power2::{lemma2_to64, pow2};
use crate::powers::{lemma_pow2_ordered, lemma_pow2_product, lemma_scaled_square_order};
use crate::encoding::{lemma_ordinal_landmarks, ordinal_value, INFINITY_ORDINAL};
use crate::rounding::{lemma_round_ratio_total, round_ratio};
use crate::scalar::Binary32;
use crate::vector3::Vector3;
use crate::accuracy::{lemma_assembled, lemma_one, lemma_rounding_error, lemma_rounds_finite, near};
use crate::length::{
    is_scaled_component,
    has_normal_length_sq,
    lemma_length_accuracy,
    lemma_length_sq_is_normal,
    lemma_scaled_squares,
};

verus! {

/// The scalar lies within `10^-4` of one.
pub open spec fn within_tolerance_of_one(r: Binary32) -> bool {
    let one = Binary32::spec_one().abs_units();
    &&& r.is_finite()
    &&& !r.sign()
    &&& 10000 * (r.abs_units() - one) <= one
    &&& 10000 * (one - r.abs_units()) <= one
}

/// The vector is finite and its exact squared length is within `2^-16` of
/// one.
pub open spec fn is_unit_normal(n: Vector3) -> bool {
    let one = pow2(149) as int;
    let s = n.x.abs_units() * n.x.abs_units() + n.y.abs_units() * n.y.abs_units() + n.z.abs_units()
        * n.z.abs_units();
    &&& n.x.is_finite()
    &&& n.y.is_finite()
    &&& n.z.is_finite()
    &&& -(one * one) <= 65536 * (s - one * one) <= one * one
}

/// The quotient of a finite scalar by a finite positive one at least half
/// its magnitude is finite and within rounding error of the exact quotient.
proof fn lemma_quotient(x: Binary32, m: Binary32)
    requires
        x.is_finite(),
        m.is_finite(),
        m.abs_units() > 0,
        x.abs_units() <= 2 * m.abs_units(),
    ensures
        x.spec_div(m).is_finite(),
        x.spec_div(m).sign() == (x.sign() != m.sign()),
        near(x.spec_div(m).abs_units(), x.abs_units() * pow2(149), m.abs_units()),
{
    let xv = x.abs_units();
    let mv = m.abs_units();
    let p = pow2(149) as int;
    let top = ordinal_value(INFINITY_ORDINAL as nat) as int;
    lemma_one();
    lemma_ordinal_landmarks();
    assert(0 <= xv * p && 2 * (xv * p) < top * mv) by (nonlinear_arith)
        requires
            0 <= xv <= 2 * mv,
            mv > 0,
            p > 0,
            64 * p < top,
    {
        assert(xv * p <= (2 * mv) * p);
        assert((64 * p) * mv < top * mv);
    }
    lemma_round_ratio_total(xv * p, mv);
    let k = round_ratio(xv * p, mv);
    lemma_rounds_finite(xv * p, mv, k);
    lemma_assembled(x.sign() != m.sign(), k);
    lemma_rounding_error(xv * p, mv, k);
}

/// One component of the normalized vector: `n` is the rounded quotient of
/// the component `x` by the length `m`, where `x <= 2 m`. Then `n` is at
/// most three and `(n m)^2` is within `20 * 2^-24 * (m p)^2` of `(x p)^2`.
proof fn lemma_component(x: int, m: int, n: int, p: int)
    requires
        near(n, x * p, m),
        0 <= x <= 2 * m,
        p >= 0x80_0000,
    ensures
        n <= 3 * p,
        0x100_0000 * (n * m - x * p) <= 4 * (m * p),
        0x100_0000 * (x * p - n * m) <= 4 * (m * p),
        0x100_0000 * ((n * m) * (n * m) - (x * p) * (x * p)) <= 20 * ((m * p) * (m * p)),
        0x100_0000 * ((x * p) * (x * p) - (n * m) * (n * m)) <= 20 * ((m * p) * (m * p)),
{
    let w = n * m;
    let g = x * p;
    let k = m * p;
    assert(g <= 2 * k && 0x80_0000 * m <= k && k > 0 && 0 <= w && 0 <= g) by (nonlinear_arith)
        requires
            g == x * p,
            k == m * p,
            w == n * m,
            0 <= x <= 2 * m,
            0 <= n,
            m > 0,
            p >= 0x80_0000,
    {
        assert(x * p <= (2 * m) * p);
    }
    assert(w <= 3 * k);
    assert(n <= 3 * p) by (nonlinear_arith)
        requires
            n * m <= 3 * (m * p),
            m > 0,
    {
        if n > 3 * p {
            assert(n * m >= (3 * p + 1) * m);
        }
    }
    let d = w - g;
    let s = w + g;
    assert(0x100_0000 * d <= 4 * k && 0x100_0000 * (-d) <= 4 * k && 0 <= s <= 5 * k);
    assert(w * w - g * g == d * s) by (nonlinear_arith)
        requires
            d == w - g,
            s == w + g,
    ;
    assert(0x100_0000 * (d * s) <= 20 * (k * k) && 0x100_0000 * (-(d * s)) <= 20 * (k * k))
        by (nonlinear_arith)
        requires
            0x100_0000 * d <= 4 * k,
            0x100_0000 * (-d) <= 4 * k,
            0 <= s <= 5 * k,
            k > 0,
    {
        assert((0x100_0000 * d) * s <= (4 * k) * s);
        assert((0x100_0000 * (-d)) * s <= (4 * k) * s);
        assert((4 * k) * s <= (4 * k) * (5 * k));
        assert((4 * k) * (5 * k) == 20 * (k * k));
        assert((0x100_0000 * d) * s == 0x100_0000 * (d * s));
        assert((0x100_0000 * (-d)) * s == 0x100_0000 * (-(d * s)));
    }
}

/// The normalization of a vector whose squared length is a normal number
/// has finite components of magnitude at most three, each the component of
/// the vector over its length to within `4 * 2^-24`, and the exact sum of
/// their squares is within `83 * 2^-24` of one.
proof fn lemma_normalized_components(v: Vector3)
    requires
        has_normal_length_sq(v),
    ensures
        ({
            let u = v.spec_normalized();
            let p = pow2(149) as int;
            let m = v.spec_magnitude().abs_units();
            let s = u.x.abs_units() * u.x.abs_units() + u.y.abs_units() * u.y.abs_units()
                + u.z.abs_units() * u.z.abs_units();
            &&& is_scaled_component(u.x, v.x, p, m, 4)
            &&& is_scaled_component(u.y, v.y, p, m, 4)
            &&& is_scaled_component(u.z, v.z, p, m, 4)
            &&& u.x.is_finite() && 0 <= u.x.abs_units() <= 3 * p
            &&& u.y.is_finite() && 0 <= u.y.abs_units() <= 3 * p
            &&& u.z.is_finite() && 0 <= u.z.abs_units() <= 3 * p
            &&& 0x100_0000 * (s - p * p) <= 83 * (p * p)
            &&& 0x100_0000 * (p * p - s) <= 83 * (p * p)
        }),
{
    let p = pow2(149) as int;
    lemma_one();
    lemma_length_accuracy(v);
    let m = v.spec_magnitude();
    let mv = m.abs_units();
    let x = v.x.abs_units();
    let y = v.y.abs_units();
    let z = v.z.abs_units();
    lemma_ordinal_landmarks();
    assert(Binary32::spec_zero().spec_lt(m));
    let u = v.spec_normalized();
    assert(u == (Vector3 { x: v.x.spec_div(m), y: v.y.spec_div(m), z: v.z.spec_div(m) }));
    lemma_quotient(v.x, m);
    lemma_quotient(v.y, m);
    lemma_quotient(v.z, m);
    let nx = u.x.abs_units();
    let ny = u.y.abs_units();
    let nz = u.z.abs_units();
    lemma_component(x, mv, nx, p);
    lemma_component(y, mv, ny, p);
    lemma_component(z, mv, nz, p);
    lemma_scaled_squares(x, y, z, mv, nx, ny, nz, p, 20);
}

/// Normalizing keeps the direction: for every vector whose squared length
/// is a normal number, each component of the normalization has the sign of
/// the vector's component and is that component over the computed length
/// to within `4 * 2^-24`.
pub proof fn lemma_normalized_keeps_direction(v: Vector3)
    requires
        has_normal_length_sq(v),
    ensures
        ({
            let u = v.spec_normalized();
            let m = v.spec_magnitude().abs_units();
            &&& is_scaled_component(u.x, v.x, pow2(149) as int, m, 4)
            &&& is_scaled_component(u.y, v.y, pow2(149) as int, m, 4)
            &&& is_scaled_component(u.z, v.z, pow2(149) as int, m, 4)
        }),
{
    lemma_normalized_components(v);
}

/// The normalization of a vector whose squared length is a normal number
/// is a unit normal: its exact length is within `2^-16` of one.
pub proof fn lemma_normalized_is_unit_normal(v: Vector3)
    requires
        has_normal_length_sq(v),
    ensures
        is_unit_normal(v.spec_normalized()),
{
    lemma_normalized_components(v);
    let p = pow2(149) as int;
    assert(p * p >= 0) by (nonlinear_arith);
}

/// A positive `r` whose square is within `23 * 2^-24` of `s`, where `s` is
/// within `83 * 2^-24` of `t^2`, is within `64 * 2^-24` of `t`.
proof fn lemma_unit_root(r: int, s: int, t: int)
    requires
        r > 0,
        t > 0,
        0x100_0000 * (r * r - s) <= 23 * (r * r),
        0x100_0000 * (s - r * r) <= 23 * (r * r),
        0x100_0000 * (s - t * t) <= 83 * (t * t),
        0x100_0000 * (t * t - s) <= 83 * (t * t),
    ensures
        0x100_0000 * (r - t) <= 64 * t,
        0x100_0000 * (t - r) <= 64 * t,
{
    let r2 = r * r;
    let t2 = t * t;
    assert(t2 > 0 && r2 > 0) by (nonlinear_arith)
        requires
            t2 == t * t,
            r2 == r * r,
            t > 0,
            r > 0,
    ;
    if 0x100_0000 * r > 0x100_0040 * t {
        lemma_scaled_square_order(0x100_0040 * t, 0x100_0000 * r);
        assert((0x100_0000 * r) * (0x100_0000 * r) == 0x1_0000_0000_0000 * r2
            && (0x100_0040 * t) * (0x100_0040 * t) == 0x1_0000_8000_1000 * t2) by (nonlinear_arith)
            requires
                r2 == r * r,
                t2 == t * t,
        ;
        assert(false);
    }
    if 0x100_0000 * r < 0xff_ffc0 * t {
        lemma_scaled_square_order(0x100_0000 * r, 0xff_ffc0 * t);
        assert((0x100_0000 * r) * (0x100_0000 * r) == 0x1_0000_0000_0000 * r2
            && (0xff_ffc0 * t) * (0xff_ffc0 * t) == 0xffff_8000_1000 * t2) by (nonlinear_arith)
            requires
                r2 == r * r,
                t2 == t * t,
        ;
        assert(false);
    }
}

/// For every vector whose squared length is a normal number, the length of
/// its normalization lies within `10^-4` of one; more precisely, within
/// `64 * 2^-24` of one.
pub proof fn lemma_normalized_has_unit_length(v: Vector3)
    requires
        has_normal_length_sq(v),
    ensures
        within_tolerance_of_one(v.spec_normalized().spec_magnitude()),
        0x100_0000 * (v.spec_normalized().spec_magnitude().abs_units() - pow2(149)) <= 64 * pow2(
            149,
        ),
        0x100_0000 * (pow2(149) - v.spec_normalized().spec_magnitude().abs_units()) <= 64 * pow2(
            149,
        ),
{
    let p = pow2(149) as int;
    lemma_one();
    lemma_normalized_components(v);
    let u = v.spec_normalized();
    let s = u.x.abs_units() * u.x.abs_units() + u.y.abs_units() * u.y.abs_units() + u.z.abs_units()
        * u.z.abs_units();
    lemma2_to64();
    lemma_pow2_product(149, 124);
    lemma_pow2_ordered(1, 124);
    let psq = p * p;
    assert(psq >= 0x1_0000_0000_0000 * p && 2 * psq <= pow2(273) * p) by (nonlinear_arith)
        requires
            psq == p * p,
            p >= 0x1_0000_0000_0000,
            pow2(273) == p * pow2(124),
            pow2(124) >= 2,
    {
        assert(pow2(273) * p == psq * pow2(124));
    }
    lemma_length_sq_is_normal(u);
    lemma_length_accuracy(u);
    lemma_unit_root(u.spec_magnitude().abs_units(), s, p);
}

} // verus!
