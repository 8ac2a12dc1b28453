//! Rescaling a vector gives it the requested length, up to rounding.
//!
//! `set_length` multiplies each component by `length / |v|`. The quotient
//! and the three products are rounded, and so is the length that is then
//! measured; together the errors stay below `160 * 2^-24` of the requested
//! length. The same holds where a vector's length is clamped, which uses
//! the same formula.
use vstd::prelude::*;
use vstd::arithmetic::power2::{lemma2_to64, lemma_pow2_pos, lemma_pow2_strictly_increases, pow2};
use crate::powers::{lemma_pow2_ordered, lemma_pow2_product, lemma_scaled_square_order};
use crate::encoding::{lemma_ordinal_landmarks, ordinal_value, INFINITY_ORDINAL};
use crate::scalar::Binary32;
use crate::vector3::Vector3;
use crate::accuracy::{lemma_finite_product, lemma_finite_quotient, near};
use crate::length::{
    is_scaled_component,
    has_normal_length_sq,
    lemma_length_accuracy,
    lemma_length_range,
    lemma_length_sq_is_normal,
    lemma_scaled_squares,
};

verus! {

/// The scalar is positive, finite, and between 2^-60 and 2^60.
pub open spec fn is_moderate_length(length: Binary32) -> bool {
    &&& !length.sign()
    &&& length.is_finite()
    &&& pow2(89) <= length.abs_units() <= pow2(209)
}

/// The scalar is finite, not negative, and within `2^-16` of `target`.
pub open spec fn is_close_to(r: Binary32, target: Binary32) -> bool {
    &&& r.is_finite()
    &&& !r.sign()
    &&& 65536 * (r.abs_units() - target.abs_units()) <= target.abs_units()
    &&& 65536 * (target.abs_units() - r.abs_units()) <= target.abs_units()
}

/// The room that a requested length `l` between 2^-60 and 2^60 and a
/// computed length `m` between 2^85 and 2^214 units leave: the scale
/// factor `l / m` is below 2^127, half a unit of it is at most `l / m`, and
/// `8 l` is below 2^128.
proof fn lemma_moderate_room(l: int, m: int)
    requires
        pow2(89) <= l <= pow2(209),
        pow2(85) <= m <= pow2(214),
    ensures
        2 * (l * pow2(149)) < ordinal_value(INFINITY_ORDINAL as nat) * m,
        0x80_0000 * m <= l * pow2(149),
        8 * (l * pow2(149)) < ordinal_value(INFINITY_ORDINAL as nat) * pow2(149),
        l * pow2(149) > 0,
        l >= 0x80_0000,
        pow2(149) > 0,
{
    let p = pow2(149) as int;
    let top = ordinal_value(INFINITY_ORDINAL as nat) as int;
    lemma2_to64();
    lemma_ordinal_landmarks();
    lemma_pow2_pos(149);
    lemma_pow2_pos(85);
    lemma_pow2_pos(89);
    lemma_pow2_product(23, 254);
    assert(top == pow2(277));
    lemma_pow2_product(209, 149);
    lemma_pow2_product(1, 358);
    lemma_pow2_product(277, 85);
    lemma_pow2_strictly_increases(359, 362);
    lemma_pow2_product(89, 149);
    lemma_pow2_product(23, 214);
    lemma_pow2_ordered(237, 238);
    lemma_pow2_ordered(23, 89);
    lemma_pow2_product(3, 209);
    lemma_pow2_strictly_increases(212, 277);
    let lp = l * p;
    assert(lp <= pow2(358) && lp >= pow2(238) && top * m >= pow2(362) && 0x80_0000 * m <= pow2(
        237,
    ) && (8 * l) * p < top * p && (8 * l) * p == 8 * lp) by (nonlinear_arith)
        requires
            lp == l * p,
            pow2(89) <= l <= pow2(209),
            pow2(85) <= m <= pow2(214),
            p > 0,
            top > 0,
            pow2(209) * p == pow2(358),
            pow2(89) * p == pow2(238),
            top * pow2(85) == pow2(362),
            0x80_0000 * pow2(214) == pow2(237),
            8 * pow2(209) < top,
    {
        assert(l * p <= pow2(209) * p);
        assert(l * p >= pow2(89) * p);
        assert(top * m >= top * pow2(85));
    }
}

/// The scale factor `s`, the rounded `l / m`: its product with `m` is
/// within `3 * 2^-24` of `l p`.
proof fn lemma_scale_error(s: int, l: int, m: int, p: int)
    requires
        near(s, l * p, m),
        0x80_0000 * m <= l * p,
    ensures
        0 <= s * m <= 2 * (l * p),
        0x100_0000 * (s * m - l * p) <= 3 * (l * p),
        0x100_0000 * (l * p - s * m) <= 3 * (l * p),
{
    assert(s * m >= 0) by (nonlinear_arith)
        requires
            s >= 0,
            m > 0,
    ;
}

/// A component of at most `2 m`, times a scale factor `s` with
/// `s m <= 2 l p`, is at most `4 l p`.
proof fn lemma_component_room(x: int, s: int, m: int, lp: int)
    by (nonlinear_arith)
    requires
        0 <= x <= 2 * m,
        m > 0,
        0 <= s,
        s * m <= 2 * lp,
    ensures
        0 <= x * s <= 4 * lp,
{
    assert((x * s) * m == x * (s * m));
    assert(x * (s * m) <= (2 * m) * (s * m));
    assert((2 * m) * (s * m) <= (2 * m) * (2 * lp));
    assert((2 * m) * (2 * lp) == (4 * lp) * m);
    if x * s > 4 * lp {
        assert((x * s) * m > (4 * lp) * m);
    }
}

/// One rescaled component `c`, the rounded `x s / p` for `x <= 2 m`: it is
/// at most `5 l`, and `(c m)^2` is within `84 * 2^-24 * (m l)^2` of
/// `(x l)^2`.
proof fn lemma_rescaled_component(x: int, s: int, c: int, l: int, m: int, p: int)
    requires
        near(c, x * s, p),
        0 <= x <= 2 * m,
        m > 0,
        l >= 0x80_0000,
        0 <= s * m <= 2 * (l * p),
        0x100_0000 * (s * m - l * p) <= 3 * (l * p),
        0x100_0000 * (l * p - s * m) <= 3 * (l * p),
    ensures
        0 <= c <= 5 * l,
        0x100_0000 * (c * m - x * l) <= 12 * (m * l),
        0x100_0000 * (x * l - c * m) <= 12 * (m * l),
        0x100_0000 * ((c * m) * (c * m) - (x * l) * (x * l)) <= 84 * ((m * l) * (m * l)),
        0x100_0000 * ((x * l) * (x * l) - (c * m) * (c * m)) <= 84 * ((m * l) * (m * l)),
{
    let lp = l * p;
    let sm = s * m;
    let xs = x * s;
    let cp = c * p;
    let ml = m * l;
    // x s <= 4 l p
    assert(xs <= 4 * lp && lp > 0 && 0x80_0000 * p <= lp) by (nonlinear_arith)
        requires
            xs == x * s,
            sm == s * m,
            lp == l * p,
            0 <= x <= 2 * m,
            0 <= sm <= 2 * lp,
            m > 0,
            p > 0,
            l >= 0x80_0000,
            s >= 0 || s < 0,
    {
        assert(xs * m == x * sm);
        assert(x * sm <= (2 * m) * sm);
        assert((2 * m) * sm <= (2 * m) * (2 * lp));
        assert((2 * m) * (2 * lp) == (4 * lp) * m);
        if xs > 4 * lp {
            assert(xs * m > (4 * lp) * m);
        }
    }
    assert(cp >= 0) by (nonlinear_arith)
        requires
            cp == c * p,
            c >= 0,
            p > 0,
    ;
    // c <= 5 l and |c p - x s| <= 6 l p * 2^-24
    assert(cp <= 5 * lp);
    assert(c <= 5 * l) by (nonlinear_arith)
        requires
            cp == c * p,
            lp == l * p,
            cp <= 5 * lp,
            p > 0,
    {
        if c > 5 * l {
            assert(c * p >= (5 * l + 1) * p);
            assert((5 * l + 1) * p == 5 * (l * p) + p);
        }
    }
    let ec = cp - xs;
    let es = sm - lp;
    assert(0x100_0000 * ec <= 6 * lp && 0x100_0000 * (-ec) <= 6 * lp);
    // (c m - x l) p == (c p - x s) m + x (s m - l p)
    let d = c * m - x * l;
    assert(d * p == ec * m + x * es) by (nonlinear_arith)
        requires
            d == c * m - x * l,
            ec == c * p - x * s,
            es == s * m - l * p,
    ;
    let mlp = ml * p;
    assert(0x100_0000 * (ec * m) <= 6 * mlp && 0x100_0000 * (-(ec * m)) <= 6 * mlp && 0x100_0000
        * (x * es) <= 6 * mlp && 0x100_0000 * (-(x * es)) <= 6 * mlp) by (nonlinear_arith)
        requires
            0x100_0000 * ec <= 6 * lp,
            0x100_0000 * (-ec) <= 6 * lp,
            0x100_0000 * es <= 3 * lp,
            0x100_0000 * (-es) <= 3 * lp,
            0 <= x <= 2 * m,
            m > 0,
            lp > 0,
            mlp == (m * l) * p,
            lp == l * p,
    {
        assert((m * l) * p == m * (l * p));
        assert((0x100_0000 * ec) * m <= (6 * lp) * m);
        assert((0x100_0000 * (-ec)) * m <= (6 * lp) * m);
        assert((0x100_0000 * ec) * m == 0x100_0000 * (ec * m));
        assert((0x100_0000 * (-ec)) * m == 0x100_0000 * (-(ec * m)));
        assert((6 * lp) * m == 6 * (m * lp));
        assert(x * (0x100_0000 * es) <= x * (3 * lp));
        assert(x * (0x100_0000 * (-es)) <= x * (3 * lp));
        assert(x * (3 * lp) <= (2 * m) * (3 * lp));
        assert((2 * m) * (3 * lp) == 6 * (m * lp));
        assert(x * (0x100_0000 * es) == 0x100_0000 * (x * es));
        assert(x * (0x100_0000 * (-es)) == 0x100_0000 * (-(x * es)));
    }
    assert(0x100_0000 * d <= 12 * ml && 0x100_0000 * (-d) <= 12 * ml) by (nonlinear_arith)
        requires
            0x100_0000 * (d * p) <= 12 * mlp,
            0x100_0000 * (-(d * p)) <= 12 * mlp,
            mlp == ml * p,
            p > 0,
    {
        if 0x100_0000 * d > 12 * ml {
            assert((0x100_0000 * d) * p > (12 * ml) * p);
            assert((0x100_0000 * d) * p == 0x100_0000 * (d * p));
            assert((12 * ml) * p == 12 * (ml * p));
        }
        if 0x100_0000 * (-d) > 12 * ml {
            assert((0x100_0000 * (-d)) * p > (12 * ml) * p);
            assert((0x100_0000 * (-d)) * p == 0x100_0000 * (-(d * p)));
            assert((12 * ml) * p == 12 * (ml * p));
        }
    }
    // the squares
    let w = c * m;
    let g = x * l;
    assert(0 <= w <= 5 * ml && 0 <= g <= 2 * ml && ml > 0) by (nonlinear_arith)
        requires
            w == c * m,
            g == x * l,
            ml == m * l,
            0 <= c <= 5 * l,
            0 <= x <= 2 * m,
            m > 0,
            l > 0,
    {
        assert(c * m <= (5 * l) * m);
        assert(x * l <= (2 * m) * l);
    }
    let sum = w + g;
    assert(w * w - g * g == d * sum) by (nonlinear_arith)
        requires
            d == w - g,
            sum == w + g,
    ;
    assert(0x100_0000 * (d * sum) <= 84 * (ml * ml) && 0x100_0000 * (-(d * sum)) <= 84 * (ml * ml))
        by (nonlinear_arith)
        requires
            0x100_0000 * d <= 12 * ml,
            0x100_0000 * (-d) <= 12 * ml,
            0 <= sum <= 7 * ml,
            ml > 0,
    {
        assert((0x100_0000 * d) * sum <= (12 * ml) * sum);
        assert((0x100_0000 * (-d)) * sum <= (12 * ml) * sum);
        assert((12 * ml) * sum <= (12 * ml) * (7 * ml));
        assert((12 * ml) * (7 * ml) == 84 * (ml * ml));
        assert((0x100_0000 * d) * sum == 0x100_0000 * (d * sum));
        assert((0x100_0000 * (-d)) * sum == 0x100_0000 * (-(d * sum)));
    }
}

/// An exact sum of squares within `275 * 2^-24` of `l^2`, for `l` between
/// 2^-60 and 2^60, lies in the range where the computed squared length is
/// a normal number.
proof fn lemma_rescaled_range(c2: int, l: int)
    requires
        pow2(89) <= l <= pow2(209),
        0x100_0000 * (c2 - l * l) <= 275 * (l * l),
        0x100_0000 * (l * l - c2) <= 275 * (l * l),
    ensures
        0x200_0000 * pow2(149) <= c2 <= pow2(273) * pow2(149),
{
    let l2 = l * l;
    lemma2_to64();
    lemma_pow2_pos(89);
    lemma_pow2_product(89, 89);
    lemma_pow2_product(209, 209);
    lemma_pow2_product(25, 149);
    lemma_pow2_product(1, 177);
    lemma_pow2_ordered(174, 177);
    lemma_pow2_product(273, 149);
    lemma_pow2_product(1, 418);
    lemma_pow2_ordered(419, 422);
    assert(pow2(178) <= l2 <= pow2(418)) by (nonlinear_arith)
        requires
            l2 == l * l,
            0 < pow2(89) <= l <= pow2(209),
            pow2(89) * pow2(89) == pow2(178),
            pow2(209) * pow2(209) == pow2(418),
    {
        assert(l * l >= pow2(89) * l);
        assert(pow2(89) * l >= pow2(89) * pow2(89));
        assert(l * l <= pow2(209) * l);
        assert(pow2(209) * l <= pow2(209) * pow2(209));
    }
}

/// A positive `r` whose square is within `23 * 2^-24` of `s`, where `s` is
/// within `275 * 2^-24` of `t^2`, is within `160 * 2^-24` of `t`.
proof fn lemma_rescaled_root(r: int, s: int, t: int)
    requires
        r > 0,
        t > 0,
        0x100_0000 * (r * r - s) <= 23 * (r * r),
        0x100_0000 * (s - r * r) <= 23 * (r * r),
        0x100_0000 * (s - t * t) <= 275 * (t * t),
        0x100_0000 * (t * t - s) <= 275 * (t * t),
    ensures
        0x100_0000 * (r - t) <= 160 * t,
        0x100_0000 * (t - r) <= 160 * t,
{
    let r2 = r * r;
    let t2 = t * t;
    assert(t2 > 0 && r2 > 0) by (nonlinear_arith)
        requires
            t2 == t * t,
            r2 == r * r,
            t > 0,
            r > 0,
    ;
    if 0x100_0000 * r > 0x100_00a0 * t {
        lemma_scaled_square_order(0x100_00a0 * t, 0x100_0000 * r);
        assert((0x100_0000 * r) * (0x100_0000 * r) == 0x1_0000_0000_0000 * r2
            && (0x100_00a0 * t) * (0x100_00a0 * t) == 0x1_0001_4000_6400 * t2) by (nonlinear_arith)
            requires
                r2 == r * r,
                t2 == t * t,
        ;
        assert(false);
    }
    if 0x100_0000 * r < 0xff_ff60 * t {
        lemma_scaled_square_order(0x100_0000 * r, 0xff_ff60 * t);
        assert((0x100_0000 * r) * (0x100_0000 * r) == 0x1_0000_0000_0000 * r2
            && (0xff_ff60 * t) * (0xff_ff60 * t) == 0xfffe_c000_6400 * t2) by (nonlinear_arith)
            requires
                r2 == r * r,
                t2 == t * t,
        ;
        assert(false);
    }
}

/// The rescaled vector, component by component: each component is finite,
/// has the sign of the vector's component and is that component times the
/// requested length over the computed length to within `12 * 2^-24` of the
/// requested length; the exact sum of their squares is within
/// `275 * 2^-24` of the square of the requested length.
proof fn lemma_rescaled_components(v: Vector3, length: Binary32)
    requires
        has_normal_length_sq(v),
        is_moderate_length(length),
    ensures
        ({
            let u = v.spec_with_length(length);
            let l = length.abs_units();
            let m = v.spec_magnitude().abs_units();
            let s = u.x.abs_units() * u.x.abs_units() + u.y.abs_units() * u.y.abs_units()
                + u.z.abs_units() * u.z.abs_units();
            &&& is_scaled_component(u.x, v.x, l, m, 12)
            &&& is_scaled_component(u.y, v.y, l, m, 12)
            &&& is_scaled_component(u.z, v.z, l, m, 12)
            &&& 0x100_0000 * (s - l * l) <= 275 * (l * l)
            &&& 0x100_0000 * (l * l - s) <= 275 * (l * l)
        }),
{
    let p = pow2(149) as int;
    let l = length.abs_units();
    lemma_length_accuracy(v);
    lemma_length_range(v);
    let m = v.spec_magnitude();
    let mv = m.abs_units();
    let x = v.x.abs_units();
    let y = v.y.abs_units();
    let z = v.z.abs_units();
    lemma_ordinal_landmarks();
    lemma_moderate_room(l, mv);
    let lp = l * p;
    let sc = length.spec_div(m);
    lemma_finite_quotient(length, m);
    let s = sc.abs_units();
    lemma_scale_error(s, l, mv, p);
    assert(!m.spec_eq(Binary32::spec_zero()));
    let u = v.spec_with_length(length);
    assert(u == v.spec_scaled(sc));
    lemma_component_room(x, s, mv, lp);
    lemma_component_room(y, s, mv, lp);
    lemma_component_room(z, s, mv, lp);
    lemma_finite_product(v.x, sc);
    lemma_finite_product(v.y, sc);
    lemma_finite_product(v.z, sc);
    let cx = u.x.abs_units();
    let cy = u.y.abs_units();
    let cz = u.z.abs_units();
    lemma_rescaled_component(x, s, cx, l, mv, p);
    lemma_rescaled_component(y, s, cy, l, mv, p);
    lemma_rescaled_component(z, s, cz, l, mv, p);
    lemma_scaled_squares(x, y, z, mv, cx, cy, cz, l, 84);
}

/// Rescaling keeps the direction: for every vector whose squared length is
/// a normal number and every requested length between 2^-60 and 2^60, each
/// component of the rescaled vector has the sign of the vector's component
/// and is that component times the requested length over the computed
/// length, to within `12 * 2^-24` of the requested length.
pub proof fn lemma_with_length_keeps_direction(v: Vector3, length: Binary32)
    requires
        has_normal_length_sq(v),
        is_moderate_length(length),
    ensures
        ({
            let u = v.spec_with_length(length);
            let l = length.abs_units();
            let m = v.spec_magnitude().abs_units();
            &&& is_scaled_component(u.x, v.x, l, m, 12)
            &&& is_scaled_component(u.y, v.y, l, m, 12)
            &&& is_scaled_component(u.z, v.z, l, m, 12)
        }),
{
    lemma_rescaled_components(v, length);
}

/// For every vector whose squared length is a normal number and every
/// requested length between 2^-60 and 2^60, the length of the rescaled
/// vector is within `2^-16` of the requested one; more precisely, within
/// `160 * 2^-24` of it.
pub proof fn lemma_with_length_has_length(v: Vector3, length: Binary32)
    requires
        has_normal_length_sq(v),
        is_moderate_length(length),
    ensures
        is_close_to(v.spec_with_length(length).spec_magnitude(), length),
        0x100_0000 * (v.spec_with_length(length).spec_magnitude().abs_units()
            - length.abs_units()) <= 160 * length.abs_units(),
        0x100_0000 * (length.abs_units() - v.spec_with_length(length).spec_magnitude().abs_units())
            <= 160 * length.abs_units(),
{
    let l = length.abs_units();
    lemma_pow2_pos(89);
    lemma_rescaled_components(v, length);
    let u = v.spec_with_length(length);
    let c2 = u.x.abs_units() * u.x.abs_units() + u.y.abs_units() * u.y.abs_units() + u.z.abs_units()
        * u.z.abs_units();
    lemma_rescaled_range(c2, l);
    lemma_length_sq_is_normal(u);
    lemma_length_accuracy(u);
    lemma_rescaled_root(u.spec_magnitude().abs_units(), c2, l);
}

} // verus!
