//! How well the computed length of a vector approximates the exact one.
//!
//! The squared length is the rounded sum of three rounded squares and the
//! length is its rounded root. Where the squared length is a normal number
//! the five roundings together stay within a few units of `2^-24` of the
//! exact values, which the laws about normalization and rescaling build on.
use vstd::prelude::*;
use vstd::arithmetic::power2::{lemma2_to64, lemma_pow2_pos, pow2};
use crate::powers::{lemma_pow2_product, lemma_square_order};
use crate::encoding::{
    lemma_ordinal_landmarks,
    lemma_ordinal_monotone,
    ordinal_value,
    INFINITY_ORDINAL,
};
use crate::scalar::Binary32;
use crate::vector3::Vector3;
use crate::accuracy::{
    lemma_finite_product,
    lemma_finite_sum,
    lemma_near_size,
    lemma_normal_ordinal,
    lemma_one,
    lemma_root,
    lemma_square,
    lemma_sum,
    lemma_sum_operands_finite,
    near,
    near_root,
};

verus! {

/// The squared length of the vector is a normal number: finite and at
/// least 2^-126.
pub open spec fn has_normal_length_sq(v: Vector3) -> bool {
    0x80_0000 <= v.spec_length_sq().ordinal() < INFINITY_ORDINAL
}

/// The scalar `c` has the sign of `x` and its magnitude is `|x| * l / m` to
/// within `tol * 2^-24 * l`.
pub open spec fn is_scaled_component(c: Binary32, x: Binary32, l: int, m: int, tol: int) -> bool {
    &&& c.is_finite()
    &&& c.sign() == x.sign()
    &&& 0x100_0000 * (c.abs_units() * m - x.abs_units() * l) <= tol * (m * l)
    &&& 0x100_0000 * (x.abs_units() * l - c.abs_units() * m) <= tol * (m * l)
}

/// How well the computed length of a vector approximates the exact one.
/// For a vector whose squared length `l` is a normal number, with exact sum
/// of squares `s` and computed length `m`: the components are finite, `l`
/// is within `10 * 2^-24` of `s`, `m^2` is within `23 * 2^-24` of `s`, `m`
/// is finite and positive, and no component exceeds `2 m`.
pub open spec fn length_is_accurate(v: Vector3) -> bool {
    let p = pow2(149) as int;
    let x = v.x.abs_units();
    let y = v.y.abs_units();
    let z = v.z.abs_units();
    let s = x * x + y * y + z * z;
    let l = v.spec_length_sq().abs_units();
    let m = v.spec_magnitude().abs_units();
    &&& v.x.is_finite() && v.y.is_finite() && v.z.is_finite()
    &&& !v.spec_length_sq().sign() && l >= 0x80_0000
    &&& 0x100_0000 * (l * p - s) <= 10 * (l * p)
    &&& 0x100_0000 * (s - l * p) <= 10 * (l * p)
    &&& !v.spec_magnitude().sign()
    &&& 0 < v.spec_magnitude().ordinal() < INFINITY_ORDINAL
    &&& m > 0
    &&& 0x100_0000 * (m * m - s) <= 23 * (m * m)
    &&& 0x100_0000 * (s - m * m) <= 23 * (m * m)
    &&& 0 <= x <= 2 * m
    &&& 0 <= y <= 2 * m
    &&& 0 <= z <= 2 * m
}

/// The rounded sum of three rounded squares, as computed for a squared
/// length: `a`, `b`, `c` are the squares of magnitudes whose exact squares
/// are `x2`, `y2`, `z2`, `t` is the sum of the first two, `l` the total.
pub open spec fn sum_of_squares(
    x2: int,
    y2: int,
    z2: int,
    a: int,
    b: int,
    c: int,
    t: int,
    l: int,
    p: int,
) -> bool {
    &&& near(a, x2, p)
    &&& near(b, y2, p)
    &&& near(c, z2, p)
    &&& near(t, a + b, 1)
    &&& near(l, t + c, 1)
}

/// If the exact sum of squares is at least 2^25 units, the computed one is
/// a normal number.
proof fn lemma_sum_is_normal(
    x2: int,
    y2: int,
    z2: int,
    a: int,
    b: int,
    c: int,
    t: int,
    l: int,
    p: int,
)
    requires
        sum_of_squares(x2, y2, z2, a, b, c, t, l, p),
        x2 + y2 + z2 >= 0x200_0000 * p,
    ensures
        l >= 0x80_0000,
{
    if l < 0x80_0000 {
        assert(t + c == l);
        assert(a + b == t);
        let ap = a * p;
        let bp = b * p;
        let cp = c * p;
        assert(ap + bp + cp <= 0x7f_ffff * p) by (nonlinear_arith)
            requires
                ap == a * p,
                bp == b * p,
                cp == c * p,
                a + b + c <= 0x7f_ffff,
                p > 0,
        {
            assert(ap + bp + cp == (a + b + c) * p);
        }
        assert(false);
    }
}

/// The computed sum of squares, when normal, is within `10 * 2^-24` of the
/// exact one.
proof fn lemma_sum_accuracy(
    x2: int,
    y2: int,
    z2: int,
    a: int,
    b: int,
    c: int,
    t: int,
    l: int,
    p: int,
)
    requires
        sum_of_squares(x2, y2, z2, a, b, c, t, l, p),
        l >= 0x80_0000,
    ensures
        0x100_0000 * (l * p - (x2 + y2 + z2)) <= 10 * (l * p),
        0x100_0000 * ((x2 + y2 + z2) - l * p) <= 10 * (l * p),
        l * p > 0,
{
    let q = a + b + c;
    assert(t <= 2 * l);
    assert(0x100_0000 * (l - q) <= 5 * l && 0x100_0000 * (q - l) <= 5 * l);
    assert(q <= 2 * l);
    let ap = a * p;
    let bp = b * p;
    let cp = c * p;
    let lp = l * p;
    let qp = q * p;
    assert(qp == ap + bp + cp) by (nonlinear_arith)
        requires
            qp == q * p,
            q == a + b + c,
            ap == a * p,
            bp == b * p,
            cp == c * p,
    ;
    assert(qp <= 2 * lp && 0x80_0000 * p <= lp && 0x100_0000 * (lp - qp) <= 5 * lp && 0x100_0000
        * (qp - lp) <= 5 * lp && lp > 0) by (nonlinear_arith)
        requires
            qp == q * p,
            lp == l * p,
            q <= 2 * l,
            0x80_0000 <= l,
            0x100_0000 * (l - q) <= 5 * l,
            0x100_0000 * (q - l) <= 5 * l,
            p > 0,
    {
        assert((0x100_0000 * (l - q)) * p <= (5 * l) * p);
        assert((0x100_0000 * (q - l)) * p <= (5 * l) * p);
        assert((0x100_0000 * (l - q)) * p == 0x100_0000 * (l * p - q * p));
        assert((0x100_0000 * (q - l)) * p == 0x100_0000 * (q * p - l * p));
        assert((2 * l) * p == 2 * (l * p));
        assert((5 * l) * p == 5 * (l * p));
    }
}

/// A root within rounding error of `sqrt(n)` has a square within
/// `3 * 2^-24` of `n`.
proof fn lemma_root_spread(m: int, n: int)
    requires
        near_root(m, n),
    ensures
        0x100_0000 * (m * m - n) <= 3 * (m * m),
        0x100_0000 * (n - m * m) <= 3 * (m * m),
        n <= 2 * (m * m),
        m * m > 0,
{
    assert(m * m > 0) by (nonlinear_arith)
        requires
            m > 0,
    ;
}

/// The squared length of a vector with finite components is a normal
/// number when the exact sum of squares is at least 2^-124 and below 2^124.
pub proof fn lemma_length_sq_is_normal(v: Vector3)
    requires
        v.x.is_finite(),
        v.y.is_finite(),
        v.z.is_finite(),
        ({
            let s = v.x.abs_units() * v.x.abs_units() + v.y.abs_units() * v.y.abs_units()
                + v.z.abs_units() * v.z.abs_units();
            0x200_0000 * pow2(149) <= s <= pow2(273) * pow2(149)
        }),
    ensures
        has_normal_length_sq(v),
{
    let p = pow2(149) as int;
    let top = ordinal_value(INFINITY_ORDINAL as nat) as int;
    let x = v.x.abs_units();
    let y = v.y.abs_units();
    let z = v.z.abs_units();
    let s = x * x + y * y + z * z;
    lemma2_to64();
    lemma_ordinal_landmarks();
    lemma_pow2_pos(149);
    lemma_pow2_product(4, 273);
    lemma_pow2_product(23, 254);
    assert(top == pow2(277));
    assert(16 * s <= top * p && x * x >= 0 && y * y >= 0 && z * z >= 0) by (nonlinear_arith)
        requires
            s == x * x + y * y + z * z,
            s <= pow2(273) * p,
            top == 16 * pow2(273),
            p > 0,
    {
        assert(16 * (pow2(273) * p) == (16 * pow2(273)) * p);
    }
    let a = v.x.spec_mul(v.x);
    let b = v.y.spec_mul(v.y);
    let c = v.z.spec_mul(v.z);
    lemma_finite_product(v.x, v.x);
    lemma_finite_product(v.y, v.y);
    lemma_finite_product(v.z, v.z);
    lemma_near_size(a.abs_units(), x * x, p);
    lemma_near_size(b.abs_units(), y * y, p);
    lemma_near_size(c.abs_units(), z * z, p);
    let av = a.abs_units();
    let bv = b.abs_units();
    let cv = c.abs_units();
    // (av + bv + cv) p <= 2 s + 3 p <= 3 s
    assert(2 * (av + bv) < top && (av + bv + cv) * p <= 3 * s) by (nonlinear_arith)
        requires
            0 <= av * p <= 2 * (x * x) + p,
            0 <= bv * p <= 2 * (y * y) + p,
            0 <= cv * p <= 2 * (z * z) + p,
            x * x >= 0,
            y * y >= 0,
            z * z >= 0,
            s == x * x + y * y + z * z,
            0x200_0000 * p <= s,
            16 * s <= top * p,
            p > 0,
            av >= 0,
            bv >= 0,
            cv >= 0,
    {
        assert((av + bv + cv) * p == av * p + bv * p + cv * p);
        assert((av + bv) * p <= (av + bv + cv) * p);
        if 2 * (av + bv) >= top {
            assert((2 * (av + bv)) * p >= top * p);
            assert((2 * (av + bv)) * p == 2 * ((av + bv) * p));
        }
    }
    let t = a.spec_add(b);
    lemma_finite_sum(a, b);
    lemma_sum(a, b);
    let tv = t.abs_units();
    lemma_near_size(tv, av + bv, 1);
    assert(2 * (tv + cv) < top) by (nonlinear_arith)
        requires
            0 <= tv <= 2 * (av + bv) + 1,
            (av + bv + cv) * p <= 3 * s,
            16 * s <= top * p,
            0x200_0000 * p <= s,
            p > 0,
            av >= 0,
            bv >= 0,
            cv >= 0,
    {
        assert((tv + cv) * p <= (2 * (av + bv + cv) + 1) * p);
        assert((2 * (av + bv + cv) + 1) * p == 2 * ((av + bv + cv) * p) + p);
        if 2 * (tv + cv) >= top {
            assert((2 * (tv + cv)) * p >= top * p);
            assert((2 * (tv + cv)) * p == 2 * ((tv + cv) * p));
        }
    }
    let l = t.spec_add(c);
    assert(l == v.spec_length_sq());
    lemma_finite_sum(t, c);
    lemma_sum(t, c);
    lemma_square(v.x);
    lemma_square(v.y);
    lemma_square(v.z);
    lemma_sum_is_normal(x * x, y * y, z * z, av, bv, cv, tv, l.abs_units(), p);
    lemma_normal_ordinal(l.ordinal());
}

/// The computed length of every vector whose squared length is a normal
/// number is accurate in the sense of `length_is_accurate`.
pub proof fn lemma_length_accuracy(v: Vector3)
    requires
        has_normal_length_sq(v),
    ensures
        length_is_accurate(v),
{
    let p = pow2(149) as int;
    lemma_one();
    let a = v.x.spec_mul(v.x);
    let b = v.y.spec_mul(v.y);
    let c = v.z.spec_mul(v.z);
    let t = a.spec_add(b);
    let l = t.spec_add(c);
    assert(l == v.spec_length_sq());
    lemma_sum_operands_finite(t, c);
    lemma_sum_operands_finite(a, b);
    lemma_square(v.x);
    lemma_square(v.y);
    lemma_square(v.z);
    lemma_sum(a, b);
    lemma_sum(t, c);
    let x = v.x.abs_units();
    let y = v.y.abs_units();
    let z = v.z.abs_units();
    let s = x * x + y * y + z * z;
    let lv = l.abs_units();
    if l.ordinal() > 0x80_0000 {
        lemma_ordinal_monotone(0x80_0000, l.ordinal());
    }
    assert(lv >= 0x80_0000);
    lemma_sum_accuracy(
        x * x,
        y * y,
        z * z,
        a.abs_units(),
        b.abs_units(),
        c.abs_units(),
        t.abs_units(),
        lv,
        p,
    );
    let m = l.spec_sqrt();
    assert(m == v.spec_magnitude());
    lemma_root(l);
    let mv = m.abs_units();
    lemma_root_spread(mv, lv * p);
    let m2 = mv * mv;
    assert(0x100_0000 * (m2 - s) <= 23 * m2 && 0x100_0000 * (s - m2) <= 23 * m2);
    // each component is at most twice the length
    assert(x * x >= 0 && y * y >= 0 && z * z >= 0) by (nonlinear_arith);
    assert((2 * mv) * (2 * mv) == 4 * m2) by (nonlinear_arith)
        requires
            m2 == mv * mv,
    ;
    lemma_square_order(x, 2 * mv);
    lemma_square_order(y, 2 * mv);
    lemma_square_order(z, 2 * mv);
    lemma_ordinal_landmarks();
}

/// The bounds on the computed length `m` of a vector with a normal squared
/// length that the rescaling needs: `2^85 <= m <= 2^214` units.
pub proof fn lemma_length_range(v: Vector3)
    requires
        has_normal_length_sq(v),
        length_is_accurate(v),
    ensures
        pow2(85) <= v.spec_magnitude().abs_units() <= pow2(214),
{
    let p = pow2(149) as int;
    let l = v.spec_length_sq().abs_units();
    let m = v.spec_magnitude().abs_units();
    let top = ordinal_value(INFINITY_ORDINAL as nat) as int;
    lemma2_to64();
    lemma_ordinal_landmarks();
    lemma_pow2_pos(149);
    lemma_pow2_product(23, 254);
    lemma_pow2_product(85, 85);
    lemma_pow2_product(214, 214);
    lemma_pow2_product(21, 149);
    lemma_pow2_product(277, 149);
    lemma_pow2_product(2, 426);
    lemma_pow2_pos(85);
    lemma_pow2_pos(214);
    lemma_ordinal_monotone(v.spec_length_sq().ordinal(), INFINITY_ORDINAL as nat);
    let lp = l * p;
    assert(0x80_0000 * p <= lp && lp < top * p) by (nonlinear_arith)
        requires
            lp == l * p,
            0x80_0000 <= l < top,
            p > 0,
    ;
    // m^2 is between l p / 4 and 4 l p
    let m2 = m * m;
    assert(pow2(170) <= m2 && m2 <= pow2(428));
    lemma_square_order(pow2(85) as int, m);
    lemma_square_order(m, pow2(214) as int);
}

/// Dividing out the common factor `m^2`: if each scaled component `n`
/// has `(n m)^2` within `c * 2^-24 * (m t)^2` of `(x t)^2`, and `m^2` is
/// within `23 * 2^-24` of the exact sum of the squares of `x`, `y`, `z`,
/// then the exact sum of the squares of the scaled components is within
/// `(3 c + 23) * 2^-24` of `t^2`.
pub proof fn lemma_scaled_squares(
    x: int,
    y: int,
    z: int,
    m: int,
    nx: int,
    ny: int,
    nz: int,
    t: int,
    c: int,
)
    requires
        m > 0,
        t > 0,
        c >= 0,
        0x100_0000 * (m * m - (x * x + y * y + z * z)) <= 23 * (m * m),
        0x100_0000 * ((x * x + y * y + z * z) - m * m) <= 23 * (m * m),
        0x100_0000 * ((nx * m) * (nx * m) - (x * t) * (x * t)) <= c * ((m * t) * (m * t)),
        0x100_0000 * ((x * t) * (x * t) - (nx * m) * (nx * m)) <= c * ((m * t) * (m * t)),
        0x100_0000 * ((ny * m) * (ny * m) - (y * t) * (y * t)) <= c * ((m * t) * (m * t)),
        0x100_0000 * ((y * t) * (y * t) - (ny * m) * (ny * m)) <= c * ((m * t) * (m * t)),
        0x100_0000 * ((nz * m) * (nz * m) - (z * t) * (z * t)) <= c * ((m * t) * (m * t)),
        0x100_0000 * ((z * t) * (z * t) - (nz * m) * (nz * m)) <= c * ((m * t) * (m * t)),
    ensures
        0x100_0000 * ((nx * nx + ny * ny + nz * nz) - t * t) <= (3 * c + 23) * (t * t),
        0x100_0000 * (t * t - (nx * nx + ny * ny + nz * nz)) <= (3 * c + 23) * (t * t),
{
    let m2 = m * m;
    let t2 = t * t;
    let s = x * x + y * y + z * z;
    let r = nx * nx + ny * ny + nz * nz;
    assert((nx * m) * (nx * m) == (nx * nx) * m2 && (ny * m) * (ny * m) == (ny * ny) * m2 && (nz
        * m) * (nz * m) == (nz * nz) * m2) by (nonlinear_arith)
        requires
            m2 == m * m,
    ;
    assert((x * t) * (x * t) == (x * x) * t2 && (y * t) * (y * t) == (y * y) * t2 && (z * t) * (z
        * t) == (z * z) * t2 && (m * t) * (m * t) == m2 * t2) by (nonlinear_arith)
        requires
            t2 == t * t,
            m2 == m * m,
    ;
    assert(r * m2 == (nx * nx) * m2 + (ny * ny) * m2 + (nz * nz) * m2) by (nonlinear_arith)
        requires
            r == nx * nx + ny * ny + nz * nz,
    ;
    assert(s * t2 == (x * x) * t2 + (y * y) * t2 + (z * z) * t2) by (nonlinear_arith)
        requires
            s == x * x + y * y + z * z,
    ;
    let k2 = m2 * t2;
    let ck = c * k2;
    assert(t2 > 0 && m2 > 0) by (nonlinear_arith)
        requires
            t2 == t * t,
            m2 == m * m,
            t > 0,
            m > 0,
    ;
    assert(0x100_0000 * (k2 - s * t2) <= 23 * k2 && 0x100_0000 * (s * t2 - k2) <= 23 * k2)
        by (nonlinear_arith)
        requires
            k2 == m2 * t2,
            0x100_0000 * (m2 - s) <= 23 * m2,
            0x100_0000 * (s - m2) <= 23 * m2,
            t2 > 0,
    {
        assert((0x100_0000 * (m2 - s)) * t2 <= (23 * m2) * t2);
        assert((0x100_0000 * (s - m2)) * t2 <= (23 * m2) * t2);
        assert((0x100_0000 * (m2 - s)) * t2 == 0x100_0000 * (m2 * t2 - s * t2));
        assert((0x100_0000 * (s - m2)) * t2 == 0x100_0000 * (s * t2 - m2 * t2));
        assert((23 * m2) * t2 == 23 * (m2 * t2));
    }
    let e = r - t2;
    let bound = (3 * c + 23) * t2;
    assert(e * m2 == r * m2 - k2 && bound * m2 == 3 * ck + 23 * k2) by (nonlinear_arith)
        requires
            e == r - t2,
            k2 == m2 * t2,
            ck == c * k2,
            bound == (3 * c + 23) * t2,
    {
        assert(((3 * c + 23) * t2) * m2 == (3 * c + 23) * (m2 * t2));
        assert((3 * c + 23) * (m2 * t2) == 3 * (c * (m2 * t2)) + 23 * (m2 * t2));
    }
    assert(0x100_0000 * (e * m2) <= bound * m2 && 0x100_0000 * (-(e * m2)) <= bound * m2);
    assert(0x100_0000 * e <= bound && 0x100_0000 * (-e) <= bound) by (nonlinear_arith)
        requires
            0x100_0000 * (e * m2) <= bound * m2,
            0x100_0000 * (-(e * m2)) <= bound * m2,
            m2 > 0,
    {
        if 0x100_0000 * e > bound {
            assert((0x100_0000 * e) * m2 > bound * m2);
            assert((0x100_0000 * e) * m2 == 0x100_0000 * (e * m2));
        }
        if 0x100_0000 * (-e) > bound {
            assert((0x100_0000 * (-e)) * m2 > bound * m2);
            assert((0x100_0000 * (-e)) * m2 == 0x100_0000 * (-(e * m2)));
        }
    }
}

} // verus!
