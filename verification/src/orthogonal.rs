//! The projection of a vector onto a plane is orthogonal to the plane's
//! normal, up to rounding.
//!
//! In exact arithmetic `(v - (v . n) n) . n` is zero for a unit normal. The
//! computed value is not, but it is small against the size of `v`: the nine
//! products, six sums and three differences of the computation each add a
//! rounding error of at most `2^-24` of the quantities involved, and the
//! normal's deviation from unit length adds its share.
use vstd::prelude::*;
use vstd::arithmetic::power2::{lemma2_to64, lemma_pow2_pos, pow2};
use crate::powers::lemma_pow2_product;
use crate::encoding::{lemma_ordinal_landmarks, ordinal_value, INFINITY_ORDINAL};
use crate::rounding::{lemma_round_ratio_total, round_ratio};
use crate::scalar::Binary32;
use crate::vector3::Vector3;
use crate::accuracy::{lemma_assembled, lemma_rounding_error, lemma_rounds_finite, near};
use crate::unit_norm::is_unit_normal;

verus! {

/// `e` is at most `c` in absolute value.
pub open spec fn within(e: int, c: int) -> bool {
    -c <= e <= c
}

/// `r` is a signed value within rounding error of the signed ratio `p / q`
/// and on the same side of zero.
pub open spec fn rounded(r: int, p: int, q: int) -> bool {
    ||| p >= 0 && r >= 0 && near(r, p, q)
    ||| p <= 0 && r <= 0 && near(-r, -p, q)
}

/// One rounding step against a scale `w` of at least 2^24 units: a result
/// within rounding error of a ratio of size at most `b <= 64 w` has size at
/// most `b + w` and is off by at most `(b + 2 w) * 2^-24`.
proof fn lemma_round_step(r: int, p: int, q: int, b: int, w: int)
    requires
        rounded(r, p, q),
        within(p, b * q),
        0 <= b <= 64 * w,
        w >= 0x100_0000,
    ensures
        within(r, b + w),
        within(0x100_0000 * (r * q - p), (b + 2 * w) * q),
{
    if p >= 0 && r >= 0 && near(r, p, q) {
        lemma_near_step(r, p, q, b, w);
    } else {
        lemma_near_step(-r, -p, q, b, w);
        assert((-r) * q - (-p) == -(r * q - p)) by (nonlinear_arith);
    }
}

proof fn lemma_near_step(v: int, p: int, q: int, b: int, w: int)
    by (nonlinear_arith)
    requires
        near(v, p, q),
        p <= b * q,
        0 <= b <= 64 * w,
        w >= 0x100_0000,
    ensures
        0 <= v <= b + w,
        within(0x100_0000 * (v * q - p), (b + 2 * w) * q),
{
    if v > b + w {
        assert(v * q >= (b + w + 1) * q);
        assert((b + w + 1) * q == b * q + w * q + q);
        assert(w * q >= 0x100_0000 * q);
    }
    assert(v * q <= (b + w) * q);
    assert((b + w) * q == b * q + w * q);
    assert((b + 2 * w) * q == b * q + 2 * (w * q));
    assert(w * q >= 0x100_0000 * q);
}

/// The bounds that keep every intermediate result finite: a scale of at
/// most 2^252 units leaves room for factors up to 2^24.
proof fn lemma_headroom(w: int)
    requires
        w <= pow2(252),
    ensures
        128 * w < ordinal_value(INFINITY_ORDINAL as nat),
        pow2(149) > 0,
{
    lemma2_to64();
    lemma_ordinal_landmarks();
    lemma_pow2_product(2, 252);
    lemma_pow2_pos(252);
    lemma_pow2_pos(149);
}

/// A rounded product of two finite scalars whose exact product has size at
/// most `b`, with `b <= 64 w`.
proof fn lemma_product_step(x: Binary32, y: Binary32, b: int, w: int)
    requires
        x.is_finite(),
        y.is_finite(),
        within(x.units() * y.units(), b * pow2(149)),
        0 <= b <= 64 * w,
        0x100_0000 <= w <= pow2(252),
    ensures
        x.spec_mul(y).is_finite(),
        within(x.spec_mul(y).units(), b + w),
        within(
            0x100_0000 * (x.spec_mul(y).units() * pow2(149) - x.units() * y.units()),
            (b + 2 * w) * pow2(149),
        ),
{
    let p = pow2(149) as int;
    let xa = x.abs_units();
    let ya = y.abs_units();
    let exact = x.units() * y.units();
    let top = ordinal_value(INFINITY_ORDINAL as nat) as int;
    lemma_headroom(w);
    assert(xa * ya >= 0 && (exact == xa * ya || exact == -(xa * ya))) by (nonlinear_arith)
        requires
            xa >= 0,
            ya >= 0,
            exact == x.units() * y.units(),
            x.units() == xa || x.units() == -xa,
            y.units() == ya || y.units() == -ya,
    ;
    assert(2 * (xa * ya) < top * p) by (nonlinear_arith)
        requires
            xa * ya <= b * p,
            0 <= b <= 64 * w,
            128 * w < top,
            p > 0,
    {
        assert(b * p <= (64 * w) * p);
        assert((128 * w) * p < top * p);
    }
    lemma_round_ratio_total(xa * ya, p);
    let k = round_ratio(xa * ya, p);
    lemma_rounds_finite(xa * ya, p, k);
    lemma_assembled(x.sign() != y.sign(), k);
    lemma_rounding_error(xa * ya, p, k);
    let r = x.spec_mul(y).units();
    assert(rounded(r, exact, p)) by {
        if x.sign() != y.sign() {
            assert(exact == -(xa * ya)) by (nonlinear_arith)
                requires
                    exact == x.units() * y.units(),
                    (x.units() == xa && y.units() == -ya) || (x.units() == -xa && y.units() == ya),
            ;
        } else {
            assert(exact == xa * ya) by (nonlinear_arith)
                requires
                    exact == x.units() * y.units(),
                    (x.units() == xa && y.units() == ya) || (x.units() == -xa && y.units() == -ya),
            ;
        }
    }
    lemma_round_step(r, exact, p, b, w);
}

/// A rounded sum of two finite scalars whose exact sum has size at most
/// `b`, with `b <= 64 w`.
proof fn lemma_sum_step(x: Binary32, y: Binary32, b: int, w: int)
    requires
        x.is_finite(),
        y.is_finite(),
        within(x.units() + y.units(), b),
        0 <= b <= 64 * w,
        0x100_0000 <= w <= pow2(252),
    ensures
        x.spec_add(y).is_finite(),
        within(x.spec_add(y).units(), b + w),
        within(0x100_0000 * (x.spec_add(y).units() - (x.units() + y.units())), b + 2 * w),
{
    let total = x.units() + y.units();
    lemma_headroom(w);
    lemma_ordinal_landmarks();
    let r = x.spec_add(y).units();
    if total > 0 {
        lemma_round_ratio_total(total, 1);
        let k = round_ratio(total, 1);
        lemma_rounds_finite(total, 1, k);
        lemma_assembled(false, k);
        lemma_rounding_error(total, 1, k);
    } else if total < 0 {
        lemma_round_ratio_total(-total, 1);
        let k = round_ratio(-total, 1);
        lemma_rounds_finite(-total, 1, k);
        lemma_assembled(true, k);
        lemma_rounding_error(-total, 1, k);
    } else {
        lemma_assembled(x.sign() && y.sign(), 0);
    }
    assert(rounded(r, total, 1));
    lemma_round_step(r, total, 1, b, w);
}

/// A rounded difference of two finite scalars whose exact difference has
/// size at most `b`, with `b <= 64 w`.
proof fn lemma_difference_step(x: Binary32, y: Binary32, b: int, w: int)
    requires
        x.is_finite(),
        y.is_finite(),
        within(x.units() - y.units(), b),
        0 <= b <= 64 * w,
        0x100_0000 <= w <= pow2(252),
    ensures
        x.spec_sub(y).is_finite(),
        within(x.spec_sub(y).units(), b + w),
        within(0x100_0000 * (x.spec_sub(y).units() - (x.units() - y.units())), b + 2 * w),
{
    lemma_assembled(!y.sign(), y.ordinal());
    lemma_sum_step(x, y.spec_neg(), b, w);
}

/// The product of a value of size at most `c` with a component of the
/// normal, of size at most two, has size at most `2 c`.
proof fn lemma_bounded_product(a: int, n: int, c: int, p: int)
    by (nonlinear_arith)
    requires
        within(a, c),
        within(n, 2 * p),
        p > 0,
    ensures
        within(a * n, (2 * c) * p),
        within(n * a, (2 * c) * p),
{
    assert(a * n == n * a);
    assert((2 * c) * p == c * (2 * p));
    if a >= 0 && n >= 0 {
        assert(a * n <= c * n);
        assert(c * n <= c * (2 * p));
        assert(a * n >= 0);
    } else if a >= 0 && n < 0 {
        assert(a * (-n) <= c * (-n));
        assert(c * (-n) <= c * (2 * p));
        assert(a * (-n) >= 0);
        assert(a * (-n) == -(a * n));
    } else if a < 0 && n >= 0 {
        assert((-a) * n <= c * n);
        assert(c * n <= c * (2 * p));
        assert((-a) * n >= 0);
        assert((-a) * n == -(a * n));
    } else {
        assert((-a) * (-n) <= c * (-n));
        assert(c * (-n) <= c * (2 * p));
        assert((-a) * (-n) >= 0);
        assert((-a) * (-n) == a * n);
    }
}

/// The error of a rounded dot product: three rounded products `m`, their
/// rounded partial sum `s1` and rounded total `s`, each with its own error,
/// against the exact sum of the exact products.
proof fn lemma_dot_error(
    mx: int,
    my: int,
    mz: int,
    s1: int,
    s: int,
    ex: int,
    ey: int,
    ez: int,
    p: int,
    cm: int,
    c1: int,
    c2: int,
)
    requires
        p > 0,
        within(0x100_0000 * (mx * p - ex), cm * p),
        within(0x100_0000 * (my * p - ey), cm * p),
        within(0x100_0000 * (mz * p - ez), cm * p),
        within(0x100_0000 * (s1 - (mx + my)), c1),
        within(0x100_0000 * (s - (s1 + mz)), c2),
    ensures
        within(0x100_0000 * (s * p - (ex + ey + ez)), (3 * cm + c1 + c2) * p),
{
    let e1 = s1 - (mx + my);
    let e2 = s - (s1 + mz);
    assert(s * p - (ex + ey + ez) == e2 * p + e1 * p + (mx * p - ex) + (my * p - ey) + (mz * p
        - ez)) by (nonlinear_arith)
        requires
            e1 == s1 - (mx + my),
            e2 == s - (s1 + mz),
    ;
    assert(within(0x100_0000 * (e1 * p), c1 * p) && within(0x100_0000 * (e2 * p), c2 * p))
        by (nonlinear_arith)
        requires
            within(0x100_0000 * e1, c1),
            within(0x100_0000 * e2, c2),
            p > 0,
    {
        assert((0x100_0000 * e1) * p == 0x100_0000 * (e1 * p));
        assert((0x100_0000 * e2) * p == 0x100_0000 * (e2 * p));
        assert((0x100_0000 * e1) * p <= c1 * p);
        assert((0x100_0000 * e1) * p >= (-c1) * p);
        assert((0x100_0000 * e2) * p <= c2 * p);
        assert((0x100_0000 * e2) * p >= (-c2) * p);
        assert((-c1) * p == -(c1 * p));
        assert((-c2) * p == -(c2 * p));
    }
    assert((3 * cm + c1 + c2) * p == 3 * (cm * p) + c1 * p + c2 * p) by (nonlinear_arith);
}

/// A value whose multiple by `p` is within `32 w p * 2^-24` of a quantity
/// of size at most `2 w p` has size at most `3 w`.
proof fn lemma_dot_size(d: int, exact: int, p: int, w: int)
    by (nonlinear_arith)
    requires
        p > 0,
        w >= 0x100_0000,
        within(exact, (2 * w) * p),
        within(0x100_0000 * (d * p - exact), (32 * w) * p),
    ensures
        within(d, 3 * w),
{
    assert((2 * w) * p == 2 * (w * p));
    assert((32 * w) * p == 32 * (w * p));
    if d > 3 * w {
        assert(d * p >= (3 * w + 1) * p);
        assert((3 * w + 1) * p == 3 * (w * p) + p);
    }
    if d < -(3 * w) {
        assert(d * p <= (-(3 * w) - 1) * p);
        assert((-(3 * w) - 1) * p == -(3 * (w * p)) - p);
    }
}

/// One component of the projection, times `p`, against its exact
/// counterpart `x p - n d`: the errors of the product `a = n d / p` and of
/// the difference `x - a` add up.
proof fn lemma_projection_error(x: int, n: int, d: int, a: int, q: int, p: int, w: int)
    requires
        p > 0,
        within(0x100_0000 * (a * p - n * d), (8 * w) * p),
        within(0x100_0000 * (q - (x - a)), 10 * w),
        within(n, 2 * p),
        w >= 0,
    ensures
        within(0x100_0000 * (n * (q * p - (x * p - n * d))), (36 * w) * (p * p)),
{
    let e = q - (x - a);
    let g = a * p - n * d;
    let h = q * p - (x * p - n * d);
    assert(h == e * p - g) by (nonlinear_arith)
        requires
            e == q - (x - a),
            g == a * p - n * d,
            h == q * p - (x * p - n * d),
    ;
    assert(within(0x100_0000 * h, (18 * w) * p)) by (nonlinear_arith)
        requires
            h == e * p - g,
            within(0x100_0000 * e, 10 * w),
            within(0x100_0000 * g, (8 * w) * p),
            p > 0,
    {
        assert((0x100_0000 * e) * p <= (10 * w) * p);
        assert((0x100_0000 * e) * p >= (-(10 * w)) * p);
        assert((0x100_0000 * e) * p == 0x100_0000 * (e * p));
        assert((-(10 * w)) * p == -((10 * w) * p));
        assert((18 * w) * p == (10 * w) * p + (8 * w) * p);
    }
    let c = (18 * w) * p;
    let t = 0x100_0000 * h;
    lemma_bounded_product(t, n, c, p);
    assert(n * t == 0x100_0000 * (n * h)) by (nonlinear_arith)
        requires
            t == 0x100_0000 * h,
    ;
    assert((2 * c) * p == (36 * w) * (p * p)) by (nonlinear_arith)
        requires
            c == (18 * w) * p,
    ;
}

/// Putting the errors together: `r p^2` is the sum of the part due to the
/// normal's deviation from unit length and the rounding errors of the two
/// dot products and the three components.
proof fn lemma_residual(
    d: int,
    r: int,
    n2: int,
    gd: int,
    gr: int,
    hx: int,
    hy: int,
    hz: int,
    p: int,
    w: int,
)
    requires
        p > 0,
        w >= 0x100_0000,
        r * (p * p) == d * (p * p - n2) - gd * p + (hx + hy + hz) + gr * p,
        within(d, 3 * w),
        within(65536 * (n2 - p * p), p * p),
        within(0x100_0000 * gd, (32 * w) * p),
        within(0x100_0000 * gr, (160 * w) * p),
        within(0x100_0000 * hx, (36 * w) * (p * p)),
        within(0x100_0000 * hy, (36 * w) * (p * p)),
        within(0x100_0000 * hz, (36 * w) * (p * p)),
    ensures
        within(0x100_0000 * r, 1068 * w),
{
    let psq = p * p;
    let dev = psq - n2;
    let t1 = d * dev;
    assert(psq > 0) by (nonlinear_arith)
        requires
            psq == p * p,
            p > 0,
    ;
    assert(within(65536 * t1, (3 * w) * psq)) by (nonlinear_arith)
        requires
            t1 == d * dev,
            within(d, 3 * w),
            within(65536 * dev, psq),
            w >= 0,
            psq > 0,
    {
        let k = 65536 * dev;
        assert(d * k == 65536 * (d * dev));
        if d >= 0 && k >= 0 {
            assert(d * k <= (3 * w) * k);
            assert((3 * w) * k <= (3 * w) * psq);
            assert(d * k >= 0);
        } else if d >= 0 && k < 0 {
            assert(d * (-k) <= (3 * w) * (-k));
            assert((3 * w) * (-k) <= (3 * w) * psq);
            assert(d * (-k) >= 0);
            assert(d * (-k) == -(d * k));
        } else if d < 0 && k >= 0 {
            assert((-d) * k <= (3 * w) * k);
            assert((3 * w) * k <= (3 * w) * psq);
            assert((-d) * k >= 0);
            assert((-d) * k == -(d * k));
        } else {
            assert((-d) * (-k) <= (3 * w) * (-k));
            assert((3 * w) * (-k) <= (3 * w) * psq);
            assert((-d) * (-k) >= 0);
            assert((-d) * (-k) == d * k);
        }
    }
    let wpsq = w * psq;
    assert((3 * w) * psq == 3 * wpsq && (36 * w) * psq == 36 * wpsq) by (nonlinear_arith)
        requires
            wpsq == w * psq,
    ;
    assert(within(0x100_0000 * (gd * p), 32 * wpsq) && within(0x100_0000 * (gr * p), 160 * wpsq))
        by (nonlinear_arith)
        requires
            within(0x100_0000 * gd, (32 * w) * p),
            within(0x100_0000 * gr, (160 * w) * p),
            wpsq == w * (p * p),
            p > 0,
    {
        assert((0x100_0000 * gd) * p <= ((32 * w) * p) * p);
        assert((0x100_0000 * gd) * p >= (-((32 * w) * p)) * p);
        assert((0x100_0000 * gr) * p <= ((160 * w) * p) * p);
        assert((0x100_0000 * gr) * p >= (-((160 * w) * p)) * p);
        assert(((32 * w) * p) * p == 32 * (w * (p * p)));
        assert(((160 * w) * p) * p == 160 * (w * (p * p)));
        assert((-((32 * w) * p)) * p == -(32 * (w * (p * p))));
        assert((-((160 * w) * p)) * p == -(160 * (w * (p * p))));
        assert((0x100_0000 * gd) * p == 0x100_0000 * (gd * p));
        assert((0x100_0000 * gr) * p == 0x100_0000 * (gr * p));
    }
    let rpsq = r * psq;
    assert(within(0x100_0000 * rpsq, 1068 * wpsq));
    assert(within(0x100_0000 * r, 1068 * w)) by (nonlinear_arith)
        requires
            within(0x100_0000 * rpsq, 1068 * wpsq),
            rpsq == r * psq,
            wpsq == w * psq,
            psq > 0,
    {
        if 0x100_0000 * r > 1068 * w {
            assert((0x100_0000 * r) * psq >= (1068 * w + 1) * psq);
            assert((0x100_0000 * r) * psq == 0x100_0000 * (r * psq));
            assert((1068 * w + 1) * psq == 1068 * (w * psq) + psq);
        }
        if 0x100_0000 * r < -(1068 * w) {
            assert((0x100_0000 * r) * psq <= (-(1068 * w) - 1) * psq);
            assert((0x100_0000 * r) * psq == 0x100_0000 * (r * psq));
            assert((-(1068 * w) - 1) * psq == -(1068 * (w * psq)) - psq);
        }
    }
}

/// One component's share of the residual, multiplied out.
proof fn lemma_component_identity(x: int, n: int, c: int, d: int, p: int)
    by (nonlinear_arith)
    ensures
        n * (c * p - (x * p - n * d)) == (c * n) * p - (x * n) * p + (n * n) * d,
{
}

/// The residual `r p^2` written as the sum of its error terms, where `dot`
/// is the exact `v . n`, `along` the exact `c . n` for the computed
/// projection `c`, and `h` the sum of the components' shares.
proof fn lemma_residual_identity(d: int, r: int, p: int, dot: int, n2: int, along: int, h: int)
    by (nonlinear_arith)
    requires
        h == along * p - dot * p + n2 * d,
    ensures
        r * (p * p) == d * (p * p - n2) - (d * p - dot) * p + h + (r * p - along) * p,
{
    assert((d * p) * p == d * (p * p));
    assert((r * p) * p == r * (p * p));
    assert(d * (p * p - n2) == d * (p * p) - d * n2);
    assert((d * p - dot) * p == (d * p) * p - dot * p);
    assert((r * p - along) * p == (r * p) * p - along * p);
    assert(n2 * d == d * n2);
}

/// The vector is finite with components of magnitude at most 2^100.
pub open spec fn is_moderate(v: Vector3) -> bool {
    &&& v.x.is_finite() && v.x.abs_units() <= pow2(249)
    &&& v.y.is_finite() && v.y.abs_units() <= pow2(249)
    &&& v.z.is_finite() && v.z.abs_units() <= pow2(249)
}

/// The sum of the magnitudes of the components, in units of 2^-149, and at
/// least 2^24 of them.
pub open spec fn scale_of(v: Vector3) -> int {
    let size = v.x.abs_units() + v.y.abs_units() + v.z.abs_units();
    if size >= 0x100_0000 {
        size
    } else {
        0x100_0000
    }
}

/// A component of a unit normal has magnitude at most two.
proof fn lemma_normal_component(a: int, rest: int, p: int)
    by (nonlinear_arith)
    requires
        0 <= a,
        0 <= rest,
        p > 0,
        65536 * (a * a + rest - p * p) <= p * p,
    ensures
        a <= 2 * p,
{
    if a > 2 * p {
        assert(a * a >= (2 * p + 1) * (2 * p + 1));
        assert((2 * p + 1) * (2 * p + 1) == 4 * (p * p) + 4 * p + 1);
    }
}

/// The magnitude of one in units of 2^-149.
pub open spec fn unity() -> int {
    pow2(149) as int
}

/// A rounded dot product with a unit normal: for a vector with finite
/// components of size at most `b <= 10 w`, the result is finite and, times
/// `p`, within `(16 b + 16 w) * 2^-24 * p` of the exact dot product.
proof fn lemma_dot_stage(u: Vector3, n: Vector3, b: int, w: int)
    requires
        u.x.is_finite() && within(u.x.units(), b),
        u.y.is_finite() && within(u.y.units(), b),
        u.z.is_finite() && within(u.z.units(), b),
        n.x.is_finite() && within(n.x.units(), 2 * unity()),
        n.y.is_finite() && within(n.y.units(), 2 * unity()),
        n.z.is_finite() && within(n.z.units(), 2 * unity()),
        0 <= b <= 10 * w,
        0x100_0000 <= w <= pow2(252),
    ensures
        u.spec_dot(n).is_finite(),
        within(
            0x100_0000 * (u.spec_dot(n).units() * unity() - (u.x.units() * n.x.units()
                + u.y.units() * n.y.units() + u.z.units() * n.z.units())),
            (16 * b + 16 * w) * unity(),
        ),
{
    let p = unity();
    lemma_pow2_pos(149);
    lemma_bounded_product(u.x.units(), n.x.units(), b, p);
    lemma_bounded_product(u.y.units(), n.y.units(), b, p);
    lemma_bounded_product(u.z.units(), n.z.units(), b, p);
    let mx = u.x.spec_mul(n.x);
    let my = u.y.spec_mul(n.y);
    let mz = u.z.spec_mul(n.z);
    lemma_product_step(u.x, n.x, 2 * b, w);
    lemma_product_step(u.y, n.y, 2 * b, w);
    lemma_product_step(u.z, n.z, 2 * b, w);
    let s1 = mx.spec_add(my);
    lemma_sum_step(mx, my, 4 * b + 2 * w, w);
    let s = s1.spec_add(mz);
    lemma_sum_step(s1, mz, 6 * b + 4 * w, w);
    assert(s == u.spec_dot(n));
    lemma_dot_error(
        mx.units(),
        my.units(),
        mz.units(),
        s1.units(),
        s.units(),
        u.x.units() * n.x.units(),
        u.y.units() * n.y.units(),
        u.z.units() * n.z.units(),
        p,
        2 * b + 2 * w,
        4 * b + 4 * w,
        6 * b + 6 * w,
    );
}

/// One component of the projection: for a component `x` of size at most
/// `w`, a component `n` of the normal and a dot product `d` of size at most
/// `3 w`, the rounded `x - n d` is finite, of size at most `9 w`, and its
/// share of the residual is at most `36 w * 2^-24`.
proof fn lemma_projection_stage(x: Binary32, n: Binary32, d: Binary32, w: int)
    requires
        x.is_finite() && within(x.units(), w),
        n.is_finite() && within(n.units(), 2 * unity()),
        d.is_finite() && within(d.units(), 3 * w),
        0x100_0000 <= w <= pow2(252),
    ensures
        x.spec_sub(n.spec_mul(d)).is_finite(),
        within(x.spec_sub(n.spec_mul(d)).units(), 9 * w),
        within(
            0x100_0000 * (n.units() * (x.spec_sub(n.spec_mul(d)).units() * unity() - (x.units()
                * unity() - n.units() * d.units()))),
            (36 * w) * (unity() * unity()),
        ),
{
    let p = unity();
    lemma_pow2_pos(149);
    lemma_bounded_product(d.units(), n.units(), 3 * w, p);
    let a = n.spec_mul(d);
    lemma_product_step(n, d, 6 * w, w);
    lemma_difference_step(x, a, 8 * w, w);
    lemma_projection_error(x.units(), n.units(), d.units(), a.units(), x.spec_sub(a).units(), p, w);
}

/// The size of a dot product with a unit normal: at most three times the
/// scale of the vector.
proof fn lemma_dot_stage_size(v: Vector3, n: Vector3, w: int)
    requires
        v.x.is_finite() && v.y.is_finite() && v.z.is_finite(),
        v.x.abs_units() + v.y.abs_units() + v.z.abs_units() <= w,
        within(n.x.units(), 2 * unity()),
        within(n.y.units(), 2 * unity()),
        within(n.z.units(), 2 * unity()),
        0x100_0000 <= w,
        within(
            0x100_0000 * (v.spec_dot(n).units() * unity() - (v.x.units() * n.x.units()
                + v.y.units() * n.y.units() + v.z.units() * n.z.units())),
            (32 * w) * unity(),
        ),
    ensures
        within(v.spec_dot(n).units(), 3 * w),
{
    let p = unity();
    lemma_pow2_pos(149);
    lemma_bounded_product(v.x.units(), n.x.units(), v.x.abs_units(), p);
    lemma_bounded_product(v.y.units(), n.y.units(), v.y.abs_units(), p);
    lemma_bounded_product(v.z.units(), n.z.units(), v.z.abs_units(), p);
    assert((2 * v.x.abs_units()) * p + (2 * v.y.abs_units()) * p + (2 * v.z.abs_units()) * p <= (2
        * w) * p) by (nonlinear_arith)
        requires
            v.x.abs_units() + v.y.abs_units() + v.z.abs_units() <= w,
            p > 0,
    ;
    let dot = v.x.units() * n.x.units() + v.y.units() * n.y.units() + v.z.units() * n.z.units();
    lemma_dot_size(v.spec_dot(n).units(), dot, p, w);
}

/// The components of a unit normal have size at most two, and the sum of
/// the squares of their signed values is the squared length.
proof fn lemma_unit_normal(n: Vector3)
    requires
        is_unit_normal(n),
    ensures
        within(n.x.units(), 2 * unity()),
        within(n.y.units(), 2 * unity()),
        within(n.z.units(), 2 * unity()),
        within(
            65536 * ((n.x.units() * n.x.units() + n.y.units() * n.y.units() + n.z.units()
                * n.z.units()) - unity() * unity()),
            unity() * unity(),
        ),
{
    let p = unity();
    lemma_pow2_pos(149);
    let nx = n.x.units();
    let ny = n.y.units();
    let nz = n.z.units();
    let ax = n.x.abs_units();
    let ay = n.y.abs_units();
    let az = n.z.abs_units();
    assert(ax * ax >= 0 && ay * ay >= 0 && az * az >= 0 && ax * ax == nx * nx && ay * ay == ny
        * ny && az * az == nz * nz) by (nonlinear_arith)
        requires
            nx == ax || nx == -ax,
            ny == ay || ny == -ay,
            nz == az || nz == -az,
    ;
    lemma_normal_component(ax, ay * ay + az * az, p);
    lemma_normal_component(ay, ax * ax + az * az, p);
    lemma_normal_component(az, ax * ax + ay * ay, p);
}

/// For every vector `v` with components of magnitude at most 2^100 and
/// every normal `n` whose exact length is within `2^-16` of one, the dot
/// product of the projection of `v` onto the plane of `n` with `n` is at
/// most `2^-13 * (|v.x| + |v.y| + |v.z|)` in magnitude, or at most 2^-138
/// where that is larger.
pub proof fn lemma_projection_is_orthogonal(v: Vector3, n: Vector3)
    requires
        is_moderate(v),
        is_unit_normal(n),
    ensures
        v.spec_project_on_plane(n).spec_dot(n).is_finite(),
        within(8192 * v.spec_project_on_plane(n).spec_dot(n).units(), scale_of(v)),
{
    let p = pow2(149) as int;
    let w = scale_of(v);
    lemma2_to64();
    lemma_pow2_pos(149);
    lemma_pow2_product(3, 249);
    lemma_pow2_product(24, 228);
    lemma_pow2_pos(228);
    assert(0x100_0000 <= w <= pow2(252));
    lemma_unit_normal(n);
    let x = v.x.units();
    let y = v.y.units();
    let z = v.z.units();
    let nx = n.x.units();
    let ny = n.y.units();
    let nz = n.z.units();
    let n2 = nx * nx + ny * ny + nz * nz;
    // the dot product of v and n
    let dd = v.spec_dot(n);
    let d = dd.units();
    let dot = x * nx + y * ny + z * nz;
    lemma_dot_stage(v, n, w, w);
    lemma_dot_stage_size(v, n, w);
    // the projection
    let c = v.spec_project_on_plane(n);
    assert(c.x == v.x.spec_sub(n.x.spec_mul(dd)) && c.y == v.y.spec_sub(n.y.spec_mul(dd)) && c.z
        == v.z.spec_sub(n.z.spec_mul(dd)));
    lemma_projection_stage(v.x, n.x, dd, w);
    lemma_projection_stage(v.y, n.y, dd, w);
    lemma_projection_stage(v.z, n.z, dd, w);
    let cx = c.x.units();
    let cy = c.y.units();
    let cz = c.z.units();
    // the dot product of the projection and n
    let rr = c.spec_dot(n);
    let r = rr.units();
    let along = cx * nx + cy * ny + cz * nz;
    lemma_dot_stage(c, n, 9 * w, w);
    // the residual
    let hx = nx * (cx * p - (x * p - nx * d));
    let hy = ny * (cy * p - (y * p - ny * d));
    let hz = nz * (cz * p - (z * p - nz * d));
    lemma_component_identity(x, nx, cx, d, p);
    lemma_component_identity(y, ny, cy, d, p);
    lemma_component_identity(z, nz, cz, d, p);
    assert(hx + hy + hz == along * p - dot * p + n2 * d) by (nonlinear_arith)
        requires
            hx == (cx * nx) * p - (x * nx) * p + (nx * nx) * d,
            hy == (cy * ny) * p - (y * ny) * p + (ny * ny) * d,
            hz == (cz * nz) * p - (z * nz) * p + (nz * nz) * d,
            along == cx * nx + cy * ny + cz * nz,
            dot == x * nx + y * ny + z * nz,
            n2 == nx * nx + ny * ny + nz * nz,
    ;
    lemma_residual_identity(d, r, p, dot, n2, along, hx + hy + hz);
    lemma_residual(d, r, n2, d * p - dot, r * p - along, hx, hy, hz, p, w);
}

} // verus!
