//! Round-to-nearest, ties-to-even, stated as a relation between an exact
//! non-negative quantity and the ordinal it rounds to.
//!
//! The exact quantity is either a ratio `p / q` or a square root `sqrt(n)`,
//! both measured in units of 2^-149. An ordinal `k` is the rounding of `x`
//! when `x` lies between the midpoints that separate `k` from its two
//! neighbours; a midpoint itself belongs to the neighbour with the even
//! ordinal. Quantities at or above the midpoint between the largest finite
//! value and 2^128 round to infinity.
use vstd::prelude::*;
use crate::encoding::{
    lemma_ordinal_landmarks,
    lemma_ordinal_monotone,
    lemma_ordinal_step,
    ordinal_value,
    INFINITY_ORDINAL,
};

verus! {

/// Twice the midpoint between ordinal `k` and the one below it.
pub open spec fn lower_edge(k: nat) -> int
    recommends
        k > 0,
{
    (ordinal_value((k - 1) as nat) + ordinal_value(k)) as int
}

/// Twice the midpoint between ordinal `k` and the one above it.
pub open spec fn upper_edge(k: nat) -> int {
    (ordinal_value(k) + ordinal_value(k + 1)) as int
}

/// `k` is the nearest ordinal to `p / q`, ties going to the even ordinal.
pub open spec fn rounds_to(p: int, q: int, k: nat) -> bool {
    &&& k <= INFINITY_ORDINAL
    &&& k > 0 ==> if k % 2 == 0 {
        lower_edge(k) * q <= 2 * p
    } else {
        lower_edge(k) * q < 2 * p
    }
    &&& k < INFINITY_ORDINAL ==> if k % 2 == 0 {
        2 * p <= upper_edge(k) * q
    } else {
        2 * p < upper_edge(k) * q
    }
}

/// `p / q` lies in the closed interval between the two midpoints around `k`.
pub open spec fn encloses(p: int, q: int, k: nat) -> bool {
    &&& k <= INFINITY_ORDINAL
    &&& k > 0 ==> lower_edge(k) * q <= 2 * p
    &&& k < INFINITY_ORDINAL ==> 2 * p <= upper_edge(k) * q
}

/// `k` is the nearest ordinal to the square root of `n`, ties going to the
/// even ordinal.
pub open spec fn root_rounds_to(n: int, k: nat) -> bool {
    &&& k <= INFINITY_ORDINAL
    &&& k > 0 ==> if k % 2 == 0 {
        lower_edge(k) * lower_edge(k) <= 4 * n
    } else {
        lower_edge(k) * lower_edge(k) < 4 * n
    }
    &&& k < INFINITY_ORDINAL ==> if k % 2 == 0 {
        4 * n <= upper_edge(k) * upper_edge(k)
    } else {
        4 * n < upper_edge(k) * upper_edge(k)
    }
}

/// The ordinal that `p / q` rounds to.
pub open spec fn round_ratio(p: int, q: int) -> nat {
    choose|k: nat| rounds_to(p, q, k)
}

/// The ordinal that the square root of `n` rounds to.
pub open spec fn round_root(n: int) -> nat {
    choose|k: nat| root_rounds_to(n, k)
}

proof fn lemma_edges_ordered(j: nat, k: nat)
    requires
        j < k,
    ensures
        upper_edge(j) <= lower_edge(k),
        j + 1 < k ==> upper_edge(j) < lower_edge(k),
        0 <= upper_edge(j),
{
    if j + 1 < k {
        lemma_ordinal_monotone(j, (k - 1) as nat);
        lemma_ordinal_monotone(j + 1, k);
    }
}

/// A ratio rounds to at most one ordinal.
pub proof fn lemma_rounds_to_unique(p: int, q: int, j: nat, k: nat)
    requires
        q > 0,
        rounds_to(p, q, j),
        rounds_to(p, q, k),
    ensures
        j == k,
{
    if j <= k {
        lemma_rounds_to_ordered(p, q, j, k);
    } else {
        lemma_rounds_to_ordered(p, q, k, j);
    }
}

proof fn lemma_rounds_to_ordered(p: int, q: int, j: nat, k: nat)
    requires
        q > 0,
        j <= k,
        rounds_to(p, q, j),
        rounds_to(p, q, k),
    ensures
        j == k,
{
    if j == k {
        return ;
    }
    lemma_edges_ordered(j, k);
    let u = upper_edge(j);
    let l = lower_edge(k);
    assert(u * q <= l * q) by (nonlinear_arith)
        requires
            u <= l,
            q > 0,
    ;
    if j + 1 < k {
        assert(u * q < l * q) by (nonlinear_arith)
            requires
                u < l,
                q > 0,
        ;
    }
}

/// A square root rounds to at most one ordinal.
pub proof fn lemma_root_rounds_to_unique(n: int, j: nat, k: nat)
    requires
        root_rounds_to(n, j),
        root_rounds_to(n, k),
    ensures
        j == k,
{
    if j <= k {
        lemma_root_rounds_to_ordered(n, j, k);
    } else {
        lemma_root_rounds_to_ordered(n, k, j);
    }
}

proof fn lemma_root_rounds_to_ordered(n: int, j: nat, k: nat)
    requires
        j <= k,
        root_rounds_to(n, j),
        root_rounds_to(n, k),
    ensures
        j == k,
{
    if j == k {
        return ;
    }
    lemma_edges_ordered(j, k);
    let u = upper_edge(j);
    let l = lower_edge(k);
    assert(u * u <= l * l) by (nonlinear_arith)
        requires
            0 <= u <= l,
    ;
    if j + 1 < k {
        assert(u * u < l * l) by (nonlinear_arith)
            requires
                0 <= u < l,
        ;
    }
}

/// `p / q` is at least the magnitude of ordinal `k` and below that of the
/// next ordinal, so it rounds to one of the two.
proof fn lemma_round_in_cell(p: int, q: int, k: nat)
    requires
        q > 0,
        k < INFINITY_ORDINAL,
        ordinal_value(k) * q <= p < ordinal_value(k + 1) * q,
    ensures
        rounds_to(p, q, k) || rounds_to(p, q, k + 1),
{
    let v = ordinal_value(k) as int;
    let w = ordinal_value(k + 1) as int;
    lemma_ordinal_step(k);
    lemma_ordinal_step(k + 1);
    if k > 0 {
        lemma_ordinal_step((k - 1) as nat);
        let l = lower_edge(k);
        assert(l * q < 2 * p) by (nonlinear_arith)
            requires
                l < 2 * v,
                v * q <= p,
                q > 0,
        ;
    }
    let u = upper_edge(k + 1);
    assert(2 * p < u * q) by (nonlinear_arith)
        requires
            2 * w < u,
            p < w * q,
            q > 0,
    ;
    assert(lower_edge(k + 1) == upper_edge(k));
}

proof fn lemma_rounds_from(p: int, q: int, k: nat)
    requires
        q > 0,
        k <= INFINITY_ORDINAL,
        ordinal_value(k) * q <= p,
    ensures
        exists|j: nat| rounds_to(p, q, j),
    decreases INFINITY_ORDINAL - k,
{
    if k == INFINITY_ORDINAL {
        lemma_round_overflow(p, q);
        assert(rounds_to(p, q, k));
    } else if ordinal_value(k + 1) * q <= p {
        lemma_rounds_from(p, q, k + 1);
    } else {
        lemma_round_in_cell(p, q, k);
        assert(rounds_to(p, q, k) || rounds_to(p, q, k + 1));
    }
}

/// Every non-negative ratio rounds to an ordinal, so `round_ratio` names the
/// rounding of each of them.
pub proof fn lemma_round_ratio_total(p: int, q: int)
    requires
        p >= 0,
        q > 0,
    ensures
        rounds_to(p, q, round_ratio(p, q)),
{
    lemma_ordinal_landmarks();
    assert(ordinal_value(0) * q == 0) by (nonlinear_arith)
        requires
            ordinal_value(0) == 0,
    ;
    lemma_rounds_from(p, q, 0);
}

/// The root of `n` is at least the magnitude of ordinal `k` and below that of
/// the next ordinal, so it rounds to one of the two.
proof fn lemma_root_in_cell(n: int, k: nat)
    requires
        k < INFINITY_ORDINAL,
        ordinal_value(k) * ordinal_value(k) <= n < ordinal_value(k + 1) * ordinal_value(k + 1),
    ensures
        root_rounds_to(n, k) || root_rounds_to(n, k + 1),
{
    let v = ordinal_value(k) as int;
    let w = ordinal_value(k + 1) as int;
    lemma_ordinal_step(k);
    lemma_ordinal_step(k + 1);
    if k > 0 {
        lemma_ordinal_step((k - 1) as nat);
        let l = lower_edge(k);
        assert(l * l < 4 * n) by (nonlinear_arith)
            requires
                0 <= l < 2 * v,
                v * v <= n,
        {
            assert(l * l < (2 * v) * (2 * v));
        }
    }
    let u = upper_edge(k + 1);
    assert(4 * n < u * u) by (nonlinear_arith)
        requires
            0 <= 2 * w < u,
            n < w * w,
    {
        assert((2 * w) * (2 * w) < u * u);
    }
    assert(lower_edge(k + 1) == upper_edge(k));
}

proof fn lemma_root_rounds_from(n: int, k: nat)
    requires
        k <= INFINITY_ORDINAL,
        ordinal_value(k) * ordinal_value(k) <= n,
    ensures
        exists|j: nat| root_rounds_to(n, j),
    decreases INFINITY_ORDINAL - k,
{
    if k == INFINITY_ORDINAL {
        let v = ordinal_value(k) as int;
        lemma_ordinal_step((k - 1) as nat);
        let l = lower_edge(k);
        assert(l * l <= 4 * n) by (nonlinear_arith)
            requires
                0 <= l < 2 * v,
                v * v <= n,
        {
            assert(l * l < (2 * v) * (2 * v));
        }
        assert(root_rounds_to(n, k));
    } else if ordinal_value(k + 1) * ordinal_value(k + 1) <= n {
        lemma_root_rounds_from(n, k + 1);
    } else {
        lemma_root_in_cell(n, k);
        assert(root_rounds_to(n, k) || root_rounds_to(n, k + 1));
    }
}

/// Every non-negative number has a rounded square root, so `round_root`
/// names the rounding of each of them.
pub proof fn lemma_round_root_total(n: int)
    requires
        n >= 0,
    ensures
        root_rounds_to(n, round_root(n)),
{
    lemma_ordinal_landmarks();
    assert(ordinal_value(0) * ordinal_value(0) == 0) by (nonlinear_arith)
        requires
            ordinal_value(0) == 0,
    ;
    lemma_root_rounds_from(n, 0);
}

/// Whatever ordinal a ratio is shown to round to is the one `round_ratio` names.
pub proof fn lemma_round_ratio_is(p: int, q: int, k: nat)
    requires
        q > 0,
        rounds_to(p, q, k),
    ensures
        round_ratio(p, q) == k,
{
    lemma_rounds_to_unique(p, q, round_ratio(p, q), k);
}

/// Whatever ordinal a square root is shown to round to is the one `round_root` names.
pub proof fn lemma_round_root_is(n: int, k: nat)
    requires
        root_rounds_to(n, k),
    ensures
        round_root(n) == k,
{
    lemma_root_rounds_to_unique(n, round_root(n), k);
}

/// Rounding depends on the value of the ratio alone, not on how it is written.
pub proof fn lemma_rounds_to_same_ratio(p: int, q: int, r: int, s: int, k: nat)
    requires
        q > 0,
        s > 0,
        p * s == r * q,
        rounds_to(p, q, k),
    ensures
        rounds_to(r, s, k),
{
    if k > 0 {
        lemma_cross_lower(lower_edge(k), p, q, r, s);
    }
    if k < INFINITY_ORDINAL {
        lemma_cross_upper(upper_edge(k), p, q, r, s);
    }
}

proof fn lemma_cross_lower(c: int, p: int, q: int, r: int, s: int)
    by (nonlinear_arith)
    requires
        q > 0,
        s > 0,
        p * s == r * q,
    ensures
        c * q <= 2 * p ==> c * s <= 2 * r,
        c * q < 2 * p ==> c * s < 2 * r,
{
    assert((c * q) * s == (c * s) * q);
    assert((2 * p) * s == (2 * r) * q);
    if c * q <= 2 * p && c * s > 2 * r {
        assert((c * q) * s <= (2 * p) * s);
        assert((c * s) * q > (2 * r) * q);
    }
    if c * q < 2 * p && c * s >= 2 * r {
        assert((c * q) * s < (2 * p) * s);
        assert((c * s) * q >= (2 * r) * q);
    }
}

proof fn lemma_cross_upper(c: int, p: int, q: int, r: int, s: int)
    by (nonlinear_arith)
    requires
        q > 0,
        s > 0,
        p * s == r * q,
    ensures
        2 * p <= c * q ==> 2 * r <= c * s,
        2 * p < c * q ==> 2 * r < c * s,
{
    assert((c * q) * s == (c * s) * q);
    assert((2 * p) * s == (2 * r) * q);
    if 2 * p <= c * q && 2 * r > c * s {
        assert((c * q) * s >= (2 * p) * s);
        assert((c * s) * q < (2 * r) * q);
    }
    if 2 * p < c * q && 2 * r >= c * s {
        assert((c * q) * s > (2 * p) * s);
        assert((c * s) * q <= (2 * r) * q);
    }
}

/// A representable magnitude rounds to its own ordinal.
pub proof fn lemma_round_exact(p: int, q: int, k: nat)
    requires
        q > 0,
        k <= INFINITY_ORDINAL,
        p == ordinal_value(k) * q,
    ensures
        rounds_to(p, q, k),
        encloses(p, q, k),
{
    let v = ordinal_value(k) as int;
    lemma_ordinal_step(k);
    let u = upper_edge(k);
    assert(2 * (v * q) < u * q) by (nonlinear_arith)
        requires
            2 * v < u,
            q > 0,
    ;
    if k > 0 {
        lemma_ordinal_step((k - 1) as nat);
        let l = lower_edge(k);
        assert(l * q < 2 * (v * q)) by (nonlinear_arith)
            requires
                l < 2 * v,
                q > 0,
        ;
    }
}

/// Anything at or beyond 2^128 rounds to infinity.
pub proof fn lemma_round_overflow(p: int, q: int)
    requires
        q > 0,
        p >= ordinal_value(INFINITY_ORDINAL as nat) * q,
    ensures
        rounds_to(p, q, INFINITY_ORDINAL as nat),
        encloses(p, q, INFINITY_ORDINAL as nat),
{
    let k = INFINITY_ORDINAL as nat;
    let v = ordinal_value(k) as int;
    lemma_ordinal_step((k - 1) as nat);
    let l = lower_edge(k);
    assert(l * q <= 2 * (v * q)) by (nonlinear_arith)
        requires
            l < 2 * v,
            q > 0,
    ;
}

/// A ratio strictly between two ratios that the interval around `k` encloses
/// rounds to `k`.
pub proof fn lemma_round_between(lo: int, hi: int, d: int, p: int, q: int, k: nat)
    requires
        d > 0,
        q > 0,
        encloses(lo, d, k),
        encloses(hi, d, k),
        lo * q < p * d,
        p * d < hi * q,
    ensures
        rounds_to(p, q, k),
{
    if k > 0 {
        let c = lower_edge(k);
        assert(c * q < 2 * p) by (nonlinear_arith)
            requires
                c * d <= 2 * lo,
                lo * q < p * d,
                d > 0,
                q > 0,
        {
            assert((c * d) * q <= (2 * lo) * q);
            assert((c * q) * d == (c * d) * q);
            assert((c * q) * d < (2 * p) * d);
        }
    }
    if k < INFINITY_ORDINAL {
        let c = upper_edge(k);
        assert(2 * p < c * q) by (nonlinear_arith)
            requires
                2 * hi <= c * d,
                p * d < hi * q,
                d > 0,
                q > 0,
        {
            assert((2 * hi) * q <= (c * d) * q);
            assert((c * q) * d == (c * d) * q);
            assert((2 * p) * d < (c * q) * d);
        }
    }
}

/// A square root strictly between two ratios that the interval around `k`
/// encloses rounds to `k`.
pub proof fn lemma_root_between(lo: int, hi: int, d: int, n: int, k: nat)
    requires
        d > 0,
        0 <= lo,
        0 <= hi,
        encloses(lo, d, k),
        encloses(hi, d, k),
        lo * lo < n * (d * d),
        n * (d * d) < hi * hi,
    ensures
        root_rounds_to(n, k),
{
    if k > 0 {
        let c = lower_edge(k);
        assert(c * c < 4 * n) by (nonlinear_arith)
            requires
                0 <= c,
                c * d <= 2 * lo,
                lo * lo < n * (d * d),
                d > 0,
        {
            assert((c * d) * (c * d) <= (2 * lo) * (2 * lo));
            assert((c * d) * (c * d) == (c * c) * (d * d));
            assert((c * c) * (d * d) < (4 * n) * (d * d));
        }
    }
    if k < INFINITY_ORDINAL {
        let c = upper_edge(k);
        assert(4 * n < c * c) by (nonlinear_arith)
            requires
                0 <= hi,
                2 * hi <= c * d,
                n * (d * d) < hi * hi,
                d > 0,
        {
            assert((2 * hi) * (2 * hi) <= (c * d) * (c * d));
            assert((c * d) * (c * d) == (c * c) * (d * d));
            assert((4 * n) * (d * d) < (c * c) * (d * d));
        }
    }
}

/// The square root of a perfect square rounds as its root does.
pub proof fn lemma_root_exact(r: int, d: int, n: int, k: nat)
    requires
        d > 0,
        0 <= r,
        rounds_to(r, d, k),
        r * r == n * (d * d),
    ensures
        root_rounds_to(n, k),
{
    if k > 0 {
        let c = lower_edge(k);
        assert(c * d <= 2 * r ==> c * c <= 4 * n) by (nonlinear_arith)
            requires
                0 <= c,
                r * r == n * (d * d),
                d > 0,
                0 <= r,
        {
            if c * d <= 2 * r {
                assert((c * d) * (c * d) <= (2 * r) * (2 * r));
                assert((c * d) * (c * d) == (c * c) * (d * d));
                assert((c * c) * (d * d) <= (4 * n) * (d * d));
            }
        }
        assert(c * d < 2 * r ==> c * c < 4 * n) by (nonlinear_arith)
            requires
                0 <= c,
                r * r == n * (d * d),
                d > 0,
                0 <= r,
        {
            if c * d < 2 * r {
                assert((c * d) * (c * d) < (2 * r) * (2 * r));
                assert((c * d) * (c * d) == (c * c) * (d * d));
                assert((c * c) * (d * d) < (4 * n) * (d * d));
            }
        }
    }
    if k < INFINITY_ORDINAL {
        let c = upper_edge(k);
        assert(2 * r <= c * d ==> 4 * n <= c * c) by (nonlinear_arith)
            requires
                0 <= c,
                r * r == n * (d * d),
                d > 0,
                0 <= r,
        {
            if 2 * r <= c * d {
                assert((2 * r) * (2 * r) <= (c * d) * (c * d));
                assert((c * d) * (c * d) == (c * c) * (d * d));
                assert((4 * n) * (d * d) <= (c * c) * (d * d));
            }
        }
        assert(2 * r < c * d ==> 4 * n < c * c) by (nonlinear_arith)
            requires
                0 <= c,
                r * r == n * (d * d),
                d > 0,
                0 <= r,
        {
            if 2 * r < c * d {
                assert((2 * r) * (2 * r) < (c * d) * (c * d));
                assert((c * d) * (c * d) == (c * c) * (d * d));
                assert((4 * n) * (d * d) < (c * c) * (d * d));
            }
        }
    }
}

} // verus!
