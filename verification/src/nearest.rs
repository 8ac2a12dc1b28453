//! Rounding of exact binary fractions to ordinals, in machine integers.
//!
//! Every arithmetic operation first computes its result as a significand with
//! a binary exponent, exactly or with one flag for "a little more than this",
//! and then hands it to `round_sticky`, which is the only place where a
//! rounding decision is made.
use vstd::prelude::*;
use vstd::arithmetic::power2::{
    lemma2_to64,
    lemma2_to64_rest,
    lemma_pow2_pos,
    lemma_pow2_unfold,
    pow2,
};
use vstd::bits::{lemma_u64_pow2_no_overflow, lemma_u64_shl_is_mul};
use crate::powers::{lemma_pow2_ordered, lemma_pow2_product};
use crate::encoding::{
    is_canonical,
    lemma_ordinal_join,
    lemma_ordinal_landmarks,
    lemma_ordinal_step,
    ordinal_value,
    INFINITY_ORDINAL,
};
use crate::rounding::{
    encloses,
    lemma_round_exact,
    lemma_round_overflow,
    lower_edge,
    rounds_to,
    upper_edge,
};

verus! {

/// Numerator of the binary fraction `sig * 2^exp` over the fixed denominator
/// `fraction_unit()`, for exponents down to -512.
pub open spec fn fraction(sig: int, exp: int) -> int
    recommends
        exp >= -512,
{
    sig * pow2((exp + 512) as nat)
}

/// The denominator under every `fraction`, 2^512.
pub open spec fn fraction_unit() -> int {
    pow2(512) as int
}

/// 2^n for an exponent that fits the machine word.
pub fn power_of_two(n: u32) -> (r: u64)
    requires
        n < 64,
    ensures
        r == pow2(n as nat),
{
    proof {
        lemma_u64_pow2_no_overflow(n as nat);
        lemma_u64_shl_is_mul(1, n as u64);
    }
    1u64 << (n as u64)
}

/// Number of significant bits of a positive integer.
pub fn bit_length(x: u64) -> (n: u32)
    requires
        x > 0,
    ensures
        1 <= n <= 64,
        pow2((n - 1) as nat) <= x < pow2(n as nat),
{
    let mut n: u32 = 0;
    let mut t: u64 = x;
    proof {
        lemma2_to64();
    }
    while t > 0
        invariant
            x > 0,
            n <= 64,
            t * pow2(n as nat) <= x < (t + 1) * pow2(n as nat),
            n > 0 ==> pow2((n - 1) as nat) <= x,
        decreases t,
    {
        proof {
            let w = pow2(n as nat) as int;
            lemma_pow2_pos(n as nat);
            lemma_pow2_unfold((n + 1) as nat);
            lemma2_to64_rest();
            assert(w <= t * w) by (nonlinear_arith)
                requires
                    t >= 1,
                    w > 0,
            ;
            if n >= 64 {
                lemma_pow2_ordered(64, n as nat);
            }
            let h = (t / 2) as int;
            assert(h * (2 * w) <= t * w && (t + 1) * w <= (h + 1) * (2 * w)) by (nonlinear_arith)
                requires
                    2 * h <= t <= 2 * h + 1,
                    w > 0,
            ;
        }
        t = t / 2;
        n = n + 1;
    }
    proof {
        lemma2_to64();
        let w = pow2(n as nat) as int;
        assert((t + 1) * w == w) by (nonlinear_arith)
            requires
                t == 0,
        ;
    }
    n
}

/// Scaling an integer by a power of two keeps it inside the same number of
/// bits plus the exponent.
proof fn lemma_scaled_bounds(sig: int, len: nat, up: nat)
    requires
        len >= 1,
        pow2((len - 1) as nat) <= sig < pow2(len),
    ensures
        pow2((len - 1 + up) as nat) <= sig * pow2(up) < pow2(len + up),
{
    lemma_pow2_product(len, up);
    lemma_pow2_product((len - 1) as nat, up);
    let hi = pow2(len) as int;
    let lo = pow2((len - 1) as nat) as int;
    let scale = pow2(up) as int;
    assert(sig * scale < hi * scale && lo * scale <= sig * scale) by (nonlinear_arith)
        requires
            lo <= sig < hi,
            scale > 0,
    ;
}

/// A fraction whose significand was shifted up into canonical form is the
/// magnitude `m * 2^e` over the fraction unit.
proof fn lemma_fraction_shifted(sig: int, exp: int, up: nat, m: int)
    requires
        exp >= -512,
        exp >= up,
        m == sig * pow2(up),
    ensures
        fraction(sig, exp) == (m * pow2((exp - up) as nat)) * fraction_unit(),
{
    let e = (exp - up) as nat;
    lemma_pow2_product(up, e + 512);
    lemma_pow2_product(e, 512);
    let unit = pow2((exp + 512) as nat) as int;
    let scale = pow2(up) as int;
    let pe = pow2(e) as int;
    let q = fraction_unit();
    assert(sig * unit == (m * pe) * q) by (nonlinear_arith)
        requires
            m == sig * scale,
            unit == scale * (pe * q),
    ;
}

/// A magnitude `m * 2^e` with a normal significand and `e >= 254` is at
/// least 2^128.
proof fn lemma_beyond_range(m: int, e: nat, p: int, q: int)
    requires
        q > 0,
        m >= 0x80_0000,
        e >= 254,
        p >= (m * pow2(e)) * q,
    ensures
        p >= ordinal_value(INFINITY_ORDINAL as nat) * q,
{
    lemma_ordinal_landmarks();
    lemma_pow2_ordered(254, e);
    lemma_pow2_pos(254);
    let pe = pow2(e) as int;
    let p254 = pow2(254) as int;
    assert((m * pe) * q >= (0x80_0000 * p254) * q) by (nonlinear_arith)
        requires
            m >= 0x80_0000,
            pe >= p254,
            p254 > 0,
            q > 0,
    ;
}

/// A fraction whose significand has fewer than `shift - 1` bits is below
/// half of the smallest subnormal when `exp == -shift`.
proof fn lemma_fraction_vanishes(sig: int, exp: int)
    requires
        -512 <= exp <= -64,
        0 <= sig < 0x8000_0000_0000_0000,
    ensures
        rounds_to(fraction(sig, exp), fraction_unit(), 0),
        sig >= 1 ==> encloses(fraction(sig - 1, exp), fraction_unit(), 0) && encloses(
            fraction(sig + 1, exp),
            fraction_unit(),
            0,
        ),
{
    let shift = (-exp) as nat;
    let unit = pow2((exp + 512) as nat) as int;
    let q = fraction_unit();
    lemma2_to64();
    lemma2_to64_rest();
    lemma_ordinal_landmarks();
    lemma_pow2_product(shift, (exp + 512) as nat);
    lemma_pow2_ordered(64, shift);
    let ps = pow2(shift) as int;
    assert(2 * ((sig + 1) * unit) <= ps * unit && (sig - 1) * unit <= sig * unit && sig * unit <= (sig
        + 1) * unit) by (nonlinear_arith)
        requires
            0 <= sig,
            2 * (sig + 1) <= ps,
            unit > 0,
    ;
    assert(upper_edge(0) == 1);
    assert(upper_edge(0) * q == q) by (nonlinear_arith)
        requires
            upper_edge(0) == 1,
    ;
}

/// Bounds on the quotient of a significand by the power of two that leaves
/// 24 bits.
proof fn lemma_quotient_bounds(sig: int, len: nat, shift: nat, m: int, rest: int)
    requires
        len >= 1,
        pow2((len - 1) as nat) <= sig < pow2(len),
        shift + 24 >= len,
        sig == m * pow2(shift) + rest,
        0 <= rest < pow2(shift),
    ensures
        0 <= m < 0x100_0000,
        shift + 24 == len ==> m >= 0x80_0000,
{
    lemma2_to64();
    let divisor = pow2(shift) as int;
    lemma_pow2_product(shift, 24);
    lemma_pow2_ordered(len, shift + 24);
    assert(0 <= m < 0x100_0000) by (nonlinear_arith)
        requires
            sig == m * divisor + rest,
            0 <= rest < divisor,
            0 <= sig < divisor * 0x100_0000,
    ;
    if shift + 24 == len {
        lemma_pow2_product(shift, 23);
        assert(m >= 0x80_0000) by (nonlinear_arith)
            requires
                sig == m * divisor + rest,
                rest < divisor,
                sig >= divisor * 0x80_0000,
                divisor > 0,
        ;
    }
}

/// The parts of a fraction after its significand is split at `shift` bits:
/// `unit` is the weight of one in `sig`, `w` the weight of one in `m`.
spec fn split_parts(sig: int, exp: int, shift: nat, m: int, rest: int, unit: int, w: int) -> bool {
    &&& exp >= -512
    &&& exp + shift >= 0
    &&& shift >= 1
    &&& sig == m * pow2(shift) + rest
    &&& 0 <= rest < pow2(shift)
    &&& unit == pow2((exp + 512) as nat)
    &&& w == pow2((exp + shift) as nat) * fraction_unit()
}

proof fn lemma_split_weights(
    sig: int,
    exp: int,
    shift: nat,
    m: int,
    rest: int,
    unit: int,
    w: int,
)
    requires
        split_parts(sig, exp, shift, m, rest, unit, w),
    ensures
        unit > 0,
        fraction_unit() > 0,
        w == 2 * (pow2((shift - 1) as nat) * unit),
        fraction(sig, exp) == m * w + rest * unit,
        fraction(sig - 1, exp) == m * w + rest * unit - unit,
        fraction(sig + 1, exp) == m * w + rest * unit + unit,
        rest * unit >= 0,
        rest * unit + unit <= w,
{
    let e = (exp + shift) as nat;
    let divisor = pow2(shift) as int;
    let half = pow2((shift - 1) as nat) as int;
    lemma_pow2_unfold(shift);
    lemma_pow2_pos(512);
    lemma_pow2_product(shift, (exp + 512) as nat);
    lemma_pow2_product(e, 512);
    assert(w == divisor * unit);
    assert(w == 2 * (half * unit)) by (nonlinear_arith)
        requires
            w == divisor * unit,
            divisor == 2 * half,
    ;
    assert(sig * unit == m * w + rest * unit && (sig - 1) * unit == m * w + rest * unit - unit && (
    sig + 1) * unit == m * w + rest * unit + unit) by (nonlinear_arith)
        requires
            sig == m * divisor + rest,
            w == divisor * unit,
    ;
    assert(rest * unit >= 0 && rest * unit + unit <= w) by (nonlinear_arith)
        requires
            0 <= rest < divisor,
            w == divisor * unit,
            unit > 0,
    ;
}

/// How the remainder of the split decides the rounding direction.
proof fn lemma_split_remainder(rest: int, half: int, unit: int, w: int)
    by (nonlinear_arith)
    requires
        w == 2 * (half * unit),
        0 <= rest < 2 * half,
        unit > 0,
    ensures
        rest < half ==> 2 * (rest * unit) < w && 2 * (rest * unit + unit) <= w,
        rest == half ==> 2 * (rest * unit) == w,
        rest > half ==> 2 * (rest * unit) > w && 2 * (rest * unit - unit) >= w,
{
    assert(rest * unit + unit == (rest + 1) * unit);
    assert(rest * unit - unit == (rest - 1) * unit);
    if rest < half {
        assert((rest + 1) * unit <= half * unit);
    }
    if rest > half {
        assert((rest - 1) * unit >= half * unit);
    }
}

/// An odd significand of at least 26 bits, split at three bits or more,
/// leaves an odd remainder, which cannot be the even half.
proof fn lemma_split_parity(sig: int, shift: nat, m: int, rest: int)
    requires
        shift >= 3,
        sig % 2 == 1,
        sig == m * pow2(shift) + rest,
    ensures
        rest != pow2((shift - 1) as nat),
        rest >= 1 || rest < 0,
{
    lemma_pow2_unfold(shift);
    lemma_pow2_unfold((shift - 1) as nat);
    let half = pow2((shift - 1) as nat) as int;
    let quarter = pow2((shift - 2) as nat) as int;
    let divisor = pow2(shift) as int;
    assert(m * divisor == 2 * (m * half)) by (nonlinear_arith)
        requires
            divisor == 2 * half,
    ;
    assert(half == 2 * quarter);
}

/// The rounding decision for a split fraction inside the finite range.
proof fn lemma_split_rounds(
    sig: int,
    exp: int,
    shift: nat,
    m: int,
    rest: int,
    round_up: bool,
)
    requires
        exp >= -512,
        shift >= 1,
        0 <= exp + shift < 254,
        sig == m * pow2(shift) + rest,
        0 <= rest < pow2(shift),
        is_canonical((exp + shift) as nat, m as nat),
        m >= 0,
        round_up == (rest > pow2((shift - 1) as nat) || (rest == pow2((shift - 1) as nat) && m % 2
            == 1)),
    ensures
        ({
            let k = ((exp + shift) * 0x80_0000 + m + if round_up {
                1int
            } else {
                0int
            }) as nat;
            &&& k <= INFINITY_ORDINAL
            &&& rounds_to(fraction(sig, exp), fraction_unit(), k)
            &&& sig % 2 == 1 && shift >= 3 ==> encloses(fraction(sig - 1, exp), fraction_unit(), k)
                && encloses(fraction(sig + 1, exp), fraction_unit(), k)
        }),
{
    let e = (exp + shift) as nat;
    let q = fraction_unit();
    let unit = pow2((exp + 512) as nat) as int;
    let pe = pow2(e) as int;
    let w = pe * q;
    let half = pow2((shift - 1) as nat) as int;
    let k0 = (e * 0x80_0000 + m) as nat;
    let v0 = ordinal_value(k0) as int;
    let a = m * w;
    let b = rest * unit;
    lemma_pow2_unfold(shift);
    lemma_split_weights(sig, exp, shift, m, rest, unit, w);
    lemma_split_remainder(rest, half, unit, w);
    if sig % 2 == 1 && shift >= 3 {
        lemma_split_parity(sig, shift, m, rest);
        assert(b >= unit) by (nonlinear_arith)
            requires
                b == rest * unit,
                rest >= 1,
                unit > 0,
        ;
    }
    lemma_ordinal_join(e, m as nat);
    lemma_ordinal_step(k0);
    assert(v0 * q == a && upper_edge(k0) * q == 2 * a + w && ordinal_value(k0 + 1) * q == a + w)
        by (nonlinear_arith)
        requires
            v0 == m * pe,
            w == pe * q,
            a == m * w,
            upper_edge(k0) == 2 * v0 + pe,
            ordinal_value(k0 + 1) == v0 + pe,
    ;
    if k0 > 0 {
        lemma_ordinal_step((k0 - 1) as nat);
        let l = lower_edge(k0);
        assert(l * q < 2 * a) by (nonlinear_arith)
            requires
                l < 2 * v0,
                v0 * q == a,
                q > 0,
        ;
    }
    if round_up {
        let k1 = k0 + 1;
        assert(lower_edge(k1) == upper_edge(k0));
        lemma_ordinal_step(k1);
        let u = upper_edge(k1);
        let v1 = ordinal_value(k1) as int;
        assert(2 * (a + w) < u * q) by (nonlinear_arith)
            requires
                2 * v1 < u,
                v1 * q == a + w,
                q > 0,
        ;
    }
}

/// Rounds the binary fraction `sig * 2^exp`, in units of 2^-149, to the
/// nearest ordinal.
///
/// When `sig` is odd and at least 2^26, the two fractions next to it on the
/// same grid are still enclosed by the interval that rounds to the result, so
/// that everything strictly between them rounds to the result as well.
pub fn round_fraction(sig: u64, exp: i32) -> (k: u32)
    requires
        sig < 0x8000_0000_0000_0000,
        -512 <= exp <= 1024,
    ensures
        k <= INFINITY_ORDINAL,
        rounds_to(fraction(sig as int, exp as int), fraction_unit(), k as nat),
        sig % 2 == 1 && sig >= 0x400_0000 ==> encloses(
            fraction(sig - 1, exp as int),
            fraction_unit(),
            k as nat,
        ) && encloses(fraction(sig + 1, exp as int), fraction_unit(), k as nat),
{
    let ghost q = fraction_unit();
    let ghost p = fraction(sig as int, exp as int);
    proof {
        lemma_pow2_pos(512);
    }
    if sig == 0 {
        proof {
            lemma_ordinal_landmarks();
            assert(p == 0) by (nonlinear_arith)
                requires
                    p == 0 * pow2((exp + 512) as nat),
            ;
            lemma_round_exact(p, q, 0);
        }
        return 0;
    }
    let len: i32 = bit_length(sig) as i32;
    proof {
        lemma2_to64();
        lemma2_to64_rest();
        if len >= 64 {
            lemma_pow2_ordered(63, (len - 1) as nat);
        }
        if sig >= 0x400_0000 && len <= 26 {
            lemma_pow2_ordered(len as nat, 26);
        }
    }
    let natural: i32 = len - 24;
    let shift: i32 = if natural >= -exp {
        natural
    } else {
        -exp
    };
    let e: i32 = exp + shift;
    if shift <= 0 {
        let up: u32 = (-shift) as u32;
        let scale: u64 = power_of_two(up);
        proof {
            lemma_scaled_bounds(sig as int, len as nat, up as nat);
            lemma_pow2_ordered((len + up) as nat, 24);
        }
        let m: u64 = sig * scale;
        proof {
            lemma_fraction_shifted(sig as int, exp as int, up as nat, m as int);
        }
        if e >= 254 {
            proof {
                lemma_beyond_range(m as int, e as nat, p, q);
                lemma_round_overflow(p, q);
            }
            return INFINITY_ORDINAL;
        }
        let k: u32 = (e as u32) * 0x80_0000 + (m as u32);
        proof {
            lemma_ordinal_join(e as nat, m as nat);
            lemma_round_exact(p, q, k as nat);
        }
        return k;
    }
    if shift >= 64 {
        proof {
            lemma_fraction_vanishes(sig as int, exp as int);
        }
        return 0;
    }
    let divisor: u64 = power_of_two(shift as u32);
    let m: u64 = sig / divisor;
    let rest: u64 = sig % divisor;
    let half: u64 = divisor / 2;
    proof {
        lemma_pow2_unfold(shift as nat);
        assert(sig == m * divisor + rest) by (nonlinear_arith)
            requires
                m == sig / divisor,
                rest == sig % divisor,
                divisor > 0,
        ;
        lemma_quotient_bounds(sig as int, len as nat, shift as nat, m as int, rest as int);
    }
    if e >= 254 {
        proof {
            let unit = pow2((exp + 512) as nat) as int;
            let w = pow2(e as nat) * q;
            lemma_split_weights(sig as int, exp as int, shift as nat, m as int, rest as int, unit, w);
            assert(m * w == (m * pow2(e as nat)) * q) by (nonlinear_arith)
                requires
                    w == pow2(e as nat) * q,
            ;
            lemma_beyond_range(m as int, e as nat, p, q);
            lemma_round_overflow(p, q);
            if sig % 2 == 1 && sig >= 0x400_0000 {
                lemma_split_parity(sig as int, shift as nat, m as int, rest as int);
                assert((rest - 1) * unit >= 0 && (rest - 1) * unit == rest * unit - unit)
                    by (nonlinear_arith)
                    requires
                        rest >= 1,
                        unit > 0,
                ;
                lemma_beyond_range(m as int, e as nat, p - unit, q);
                lemma_beyond_range(m as int, e as nat, p + unit, q);
                lemma_round_overflow(p - unit, q);
                lemma_round_overflow(p + unit, q);
            }
        }
        return INFINITY_ORDINAL;
    }
    let floor: u32 = (e as u32) * 0x80_0000 + (m as u32);
    let round_up: bool = rest > half || (rest == half && m % 2 == 1);
    proof {
        lemma_split_rounds(sig as int, exp as int, shift as nat, m as int, rest as int, round_up);
    }
    if round_up {
        floor + 1
    } else {
        floor
    }
}

/// Rounds a quantity known to lie in `[sig, sig + 1) * 2^exp`, in units of
/// 2^-149, where `sticky` tells whether it is above the lower end.
///
/// An exact quantity rounds to the result. For an inexact one the interval
/// that rounds to the result encloses both ends of the cell, so the quantity
/// itself, strictly between them, rounds to the result.
pub fn round_sticky(sig: u64, exp: i32, sticky: bool) -> (k: u32)
    requires
        sig < 0x4000_0000_0000_0000,
        -511 <= exp <= 1024,
        sticky ==> sig >= 0x200_0000,
    ensures
        k <= INFINITY_ORDINAL,
        !sticky ==> rounds_to(fraction(sig as int, exp as int), fraction_unit(), k as nat),
        sticky ==> encloses(fraction(sig as int, exp as int), fraction_unit(), k as nat)
            && encloses(fraction(sig + 1, exp as int), fraction_unit(), k as nat),
{
    let jammed: u64 = if sticky {
        2 * sig + 1
    } else {
        2 * sig
    };
    let k: u32 = round_fraction(jammed, exp - 1);
    proof {
        let fine = pow2((exp - 1 + 512) as nat) as int;
        let unit = pow2((exp + 512) as nat) as int;
        lemma_pow2_unfold((exp + 512) as nat);
        lemma_pow2_pos(512);
        assert(fraction(2 * sig, exp - 1) == fraction(sig as int, exp as int)) by (nonlinear_arith)
            requires
                fraction(2 * sig, exp - 1) == (2 * sig) * fine,
                fraction(sig as int, exp as int) == sig * unit,
                unit == 2 * fine,
        ;
        assert(fraction(2 * sig + 2, exp - 1) == fraction(sig + 1, exp as int))
            by (nonlinear_arith)
            requires
                fraction(2 * sig + 2, exp - 1) == (2 * sig + 2) * fine,
                fraction(sig + 1, exp as int) == (sig + 1) * unit,
                unit == 2 * fine,
        ;
    }
    k
}

} // verus!
