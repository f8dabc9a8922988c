//! What rounding keeps: the order of numbers, and every number that has a pattern.
use crate::rounding::{
    bit_len, excess, lemma_bit_len, lemma_bit_len_unique, lemma_field_unit, lemma_magnitude,
    magnitude, nearest,
    rounded, Format,
};
use vstd::arithmetic::div_mod::{
    lemma_div_is_ordered, lemma_fundamental_div_mod, lemma_fundamental_div_mod_converse,
    lemma_mod_bound,
};
use vstd::arithmetic::power2::{
    lemma_pow2_adds, lemma_pow2_pos, lemma_pow2_strictly_increases, pow2,
};
use vstd::prelude::*;

verus! {

pub proof fn lemma_bit_len_monotone(a: nat, b: nat)
    requires
        a <= b,
    ensures
        bit_len(a) <= bit_len(b),
{
    if a > 0 {
        lemma_bit_len(a);
        lemma_bit_len(b);
        if bit_len(a) > bit_len(b) {
            let k = (bit_len(a) - 1) as nat;
            if bit_len(b) < k {
                lemma_pow2_strictly_increases(bit_len(b), k);
            }
        }
    }
}

proof fn lemma_nearest_monotone(a: nat, b: nat, d: nat)
    requires
        a <= b,
        d > 0,
    ensures
        nearest(a, d) <= nearest(b, d),
{
    lemma_fundamental_div_mod(a as int, d as int);
    lemma_fundamental_div_mod(b as int, d as int);
    lemma_mod_bound(a as int, d as int);
    lemma_mod_bound(b as int, d as int);
    lemma_div_is_ordered(a as int, b as int, d as int);
}

/// Where the digits that the format keeps end up: below two units, and at or above one unit
/// where any are dropped.
pub proof fn lemma_nearest_range(f: Format, n: nat, d: nat)
    requires
        d > 0,
    ensures
        ({
            let s = excess(f, n / d);
            let m = nearest(n, d * pow2(s));
            &&& m <= 2 * f.field_unit()
            &&& s > 0 ==> m >= f.field_unit()
        }),
{
    let p = f.precision();
    let q = n / d;
    let s = excess(f, q);
    let w = pow2(s);
    let dw = d * w;
    lemma_field_unit(f);
    lemma_pow2_pos(s);
    lemma_pow2_pos(p);
    lemma_fundamental_div_mod(n as int, d as int);
    lemma_mod_bound(n as int, d as int);
    assert(dw > 0) by (nonlinear_arith)
        requires
            d > 0,
            w > 0,
            dw == d * w,
    ;
    let k = n / dw;
    lemma_fundamental_div_mod(n as int, dw as int);
    lemma_mod_bound(n as int, dw as int);
    if q > 0 {
        lemma_bit_len(q);
    }
    assert(q < pow2(p + s)) by {
        if q > 0 {
            if bit_len(q) < p + s {
                lemma_pow2_strictly_increases(bit_len(q), p + s);
            }
        } else {
            lemma_pow2_pos(p + s);
        }
    }
    lemma_pow2_adds(p, s);
    let top = pow2(p);
    let r = n % d;
    assert(n < d * (q + 1)) by (nonlinear_arith)
        requires
            n == d * q + r,
            r < d,
    ;
    assert(d * (q + 1) <= d * (top * w)) by (nonlinear_arith)
        requires
            q + 1 <= top * w,
    ;
    assert(d * (top * w) == top * dw) by (nonlinear_arith)
        requires
            dw == d * w,
    ;
    assert(k < top) by (nonlinear_arith)
        requires
            n == dw * k + n % dw,
            0 <= n % dw,
            n < top * dw,
            dw > 0,
    ;
    if s > 0 {
        lemma_pow2_adds((p - 1) as nat, s);
        let u = f.field_unit();
        assert(n >= u * dw) by (nonlinear_arith)
            requires
                n == d * q + n % d,
                0 <= n % d,
                q >= u * w,
                dw == d * w,
                d > 0,
        ;
        assert(k >= u) by (nonlinear_arith)
            requires
                n == dw * k + n % dw,
                n % dw < dw,
                n >= u * dw,
                dw > 0,
        ;
    }
}

/// Rounding keeps the order of numbers.
pub proof fn lemma_rounded_monotone(f: Format, a: nat, b: nat, d: nat)
    requires
        a <= b,
        d > 0,
    ensures
        rounded(f, a, d) <= rounded(f, b, d),
{
    let u = f.field_unit();
    lemma_div_is_ordered(a as int, b as int, d as int);
    lemma_bit_len_monotone(a / d, b / d);
    let s = excess(f, a / d);
    let t = excess(f, b / d);
    lemma_nearest_range(f, a, d);
    lemma_nearest_range(f, b, d);
    if s == t {
        lemma_pow2_pos(s);
        let dw = d * pow2(s);
        assert(dw > 0) by (nonlinear_arith)
            requires
                d > 0,
                pow2(s) > 0,
                dw == d * pow2(s),
        ;
        lemma_nearest_monotone(a, b, dw);
    } else {
        assert(s * u + 2 * u <= t * u + u) by (nonlinear_arith)
            requires
                s + 1 <= t,
        ;
    }
}

/// A number that has a pattern is rounded to it.
pub proof fn lemma_rounded_magnitude(f: Format, m: nat)
    requires
        m < f.infinity(),
    ensures
        rounded(f, magnitude(f, m), 1) == m,
{
    let u = f.field_unit();
    let field = m / u;
    let fraction = m % u;
    let v = magnitude(f, m);
    lemma_field_unit(f);
    lemma_fundamental_div_mod(m as int, u as int);
    lemma_mod_bound(m as int, u as int);
    let p = f.precision();
    if field == 0 {
        assert(v == m);
        assert(bit_len(v) <= p) by {
            if v > 0 {
                lemma_bit_len(v);
                if bit_len(v) > p {
                    if bit_len(v) - 1 > p {
                        lemma_pow2_strictly_increases(p, (bit_len(v) - 1) as nat);
                    }
                }
            }
        }
        assert(excess(f, v) == 0);
        vstd::arithmetic::power2::lemma2_to64();
        assert(nearest(v, 1) == v);
    } else {
        let s = (field - 1) as nat;
        let k = u + fraction;
        let w = pow2(s);
        lemma_pow2_pos(s);
        lemma_pow2_adds((p - 1) as nat, s);
        lemma_pow2_adds(p, s);
        assert(u * w <= k * w < 2 * u * w) by (nonlinear_arith)
            requires
                u <= k < 2 * u,
                w > 0,
        ;
        lemma_bit_len_unique(v, p + s);
        assert(excess(f, v) == s);
        lemma_fundamental_div_mod_converse(v as int, w as int, k as int, 0);
        assert(nearest(v, 1 * w) == k);
        assert(s * u + k == m) by (nonlinear_arith)
            requires
                m == u * field + fraction,
                s == field - 1,
                k == u + fraction,
        ;
    }
}

/// A magnitude that is no larger than that of a pattern is rounded to no larger a pattern.
pub proof fn lemma_rounded_below(f: Format, v: nat, m: nat)
    requires
        m < f.infinity(),
        v <= magnitude(f, m),
    ensures
        rounded(f, v, 1) <= m,
{
    lemma_rounded_monotone(f, v, magnitude(f, m), 1);
    lemma_rounded_magnitude(f, m);
}

/// Patterns are ordered as the numbers that they stand for.
pub proof fn lemma_magnitude_order(f: Format, a: nat, b: nat)
    requires
        a < f.infinity(),
        b < f.infinity(),
    ensures
        a <= b <==> magnitude(f, a) <= magnitude(f, b),
{
    if magnitude(f, a) <= magnitude(f, b) {
        lemma_rounded_below(f, magnitude(f, a), b);
        lemma_rounded_magnitude(f, a);
    } else {
        lemma_rounded_below(f, magnitude(f, b), a);
        lemma_rounded_magnitude(f, b);
    }
}

/// How far apart two numbers are.
pub open spec fn gap(a: int, b: int) -> int {
    if a < b {
        b - a
    } else {
        a - b
    }
}

/// `nearest` is no further from `n / w` than any other whole number.
proof fn lemma_nearest_is_best(n: nat, w: nat, j: nat)
    requires
        w > 0,
    ensures
        gap(n as int, (nearest(n, w) * w) as int) <= gap(n as int, (j * w) as int),
{
    let q = n / w;
    let r = n % w;
    lemma_fundamental_div_mod(n as int, w as int);
    lemma_mod_bound(n as int, w as int);
    assert(n == q * w + r) by (nonlinear_arith)
        requires
            n == w * q + r,
    ;
    assert((q + 1) * w == q * w + w) by (nonlinear_arith);
    if j <= q {
        assert(j * w <= q * w) by (nonlinear_arith)
            requires
                j <= q,
        ;
    } else {
        assert(j * w >= (q + 1) * w) by (nonlinear_arith)
            requires
                j >= q + 1,
        ;
    }
}

/// A magnitude of the format is a multiple of two to the power of `s`, or is less than the least
/// one from which on all of them are.
proof fn lemma_magnitude_grid(f: Format, m: nat, s: nat) -> (j: nat)
    ensures
        magnitude(f, m) == j * pow2(s) || (s > 0 && magnitude(f, m) < f.field_unit() * pow2(s)),
{
    let u = f.field_unit();
    let field = m / u;
    let fraction = m % u;
    lemma_mod_bound(m as int, u as int);
    lemma_pow2_pos(s);
    vstd::arithmetic::power2::lemma2_to64();
    let w = pow2(s);
    if field == 0 {
        if s > 0 {
            assert(fraction < u * w) by (nonlinear_arith)
                requires
                    fraction < u,
                    w >= 1,
            ;
        } else {
            assert(fraction * w == fraction) by (nonlinear_arith)
                requires
                    w == 1,
            ;
        }
        fraction
    } else if field - 1 >= s {
        let rest = (field - 1 - s) as nat;
        lemma_pow2_adds(rest, s);
        let j = (u + fraction) * pow2(rest);
        assert((u + fraction) * (pow2(rest) * w) == j * w) by (nonlinear_arith)
            requires
                j == (u + fraction) * pow2(rest),
        ;
        j
    } else {
        let k = u + fraction;
        let x = pow2((field - 1) as nat);
        lemma_pow2_pos((field - 1) as nat);
        vstd::arithmetic::power2::lemma_pow2_unfold(s);
        if field < s {
            lemma_pow2_strictly_increases((field - 1) as nat, (s - 1) as nat);
        }
        assert(k * x < u * w) by (nonlinear_arith)
            requires
                k < 2 * u,
                x > 0,
                2 * x <= w,
        ;
        0
    }
}

/// Rounding yields the nearest number of the format: no other one is nearer to `n / d`.
pub proof fn lemma_rounded_is_nearest(f: Format, n: nat, d: nat, m: nat)
    requires
        d > 0,
        rounded(f, n, d) < f.infinity(),
        m < f.infinity(),
    ensures
        gap(n as int, (magnitude(f, rounded(f, n, d)) * d) as int) <= gap(
            n as int,
            (magnitude(f, m) * d) as int,
        ),
{
    let s = excess(f, n / d);
    let w = pow2(s);
    let u = f.field_unit();
    let dw = d * w;
    lemma_pow2_pos(s);
    assert(dw > 0) by (nonlinear_arith)
        requires
            d > 0,
            w > 0,
            dw == d * w,
    ;
    let k = nearest(n, dw);
    lemma_nearest_range(f, n, d);
    lemma_magnitude(f, s, k);
    assert((k * w) * d == k * dw) by (nonlinear_arith)
        requires
            dw == d * w,
    ;
    let j = lemma_magnitude_grid(f, m, s);
    let v = magnitude(f, m);
    if v == j * w {
        assert((j * w) * d == j * dw) by (nonlinear_arith)
            requires
                dw == d * w,
        ;
        lemma_nearest_is_best(n, dw, j);
    } else {
        lemma_nearest_is_best(n, dw, u);
        assert(v * d <= u * dw) by (nonlinear_arith)
            requires
                v < u * w,
                dw == d * w,
        ;
        lemma_least_dropped(f, n, d);
    }
}

/// Digits are dropped only from magnitudes that fill the format.
proof fn lemma_least_dropped(f: Format, n: nat, d: nat)
    requires
        d > 0,
        excess(f, n / d) > 0,
    ensures
        n >= f.field_unit() * (d * pow2(excess(f, n / d))),
{
    let p = f.precision();
    let q = n / d;
    let s = excess(f, q);
    let w = pow2(s);
    let u = f.field_unit();
    let r = n % d;
    lemma_field_unit(f);
    lemma_fundamental_div_mod(n as int, d as int);
    lemma_mod_bound(n as int, d as int);
    assert(q > 0) by {
        if q == 0 {
            assert(bit_len(0) == 0);
        }
    }
    lemma_bit_len(q);
    lemma_pow2_adds((p - 1) as nat, s);
    assert(n >= u * (d * w)) by (nonlinear_arith)
        requires
            n == d * q + r,
            0 <= r,
            q >= u * w,
            d > 0,
    ;
}

} // verus!
