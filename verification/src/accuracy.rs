//! How far computed sums and products are from the exact ones.
//!
//! Values are counted in quanta of double precision, 2^-1074. A product of two values is counted in
//! squares of the quantum, so a computed number stands for `quanta()` times its value there.
use crate::ieee;
use crate::numbers::Binary64;
use crate::order::{gap, lemma_nearest_range};
use crate::rounding::{
    bit_len, excess, lemma_bit_len, lemma_field_unit, lemma_magnitude, magnitude, nearest, rounded,
    Format,
};
use vstd::arithmetic::div_mod::{lemma_fundamental_div_mod, lemma_mod_bound};
use vstd::arithmetic::power2::{
    lemma2_to64, lemma_pow2_adds, lemma_pow2_pos, lemma_pow2_unfold, pow2,
};
use vstd::prelude::*;

verus! {

/// How many quanta of double precision 1 is.
pub open spec fn quanta() -> int {
    pow2(1074) as int
}

/// One more than the largest whole number below which double precision holds all of them: rounding is
/// off by at most one part in this.
pub open spec fn fineness() -> int {
    0x20_0000_0000_0000
}

/// The size of a number without its sign.
pub open spec fn size(v: int) -> int {
    if v < 0 {
        -v
    } else {
        v
    }
}

/// The sum of the first `n` values of `f`.
pub open spec fn sum_of(f: spec_fn(int) -> int, n: nat) -> int
    decreases n,
{
    if n == 0 {
        0
    } else {
        sum_of(f, (n - 1) as nat) + f(n - 1)
    }
}

/// Rounding is off by at most half a quantum, or by one part in `2^precision`.
pub proof fn lemma_relative_error(f: Format, n: nat, d: nat)
    requires
        d > 0,
        rounded(f, n, d) < f.infinity(),
    ensures
        pow2(f.precision()) * gap(n as int, (magnitude(f, rounded(f, n, d)) * d) as int) <= n
            || 2 * gap(n as int, (magnitude(f, rounded(f, n, d)) * d) as int) <= d,
{
    let p = f.precision();
    let q = n / d;
    let s = excess(f, q);
    let w = pow2(s);
    let dw = d * w;
    lemma_pow2_pos(s);
    lemma_nearest_range(f, n, d);
    assert(dw > 0) by (nonlinear_arith)
        requires
            d > 0,
            w > 0,
            dw == d * w,
    ;
    let k = nearest(n, dw);
    lemma_magnitude(f, s, k);
    let m = k * w;
    assert(m * d == k * dw) by (nonlinear_arith)
        requires
            m == k * w,
            dw == d * w,
    ;
    let g = gap(n as int, (k * dw) as int);
    let a = n / dw;
    let b = n % dw;
    lemma_fundamental_div_mod(n as int, dw as int);
    lemma_mod_bound(n as int, dw as int);
    assert(n == a * dw + b) by (nonlinear_arith)
        requires
            n == dw * a + b,
    ;
    assert((a + 1) * dw == a * dw + dw) by (nonlinear_arith);
    assert(2 * g <= dw);
    lemma2_to64();
    if s > 0 {
        lemma_field_unit(f);
        assert(q > 0) by {
            if q == 0 {
                assert(bit_len(0) == 0);
            }
        }
        lemma_bit_len(q);
        lemma_pow2_adds((p - 1) as nat, s);
        let u = pow2((p - 1) as nat);
        lemma_fundamental_div_mod(n as int, d as int);
        lemma_mod_bound(n as int, d as int);
        let r = n % d;
        assert(n >= u * dw) by (nonlinear_arith)
            requires
                n == d * q + r,
                r >= 0,
                q >= u * w,
                dw == d * w,
                d > 0,
        ;
        lemma_pow2_unfold(p);
        assert((2 * u) * g <= n) by (nonlinear_arith)
            requires
                2 * g <= dw,
                n >= u * dw,
                u >= 0,
        ;
    } else {
        assert(d * 1 == d);
    }
}

/// A sum is finite only where both numbers are.
pub proof fn lemma_finite_sum(a: Binary64, b: Binary64)
    requires
        a.sum(b).is_finite(),
    ensures
        a.is_finite(),
        b.is_finite(),
{
}

/// A product is finite only where both numbers are.
pub proof fn lemma_finite_product(a: Binary64, b: Binary64)
    requires
        a.product(b).is_finite(),
    ensures
        a.is_finite(),
        b.is_finite(),
{
}

/// A finite sum is off by at most one part in 2^53.
pub proof fn lemma_sum_accuracy(a: Binary64, b: Binary64)
    requires
        a.sum(b).is_finite(),
    ensures
        fineness() * size(a.sum(b).value() - (a.value() + b.value())) <= size(
            a.value() + b.value(),
        ),
{
    let f = Format::Binary64;
    let v = a.value() + b.value();
    lemma2_to64();
    vstd::arithmetic::power2::lemma2_to64_rest();
    assert(magnitude(f, 0) == 0);
    if v != 0 {
        let x = ieee::abs(v);
        lemma_relative_error(f, x, 1);
        let m = magnitude(f, rounded(f, x, 1));
        assert(m * 1 == m);
        assert(pow2(53) == fineness());
        if 2 * gap(x as int, m as int) <= 1 {
            assert(gap(x as int, m as int) == 0);
        }
    }
}

/// A finite product is off by at most one part in 2^53 and half a quantum.
pub proof fn lemma_product_accuracy(a: Binary64, b: Binary64)
    requires
        a.product(b).is_finite(),
    ensures
        fineness() * size(a.product(b).value() * quanta() - a.value() * b.value()) <= size(
            a.value() * b.value(),
        ) + fineness() * quanta(),
{
    let f = Format::Binary64;
    let x = magnitude(f, ieee::body(f, a.bits));
    let y = magnitude(f, ieee::body(f, b.bits));
    let q = pow2(1074);
    lemma_pow2_pos(1074);
    lemma2_to64();
    vstd::arithmetic::power2::lemma2_to64_rest();
    assert(pow2(53) == fineness());
    let n = x * y;
    let r = rounded(f, n, q);
    lemma_relative_error(f, n, q);
    let m = magnitude(f, r);
    let g = gap(n as int, (m * q) as int);
    assert(fineness() * g <= n + fineness() * q) by (nonlinear_arith)
        requires
            fineness() * g <= n || 2 * g <= q,
            n >= 0,
            q >= 0,
            g >= 0,
            fineness() >= 0,
    ;
    let va = a.value();
    let vb = b.value();
    let na = ieee::negative(f, a.bits);
    let nb = ieee::negative(f, b.bits);
    let neg = na != nb;
    assert(va * vb == if neg {
        -(n as int)
    } else {
        n as int
    }) by (nonlinear_arith)
        requires
            va == if na {
                -(x as int)
            } else {
                x as int
            },
            vb == if nb {
                -(y as int)
            } else {
                y as int
            },
            n == x * y,
            neg == (na != nb),
    ;
    let vp = a.product(b).value();
    assert(a.product(b).bits == ieee::pattern(f, neg, r));
    assert(vp == if neg {
        -(m as int)
    } else {
        m as int
    });
    let mq = (m * q) as int;
    assert(vp * quanta() == if neg {
        -mq
    } else {
        mq
    }) by (nonlinear_arith)
        requires
            vp == if neg {
                -(m as int)
            } else {
                m as int
            },
            mq == m * q,
            quanta() == q,
    ;
    assert(size(vp * quanta() - va * vb) == g);
}

/// Whether `s` is close to `exact` squares of the quantum, for a sum of `k` terms whose sizes add up to
/// `total`: it is off by at most `3 k` parts in 2^53 of the total, and `2 k - 1` quanta.
pub open spec fn approximates(s: Binary64, exact: int, total: int, k: nat) -> bool {
    &&& s.is_finite()
    &&& k >= 1
    &&& size(exact) <= total
    &&& fineness() * size(s.value() * quanta() - exact) <= 3 * k * total + fineness() * ((2 * k
        - 1) * quanta())
}

/// How many terms a sum may have for `approximates`.
pub open spec fn term_limit() -> nat {
    0x4_0000_0000_0000
}

pub proof fn lemma_zero_approximates()
    ensures
        approximates(Binary64 { bits: 0 }, 0, 0, 1),
{
    lemma_pow2_pos(1074);
    assert(magnitude(Format::Binary64, 0) == 0);
    let q = quanta();
    assert((2 * 1 - 1) * q == q) by (nonlinear_arith);
    assert(0 * q == 0);
}

/// A finite product approximates the exact one.
pub proof fn lemma_product_approximates(a: Binary64, b: Binary64)
    requires
        a.product(b).is_finite(),
    ensures
        approximates(a.product(b), a.value() * b.value(), size(a.value() * b.value()), 1),
{
    lemma_product_accuracy(a, b);
    let q = quanta();
    assert((2 * 1nat - 1) * q == q) by (nonlinear_arith);
    let total = size(a.value() * b.value());
    assert(3 * 1nat * total == 3 * total) by (nonlinear_arith);
}

/// A finite number approximates itself.
pub proof fn lemma_number_approximates(a: Binary64)
    requires
        a.is_finite(),
    ensures
        approximates(a, a.value() * quanta(), size(a.value() * quanta()), 1),
{
    lemma_pow2_pos(1074);
    let q = quanta();
    assert((2 * 1 - 1) * q == q) by (nonlinear_arith);
}

/// Approximations add up.
pub proof fn lemma_sum_approximates(
    a: Binary64,
    x: int,
    ta: int,
    j: nat,
    b: Binary64,
    y: int,
    tb: int,
    k: nat,
)
    requires
        approximates(a, x, ta, j),
        approximates(b, y, tb, k),
        a.sum(b).is_finite(),
        j + k <= term_limit(),
    ensures
        approximates(a.sum(b), x + y, ta + tb, j + k),
{
    lemma_sum_accuracy(a, b);
    lemma_pow2_pos(1074);
    let q = quanta();
    let t = fineness();
    let va = a.value();
    let vb = b.value();
    let v = a.sum(b).value();
    let ea = size(va * q - x);
    let eb = size(vb * q - y);
    let total = ta + tb;
    let n = j + k;
    let off = size(v - (va + vb));
    // The rounding of the sum, in squares of the quantum.
    assert(size(v * q - (va + vb) * q) == off * q) by (nonlinear_arith)
        requires
            off == size(v - (va + vb)),
            q > 0,
    ;
    assert((va + vb) * q == va * q + vb * q) by (nonlinear_arith);
    assert(size(va + vb) * q == size(va * q + vb * q)) by (nonlinear_arith)
        requires
            q > 0,
    ;
    assert(t * (off * q) <= size(va + vb) * q) by (nonlinear_arith)
        requires
            t * off <= size(va + vb),
            q > 0,
    ;
    let e = ea + eb;
    assert(size(va * q + vb * q) <= total + e);
    let err = size(v * q - (x + y));
    assert(err <= off * q + e);
    assert(t * err <= t * (off * q) + t * e) by (nonlinear_arith)
        requires
            err <= off * q + e,
            t > 0,
    ;
    assert(t * e == t * ea + t * eb) by (nonlinear_arith)
        requires
            e == ea + eb,
    ;
    let qs = (2 * n - 2) * q;
    assert((2 * j - 1) * q + (2 * k - 1) * q == qs) by (nonlinear_arith)
        requires
            qs == (2 * n - 2) * q,
            n == j + k,
    ;
    assert(t * ((2 * j - 1) * q) + t * ((2 * k - 1) * q) == t * qs) by (nonlinear_arith)
        requires
            (2 * j - 1) * q + (2 * k - 1) * q == qs,
    ;
    assert(3 * j * ta <= 3 * (n - 1) * ta) by (nonlinear_arith)
        requires
            j <= n - 1,
            ta >= 0,
    ;
    assert(3 * k * tb <= 3 * (n - 1) * tb) by (nonlinear_arith)
        requires
            k <= n - 1,
            tb >= 0,
    ;
    assert(3 * (n - 1) * ta + 3 * (n - 1) * tb == 3 * (n - 1) * total) by (nonlinear_arith)
        requires
            total == ta + tb,
    ;
    assert(t * e <= 3 * (n - 1) * total + t * qs);
    // The errors together are small against the total and against one more quantum.
    assert(8 * (3 * (n - 1) * total) <= t * (3 * total)) by (nonlinear_arith)
        requires
            8 * (n - 1) <= t,
            total >= 0,
    ;
    assert(4 * qs <= t * q) by (nonlinear_arith)
        requires
            qs == (2 * n - 2) * q,
            4 * (2 * n - 2) <= t,
            q > 0,
    ;
    assert(e <= total + t * q) by (nonlinear_arith)
        requires
            t * e <= 3 * (n - 1) * total + t * qs,
            8 * (3 * (n - 1) * total) <= t * (3 * total),
            4 * qs <= t * q,
            t == 0x20_0000_0000_0000,
            q > 0,
            total >= 0,
    ;
    assert(3 * n * total == 3 * (n - 1) * total + 3 * total) by (nonlinear_arith);
    let most = (2 * n - 1) * q;
    assert(most == qs + q) by (nonlinear_arith)
        requires
            qs == (2 * n - 2) * q,
            most == (2 * n - 1) * q,
    ;
    assert(t * most == t * qs + t * q) by (nonlinear_arith)
        requires
            most == qs + q,
    ;
    assert(t * err <= 3 * n * total + t * most);
}

/// Negation keeps an approximation.
pub proof fn lemma_negation_approximates(b: Binary64, negated: Binary64, y: int, tb: int, k: nat)
    requires
        approximates(b, y, tb, k),
        negated.is_finite(),
        negated.value() == -b.value(),
    ensures
        approximates(negated, -y, tb, k),
{
    let q = quanta();
    let v = b.value();
    assert((-v) * q == -(v * q)) by (nonlinear_arith);
}

} // verus!
