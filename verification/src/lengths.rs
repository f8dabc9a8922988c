//! Vectors that are brought to length 1 have length 1, up to rounding.
use crate::accuracy::{
    fineness, lemma_finite_product, lemma_finite_sum, lemma_product_accuracy, lemma_relative_error,
    quanta, size,
};
use crate::calibration::{normalised, square_sum, EPSILON};
use crate::ieee;
use crate::numbers::Binary64;
use crate::order::{gap, lemma_magnitude_order, lemma_nearest_range};
use crate::roots::{floor_root, lemma_floor_root_exists};
use crate::rounding::{
    bit_len, excess, lemma_bit_len, lemma_field_unit, magnitude, rounded, Format,
};
use crate::spectrum::{exact_square, lemma_square_sum};
use vstd::arithmetic::div_mod::{
    lemma_fundamental_div_mod, lemma_fundamental_div_mod_converse, lemma_mod_bound,
};
use vstd::arithmetic::power2::{
    lemma2_to64, lemma_pow2_adds, lemma_pow2_pos, lemma_pow2_strictly_increases, pow2,
};
use vstd::prelude::*;

verus! {

/// Whether `a` is off from `b` by at most `k` parts in 2^53.
pub open spec fn close(a: int, b: int, k: int) -> bool {
    &&& b >= 0
    &&& k >= 0
    &&& fineness() * size(a - b) <= k * b
}

proof fn lemma_close_chain(a: int, b: int, c: int, j: int, k: int)
    requires
        close(a, b, j),
        close(b, c, k),
        j <= 0x400_0000,
        k <= 0x400_0000,
    ensures
        close(a, c, j + k + 1),
{
    let t = fineness();
    assert(j * k <= t) by (nonlinear_arith)
        requires
            0 <= j <= 0x400_0000,
            0 <= k <= 0x400_0000,
            t == 0x20_0000_0000_0000,
    ;
    let e = size(b - c);
    assert(t * (j * e) == j * (t * e)) by (nonlinear_arith);
    assert(j * (t * e) <= j * (k * c)) by (nonlinear_arith)
        requires
            t * e <= k * c,
            j >= 0,
    ;
    assert(j * (k * c) <= t * c) by (nonlinear_arith)
        requires
            j * k <= t,
            c >= 0,
    ;
    assert(j * e <= c) by (nonlinear_arith)
        requires
            t * (j * e) <= t * c,
            t > 0,
    ;
    assert(j * b <= j * c + j * e) by (nonlinear_arith)
        requires
            b <= c + e,
            j >= 0,
    ;
    assert(t * size(a - c) <= t * size(a - b) + t * e) by (nonlinear_arith)
        requires
            size(a - c) <= size(a - b) + e,
            t > 0,
    ;
    assert((j + k + 1) * c == j * c + k * c + c) by (nonlinear_arith);
}

proof fn lemma_close_reversed(a: int, b: int, k: int)
    requires
        close(a, b, k),
        k <= 0x1000_0000,
        a >= 0,
    ensures
        close(b, a, 2 * k),
{
    let t = fineness();
    let e = size(a - b);
    assert(2 * e <= b) by (nonlinear_arith)
        requires
            t * e <= k * b,
            0 <= k <= 0x1000_0000,
            t == 0x20_0000_0000_0000,
            b >= 0,
    ;
    assert(k * b <= (2 * k) * a) by (nonlinear_arith)
        requires
            b <= 2 * a,
            k >= 0,
    ;
}

proof fn lemma_close_product(a: int, b: int, c: int, d: int, j: int, k: int)
    requires
        close(a, b, j),
        close(c, d, k),
        a >= 0,
        c >= 0,
        j <= 0x400_0000,
        k <= 0x400_0000,
    ensures
        close(a * c, b * d, j + k + 1),
{
    let t = fineness();
    let e = size(a - b);
    let g = size(c - d);
    let bd = b * d;
    assert(bd >= 0) by (nonlinear_arith)
        requires
            b >= 0,
            d >= 0,
            bd == b * d,
    ;
    assert(a * c - b * d == (a - b) * c + b * (c - d)) by (nonlinear_arith);
    assert(size((a - b) * c) == e * c) by (nonlinear_arith)
        requires
            e == size(a - b),
            c >= 0,
    ;
    assert(size(b * (c - d)) == b * g) by (nonlinear_arith)
        requires
            g == size(c - d),
            b >= 0,
    ;
    assert(size(a * c - bd) <= e * c + b * g);
    assert(t * size(a * c - bd) <= t * (e * c) + t * (b * g)) by (nonlinear_arith)
        requires
            size(a * c - bd) <= e * c + b * g,
            t > 0,
    ;
    assert(t * (e * c) <= (j * b) * c) by (nonlinear_arith)
        requires
            t * e <= j * b,
            c >= 0,
    ;
    assert(t * (b * g) <= b * (k * d)) by (nonlinear_arith)
        requires
            t * g <= k * d,
            b >= 0,
    ;
    assert(b * (k * d) == k * bd) by (nonlinear_arith)
        requires
            bd == b * d,
    ;
    assert((j * b) * c <= j * bd + (j * b) * g) by (nonlinear_arith)
        requires
            c <= d + g,
            j >= 0,
            b >= 0,
            bd == b * d,
    ;
    assert(j * k <= t) by (nonlinear_arith)
        requires
            0 <= j <= 0x400_0000,
            0 <= k <= 0x400_0000,
            t == 0x20_0000_0000_0000,
    ;
    assert(t * ((j * b) * g) <= (j * k) * bd) by (nonlinear_arith)
        requires
            t * (b * g) <= k * bd,
            j >= 0,
    ;
    assert((j * k) * bd <= t * bd) by (nonlinear_arith)
        requires
            j * k <= t,
            bd >= 0,
    ;
    assert((j * b) * g <= bd) by (nonlinear_arith)
        requires
            t * ((j * b) * g) <= t * bd,
            t > 0,
    ;
    assert((j + k + 1) * bd == j * bd + k * bd + bd) by (nonlinear_arith);
}

proof fn lemma_close_scaled(m: int, a: int, b: int, k: int)
    requires
        close(a, b, k),
        m >= 0,
    ensures
        close(m * a, m * b, k),
{
    let t = fineness();
    let e = size(a - b);
    assert(size(m * a - m * b) == m * e) by (nonlinear_arith)
        requires
            e == size(a - b),
            m >= 0,
    ;
    assert(t * (m * e) <= k * (m * b)) by (nonlinear_arith)
        requires
            t * e <= k * b,
            m >= 0,
    ;
    assert(m * b >= 0) by (nonlinear_arith)
        requires
            m >= 0,
            b >= 0,
    ;
}

proof fn lemma_close_cancelled(m: int, a: int, b: int, k: int)
    requires
        close(m * a, m * b, k),
        m > 0,
    ensures
        close(a, b, k),
{
    let t = fineness();
    let e = size(a - b);
    assert(size(m * a - m * b) == m * e) by (nonlinear_arith)
        requires
            e == size(a - b),
            m > 0,
    ;
    assert(t * e <= k * b) by (nonlinear_arith)
        requires
            t * (m * e) <= k * (m * b),
            m > 0,
    ;
    assert(b >= 0) by (nonlinear_arith)
        requires
            m * b >= 0,
            m > 0,
    ;
}

/// A magnitude whose whole part is not too long is finite.
proof fn lemma_rounded_finite(n: nat, d: nat)
    requires
        d > 0,
        bit_len(n / d) <= 2090,
    ensures
        rounded(Format::Binary64, n, d) < Format::Binary64.infinity(),
{
    let f = Format::Binary64;
    lemma_nearest_range(f, n, d);
    let s = excess(f, n / d);
    let u = f.field_unit();
    assert(s * u + 2 * u < 2047 * u) by (nonlinear_arith)
        requires
            s <= 2037,
            u > 0,
    ;
}

/// The digits of a number below a power of two.
proof fn lemma_short(n: nat, l: nat)
    requires
        n < pow2(l),
    ensures
        bit_len(n) <= l,
{
    if n > 0 {
        lemma_bit_len(n);
        if bit_len(n) > l {
            if bit_len(n) - 1 > l {
                lemma_pow2_strictly_increases(l, (bit_len(n) - 1) as nat);
            }
        }
    }
}

/// A finite number is below 2^2098 quanta.
proof fn lemma_finite_bound(m: nat)
    requires
        m < Format::Binary64.infinity(),
    ensures
        magnitude(Format::Binary64, m) < pow2(2098),
{
    let f = Format::Binary64;
    let u = f.field_unit();
    let field = m / u;
    let fraction = m % u;
    lemma_field_unit(f);
    lemma_fundamental_div_mod(m as int, u as int);
    lemma_mod_bound(m as int, u as int);
    lemma_pow2_adds(53, 2045);
    lemma_pow2_pos(2045);
    if field == 0 {
        let x = pow2(2045);
        assert(2 * u * x >= 2 * u) by (nonlinear_arith)
            requires
                x >= 1,
                u > 0,
        ;
    } else {
        assert(field <= 2046) by (nonlinear_arith)
            requires
                m == u * field + fraction,
                fraction >= 0,
                m < 2047 * u,
                u > 0,
        ;
        let e = (field - 1) as nat;
        if e < 2045 {
            lemma_pow2_strictly_increases(e, 2045);
        }
        let k = u + fraction;
        let x = pow2(2045);
        let y = pow2(e);
        lemma_pow2_pos(e);
        assert(k * y < (2 * u) * x) by (nonlinear_arith)
            requires
                k < 2 * u,
                0 < y <= x,
        ;
    }
}

/// The square root of a number that is not tiny: its square is close to the number.
pub proof fn lemma_root_accuracy(a: Binary64)
    requires
        a.is_finite(),
        a.value() >= pow2(1022),
    ensures
        a.root().is_finite(),
        pow2(1000) <= a.root().value() < pow2(1600),
        close(a.root().value() * a.root().value(), a.value() * quanta(), 5),
{
    let f = Format::Binary64;
    let v = magnitude(f, ieee::body(f, a.bits));
    lemma_pow2_pos(1022);
    assert(!ieee::negative(f, a.bits));
    assert(a.value() == v);
    assert(magnitude(f, 0) == 0);
    let n = v * pow2(1074);
    let r = floor_root(n);
    lemma_floor_root_exists(n);
    let mark: nat = if r * r == n {
        0
    } else {
        1
    };
    let digits = 2 * r + mark;
    let b = rounded(f, digits, 2);
    // How large the root is.
    lemma_finite_bound(ieee::body(f, a.bits));
    lemma_pow2_adds(2098, 1074);
    lemma_pow2_adds(1586, 1586);
    lemma_pow2_adds(1022, 1074);
    lemma_pow2_adds(1048, 1048);
    lemma_pow2_pos(1074);
    let q = pow2(1074);
    let top = pow2(1586);
    let low = pow2(1048);
    assert(n < top * top) by (nonlinear_arith)
        requires
            n == v * q,
            v < pow2(2098),
            pow2(2098) * q == top * top,
            q > 0,
    ;
    assert(n >= low * low) by (nonlinear_arith)
        requires
            n == v * q,
            v >= pow2(1022),
            pow2(1022) * q == low * low,
            q > 0,
    ;
    assert(r < top) by (nonlinear_arith)
        requires
            r * r <= n,
            n < top * top,
            r >= 0,
            top >= 0,
    ;
    assert(r + 1 > low) by (nonlinear_arith)
        requires
            n < (r + 1) * (r + 1),
            n >= low * low,
            r >= 0,
            low >= 0,
    ;
    assert(digits / 2 == r);
    lemma_short(r, 1586);
    lemma_rounded_finite(digits, 2);
    assert(a.root().bits == b as u64);
    let x = magnitude(f, b);
    assert(a.root().value() == x);
    // The rounding of the root.
    lemma_relative_error(f, digits, 2);
    lemma2_to64();
    vstd::arithmetic::power2::lemma2_to64_rest();
    let t = fineness();
    assert(pow2(53) == t);
    let g = gap(digits as int, (x * 2) as int);
    lemma_pow2_adds(60, 988);
    lemma_pow2_pos(988);
    let rest = pow2(988);
    assert(low >= 0x1000_0000_0000_0000) by (nonlinear_arith)
        requires
            low == 0x1000_0000_0000_0000 * rest,
            rest >= 1,
    ;
    assert(t * g <= digits) by {
        if 2 * g <= 2 {
            assert(t * g <= t) by (nonlinear_arith)
                requires
                    g <= 1,
                    t > 0,
            ;
        }
    }
    let w = (2 * x) as int;
    let dg = digits as int;
    assert(close(w, dg, 1));
    lemma_close_product(w, dg, w, dg, 1, 1);
    // The digits of the root against the number.
    let nn = 4 * (n as int);
    assert(size(dg * dg - nn) <= 8 * r + 4) by (nonlinear_arith)
        requires
            dg == 2 * r || dg == 2 * r + 1,
            nn == 4 * n,
            r * r <= n,
            n < (r + 1) * (r + 1),
            r >= 0,
    ;
    assert(t * (8 * r + 4) <= nn) by (nonlinear_arith)
        requires
            nn == 4 * n,
            r * r <= n,
            r >= 0x0fff_ffff_ffff_ffff,
            t == 0x20_0000_0000_0000,
    ;
    assert(t * size(dg * dg - nn) <= t * (8 * r + 4)) by (nonlinear_arith)
        requires
            size(dg * dg - nn) <= 8 * r + 4,
            t > 0,
    ;
    assert(close(dg * dg, nn, 1));
    lemma_close_chain(w * w, dg * dg, nn, 3, 1);
    let xx = (x as int) * (x as int);
    assert(w * w == 4 * xx) by (nonlinear_arith)
        requires
            w == 2 * x,
            xx == x * x,
    ;
    lemma_close_cancelled(4, xx, n as int, 5);
    // The range of the rounded root.
    lemma_pow2_strictly_increases(1000, 1047);
    lemma_pow2_strictly_increases(1587, 1600);
    vstd::arithmetic::power2::lemma_pow2_unfold(1587);
    vstd::arithmetic::power2::lemma_pow2_unfold(1048);
    assert(4 * g <= digits) by (nonlinear_arith)
        requires
            t * g <= digits,
            t == 0x20_0000_0000_0000,
            g >= 0,
    ;
}

/// The reciprocal of a root: its product with the root is close to 1.
proof fn lemma_reciprocal_accuracy(a: Binary64)
    requires
        a.is_finite(),
        pow2(1000) <= a.value() < pow2(1600),
    ensures
        a.reciprocal().is_finite(),
        a.reciprocal().value() > 0,
        close(a.reciprocal().value() * a.value(), quanta() * quanta(), 1),
{
    let f = Format::Binary64;
    let v = magnitude(f, ieee::body(f, a.bits));
    lemma_pow2_pos(1000);
    assert(!ieee::negative(f, a.bits));
    assert(a.value() == v);
    assert(magnitude(f, 0) == 0);
    let n = pow2(2148);
    let q = n / v;
    let r = n % v;
    lemma_fundamental_div_mod(n as int, v as int);
    lemma_mod_bound(n as int, v as int);
    lemma_pow2_adds(1000, 1148);
    lemma_pow2_adds(1600, 548);
    lemma_pow2_pos(1148);
    lemma_pow2_pos(548);
    let up = pow2(1148);
    let low = pow2(1000);
    assert(q <= up) by (nonlinear_arith)
        requires
            n == v * q + r,
            r >= 0,
            n == low * up,
            v >= low,
            low > 0,
            q >= 0,
    ;
    lemma_pow2_strictly_increases(1148, 1149);
    lemma_short(q, 1149);
    lemma_rounded_finite(n, v);
    let b = rounded(f, n, v);
    lemma_relative_error(f, n, v);
    let c = magnitude(f, b);
    let t = fineness();
    lemma2_to64();
    vstd::arithmetic::power2::lemma2_to64_rest();
    assert(pow2(53) == t);
    let g = gap(n as int, (c * v) as int);
    lemma_pow2_adds(53, 495);
    lemma_pow2_pos(495);
    let big = pow2(548);
    let rest = pow2(495);
    assert(t * g <= n) by {
        if 2 * g <= v {
            assert(big >= t) by (nonlinear_arith)
                requires
                    big == t * rest,
                    rest >= 1,
                    t > 0,
            ;
            assert(t * g <= n) by (nonlinear_arith)
                requires
                    2 * g <= v,
                    v < pow2(1600),
                    n == pow2(1600) * big,
                    big >= t,
                    t > 0,
                    g >= 0,
            ;
        }
    }
    lemma_pow2_adds(1074, 1074);
    assert(a.reciprocal().bits == b as u64);
    assert(a.reciprocal().value() == c);
    assert(c > 0) by {
        if c == 0 {
            assert(0 * v == 0);
            lemma_pow2_pos(2148);
            assert(t * n > n) by (nonlinear_arith)
                requires
                    n > 0,
                    t > 1,
            ;
        }
    }
}

/// Only vectors of finite numbers have a finite squared length.
proof fn lemma_finite_entries(v: Seq<Binary64>, count: nat, j: int)
    requires
        square_sum(v, count).is_finite(),
        0 <= j < count,
    ensures
        v[j].is_finite(),
    decreases count,
{
    let a = v[count - 1];
    lemma_finite_sum(square_sum(v, (count - 1) as nat), a.product(a));
    if j == count - 1 {
        lemma_finite_product(a, a);
    } else {
        lemma_finite_entries(v, (count - 1) as nat, j);
    }
}

/// A square is at most the sum of the squares.
proof fn lemma_square_below(v: Seq<Binary64>, count: nat, j: int)
    requires
        0 <= j < count,
    ensures
        v[j].value() * v[j].value() <= exact_square(v, count),
    decreases count,
{
    lemma_square_positive(v, (count - 1) as nat);
    let a = v[count - 1].value();
    assert(a * a >= 0) by (nonlinear_arith);
    assert(exact_square(v, count) == exact_square(v, (count - 1) as nat) + a * a);
    if j < count - 1 {
        lemma_square_below(v, (count - 1) as nat, j);
    }
}

proof fn lemma_square_positive(v: Seq<Binary64>, count: nat)
    ensures
        exact_square(v, count) >= 0,
    decreases count,
{
    if count > 0 {
        lemma_square_positive(v, (count - 1) as nat);
        let a = v[count - 1].value();
        assert(a * a >= 0) by (nonlinear_arith);
        assert(exact_square(v, count) == exact_square(v, (count - 1) as nat) + a * a);
    }
}

/// The square of a scaled entry, against the square of the exact product.
proof fn lemma_scaled_square(x: Binary64, s: Binary64)
    requires
        x.is_finite(),
        s.is_finite(),
        x.product(s).is_finite(),
        size(x.value() * s.value()) <= 2 * (quanta() * quanta()),
    ensures
        ({
            let p = x.product(s).value();
            let b = x.value() * s.value();
            let q = quanta();
            fineness() * size((p * p) * (q * q) - b * b) <= 3 * (b * b) + fineness() * (9 * (q * (q
                * q)))
        }),
{
    let q = quanta();
    let qq = q * q;
    let t = fineness();
    lemma_pow2_pos(1074);
    lemma_product_accuracy(x, s);
    let p = x.product(s).value();
    let b0 = x.value() * s.value();
    let a = size(p * q);
    let b = size(b0);
    let e = size(p * q - b0);
    assert(t * e <= b + t * q);
    assert(size(a - b) <= e);
    assert((p * p) * qq == a * a) by (nonlinear_arith)
        requires
            a == size(p * q),
            qq == q * q,
    ;
    assert(b0 * b0 == b * b) by (nonlinear_arith)
        requires
            b == size(b0),
    ;
    let h = size(a - b);
    assert(size(a * a - b * b) == h * (a + b)) by (nonlinear_arith)
        requires
            h == size(a - b),
            a >= 0,
            b >= 0,
    ;
    assert(h <= b + q) by (nonlinear_arith)
        requires
            t * e <= b + t * q,
            h <= e,
            t == 0x20_0000_0000_0000,
            b >= 0,
            q > 0,
    ;
    assert(a + b <= 3 * b + q);
    assert(t * (h * (a + b)) <= (b + t * q) * (3 * b + q)) by (nonlinear_arith)
        requires
            t * h <= b + t * q,
            0 <= a + b <= 3 * b + q,
            h >= 0,
            b >= 0,
            q > 0,
            t > 0,
    ;
    let bq = b * q;
    assert((b + t * q) * (3 * b + q) == 3 * (b * b) + bq + 3 * t * bq + t * qq) by (nonlinear_arith)
        requires
            bq == b * q,
            qq == q * q,
    ;
    let qqq = q * qq;
    assert(bq <= 2 * qqq) by (nonlinear_arith)
        requires
            bq == b * q,
            b <= 2 * qq,
            qqq == q * qq,
            q > 0,
    ;
    assert(qq <= qqq) by (nonlinear_arith)
        requires
            qqq == q * qq,
            q >= 1,
            qq >= 0,
    ;
    assert(bq + 3 * t * bq + t * qq <= t * (9 * qqq)) by (nonlinear_arith)
        requires
            bq <= 2 * qqq,
            qq <= qqq,
            qqq >= 0,
            t >= 1,
    ;
}

/// The squared length of a scaled vector, against the scale times the squared length.
proof fn lemma_scaled_length(v: Seq<Binary64>, u: Seq<Binary64>, s: Binary64, count: nat)
    requires
        count <= v.len(),
        u.len() == v.len(),
        s.is_finite(),
        forall|j: int|
            0 <= j < count ==> {
                &&& (#[trigger] u[j]) == v[j].product(s)
                &&& u[j].is_finite()
                &&& v[j].is_finite()
                &&& size(v[j].value() * s.value()) <= 2 * (quanta() * quanta())
            },
    ensures
        ({
            let q = quanta();
            let ss = s.value() * s.value();
            fineness() * size(exact_square(u, count) * (q * q) - ss * exact_square(v, count)) <= 3 * (
            ss * exact_square(v, count)) + fineness() * (count * (9 * (q * (q * q))))
        }),
    decreases count,
{
    let q = quanta();
    let qq = q * q;
    let qqq = q * qq;
    let t = fineness();
    let ss = s.value() * s.value();
    if count == 0 {
        assert(0 * qq == 0);
        assert(ss * 0 == 0);
        assert(0 * (9 * qqq) == 0);
    } else {
        let c = (count - 1) as nat;
        lemma_scaled_length(v, u, s, c);
        assert(u[c as int] == v[c as int].product(s));
        lemma_scaled_square(v[c as int], s);
        let p = u[c as int].value();
        let x = v[c as int].value();
        let b = x * s.value();
        let n0 = exact_square(u, c);
        let m0 = exact_square(v, c);
        assert(exact_square(u, count) == n0 + p * p);
        assert(exact_square(v, count) == m0 + x * x);
        assert(b * b == ss * (x * x)) by (nonlinear_arith)
            requires
                b == x * s.value(),
                ss == s.value() * s.value(),
        ;
        let xx = x * x;
        let pp = p * p;
        assert((n0 + pp) * qq == n0 * qq + pp * qq) by (nonlinear_arith);
        assert(ss * (m0 + xx) == ss * m0 + ss * xx) by (nonlinear_arith);
        let d0 = size(n0 * qq - ss * m0);
        let d1 = size(pp * qq - ss * xx);
        let d2 = size((n0 + pp) * qq - ss * (m0 + xx));
        assert(d2 <= d0 + d1);
        assert(t * d2 <= t * d0 + t * d1) by (nonlinear_arith)
            requires
                d2 <= d0 + d1,
                t > 0,
        ;
        let z = 9 * qqq;
        assert(t * (count * z) == t * (c * z) + t * z) by (nonlinear_arith)
            requires
                count == c + 1,
        ;
    }
}

/// The scale by which a vector is brought to length 1: times itself and the squared length it is close
/// to 1.
proof fn lemma_scale(v: Seq<Binary64>)
    requires
        v.len() <= 0x10_0000,
        square_sum(v, v.len()).is_finite(),
        !square_sum(v, v.len()).less(Binary64 { bits: EPSILON }),
    ensures
        ({
            let s = square_sum(v, v.len()).root().reciprocal();
            let q = quanta();
            &&& s.is_finite()
            &&& s.value() > 0
            &&& close(
                (s.value() * s.value()) * exact_square(v, v.len()),
                (q * q) * (q * q),
                6 * v.len() as int + 23,
            )
        }),
{
    let f = Format::Binary64;
    let d = v.len();
    let norm = square_sum(v, d);
    let t = fineness();
    let q = quanta();
    let qq = q * q;
    lemma_pow2_pos(1074);
    // The squared length is not tiny.
    lemma2_to64();
    vstd::arithmetic::power2::lemma2_to64_rest();
    lemma_fundamental_div_mod_converse(EPSILON as int, 0x10_0000_0000_0000, 971, 0);
    lemma_pow2_adds(52, 970);
    assert(magnitude(f, EPSILON as nat) == pow2(1022));
    lemma_magnitude_order(f, EPSILON as nat, ieee::body(f, norm.bits));
    let vn = norm.value();
    assert(vn >= pow2(1022));
    lemma_root_accuracy(norm);
    let r = norm.root();
    lemma_reciprocal_accuracy(r);
    let s = r.reciprocal();
    let vr = r.value();
    let vs = s.value();
    lemma_pow2_pos(1000);
    // The exact squared length against the computed one.
    lemma_square_sum(v, d);
    let m = exact_square(v, d);
    let vq = vn * q;
    let e = size(vq - m);
    let dq = (2 * (d + 1) - 1) * q;
    assert(t * e <= 3 * (d + 1) * m + t * dq);
    lemma_pow2_adds(80, 942);
    lemma_pow2_adds(16, 64);
    lemma_pow2_pos(942);
    let rest = pow2(942);
    assert(t * dq <= vq) by {
        assert(pow2(80) == 0x1_0000_0000_0000_0000_0000);
        assert(vn >= 0x1_0000_0000_0000_0000_0000) by (nonlinear_arith)
            requires
                vn >= 0x1_0000_0000_0000_0000_0000 * rest,
                rest >= 1,
        ;
        let w = 2 * (d + 1) - 1;
        assert(t * w <= vn) by (nonlinear_arith)
            requires
                w <= 0x20_0001,
                t == 0x20_0000_0000_0000,
                vn >= 0x1_0000_0000_0000_0000_0000,
        ;
        assert(t * (w * q) <= vn * q) by (nonlinear_arith)
            requires
                t * w <= vn,
                q > 0,
        ;
    }
    assert(close(m, vq, 6 * d as int + 8)) by {
        let k = 3 * (d + 1);
        assert(t * e <= k * (vq + e) + vq) by (nonlinear_arith)
            requires
                t * e <= k * m + t * dq,
                t * dq <= vq,
                m <= vq + e,
                k >= 0,
        ;
        assert(t * e <= (6 * d + 8) * vq) by (nonlinear_arith)
            requires
                t * e <= k * (vq + e) + vq,
                k == 3 * (d + 1),
                2 * k <= t,
                e >= 0,
                vq >= 0,
        ;
    }
    // The scale against the root, and the root against the squared length.
    let ss = vs * vs;
    let rr = vr * vr;
    lemma_close_product(vs * vr, qq, vs * vr, qq, 1, 1);
    assert((vs * vr) * (vs * vr) == ss * rr) by (nonlinear_arith)
        requires
            ss == vs * vs,
            rr == vr * vr,
    ;
    assert(ss >= 0) by (nonlinear_arith)
        requires
            ss == vs * vs,
    ;
    assert(rr >= 0) by (nonlinear_arith)
        requires
            rr == vr * vr,
    ;
    lemma_close_reversed(rr, vq, 5);
    lemma_close_scaled(ss, vq, rr, 10);
    lemma_close_chain(ss * vq, ss * rr, qq * qq, 10, 3);
    lemma_close_scaled(ss, m, vq, 6 * d as int + 8);
    lemma_close_chain(ss * m, ss * vq, qq * qq, 6 * d as int + 8, 14);
}

/// Whether each number of `u` is that of `v` times `s` quanta, up to rounding.
pub open spec fn is_scaled(v: Seq<Binary64>, u: Seq<Binary64>, s: int) -> bool {
    &&& u.len() == v.len()
    &&& forall|j: int|
        0 <= j < v.len() ==> fineness() * size(
            (#[trigger] u[j]).value() * quanta() - v[j].value() * s,
        ) <= size(v[j].value() * s) + fineness() * quanta()
}

/// A vector that is not too short is brought to length 1: each number is scaled by one and the same
/// factor, up to rounding, and the squares of the scaled numbers add up to 1, but for a few parts in
/// 2^53 for each number.
pub proof fn lemma_normalised_has_length_one(v: Seq<Binary64>)
    requires
        v.len() <= 0x10_0000,
        square_sum(v, v.len()).is_finite(),
        !square_sum(v, v.len()).less(Binary64 { bits: EPSILON }),
    ensures
        normalised(v).len() == v.len(),
        forall|j: int| 0 <= j < v.len() ==> (#[trigger] normalised(v)[j]).is_finite(),
        fineness() * size(exact_square(normalised(v), v.len()) - quanta() * quanta()) <= (6 * v.len()
            + 28) * (quanta() * quanta()),
        exists|s: int| s > 0 && #[trigger] is_scaled(v, normalised(v), s),
{
    let d = v.len();
    let q = quanta();
    let qq = q * q;
    let t = fineness();
    let u = normalised(v);
    let s = square_sum(v, d).root().reciprocal();
    let vs = s.value();
    let ss = vs * vs;
    let m = exact_square(v, d);
    lemma_pow2_pos(1074);
    lemma_scale(v);
    let qqqq = qq * qq;
    assert(qq > 0) by (nonlinear_arith)
        requires
            qq == q * q,
            q > 0,
    ;
    // The scaled squared length lies between half of 1 and twice 1.
    let sm = ss * m;
    assert(2 * sm >= qqqq && sm <= 2 * qqqq) by (nonlinear_arith)
        requires
            t * size(sm - qqqq) <= (6 * d + 23) * qqqq,
            qqqq >= 0,
            2 * (6 * d + 23) <= t,
            t > 0,
    ;
    assert forall|j: int| 0 <= j < d implies {
        &&& (#[trigger] u[j]) == v[j].product(s)
        &&& u[j].is_finite()
        &&& v[j].is_finite()
        &&& size(v[j].value() * vs) <= 2 * qq
    } by {
        lemma_finite_entries(v, d, j);
        lemma_square_below(v, d, j);
        let x = v[j].value();
        let b = size(x * vs);
        assert(b * b == ss * (x * x)) by (nonlinear_arith)
            requires
                b == size(x * vs),
                ss == vs * vs,
        ;
        assert(ss * (x * x) <= sm) by (nonlinear_arith)
            requires
                x * x <= m,
                sm == ss * m,
                ss == vs * vs,
        ;
        assert(b <= 2 * qq) by (nonlinear_arith)
            requires
                b * b <= 2 * qqqq,
                qqqq == qq * qq,
                b >= 0,
                qq > 0,
        ;
        lemma_scaled_is_finite(v[j], s);
    }
    lemma_scaled_length(v, u, s, d);
    let n = exact_square(u, d);
    let qqq = q * qq;
    // The absolute errors are nothing against 1.
    assert(t * (d * (9 * qqq)) <= sm) by {
        lemma_pow2_adds(100, 974);
        lemma_pow2_adds(36, 64);
        lemma_pow2_pos(974);
        lemma2_to64();
        lemma2_to64();
        vstd::arithmetic::power2::lemma2_to64_rest();
        let rest = pow2(974) as int;
        assert(pow2(100) == 0x10_0000_0000_0000_0000_0000_0000);
        assert(q >= 0x10_0000_0000_0000_0000_0000_0000) by (nonlinear_arith)
            requires
                q == 0x10_0000_0000_0000_0000_0000_0000 * rest,
                rest >= 1,
        ;
        let dn = 18 * d * t;
        assert(dn <= q) by (nonlinear_arith)
            requires
                dn == 18 * d * t,
                0 <= d <= 0x10_0000,
                t == 0x20_0000_0000_0000,
                q >= 0x10_0000_0000_0000_0000_0000_0000,
        ;
        assert(qqqq == q * qqq) by (nonlinear_arith)
            requires
                qqqq == qq * qq,
                qqq == q * qq,
                qq == q * q,
        ;
        assert(qqq >= 0) by (nonlinear_arith)
            requires
                qqq == q * qq,
                q > 0,
                qq > 0,
        ;
        assert(dn * qqq <= q * qqq) by (nonlinear_arith)
            requires
                dn <= q,
                qqq >= 0,
        ;
        assert(2 * (t * (d * (9 * qqq))) == dn * qqq) by (nonlinear_arith)
            requires
                dn == 18 * d * t,
        ;
    }
    assert(close(n * qq, sm, 4));
    lemma_close_chain(n * qq, sm, qqqq, 4, 6 * d as int + 23);
    assert(n * qq == qq * n) by (nonlinear_arith);
    lemma_close_cancelled(qq, n, qq, 6 * d as int + 28);
    assert forall|j: int| 0 <= j < d implies t * size((#[trigger] u[j]).value() * q - v[j].value() * vs)
        <= size(v[j].value() * vs) + t * q by {
        assert(u[j] == v[j].product(s));
        lemma_product_accuracy(v[j], s);
    }
    assert(is_scaled(v, u, vs));
}

/// A product whose exact value is at most 2 is finite.
proof fn lemma_scaled_is_finite(x: Binary64, s: Binary64)
    requires
        x.is_finite(),
        s.is_finite(),
        size(x.value() * s.value()) <= 2 * (quanta() * quanta()),
    ensures
        x.product(s).is_finite(),
{
    let f = Format::Binary64;
    let a = magnitude(f, ieee::body(f, x.bits));
    let b = magnitude(f, ieee::body(f, s.bits));
    let n = a * b;
    let q = pow2(1074);
    lemma_pow2_pos(1074);
    let vx = x.value();
    let vs = s.value();
    assert(size(vx * vs) == n) by (nonlinear_arith)
        requires
            vx == a || vx == -a,
            vs == b || vs == -b,
            n == a * b,
            a >= 0,
            b >= 0,
    ;
    let w = n / q;
    let r = n % q;
    lemma_fundamental_div_mod(n as int, q as int);
    lemma_mod_bound(n as int, q as int);
    assert(w <= 2 * q) by (nonlinear_arith)
        requires
            n == q * w + r,
            r >= 0,
            n <= 2 * (q * q),
            q > 0,
    ;
    vstd::arithmetic::power2::lemma_pow2_unfold(1075);
    lemma_pow2_strictly_increases(1075, 1076);
    lemma_short(w, 1076);
    lemma_rounded_finite(n, q);
}

/// A vector that is too short is left as it is.
pub proof fn lemma_short_vectors_are_left(v: Seq<Binary64>)
    requires
        square_sum(v, v.len()).less(Binary64 { bits: EPSILON }),
    ensures
        normalised(v) == v,
{
}

} // verus!
