//! What a calibration comes to: products of matrices with vectors up to rounding, and data of which a
//! direction is taken out.
use crate::accuracy::{
    approximates, fineness, lemma_finite_product, lemma_finite_sum, lemma_number_approximates,
    lemma_product_accuracy, lemma_product_approximates, lemma_sum_accuracy, lemma_sum_approximates,
    lemma_zero_approximates, quanta, size, sum_of, term_limit,
};
use crate::calibration::{
    centered, column_dot, column_sum, component, deflated, iterated, multiplied, normalised,
    principal_components, remaining, row_dot, seeded_matrix, square_sum, START_SEED,
};
use crate::fidelity::{lemma_finite_widened, lemma_narrowed, narrows_to, wide};
use crate::ieee;
use crate::numbers::{Binary32, Binary64};
use crate::projection::lemma_widened_finite;
use crate::rng::{advanced_by, lemma_uniform_single, seeded, uniform_double};
use crate::rounding::Format;
use vstd::arithmetic::div_mod::lemma_fundamental_div_mod_converse;
use vstd::arithmetic::power2::{lemma_pow2_pos, pow2};
use vstd::prelude::*;

verus! {

/// The sum of the products of row `i` of `x` with `v`, exactly.
pub open spec fn exact_row(x: Seq<Binary64>, d: nat, v: Seq<Binary64>, i: int, count: nat) -> int {
    sum_of(|j: int| x[i * d + j].value() * v[j].value(), count)
}

/// The sum of the sizes of these products.
pub open spec fn row_size(x: Seq<Binary64>, d: nat, v: Seq<Binary64>, i: int, count: nat) -> int {
    sum_of(|j: int| size(x[i * d + j].value() * v[j].value()), count)
}

/// The sum of the products of column `j` of `x` with `v`, exactly.
pub open spec fn exact_column(x: Seq<Binary64>, d: nat, v: Seq<Binary64>, j: int, count: nat) -> int {
    sum_of(|i: int| x[i * d + j].value() * v[i].value(), count)
}

/// The sum of the sizes of these products.
pub open spec fn column_size(x: Seq<Binary64>, d: nat, v: Seq<Binary64>, j: int, count: nat) -> int {
    sum_of(|i: int| size(x[i * d + j].value() * v[i].value()), count)
}

/// The square of the length of `v`, exactly.
pub open spec fn exact_square(v: Seq<Binary64>, count: nat) -> int {
    sum_of(|j: int| v[j].value() * v[j].value(), count)
}

proof fn lemma_row_dot(x: Seq<Binary64>, d: nat, v: Seq<Binary64>, i: int, count: nat)
    requires
        row_dot(x, d, v, i, count).is_finite(),
        count < term_limit(),
    ensures
        approximates(
            row_dot(x, d, v, i, count),
            exact_row(x, d, v, i, count),
            row_size(x, d, v, i, count),
            count + 1,
        ),
    decreases count,
{
    if count == 0 {
        lemma_zero_approximates();
    } else {
        let n = (count - 1) as nat;
        let before = row_dot(x, d, v, i, n);
        let a = x[i * d + count - 1];
        let b = v[count - 1];
        assert(i * d + count - 1 == i * d + (count - 1));
        lemma_finite_sum(before, a.product(b));
        lemma_row_dot(x, d, v, i, n);
        lemma_product_approximates(a, b);
        lemma_sum_approximates(
            before,
            exact_row(x, d, v, i, n),
            row_size(x, d, v, i, n),
            count,
            a.product(b),
            a.value() * b.value(),
            size(a.value() * b.value()),
            1,
        );
    }
}

proof fn lemma_column_dot(x: Seq<Binary64>, d: nat, v: Seq<Binary64>, j: int, count: nat)
    requires
        column_dot(x, d, v, j, count).is_finite(),
        count < term_limit(),
    ensures
        approximates(
            column_dot(x, d, v, j, count),
            exact_column(x, d, v, j, count),
            column_size(x, d, v, j, count),
            count + 1,
        ),
    decreases count,
{
    if count == 0 {
        lemma_zero_approximates();
    } else {
        let n = (count - 1) as nat;
        let before = column_dot(x, d, v, j, n);
        let a = x[(count - 1) * d + j];
        let b = v[count - 1];
        lemma_finite_sum(before, a.product(b));
        lemma_column_dot(x, d, v, j, n);
        lemma_product_approximates(a, b);
        lemma_sum_approximates(
            before,
            exact_column(x, d, v, j, n),
            column_size(x, d, v, j, n),
            count,
            a.product(b),
            a.value() * b.value(),
            size(a.value() * b.value()),
            1,
        );
    }
}

/// A matrix, or its transpose, times a vector: each number of the result is the dot product of the
/// vector with a row, or a column, of the matrix, up to rounding.
pub proof fn lemma_products_are_dot_products(
    x: Seq<Binary64>,
    n: nat,
    d: nat,
    v: Seq<Binary64>,
    k: int,
)
    requires
        n < term_limit(),
        d < term_limit(),
    ensures
        multiplied(x, n, d, v, false).len() == n,
        multiplied(x, n, d, v, true).len() == d,
        0 <= k < n && multiplied(x, n, d, v, false)[k].is_finite() ==> approximates(
            multiplied(x, n, d, v, false)[k],
            exact_row(x, d, v, k, d),
            row_size(x, d, v, k, d),
            d + 1,
        ),
        0 <= k < d && multiplied(x, n, d, v, true)[k].is_finite() ==> approximates(
            multiplied(x, n, d, v, true)[k],
            exact_column(x, d, v, k, n),
            column_size(x, d, v, k, n),
            n + 1,
        ),
{
    if 0 <= k < n && multiplied(x, n, d, v, false)[k].is_finite() {
        lemma_row_dot(x, d, v, k, d);
    }
    if 0 <= k < d && multiplied(x, n, d, v, true)[k].is_finite() {
        lemma_column_dot(x, d, v, k, n);
    }
}

/// A square is not negative.
proof fn lemma_square(a: int)
    ensures
        a * a >= 0,
        size(a * a) == a * a,
{
    assert(a * a >= 0) by (nonlinear_arith);
}

/// The squared length of a vector, up to rounding.
pub proof fn lemma_square_sum(v: Seq<Binary64>, count: nat)
    requires
        square_sum(v, count).is_finite(),
        count < term_limit(),
    ensures
        approximates(
            square_sum(v, count),
            exact_square(v, count),
            exact_square(v, count),
            count + 1,
        ),
    decreases count,
{
    if count == 0 {
        lemma_zero_approximates();
    } else {
        let n = (count - 1) as nat;
        let before = square_sum(v, n);
        let a = v[count - 1];
        lemma_finite_sum(before, a.product(a));
        lemma_square_sum(v, n);
        lemma_product_approximates(a, a);
        lemma_square(a.value());
        lemma_sum_approximates(
            before,
            exact_square(v, n),
            exact_square(v, n),
            count,
            a.product(a),
            a.value() * a.value(),
            a.value() * a.value(),
            1,
        );
    }
}

/// The bound on the rounding errors of a deflated entry that goes with the entry of the vector.
pub open spec fn spread(total: int, d: nat) -> int {
    3 * (d + 3) * total + 2 * fineness() * ((2 * d + 1) * quanta())
}

/// A finite difference is off by at most one part in 2^53.
proof fn lemma_difference_accuracy(a: Binary64, b: Binary64)
    requires
        a.difference(b).is_finite(),
    ensures
        a.is_finite(),
        b.is_finite(),
        fineness() * size(a.difference(b).value() - (a.value() - b.value())) <= size(
            a.value() - b.value(),
        ),
{
    let f = Format::Binary64;
    let c = Binary64 { bits: ieee::negated(f, b.bits) };
    assert(a.difference(b) == a.sum(c));
    lemma_finite_sum(a, c);
    lemma_sum_accuracy(a, c);
    assert(ieee::body(f, c.bits) == ieee::body(f, b.bits));
    assert(c.value() == -b.value());
}

/// What is left of an entry when `a` times `w` is taken out of it, where `a` is close to `exact`.
proof fn lemma_entry(
    x: Binary64,
    a: Binary64,
    w: Binary64,
    exact: int,
    total: int,
    d: nat,
)
    requires
        x.difference(a.product(w)).is_finite(),
        approximates(a, exact, total, d + 1),
        d < term_limit(),
    ensures
        fineness() * size(
            x.difference(a.product(w)).value() * (quanta() * quanta()) - (x.value() * (quanta()
                * quanta()) - exact * w.value()),
        ) <= size(x.value()) * (quanta() * quanta()) + size(w.value()) * spread(total, d) + 2
            * fineness() * (quanta() * quanta()),
{
    let p = a.product(w);
    let y = x.difference(p);
    lemma_difference_accuracy(x, p);
    lemma_finite_product(a, w);
    lemma_product_accuracy(a, w);
    lemma_pow2_pos(1074);
    let q = quanta();
    let t = fineness();
    let qq = q * q;
    let vx = x.value();
    let va = a.value();
    let vw = w.value();
    let vp = p.value();
    let vy = y.value();
    let ea = size(va * q - exact);
    let e1 = size(vp * q - va * vw);
    let e2 = size(vy - (vx - vp));
    let aw = size(va * vw);
    let sw = size(vw);
    let dq = (2 * d + 1) * q;
    assert((2 * (d + 1) - 1) * q == dq) by (nonlinear_arith)
        requires
            dq == (2 * d + 1) * q,
    ;
    assert(dq >= 0) by (nonlinear_arith)
        requires
            dq == (2 * d + 1) * q,
            q > 0,
    ;
    assert(qq > 0) by (nonlinear_arith)
        requires
            qq == q * q,
            q > 0,
    ;
    let ta = 3 * (d + 1) * total;
    assert(t * ea <= ta + t * dq);
    // How far the product of the three parts is off, in cubes of the quantum.
    let err = size(vy * qq - (vx * qq - exact * vw));
    let p1 = (vy - (vx - vp)) * qq;
    let p2 = (vp * q - va * vw) * q;
    let p3 = (va * q - exact) * vw;
    assert(vy * qq - (vx * qq - exact * vw) == p1 - p2 - p3) by (nonlinear_arith)
        requires
            p1 == (vy - (vx - vp)) * qq,
            p2 == (vp * q - va * vw) * q,
            p3 == (va * q - exact) * vw,
            qq == q * q,
    ;
    assert(size(p1) == e2 * qq) by (nonlinear_arith)
        requires
            p1 == (vy - (vx - vp)) * qq,
            e2 == size(vy - (vx - vp)),
            qq > 0,
    ;
    assert(size(p2) == e1 * q) by (nonlinear_arith)
        requires
            p2 == (vp * q - va * vw) * q,
            e1 == size(vp * q - va * vw),
            q > 0,
    ;
    assert(size(p3) == ea * sw) by (nonlinear_arith)
        requires
            p3 == (va * q - exact) * vw,
            ea == size(va * q - exact),
            sw == size(vw),
    ;
    assert(err <= e2 * qq + e1 * q + ea * sw);
    assert(t * err <= t * (e2 * qq) + t * (e1 * q) + t * (ea * sw)) by (nonlinear_arith)
        requires
            err <= e2 * qq + e1 * q + ea * sw,
            t > 0,
    ;
    let diff = size(vx - vp);
    assert(t * (e2 * qq) <= diff * qq) by (nonlinear_arith)
        requires
            t * e2 <= diff,
            qq > 0,
    ;
    assert(t * (e1 * q) <= (aw + t * q) * q) by (nonlinear_arith)
        requires
            t * e1 <= aw + t * q,
            q > 0,
    ;
    assert((aw + t * q) * q == aw * q + t * qq) by (nonlinear_arith)
        requires
            qq == q * q,
    ;
    assert(t * (ea * sw) <= (ta + t * dq) * sw) by (nonlinear_arith)
        requires
            t * ea <= ta + t * dq,
            sw >= 0,
    ;
    // The size of the product that is taken out.
    assert(e1 <= aw + q) by (nonlinear_arith)
        requires
            t * e1 <= aw + t * q,
            t == 0x20_0000_0000_0000,
            aw >= 0,
            q > 0,
    ;
    assert(size(vp) * q <= 2 * aw + q) by (nonlinear_arith)
        requires
            e1 == size(vp * q - va * vw),
            aw == size(va * vw),
            e1 <= aw + q,
            q > 0,
    ;
    assert(diff <= size(vx) + size(vp));
    assert(diff * qq <= size(vx) * qq + (size(vp) * q) * q) by (nonlinear_arith)
        requires
            diff <= size(vx) + size(vp),
            qq == q * q,
            q > 0,
    ;
    assert((size(vp) * q) * q <= 2 * (aw * q) + qq) by (nonlinear_arith)
        requires
            size(vp) * q <= 2 * aw + q,
            qq == q * q,
            q > 0,
    ;
    // The size of the factor.
    assert(ta <= t * total) by (nonlinear_arith)
        requires
            ta == 3 * (d + 1) * total,
            3 * (d + 1) <= t,
            total >= 0,
    ;
    assert(ea <= total + dq) by (nonlinear_arith)
        requires
            t * ea <= ta + t * dq,
            ta <= t * total,
            t > 0,
    ;
    assert(size(va * q) <= 2 * total + dq);
    assert(aw * q == size(va * q) * sw) by (nonlinear_arith)
        requires
            aw == size(va * vw),
            sw == size(vw),
            q > 0,
    ;
    assert(size(va * q) * sw <= (2 * total + dq) * sw) by (nonlinear_arith)
        requires
            size(va * q) <= 2 * total + dq,
            sw >= 0,
    ;
    assert(3 * ((2 * total + dq) * sw) + (ta + t * dq) * sw == sw * (6 * total + ta + (t + 3) * dq))
        by (nonlinear_arith);
    assert(6 * total + ta == 3 * (d + 3) * total) by (nonlinear_arith)
        requires
            ta == 3 * (d + 1) * total,
    ;
    assert((t + 3) * dq <= 2 * t * dq) by (nonlinear_arith)
        requires
            t >= 3,
            dq >= 0,
    ;
    assert(sw * (6 * total + ta + (t + 3) * dq) <= sw * spread(total, d)) by (nonlinear_arith)
        requires
            6 * total + ta + (t + 3) * dq <= spread(total, d),
            sw >= 0,
    ;
    assert(qq + t * qq <= 2 * t * qq) by (nonlinear_arith)
        requires
            t >= 1,
            qq > 0,
    ;
}

proof fn lemma_index(i: int, j: int, d: nat)
    requires
        0 <= i,
        0 <= j < d,
    ensures
        (i * d + j) / (d as int) == i,
        (i * d + j) % (d as int) == j,
        0 <= i * d + j,
{
    lemma_fundamental_div_mod_converse(i * d + j, d as int, i, j);
    assert(0 <= i * d) by (nonlinear_arith)
        requires
            0 <= i,
    ;
}

proof fn lemma_index_bound(i: int, j: int, n: nat, d: nat)
    requires
        0 <= i < n,
        0 <= j < d,
    ensures
        i * d + j < n * d,
{
    assert((i + 1) * d <= n * d) by (nonlinear_arith)
        requires
            i + 1 <= n,
    ;
    assert((i + 1) * d == i * d + d) by (nonlinear_arith);
}

/// When a direction `v` is taken out of the data, what is left of each number is the number, less the
/// exact product of the row's part along `v` with the entry of `v`, up to rounding.
pub proof fn lemma_deflated_entry(
    x: Seq<Binary64>,
    n: nat,
    d: nat,
    v: Seq<Binary64>,
    i: int,
    j: int,
)
    requires
        0 <= i < n,
        0 <= j < d,
        d < term_limit(),
        deflated(x, n, d, v)[i * d + j].is_finite(),
    ensures
        ({
            let qq = quanta() * quanta();
            let exact = x[i * d + j].value() * qq - exact_row(x, d, v, i, d) * v[j].value();
            fineness() * size(deflated(x, n, d, v)[i * d + j].value() * qq - exact) <= size(
                x[i * d + j].value(),
            ) * qq + size(v[j].value()) * spread(row_size(x, d, v, i, d), d) + 2 * fineness() * qq
        }),
{
    let k = i * d + j;
    lemma_index(i, j, d);
    lemma_index_bound(i, j, n, d);
    let along = multiplied(x, n, d, v, false);
    let y = deflated(x, n, d, v)[k];
    assert(y == x[k].difference(along[i].product(v[j])));
    lemma_difference_accuracy(x[k], along[i].product(v[j]));
    lemma_finite_product(along[i], v[j]);
    lemma_row_dot(x, d, v, i, d);
    lemma_entry(
        x[k],
        along[i],
        v[j],
        exact_row(x, d, v, i, d),
        row_size(x, d, v, i, d),
        d,
    );
}

proof fn lemma_deflated_part(
    x: Seq<Binary64>,
    n: nat,
    d: nat,
    v: Seq<Binary64>,
    i: int,
    count: nat,
)
    requires
        0 <= i < n,
        count <= d,
        d < term_limit(),
        forall|j: int| 0 <= j < d ==> (#[trigger] deflated(x, n, d, v)[i * d + j]).is_finite(),
    ensures
        ({
            let qq = quanta() * quanta();
            let s = exact_row(x, d, v, i, d);
            let total = row_size(x, d, v, i, d);
            fineness() * size(
                exact_row(deflated(x, n, d, v), d, v, i, count) * qq - (exact_row(
                    x,
                    d,
                    v,
                    i,
                    count,
                ) * qq - s * exact_square(v, count)),
            ) <= row_size(x, d, v, i, count) * qq + exact_square(v, count) * spread(total, d) + 2
                * fineness() * (sum_of(|j: int| size(v[j].value()), count) * qq)
        }),
    decreases count,
{
    let q = quanta();
    let qq = q * q;
    let t = fineness();
    let y = deflated(x, n, d, v);
    let s = exact_row(x, d, v, i, d);
    let r = spread(row_size(x, d, v, i, d), d);
    if count == 0 {
        assert(0 * qq == 0);
        assert(s * 0 == 0);
        assert(0 * r == 0);
    } else {
        let c = (count - 1) as nat;
        let j = count - 1;
        lemma_deflated_part(x, n, d, v, i, c);
        assert(y[i * d + j].is_finite());
        lemma_deflated_entry(x, n, d, v, i, j);
        let vy = y[i * d + j].value();
        let vx = x[i * d + j].value();
        let w = v[j].value();
        let sw = size(w);
        let e = vy * qq - (vx * qq - s * w);
        let p0 = exact_row(y, d, v, i, c);
        let s0 = exact_row(x, d, v, i, c);
        let n0 = exact_square(v, c);
        let a0 = row_size(x, d, v, i, c);
        let w0 = sum_of(|j: int| size(v[j].value()), c);
        let d0 = p0 * qq - (s0 * qq - s * n0);
        let d1 = (p0 + vy * w) * qq - ((s0 + vx * w) * qq - s * (n0 + w * w));
        assert(d1 == d0 + w * e) by (nonlinear_arith)
            requires
                e == vy * qq - (vx * qq - s * w),
                d0 == p0 * qq - (s0 * qq - s * n0),
                d1 == (p0 + vy * w) * qq - ((s0 + vx * w) * qq - s * (n0 + w * w)),
        ;
        assert(size(w * e) == sw * size(e)) by (nonlinear_arith)
            requires
                sw == size(w),
        ;
        assert(size(d1) <= size(d0) + sw * size(e));
        assert(t * size(d1) <= t * size(d0) + t * (sw * size(e))) by (nonlinear_arith)
            requires
                size(d1) <= size(d0) + sw * size(e),
                t > 0,
        ;
        let bound = size(vx) * qq + sw * r + 2 * t * qq;
        assert(t * (sw * size(e)) <= sw * bound) by (nonlinear_arith)
            requires
                t * size(e) <= bound,
                sw >= 0,
        ;
        assert(sw * bound == (size(vx) * sw) * qq + (sw * sw) * r + 2 * t * (sw * qq))
            by (nonlinear_arith)
            requires
                bound == size(vx) * qq + sw * r + 2 * t * qq,
        ;
        assert(size(vx) * sw == size(vx * w) && sw * sw == w * w) by (nonlinear_arith)
            requires
                sw == size(w),
        ;
        let xw = size(vx * w);
        let ww = w * w;
        assert((a0 + xw) * qq == a0 * qq + xw * qq) by (nonlinear_arith);
        assert((n0 + ww) * r == n0 * r + ww * r) by (nonlinear_arith);
        assert((w0 + sw) * qq == w0 * qq + sw * qq) by (nonlinear_arith);
        assert(exact_row(y, d, v, i, count) == p0 + vy * w);
        assert(exact_row(x, d, v, i, count) == s0 + vx * w);
        assert(exact_square(v, count) == n0 + w * w);
        assert(row_size(x, d, v, i, count) == a0 + xw);
        assert(sum_of(|j: int| size(v[j].value()), count) == w0 + sw);
    }
}

/// Once a direction is taken out of the data, what is left has no part along it, up to rounding: the
/// dot product of each row of what is left with `v` is the row's part along `v`, times what the squared
/// length of `v` lacks to 1, and a remainder that is small against the sizes of the row's products.
pub proof fn lemma_deflation_takes_the_direction_out(
    x: Seq<Binary64>,
    n: nat,
    d: nat,
    v: Seq<Binary64>,
    i: int,
)
    requires
        0 <= i < n,
        d < term_limit(),
        forall|j: int| 0 <= j < d ==> (#[trigger] deflated(x, n, d, v)[i * d + j]).is_finite(),
    ensures
        ({
            let qq = quanta() * quanta();
            let part = exact_row(x, d, v, i, d);
            let total = row_size(x, d, v, i, d);
            let length = exact_square(v, d);
            fineness() * size(
                exact_row(deflated(x, n, d, v), d, v, i, d) * qq - part * (qq - length),
            ) <= total * qq + length * spread(total, d) + 2 * fineness() * (sum_of(
                |j: int| size(v[j].value()),
                d,
            ) * qq)
        }),
{
    lemma_deflated_part(x, n, d, v, i, d);
    let qq = quanta() * quanta();
    let s = exact_row(x, d, v, i, d);
    let l = exact_square(v, d);
    assert(s * (qq - l) == s * qq - s * l) by (nonlinear_arith);
}

/// The sum of a column, up to rounding.
proof fn lemma_column_sum(data: Seq<Binary32>, d: nat, j: int, count: nat)
    requires
        column_sum(data, d, j, count).is_finite(),
        count < term_limit(),
    ensures
        approximates(
            column_sum(data, d, j, count),
            sum_of(|i: int| wide(data[i * d + j]) * quanta(), count),
            sum_of(|i: int| size(wide(data[i * d + j]) * quanta()), count),
            count + 1,
        ),
    decreases count,
{
    if count == 0 {
        lemma_zero_approximates();
    } else {
        let n = (count - 1) as nat;
        let before = column_sum(data, d, j, n);
        let a = data[(count - 1) * d + j];
        lemma_finite_sum(before, a.widened());
        lemma_column_sum(data, d, j, n);
        lemma_finite_widened(a);
        lemma_widened_finite(a);
        lemma_number_approximates(a.widened());
        lemma_sum_approximates(
            before,
            sum_of(|i: int| wide(data[i * d + j]) * quanta(), n),
            sum_of(|i: int| size(wide(data[i * d + j]) * quanta()), n),
            count,
            a.widened(),
            wide(a) * quanta(),
            size(wide(a) * quanta()),
            1,
        );
    }
}

/// Centred samples: from each number the mean of its column is taken, which is the exact sum of the
/// column times the reciprocal of the number of samples, up to rounding.
pub proof fn lemma_centered_entry(data: Seq<Binary32>, n: nat, d: nat, i: int, j: int)
    requires
        0 <= i < n,
        0 <= j < d,
        n < term_limit(),
        centered(data, n, d)[i * d + j].is_finite(),
    ensures
        ({
            let qq = quanta() * quanta();
            let sum = sum_of(|k: int| wide(data[k * d + j]) * quanta(), n);
            let total = sum_of(|k: int| size(wide(data[k * d + j]) * quanta()), n);
            let share = Binary64::natural(n).reciprocal().value();
            let exact = wide(data[i * d + j]) * qq - sum * share;
            fineness() * size(centered(data, n, d)[i * d + j].value() * qq - exact) <= size(
                wide(data[i * d + j]),
            ) * qq + size(share) * spread(total, n) + 2 * fineness() * qq
        }),
{
    let k = i * d + j;
    lemma_index(i, j, d);
    lemma_index_bound(i, j, n, d);
    let x = data[k].widened();
    let a = column_sum(data, d, j, n);
    let w = Binary64::natural(n).reciprocal();
    assert(centered(data, n, d)[k] == x.difference(a.product(w)));
    lemma_difference_accuracy(x, a.product(w));
    lemma_finite_product(a, w);
    lemma_finite_widened(data[k]);
    lemma_widened_finite(data[k]);
    lemma_column_sum(data, d, j, n);
    lemma_entry(
        x,
        a,
        w,
        sum_of(|k: int| wide(data[k * d + j]) * quanta(), n),
        sum_of(|k: int| size(wide(data[k * d + j]) * quanta()), n),
        n,
    );
}

/// After a component is found, it is taken out of the data: what is left for the next component has no
/// part along it, up to rounding.
pub proof fn lemma_components_are_taken_out(
    data: Seq<Binary32>,
    n: nat,
    d: nat,
    rounds: nat,
    c: nat,
    i: int,
)
    requires
        0 <= i < n,
        d < term_limit(),
        forall|j: int|
            0 <= j < d ==> (#[trigger] remaining(data, n, d, rounds, c + 1)[i * d + j]).is_finite(),
    ensures
        ({
            let qq = quanta() * quanta();
            let x = remaining(data, n, d, rounds, c);
            let v = component(data, n, d, rounds, c);
            let part = exact_row(x, d, v, i, d);
            let total = row_size(x, d, v, i, d);
            let length = exact_square(v, d);
            fineness() * size(
                exact_row(remaining(data, n, d, rounds, c + 1), d, v, i, d) * qq - part * (qq
                    - length),
            ) <= total * qq + length * spread(total, d) + 2 * fineness() * (sum_of(
                |j: int| size(v[j].value()),
                d,
            ) * qq)
        }),
{
    let x = remaining(data, n, d, rounds, c);
    let v = component(data, n, d, rounds, c);
    assert(remaining(data, n, d, rounds, c + 1) == deflated(x, n, d, v));
    lemma_deflation_takes_the_direction_out(x, n, d, v, i);
}

/// The rows of the learned matrix are the three components, in their order, rounded to single
/// precision. The first is found in the centred samples.
pub proof fn lemma_rows_are_components(
    data: Seq<Binary32>,
    n: nat,
    d: nat,
    rounds: nat,
    c: nat,
    j: int,
)
    requires
        c < 3,
        0 <= j < d,
    ensures
        principal_components(data, n, d, rounds).len() == 3 * d,
        principal_components(data, n, d, rounds)[c * d + j].is_finite() ==> narrows_to(
            component(data, n, d, rounds, c)[j],
            principal_components(data, n, d, rounds)[c * d + j],
        ),
        remaining(data, n, d, rounds, 0) == centered(data, n, d),
{
    lemma_index(c as int, j, d);
    lemma_index_bound(c as int, j, 3, d);
    assert(c as int * d + j == c * d + j);
    let s = component(data, n, d, rounds, c)[j];
    assert(principal_components(data, n, d, rounds)[c * d + j] == s.narrowed());
    if s.narrowed().is_finite() {
        lemma_narrowed(s);
    }
}

/// Rounds of power iteration can be taken in two goes.
pub proof fn lemma_rounds_compose(
    x: Seq<Binary64>,
    n: nat,
    d: nat,
    v: Seq<Binary64>,
    a: nat,
    b: nat,
)
    ensures
        iterated(x, n, d, v, a + b) == iterated(x, n, d, iterated(x, n, d, v, a), b),
        iterated(x, n, d, v, 0) == v,
    decreases b,
{
    if b > 0 {
        lemma_rounds_compose(x, n, d, v, a, (b - 1) as nat);
    }
}

/// One round of power iteration multiplies by the matrix and then by its transpose, each up to
/// rounding, and brings the result to length 1.
pub proof fn lemma_round(x: Seq<Binary64>, n: nat, d: nat, v: Seq<Binary64>)
    requires
        n < term_limit(),
        d < term_limit(),
    ensures
        exists|y: Seq<Binary64>, w: Seq<Binary64>|
            {
                &&& #[trigger] is_product(x, n, d, v, y)
                &&& #[trigger] is_transposed_product(x, n, d, y, w)
                &&& iterated(x, n, d, v, 1) == normalised(w)
            },
{
    reveal_with_fuel(iterated, 2);
    let y = multiplied(x, n, d, v, false);
    let w = multiplied(x, n, d, y, true);
    lemma_is_product(x, n, d, v);
    lemma_is_product(x, n, d, y);
    assert(is_product(x, n, d, v, y));
    assert(is_transposed_product(x, n, d, y, w));
}

/// Whether `y` is the matrix times `v`, up to rounding.
pub open spec fn is_product(
    x: Seq<Binary64>,
    n: nat,
    d: nat,
    v: Seq<Binary64>,
    y: Seq<Binary64>,
) -> bool {
    &&& y.len() == n
    &&& forall|i: int|
        0 <= i < n && (#[trigger] y[i]).is_finite() ==> approximates(
            y[i],
            exact_row(x, d, v, i, d),
            row_size(x, d, v, i, d),
            d + 1,
        )
}

/// Whether `w` is the transpose of the matrix times `y`, up to rounding.
pub open spec fn is_transposed_product(
    x: Seq<Binary64>,
    n: nat,
    d: nat,
    y: Seq<Binary64>,
    w: Seq<Binary64>,
) -> bool {
    &&& w.len() == d
    &&& forall|j: int|
        0 <= j < d && (#[trigger] w[j]).is_finite() ==> approximates(
            w[j],
            exact_column(x, d, y, j, n),
            column_size(x, d, y, j, n),
            n + 1,
        )
}

pub proof fn lemma_is_product(x: Seq<Binary64>, n: nat, d: nat, v: Seq<Binary64>)
    requires
        n < term_limit(),
        d < term_limit(),
    ensures
        is_product(x, n, d, v, multiplied(x, n, d, v, false)),
        is_transposed_product(x, n, d, v, multiplied(x, n, d, v, true)),
{
    assert forall|i: int|
        0 <= i < n && (#[trigger] multiplied(
            x,
            n,
            d,
            v,
            false,
        )[i]).is_finite() implies approximates(
        multiplied(x, n, d, v, false)[i],
        exact_row(x, d, v, i, d),
        row_size(x, d, v, i, d),
        d + 1,
    ) by {
        lemma_products_are_dot_products(x, n, d, v, i);
    }
    assert forall|j: int|
        0 <= j < d && (#[trigger] multiplied(x, n, d, v, true)[j]).is_finite() implies approximates(
        multiplied(x, n, d, v, true)[j],
        exact_column(x, d, v, j, n),
        column_size(x, d, v, j, n),
        n + 1,
    ) by {
        lemma_products_are_dot_products(x, n, d, v, j);
    }
}

/// The components are found one after the other, each by `rounds` rounds from a vector that is drawn
/// from one generator: `d` numbers for each, in turn, brought to length 1.
pub proof fn lemma_components_start_from_drawn_vectors(
    data: Seq<Binary32>,
    n: nat,
    d: nat,
    rounds: nat,
    c: nat,
    drawn: Seq<Binary64>,
)
    requires
        drawn.len() == d,
        forall|j: int|
            0 <= j < d ==> #[trigger] drawn[j] == uniform_double(
                advanced_by(seeded(START_SEED), (c * d + j + 1) as nat),
            ),
    ensures
        component(data, n, d, rounds, c) == iterated(
            remaining(data, n, d, rounds, c),
            n,
            d,
            normalised(drawn),
            rounds,
        ),
{
    assert(drawn =~= Seq::new(
        d,
        |j: int| uniform_double(advanced_by(seeded(START_SEED), (c * d + j + 1) as nat)),
    ));
}

/// A matrix that is drawn from a seed holds the generator's numbers, in the order in which they come:
/// entry `i` is that of the state after `i + 1` steps.
pub proof fn lemma_seeded_matrix(seed: u64, len: nat, i: int)
    requires
        0 <= i < len,
    ensures
        seeded_matrix(seed, len).len() == len,
        ({
            let state = advanced_by(seeded(seed), (i + 1) as nat);
            seeded_matrix(seed, len)[i].is_finite() && seeded_matrix(seed, len)[i].value() + pow2(
                149,
            ) == (state as nat / pow2(41)) * pow2(127)
        }),
{
    lemma_uniform_single(advanced_by(seeded(seed), (i + 1) as nat));
}

} // verus!
