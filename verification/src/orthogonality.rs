//! Why the learned rows point in different directions: each component is found in data of which the
//! one before has been taken out.
use crate::accuracy::{
    fineness, lemma_finite_product, quanta, size, sum_of, term_limit,
};
use crate::calibration::{component, iterated, multiplied, normalised, remaining, start_vector};
use crate::numbers::{Binary32, Binary64};
use crate::spectrum::{
    column_size, exact_column, exact_row, is_transposed_product, lemma_is_product,
};
use vstd::prelude::*;

verus! {

proof fn lemma_sum_of_same(f: spec_fn(int) -> int, g: spec_fn(int) -> int, n: nat)
    requires
        forall|i: int| 0 <= i < n ==> #[trigger] f(i) == g(i),
    ensures
        sum_of(f, n) == sum_of(g, n),
    decreases n,
{
    if n > 0 {
        lemma_sum_of_same(f, g, (n - 1) as nat);
        assert(f(n - 1) == g(n - 1));
    }
}

/// The sum of `f + c g` is the sum of `f` and `c` times the sum of `g`.
proof fn lemma_sum_of_combined(
    f: spec_fn(int) -> int,
    g: spec_fn(int) -> int,
    c: int,
    n: nat,
)
    ensures
        sum_of(|i: int| f(i) + c * g(i), n) == sum_of(f, n) + c * sum_of(g, n),
    decreases n,
{
    if n > 0 {
        lemma_sum_of_combined(f, g, c, (n - 1) as nat);
        let s = sum_of(g, (n - 1) as nat);
        let x = g(n - 1);
        assert(c * (s + x) == c * s + c * x) by (nonlinear_arith);
    } else {
        assert(c * 0 == 0);
    }
}

/// A vector times the columns, summed up, is the rows times the vector, summed up.
proof fn lemma_exchange(
    x: Seq<Binary64>,
    d: nat,
    v: Seq<Binary64>,
    y: Seq<Binary64>,
    n: nat,
)
    ensures
        sum_of(|j: int| v[j].value() * exact_column(x, d, y, j, n), d) == sum_of(
            |i: int| y[i].value() * exact_row(x, d, v, i, d),
            n,
        ),
    decreases n,
{
    if n == 0 {
        lemma_sum_of_same(
            |j: int| v[j].value() * exact_column(x, d, y, j, 0),
            |j: int| 0,
            d,
        );
        lemma_sum_of_zero(d);
    } else {
        let m = (n - 1) as nat;
        lemma_exchange(x, d, v, y, m);
        let f = |j: int| v[j].value() * exact_column(x, d, y, j, m);
        let g = |j: int| x[m * d + j].value() * v[j].value();
        let c = y[m as int].value();
        let h = |j: int| v[j].value() * exact_column(x, d, y, j, n);
        let k = |j: int| f(j) + c * g(j);
        assert forall|j: int| 0 <= j < d implies #[trigger] h(j) == k(j) by {
            let a = v[j].value();
            let b = x[m * d + j].value();
            let e = exact_column(x, d, y, j, m);
            assert(exact_column(x, d, y, j, n) == e + b * c);
            assert(a * (e + b * c) == a * e + c * (b * a)) by (nonlinear_arith);
        }
        lemma_sum_of_same(h, k, d);
        lemma_sum_of_combined(f, g, c, d);
        assert(sum_of(g, d) == exact_row(x, d, v, m as int, d)) by {
            lemma_sum_of_same(
                g,
                |j: int| x[(m as int) * d + j].value() * v[j].value(),
                d,
            );
        }
    }
}

proof fn lemma_sum_of_zero(n: nat)
    ensures
        sum_of(|j: int| 0, n) == 0,
    decreases n,
{
    if n > 0 {
        lemma_sum_of_zero((n - 1) as nat);
    }
}

/// The most that the rounding of `w[j]` is off by, in parts of 2^53.
pub open spec fn column_slack(x: Seq<Binary64>, n: nat, d: nat, y: Seq<Binary64>, j: int) -> int {
    3 * (n + 1) * column_size(x, d, y, j, n) + fineness() * ((2 * (n + 1) - 1) * quanta())
}

proof fn lemma_dot_with_columns(
    x: Seq<Binary64>,
    n: nat,
    d: nat,
    v: Seq<Binary64>,
    y: Seq<Binary64>,
    w: Seq<Binary64>,
    count: nat,
)
    requires
        count <= d,
        is_transposed_product(x, n, d, y, w),
        forall|j: int| 0 <= j < d ==> (#[trigger] w[j]).is_finite(),
    ensures
        fineness() * size(
            quanta() * sum_of(|j: int| v[j].value() * w[j].value(), count) - sum_of(
                |j: int| v[j].value() * exact_column(x, d, y, j, n),
                count,
            ),
        ) <= sum_of(|j: int| size(v[j].value()) * column_slack(x, n, d, y, j), count),
    decreases count,
{
    let q = quanta();
    let t = fineness();
    if count == 0 {
        assert(q * 0 == 0);
    } else {
        let c = (count - 1) as nat;
        let j = count - 1;
        lemma_dot_with_columns(x, n, d, v, y, w, c);
        assert(w[j].is_finite());
        let a = v[j].value();
        let b = w[j].value();
        let e = exact_column(x, d, y, j, n);
        let slack = column_slack(x, n, d, y, j);
        assert(t * size(b * q - e) <= slack);
        let s0 = sum_of(|j: int| v[j].value() * w[j].value(), c);
        let e0 = sum_of(|j: int| v[j].value() * exact_column(x, d, y, j, n), c);
        assert(q * (s0 + a * b) == q * s0 + a * (b * q)) by (nonlinear_arith);
        let d0 = size(q * s0 - e0);
        let d1 = size(a * (b * q) - a * e);
        let sa = size(a);
        let g = size(b * q - e);
        assert(d1 == sa * g) by (nonlinear_arith)
            requires
                d1 == size(a * (b * q) - a * e),
                sa == size(a),
                g == size(b * q - e),
        ;
        assert(t * (sa * g) <= sa * slack) by (nonlinear_arith)
            requires
                t * g <= slack,
                sa >= 0,
        ;
        let d2 = size(q * (s0 + a * b) - (e0 + a * e));
        assert(d2 <= d0 + d1);
        assert(t * d2 <= t * d0 + t * d1) by (nonlinear_arith)
            requires
                d2 <= d0 + d1,
                t > 0,
        ;
    }
}

/// Only vectors of finite numbers are brought to length 1 with finite numbers.
proof fn lemma_finite_before(w: Seq<Binary64>, j: int)
    requires
        0 <= j < w.len(),
        normalised(w)[j].is_finite(),
    ensures
        w[j].is_finite(),
{
    let norm = crate::calibration::square_sum(w, w.len());
    if !norm.less(Binary64 { bits: crate::calibration::EPSILON }) {
        lemma_finite_product(w[j], norm.root().reciprocal());
    }
}

/// Whether `w` is the transpose of the matrix `x` times `y`, up to rounding, and its dot product with `v`
/// is, up to rounding, the sum of the parts that the rows of `x` have along `v`, weighted by `y`.
pub open spec fn points_away(
    x: Seq<Binary64>,
    n: nat,
    d: nat,
    v: Seq<Binary64>,
    y: Seq<Binary64>,
    w: Seq<Binary64>,
) -> bool {
    &&& is_transposed_product(x, n, d, y, w)
    &&& fineness() * size(
        quanta() * sum_of(|j: int| v[j].value() * w[j].value(), d) - sum_of(
            |i: int| y[i].value() * exact_row(x, d, v, i, d),
            n,
        ),
    ) <= sum_of(|j: int| size(v[j].value()) * column_slack(x, n, d, y, j), d)
}

/// Each component but the first points away from the one before: it is a vector `w`, brought to length
/// 1, whose dot product with the component before is, up to rounding, the sum of the parts that the
/// rows of the remaining data still have along that component, weighted by the rows' products. Those
/// parts are next to nothing, since the component was taken out of the data.
pub proof fn lemma_next_component_points_away(
    data: Seq<Binary32>,
    n: nat,
    d: nat,
    rounds: nat,
    c: nat,
)
    requires
        rounds > 0,
        n < term_limit(),
        d < term_limit(),
        forall|j: int|
            0 <= j < d ==> (#[trigger] component(data, n, d, rounds, c + 1)[j]).is_finite(),
    ensures
        exists|y: Seq<Binary64>, w: Seq<Binary64>|
            component(data, n, d, rounds, c + 1) == normalised(w) && #[trigger] points_away(
                remaining(data, n, d, rounds, c + 1),
                n,
                d,
                component(data, n, d, rounds, c),
                y,
                w,
            ),
{
    let x = remaining(data, n, d, rounds, c + 1);
    let v = component(data, n, d, rounds, c);
    let u = iterated(x, n, d, start_vector(d, c + 1), (rounds - 1) as nat);
    let y = multiplied(x, n, d, u, false);
    let w = multiplied(x, n, d, y, true);
    let next = component(data, n, d, rounds, c + 1);
    assert(next == normalised(w));
    lemma_is_product(x, n, d, y);
    assert forall|j: int| 0 <= j < d implies (#[trigger] w[j]).is_finite() by {
        assert(next[j].is_finite());
        lemma_finite_before(w, j);
    }
    lemma_dot_with_columns(x, n, d, v, y, w, d);
    lemma_exchange(x, d, v, y, n);
    assert(points_away(x, n, d, v, y, w));
}

} // verus!
