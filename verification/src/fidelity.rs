//! What projected coordinates come to: the dot products of the embedding with the rows of the matrix,
//! up to rounding, and the entries of the matrix themselves for embeddings of a single 1.
use crate::accuracy::{
    approximates, lemma_finite_product, lemma_finite_sum, lemma_product_approximates,
    lemma_relative_error, lemma_sum_approximates, lemma_zero_approximates, size, sum_of,
    term_limit,
};
use crate::geometry::ONE;
use crate::ieee;
use crate::numbers::{Binary32, Binary64};
use crate::order::lemma_rounded_magnitude;
use crate::projection::{
    coordinate, group, groups, lemma_widened_finite, projected, row_sum, term,
};
use crate::rounding::{lemma_rounded_cancel, magnitude, rounded, Format};
use vstd::arithmetic::power2::{lemma2_to64, lemma_pow2_adds, lemma_pow2_pos, pow2};
use vstd::prelude::*;

verus! {

/// A single precision number, counted in quanta of double precision.
pub open spec fn wide(a: Binary32) -> int {
    a.value() * pow2(925)
}

/// Whether the single precision number `c` is the double precision number `s`, rounded: it is off by at
/// most one part in 2^24 or one quantum of single precision.
pub open spec fn narrows_to(s: Binary64, c: Binary32) -> bool {
    &&& s.is_finite()
    &&& c.is_finite()
    &&& 0x100_0000 * size(wide(c) - s.value()) <= size(s.value()) + 0x100_0000 * pow2(925)
}

/// The exact product of an entry of `e` with the entry of `m` in the row that starts at `row`.
pub open spec fn exact_term(e: Seq<Binary32>, m: Seq<Binary32>, row: int) -> spec_fn(int) -> int {
    |j: int| wide(e[j]) * wide(m[row + j])
}

/// Its size.
pub open spec fn exact_size(e: Seq<Binary32>, m: Seq<Binary32>, row: int) -> spec_fn(int) -> int {
    |j: int| size(wide(e[j]) * wide(m[row + j]))
}

proof fn lemma_term(e: Seq<Binary32>, m: Seq<Binary32>, row: int, j: int)
    requires
        term(e, m, row, j).is_finite(),
    ensures
        approximates(term(e, m, row, j), exact_term(e, m, row)(j), exact_size(e, m, row)(j), 1),
{
    let a = e[j].widened();
    let b = m[row + j].widened();
    lemma_finite_product(a, b);
    lemma_finite_widened(e[j]);
    lemma_finite_widened(m[row + j]);
    lemma_widened_finite(e[j]);
    lemma_widened_finite(m[row + j]);
    lemma_product_approximates(a, b);
}

/// Only finite numbers are finite when they are widened.
pub proof fn lemma_finite_widened(a: Binary32)
    requires
        a.widened().is_finite(),
    ensures
        a.is_finite(),
{
}

proof fn lemma_group(e: Seq<Binary32>, m: Seq<Binary32>, row: int, j: int)
    requires
        group(e, m, row, j).is_finite(),
    ensures
        ({
            let x = exact_term(e, m, row);
            let t = exact_size(e, m, row);
            approximates(
                group(e, m, row, j),
                x(j) + x(j + 1) + x(j + 2) + x(j + 3),
                t(j) + t(j + 1) + t(j + 2) + t(j + 3),
                4,
            )
        }),
{
    let x = exact_term(e, m, row);
    let t = exact_size(e, m, row);
    let t0 = term(e, m, row, j);
    let t1 = term(e, m, row, j + 1);
    let t2 = term(e, m, row, j + 2);
    let t3 = term(e, m, row, j + 3);
    lemma_finite_sum(t0.sum(t1).sum(t2), t3);
    lemma_finite_sum(t0.sum(t1), t2);
    lemma_finite_sum(t0, t1);
    lemma_term(e, m, row, j);
    lemma_term(e, m, row, j + 1);
    lemma_term(e, m, row, j + 2);
    lemma_term(e, m, row, j + 3);
    lemma_sum_approximates(t0, x(j), t(j), 1, t1, x(j + 1), t(j + 1), 1);
    lemma_sum_approximates(
        t0.sum(t1),
        x(j) + x(j + 1),
        t(j) + t(j + 1),
        2,
        t2,
        x(j + 2),
        t(j + 2),
        1,
    );
    lemma_sum_approximates(
        t0.sum(t1).sum(t2),
        x(j) + x(j + 1) + x(j + 2),
        t(j) + t(j + 1) + t(j + 2),
        3,
        t3,
        x(j + 3),
        t(j + 3),
        1,
    );
}

proof fn lemma_groups(e: Seq<Binary32>, m: Seq<Binary32>, row: int, count: nat)
    requires
        groups(e, m, row, count).is_finite(),
        4 * count + 1 <= term_limit(),
    ensures
        approximates(
            groups(e, m, row, count),
            sum_of(exact_term(e, m, row), 4 * count),
            sum_of(exact_size(e, m, row), 4 * count),
            4 * count + 1,
        ),
    decreases count,
{
    let x = exact_term(e, m, row);
    let t = exact_size(e, m, row);
    if count == 0 {
        lemma_zero_approximates();
    } else {
        let before = groups(e, m, row, (count - 1) as nat);
        let j = 4 * (count - 1);
        let g = group(e, m, row, j);
        lemma_finite_sum(before, g);
        lemma_groups(e, m, row, (count - 1) as nat);
        lemma_group(e, m, row, j);
        let n = (4 * (count - 1)) as nat;
        reveal_with_fuel(sum_of, 5);
        assert(sum_of(x, 4 * count) == sum_of(x, n) + (x(j) + x(j + 1) + x(j + 2) + x(j + 3)));
        assert(sum_of(t, 4 * count) == sum_of(t, n) + (t(j) + t(j + 1) + t(j + 2) + t(j + 3)));
        lemma_sum_approximates(
            before,
            sum_of(x, n),
            sum_of(t, n),
            n + 1,
            g,
            x(j) + x(j + 1) + x(j + 2) + x(j + 3),
            t(j) + t(j + 1) + t(j + 2) + t(j + 3),
            4,
        );
    }
}

proof fn lemma_row_sum(e: Seq<Binary32>, m: Seq<Binary32>, row: int, count: nat, rest: nat)
    requires
        row_sum(e, m, row, count, rest).is_finite(),
        4 * count + rest + 1 <= term_limit(),
    ensures
        approximates(
            row_sum(e, m, row, count, rest),
            sum_of(exact_term(e, m, row), 4 * count + rest),
            sum_of(exact_size(e, m, row), 4 * count + rest),
            4 * count + rest + 1,
        ),
    decreases rest,
{
    let x = exact_term(e, m, row);
    let t = exact_size(e, m, row);
    if rest == 0 {
        lemma_groups(e, m, row, count);
    } else {
        let before = row_sum(e, m, row, count, (rest - 1) as nat);
        let j = 4 * count + rest - 1;
        let last = term(e, m, row, j);
        lemma_finite_sum(before, last);
        lemma_row_sum(e, m, row, count, (rest - 1) as nat);
        lemma_term(e, m, row, j);
        lemma_sum_approximates(
            before,
            sum_of(x, j as nat),
            sum_of(t, j as nat),
            (j + 1) as nat,
            last,
            x(j),
            t(j),
            1,
        );
    }
}

/// A finite number is narrowed to the nearest one.
pub proof fn lemma_narrowed(s: Binary64)
    requires
        s.narrowed().is_finite(),
    ensures
        narrows_to(s, s.narrowed()),
{
    let f = Format::Binary32;
    let g = Format::Binary64;
    let c = s.narrowed();
    let n = magnitude(g, ieee::body(g, s.bits));
    let d = pow2(925);
    lemma_pow2_pos(925);
    lemma2_to64();
    lemma_relative_error(f, n, d);
    let m = magnitude(f, rounded(f, n, d));
    let neg = ieee::negative(g, s.bits);
    assert(c.pattern() == ieee::pattern(f, neg, rounded(f, n, d)));
    assert(c.value() == if neg {
        -(m as int)
    } else {
        m as int
    });
    let md = (m * d) as int;
    assert(wide(c) == if neg {
        -md
    } else {
        md
    }) by (nonlinear_arith)
        requires
            c.value() == if neg {
                -(m as int)
            } else {
                m as int
            },
            md == m * d,
            wide(c) == c.value() * d,
    ;
    let gp = crate::order::gap(n as int, md);
    assert(size(wide(c) - s.value()) == gp);
    assert(pow2(24) == 0x100_0000);
}

/// Each coordinate of a projected point is the dot product of the embedding with a row of the matrix,
/// up to the rounding of a sum of that many products and of its result.
pub proof fn lemma_coordinates_are_dot_products(
    e: Seq<Binary32>,
    m: Seq<Binary32>,
    high_dim: nat,
    dim: int,
)
    requires
        projected(e, m, high_dim) is Some,
        high_dim < term_limit(),
        0 <= dim < 3,
        projected(e, m, high_dim)->0[dim].is_finite(),
    ensures
        exists|s: Binary64|
            {
                &&& #[trigger] narrows_to(s, projected(e, m, high_dim)->0[dim])
                &&& approximates(
                    s,
                    sum_of(|j: int| wide(e[j]) * wide(m[dim * high_dim + j]), high_dim),
                    sum_of(|j: int| size(wide(e[j]) * wide(m[dim * high_dim + j])), high_dim),
                    high_dim + 1,
                )
            },
{
    let row = (dim as nat * e.len()) as int;
    let s = row_sum(e, m, row, e.len() / 4, e.len() % 4);
    assert(coordinate(e, m, dim as nat) == projected(e, m, high_dim)->0[dim]);
    lemma_narrowed(s);
    lemma_row_sum(e, m, row, e.len() / 4, e.len() % 4);
    assert(row == dim * high_dim);
    assert(exact_term(e, m, row) =~= |j: int| wide(e[j]) * wide(m[dim * high_dim + j]));
    assert(exact_size(e, m, row) =~= |j: int| size(wide(e[j]) * wide(m[dim * high_dim + j])));
}

/// Whether the first `n` numbers are zeros, but for a 1 at `j`.
pub open spec fn is_unit(e: Seq<Binary32>, j: int) -> bool {
    &&& 0 <= j < e.len()
    &&& e[j].bits == ONE
    &&& forall|i: int| 0 <= i < e.len() && i != j ==> (#[trigger] e[i]).bits == 0
}

/// 1 times a finite number is the number.
proof fn lemma_one_times(a: Binary32, x: Binary64)
    requires
        a.bits == ONE,
        x.is_finite(),
    ensures
        a.widened().product(x).is_finite(),
        a.widened().product(x).value() == x.value(),
{
    let g = Format::Binary64;
    crate::containment::lemma_one();
    lemma_widened_finite(a);
    lemma_pow2_adds(149, 925);
    let q = pow2(1074);
    lemma_pow2_pos(1074);
    let w = a.widened();
    assert(w.value() == q);
    assert(magnitude(g, ieee::body(g, w.bits)) == q) by {
        if ieee::negative(g, w.bits) {
            assert(w.value() <= 0);
        }
    }
    let y = magnitude(g, ieee::body(g, x.bits));
    assert(q * y == y * q) by (nonlinear_arith);
    assert(1 * q == q);
    lemma_rounded_cancel(g, y, 1, q);
    lemma_rounded_magnitude(g, ieee::body(g, x.bits));
    assert(!ieee::negative(g, w.bits)) by {
        if ieee::negative(g, w.bits) {
            assert(w.value() <= 0);
        }
    }
}

/// A zero added to a finite number leaves its value.
proof fn lemma_zero_plus(a: Binary64, b: Binary64)
    requires
        a.is_finite(),
        b.is_finite(),
        a.value() == 0 || b.value() == 0,
    ensures
        a.sum(b).is_finite(),
        a.sum(b).value() == a.value() + b.value(),
{
    let g = Format::Binary64;
    assert(magnitude(g, 0) == 0);
    lemma_rounded_magnitude(g, ieee::body(g, a.bits));
    lemma_rounded_magnitude(g, ieee::body(g, b.bits));
}

/// A term of the projection of a unit embedding is zero, or the entry of the matrix.
proof fn lemma_unit_term(e: Seq<Binary32>, m: Seq<Binary32>, row: int, j: int, i: int)
    requires
        is_unit(e, j),
        0 <= i < e.len(),
        m[row + i].is_finite(),
    ensures
        term(e, m, row, i).is_finite(),
        term(e, m, row, i).value() == if i == j {
            wide(m[row + i])
        } else {
            0
        },
{
    lemma_widened_finite(m[row + i]);
    if i == j {
        lemma_one_times(e[i], m[row + i].widened());
    } else {
        crate::projection::lemma_zero_term(e, m, row, i);
        assert(magnitude(Format::Binary64, 0) == 0);
    }
}

proof fn lemma_unit_group(e: Seq<Binary32>, m: Seq<Binary32>, row: int, j: int, i: int)
    requires
        is_unit(e, j),
        0 <= i,
        i + 4 <= e.len(),
        0 <= row,
        row + e.len() <= m.len(),
        forall|k: int| 0 <= k < m.len() ==> (#[trigger] m[k]).is_finite(),
    ensures
        group(e, m, row, i).is_finite(),
        group(e, m, row, i).value() == if i <= j < i + 4 {
            wide(m[row + j])
        } else {
            0
        },
{
    lemma_unit_term(e, m, row, j, i);
    lemma_unit_term(e, m, row, j, i + 1);
    lemma_unit_term(e, m, row, j, i + 2);
    lemma_unit_term(e, m, row, j, i + 3);
    let t0 = term(e, m, row, i);
    let t1 = term(e, m, row, i + 1);
    let t2 = term(e, m, row, i + 2);
    let t3 = term(e, m, row, i + 3);
    lemma_zero_plus(t0, t1);
    lemma_zero_plus(t0.sum(t1), t2);
    lemma_zero_plus(t0.sum(t1).sum(t2), t3);
}

proof fn lemma_unit_groups(e: Seq<Binary32>, m: Seq<Binary32>, row: int, j: int, count: nat)
    requires
        is_unit(e, j),
        4 * count <= e.len(),
        0 <= row,
        row + e.len() <= m.len(),
        forall|k: int| 0 <= k < m.len() ==> (#[trigger] m[k]).is_finite(),
    ensures
        groups(e, m, row, count).is_finite(),
        groups(e, m, row, count).value() == if j < 4 * count {
            wide(m[row + j])
        } else {
            0
        },
    decreases count,
{
    assert(magnitude(Format::Binary64, 0) == 0);
    if count > 0 {
        lemma_unit_groups(e, m, row, j, (count - 1) as nat);
        lemma_unit_group(e, m, row, j, 4 * (count - 1));
        lemma_zero_plus(
            groups(e, m, row, (count - 1) as nat),
            group(e, m, row, 4 * (count - 1)),
        );
    }
}

proof fn lemma_unit_row(
    e: Seq<Binary32>,
    m: Seq<Binary32>,
    row: int,
    j: int,
    count: nat,
    rest: nat,
)
    requires
        is_unit(e, j),
        4 * count + rest <= e.len(),
        0 <= row,
        row + e.len() <= m.len(),
        forall|k: int| 0 <= k < m.len() ==> (#[trigger] m[k]).is_finite(),
    ensures
        row_sum(e, m, row, count, rest).is_finite(),
        row_sum(e, m, row, count, rest).value() == if j < 4 * count + rest {
            wide(m[row + j])
        } else {
            0
        },
    decreases rest,
{
    if rest == 0 {
        lemma_unit_groups(e, m, row, j, count);
    } else {
        lemma_unit_row(e, m, row, j, count, (rest - 1) as nat);
        lemma_unit_term(e, m, row, j, 4 * count + rest - 1);
        lemma_zero_plus(
            row_sum(e, m, row, count, (rest - 1) as nat),
            term(e, m, row, 4 * count + rest - 1),
        );
    }
}

/// A double precision number that is a single precision one is narrowed to it.
proof fn lemma_narrowed_back(s: Binary64, a: Binary32)
    requires
        a.is_finite(),
        s.is_finite(),
        s.value() == wide(a),
    ensures
        s.narrowed().is_finite(),
        s.narrowed().value() == a.value(),
{
    let f = Format::Binary32;
    let g = Format::Binary64;
    let d = pow2(925);
    lemma_pow2_pos(925);
    let n = magnitude(g, ieee::body(g, s.bits));
    let k = magnitude(f, a.body());
    let va = a.value();
    assert(n == k * d && (va > 0 ==> s.value() > 0) && (va < 0 ==> s.value() < 0) && (va == 0
        ==> n == 0)) by (nonlinear_arith)
        requires
            s.value() == va * d,
            s.value() == n || s.value() == -n,
            va == k || va == -k,
            d > 0,
            n >= 0,
            k >= 0,
    ;
    assert(1 * d == d);
    lemma_rounded_cancel(f, k, 1, d);
    lemma_rounded_magnitude(f, a.body());
    if va == 0 {
        assert(k == 0);
        assert(magnitude(f, 0) == 0);
        crate::order::lemma_magnitude_order(f, a.body(), 0);
    }
}

/// Every coordinate depends on every number of the embedding: an embedding of zeros with a 1 at `j` is
/// projected to column `j` of a finite matrix.
pub proof fn lemma_unit_embedding(e: Seq<Binary32>, m: Seq<Binary32>, j: int, dim: int)
    requires
        is_unit(e, j),
        3 * e.len() <= m.len(),
        forall|k: int| 0 <= k < m.len() ==> (#[trigger] m[k]).is_finite(),
        0 <= dim < 3,
    ensures
        projected(e, m, e.len()) matches Some(point) && point[dim].is_finite() && point[dim].value()
            == m[dim * e.len() + j].value(),
{
    let n = e.len();
    let row = (dim as nat * n) as int;
    assert(0 <= row && row + n <= 3 * n) by (nonlinear_arith)
        requires
            row == dim * n,
            0 <= dim <= 2,
            n >= 0,
    ;
    lemma_unit_row(e, m, row, j, n / 4, n % 4);
    lemma_narrowed_back(row_sum(e, m, row, n / 4, n % 4), m[row + j]);
    assert(projected(e, m, n)->0[dim] == coordinate(e, m, dim as nat));
}

} // verus!
