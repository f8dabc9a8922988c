//! The projection of an embedding to a point in space.
use crate::memory::FractalMemory3D;
use crate::ieee::body;
use crate::numbers::{Binary32, Binary64};
use crate::rounding::{
    bit_len, lemma_bit_len, lemma_exact, lemma_field_unit, lemma_rounded_zero, magnitude, Format,
};
use vstd::arithmetic::div_mod::{lemma_fundamental_div_mod, lemma_mod_bound};
use vstd::arithmetic::power2::{
    lemma2_to64, lemma_pow2_adds, lemma_pow2_strictly_increases, pow2,
};
use vstd::prelude::*;

verus! {

pub open spec fn zero() -> Binary64 {
    Binary64 { bits: 0 }
}

/// One term of the sum for a coordinate.
pub open spec fn term(e: Seq<Binary32>, m: Seq<Binary32>, row: int, j: int) -> Binary64 {
    e[j].widened().product(m[row + j].widened())
}

/// The sum of four neighbouring terms.
pub open spec fn group(e: Seq<Binary32>, m: Seq<Binary32>, row: int, j: int) -> Binary64 {
    term(e, m, row, j).sum(term(e, m, row, j + 1)).sum(term(e, m, row, j + 2)).sum(
        term(e, m, row, j + 3),
    )
}

/// The first `count` groups, added up from left to right.
pub open spec fn groups(e: Seq<Binary32>, m: Seq<Binary32>, row: int, count: nat) -> Binary64
    decreases count,
{
    if count == 0 {
        zero()
    } else {
        groups(e, m, row, (count - 1) as nat).sum(group(e, m, row, 4 * (count - 1)))
    }
}

/// `count` groups and the `rest` terms after them, added up from left to right.
pub open spec fn row_sum(
    e: Seq<Binary32>,
    m: Seq<Binary32>,
    row: int,
    count: nat,
    rest: nat,
) -> Binary64
    decreases rest,
{
    if rest == 0 {
        groups(e, m, row, count)
    } else {
        row_sum(e, m, row, count, (rest - 1) as nat).sum(term(e, m, row, 4 * count + rest - 1))
    }
}

/// One coordinate of the point that `e` is projected to, summed in double precision.
pub open spec fn coordinate(e: Seq<Binary32>, m: Seq<Binary32>, dim: nat) -> Binary32 {
    row_sum(e, m, (dim * e.len()) as int, e.len() / 4, e.len() % 4).narrowed()
}

/// The point that `e` is projected to by the three rows of `m`; none where the shapes do not fit.
pub open spec fn projected(e: Seq<Binary32>, m: Seq<Binary32>, high_dim: nat) -> Option<
    Seq<Binary32>,
> {
    if e.len() != high_dim || m.len() < 3 * high_dim {
        None
    } else {
        Some(seq![coordinate(e, m, 0), coordinate(e, m, 1), coordinate(e, m, 2)])
    }
}

/// A product with zero is a zero.
pub proof fn lemma_zero_term(e: Seq<Binary32>, m: Seq<Binary32>, row: int, j: int)
    requires
        e[j].bits == 0,
        m[row + j].is_finite(),
    ensures
        body(Format::Binary64, term(e, m, row, j).bits) == 0,
{
    let f = Format::Binary32;
    let g = Format::Binary64;
    assert(magnitude(f, 0) == 0 && magnitude(g, 0) == 0);
    lemma_rounded_zero(g, g.quantum() - f.quantum());
    assert(e[j].widened().bits == 0);
    lemma_rounded_zero(g, -g.quantum());
    let x = m[row + j].widened();
    lemma_widened_finite(m[row + j]);
    assert(0 * magnitude(g, body(g, x.bits)) == 0);
}

/// A finite number stays finite when it is widened, and keeps its value.
pub proof fn lemma_widened_finite(a: Binary32)
    requires
        a.is_finite(),
    ensures
        a.widened().is_finite(),
        a.widened().value() == a.value() * pow2(925),
{
    let f = Format::Binary32;
    let g = Format::Binary64;
    let m = body(f, a.pattern());
    let u = f.field_unit();
    let field = m / u;
    let fraction = m % u;
    lemma_fundamental_div_mod(m as int, u as int);
    lemma_mod_bound(m as int, u as int);
    assert(field < 255) by (nonlinear_arith)
        requires
            m == u * field + fraction,
            fraction >= 0,
            m < 255 * u,
            u > 0,
    ;
    let (k, e): (nat, nat) = if field == 0 {
        (fraction, 0)
    } else {
        (u + fraction, (field - 1) as nat)
    };
    lemma2_to64();
    if field == 0 {
        assert(pow2(e) == 1);
        assert(k * 1 == k);
    }
    assert(magnitude(f, m) == k * pow2(e));
    lemma_field_unit(f);
    assert(bit_len(k) <= 53) by {
        if k > 0 {
            lemma_bit_len(k);
            if bit_len(k) > 53 {
                lemma_pow2_strictly_increases(24, (bit_len(k) - 1) as nat);
            }
        }
    }
    let shift = (g.quantum() - f.quantum()) as nat;
    lemma_exact(g, k, e + shift);
    lemma_pow2_adds(e, shift);
    assert((k * pow2(e)) * pow2(shift) == k * (pow2(e) * pow2(shift))) by (nonlinear_arith);
    let v = magnitude(f, m);
    assert((-(v as int)) * pow2(shift) == -((v * pow2(shift)) as int)) by (nonlinear_arith);
}

/// Zeros of any sign added to a positive zero leave it.
proof fn lemma_zero_sum(a: Binary64, b: Binary64)
    requires
        body(Format::Binary64, a.bits) == 0,
        body(Format::Binary64, b.bits) == 0,
    ensures
        body(Format::Binary64, a.sum(b).bits) == 0,
        a.bits == 0 ==> a.sum(b).bits == 0,
{
    assert(magnitude(Format::Binary64, 0) == 0);
}

proof fn lemma_zero_groups(e: Seq<Binary32>, m: Seq<Binary32>, row: int, count: nat)
    requires
        forall|j: int| 0 <= j < e.len() ==> (#[trigger] e[j]).bits == 0,
        forall|i: int| 0 <= i < m.len() ==> (#[trigger] m[i]).is_finite(),
        4 * count <= e.len(),
        0 <= row,
        row + e.len() <= m.len(),
    ensures
        groups(e, m, row, count).bits == 0,
    decreases count,
{
    if count > 0 {
        lemma_zero_groups(e, m, row, (count - 1) as nat);
        let j = 4 * (count - 1);
        lemma_zero_term(e, m, row, j);
        lemma_zero_term(e, m, row, j + 1);
        lemma_zero_term(e, m, row, j + 2);
        lemma_zero_term(e, m, row, j + 3);
        let a = term(e, m, row, j).sum(term(e, m, row, j + 1));
        lemma_zero_sum(term(e, m, row, j), term(e, m, row, j + 1));
        lemma_zero_sum(a, term(e, m, row, j + 2));
        lemma_zero_sum(a.sum(term(e, m, row, j + 2)), term(e, m, row, j + 3));
        lemma_zero_sum(groups(e, m, row, (count - 1) as nat), group(e, m, row, j));
    }
}

proof fn lemma_zero_row(e: Seq<Binary32>, m: Seq<Binary32>, row: int, count: nat, rest: nat)
    requires
        forall|j: int| 0 <= j < e.len() ==> (#[trigger] e[j]).bits == 0,
        forall|i: int| 0 <= i < m.len() ==> (#[trigger] m[i]).is_finite(),
        4 * count + rest <= e.len(),
        0 <= row,
        row + e.len() <= m.len(),
    ensures
        row_sum(e, m, row, count, rest).bits == 0,
    decreases rest,
{
    if rest == 0 {
        lemma_zero_groups(e, m, row, count);
    } else {
        lemma_zero_row(e, m, row, count, (rest - 1) as nat);
        lemma_zero_term(e, m, row, 4 * count + rest - 1);
        lemma_zero_sum(
            row_sum(e, m, row, count, (rest - 1) as nat),
            term(e, m, row, 4 * count + rest - 1),
        );
    }
}

/// A point is projected exactly where the embedding has the length that is asked for and the matrix has
/// three rows for it.
pub proof fn lemma_projection_shapes(e: Seq<Binary32>, m: Seq<Binary32>, high_dim: nat)
    ensures
        projected(e, m, high_dim) is Some <==> e.len() == high_dim && m.len() >= 3 * high_dim,
{
    if e.len() == high_dim && m.len() >= 3 * high_dim {
        let point = seq![coordinate(e, m, 0), coordinate(e, m, 1), coordinate(e, m, 2)];
        assert(projected(e, m, high_dim) == Some(point));
    } else {
        assert(projected(e, m, high_dim) == None::<Seq<Binary32>>);
    }
}

/// The embedding of zeros is projected to the origin by every finite matrix.
pub proof fn lemma_zero_embedding(e: Seq<Binary32>, m: Seq<Binary32>)
    requires
        forall|j: int| 0 <= j < e.len() ==> (#[trigger] e[j]).bits == 0,
        forall|i: int| 0 <= i < m.len() ==> (#[trigger] m[i]).is_finite(),
        3 * e.len() <= m.len(),
    ensures
        projected(e, m, e.len()) == Some(
            seq![Binary32 { bits: 0 }, Binary32 { bits: 0 }, Binary32 { bits: 0 }],
        ),
{
    let n = e.len();
    assert(0 * n == 0 && 1 * n == n);
    lemma_zero_row(e, m, 0, n / 4, n % 4);
    lemma_zero_row(e, m, n as int, n / 4, n % 4);
    lemma_zero_row(e, m, (2 * n) as int, n / 4, n % 4);
    let f = Format::Binary32;
    let g = Format::Binary64;
    assert(magnitude(g, 0) == 0);
    lemma_rounded_zero(f, f.quantum() - g.quantum());
}

fn project_term(e: &[Binary32], m: &[Binary32], row: usize, j: usize) -> (r: Binary64)
    requires
        j < e@.len(),
        row + j < m@.len(),
    ensures
        r == term(e@, m@, row as int, j as int),
{
    assert(m.len() == m@.len());
    e[j].widen().times(m[row + j].widen())
}

/// `row_sum` over a whole row.
fn project_row(e: &[Binary32], m: &[Binary32], row: usize) -> (r: Binary64)
    requires
        row + e@.len() <= m@.len(),
    ensures
        r == row_sum(e@, m@, row as int, e@.len() / 4, e@.len() % 4),
{
    let n = e.len();
    let total = m.len();
    let count = n / 4;
    let rest = n % 4;
    let mut sum = Binary64 { bits: 0 };
    let mut c: usize = 0;
    while c < count
        invariant
            c <= count,
            count == n / 4,
            n == e@.len(),
            total == m@.len(),
            row + n <= total,
            sum == groups(e@, m@, row as int, c as nat),
        decreases count - c,
    {
        let j = 4 * c;
        let four = project_term(e, m, row, j).plus(project_term(e, m, row, j + 1)).plus(
            project_term(e, m, row, j + 2),
        ).plus(project_term(e, m, row, j + 3));
        sum = sum.plus(four);
        c = c + 1;
    }
    let mut k: usize = 0;
    while k < rest
        invariant
            k <= rest,
            count == n / 4,
            rest == n % 4,
            n == e@.len(),
            total == m@.len(),
            row + n <= total,
            sum == row_sum(e@, m@, row as int, count as nat, k as nat),
        decreases rest - k,
    {
        sum = sum.plus(project_term(e, m, row, 4 * count + k));
        k = k + 1;
    }
    sum
}

/// Projects `embedding` by a matrix of three rows of `high_dim` numbers.
pub fn project_to_3d(
    embedding: &[Binary32],
    projection_matrix: &[Binary32],
    high_dim: usize,
) -> (r: Option<[Binary32; 3]>)
    ensures
        r is Some <==> projected(embedding@, projection_matrix@, high_dim as nat) is Some,
        r matches Some(point) ==> point@ == projected(
            embedding@,
            projection_matrix@,
            high_dim as nat,
        )->0,
{
    let total = projection_matrix.len();
    if embedding.len() != high_dim {
        return None;
    }
    if high_dim > total / 3 {
        return None;
    }
    let x = project_row(embedding, projection_matrix, 0).narrow();
    let y = project_row(embedding, projection_matrix, high_dim).narrow();
    let z = project_row(embedding, projection_matrix, 2 * high_dim).narrow();
    let point = [x, y, z];
    proof {
        let e = embedding@;
        let m = projection_matrix@;
        assert(0 * e.len() == 0 && 1 * e.len() == e.len());
        assert(point@ =~= projected(e, m, high_dim as nat)->0);
    }
    Some(point)
}

impl FractalMemory3D {
    /// Projects `embedding` by the matrix of this memory.
    pub fn project_to_3d(&self, embedding: &[Binary32]) -> (r: Option<[Binary32; 3]>)
        ensures
            r is Some <==> projected(
                embedding@,
                self@.projection,
                self@.high_dim as nat,
            ) is Some,
            r matches Some(point) ==> point@ == projected(
                embedding@,
                self@.projection,
                self@.high_dim as nat,
            )->0,
    {
        project_to_3d(embedding, self.projection_matrix.as_slice(), self.high_dim)
    }
}

} // verus!
