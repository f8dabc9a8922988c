//! Projection matrices: drawn from a seed, or learned from sample embeddings by power iteration.
use crate::memory::{FractalMemory3D, MemoryModel};
use crate::numbers::{Binary32, Binary64};
use crate::projection::zero;
use crate::rng::{advanced_by, seeded, uniform_double, uniform_single, DeterministicRng};
use vstd::arithmetic::div_mod::{
    lemma_fundamental_div_mod, lemma_fundamental_div_mod_converse, lemma_mod_bound,
};
use vstd::prelude::*;

verus! {

/// Squared lengths below this, two to the power of -52, are not normalised.
pub const EPSILON: u64 = 0x3cb0_0000_0000_0000;

/// The seed of the vectors that the power iteration starts from.
pub const START_SEED: u64 = 0x50_4443_415F_4341;

/// How many rounds of power iteration a calibration takes.
pub const CALIBRATION_ROUNDS: usize = 20;

/// The sum of the first `count` products along row `i` of a matrix with rows of length `d`, from
/// left to right.
pub open spec fn row_dot(
    x: Seq<Binary64>,
    d: nat,
    v: Seq<Binary64>,
    i: int,
    count: nat,
) -> Binary64
    decreases count,
{
    if count == 0 {
        zero()
    } else {
        row_dot(x, d, v, i, (count - 1) as nat).sum(
            x[i * d + count - 1].product(v[count - 1]),
        )
    }
}

/// The sum of the first `count` products down column `j`, from top to bottom.
pub open spec fn column_dot(
    x: Seq<Binary64>,
    d: nat,
    v: Seq<Binary64>,
    j: int,
    count: nat,
) -> Binary64
    decreases count,
{
    if count == 0 {
        zero()
    } else {
        column_dot(x, d, v, j, (count - 1) as nat).sum(
            x[(count - 1) * d + j].product(v[count - 1]),
        )
    }
}

/// The matrix of `n` rows of length `d`, or its transpose, times the vector `v`.
pub open spec fn multiplied(
    x: Seq<Binary64>,
    n: nat,
    d: nat,
    v: Seq<Binary64>,
    transpose: bool,
) -> Seq<Binary64> {
    if transpose {
        Seq::new(d, |j: int| column_dot(x, d, v, j, n))
    } else {
        Seq::new(n, |i: int| row_dot(x, d, v, i, d))
    }
}

/// The sum of the first `count` squares.
pub open spec fn square_sum(v: Seq<Binary64>, count: nat) -> Binary64
    decreases count,
{
    if count == 0 {
        zero()
    } else {
        square_sum(v, (count - 1) as nat).sum(v[count - 1].product(v[count - 1]))
    }
}

/// `v` brought to length 1, unless it is too short for that.
pub open spec fn normalised(v: Seq<Binary64>) -> Seq<Binary64> {
    let norm = square_sum(v, v.len());
    if norm.less(Binary64 { bits: EPSILON }) {
        v
    } else {
        let scale = norm.root().reciprocal();
        Seq::new(v.len(), |i: int| v[i].product(scale))
    }
}

/// The sum of the first `count` numbers of column `j`.
pub open spec fn column_sum(data: Seq<Binary32>, d: nat, j: int, count: nat) -> Binary64
    decreases count,
{
    if count == 0 {
        zero()
    } else {
        column_sum(data, d, j, (count - 1) as nat).sum(data[(count - 1) * d + j].widened())
    }
}

/// The mean of column `j`.
pub open spec fn column_mean(data: Seq<Binary32>, n: nat, d: nat, j: int) -> Binary64 {
    column_sum(data, d, j, n).product(Binary64::natural(n).reciprocal())
}

/// The samples, less the means of their columns.
pub open spec fn centered(data: Seq<Binary32>, n: nat, d: nat) -> Seq<Binary64> {
    Seq::new(
        n * d,
        |i: int| data[i].widened().difference(column_mean(data, n, d, i % (d as int))),
    )
}

/// The vector that the iteration for component `c` starts from.
pub open spec fn start_vector(d: nat, c: nat) -> Seq<Binary64> {
    normalised(
        Seq::new(
            d,
            |j: int|
                uniform_double(advanced_by(seeded(START_SEED), (c * d + j + 1) as nat)),
        ),
    )
}

/// `v` after `rounds` rounds of power iteration.
pub open spec fn iterated(
    x: Seq<Binary64>,
    n: nat,
    d: nat,
    v: Seq<Binary64>,
    rounds: nat,
) -> Seq<Binary64>
    decreases rounds,
{
    if rounds == 0 {
        v
    } else {
        let w = iterated(x, n, d, v, (rounds - 1) as nat);
        normalised(multiplied(x, n, d, multiplied(x, n, d, w, false), true))
    }
}

/// `x` without what lies along `v`.
pub open spec fn deflated(x: Seq<Binary64>, n: nat, d: nat, v: Seq<Binary64>) -> Seq<Binary64> {
    let along = multiplied(x, n, d, v, false);
    Seq::new(
        n * d,
        |i: int| x[i].difference(along[i / (d as int)].product(v[i % (d as int)])),
    )
}

/// What is left of the samples for component `c`.
pub open spec fn remaining(
    data: Seq<Binary32>,
    n: nat,
    d: nat,
    rounds: nat,
    c: nat,
) -> Seq<Binary64>
    decreases c,
{
    if c == 0 {
        centered(data, n, d)
    } else {
        let x = remaining(data, n, d, rounds, (c - 1) as nat);
        deflated(x, n, d, iterated(x, n, d, start_vector(d, (c - 1) as nat), rounds))
    }
}

/// Component `c`.
pub open spec fn component(
    data: Seq<Binary32>,
    n: nat,
    d: nat,
    rounds: nat,
    c: nat,
) -> Seq<Binary64> {
    iterated(remaining(data, n, d, rounds, c), n, d, start_vector(d, c), rounds)
}

/// The three components, row after row.
pub open spec fn principal_components(
    data: Seq<Binary32>,
    n: nat,
    d: nat,
    rounds: nat,
) -> Seq<Binary32> {
    Seq::new(
        3 * d,
        |i: int|
            component(data, n, d, rounds, (i / (d as int)) as nat)[i % (d as int)].narrowed(),
    )
}

/// Brings `v` to length 1, unless it is too short for that.
pub fn l2_normalise(v: &mut Vec<Binary64>)
    ensures
        final(v)@ == normalised(old(v)@),
{
    let ghost start = v@;
    let len = v.len();
    let mut norm = Binary64 { bits: 0 };
    let mut i: usize = 0;
    while i < len
        invariant
            i <= len,
            len == v@.len(),
            v@ == start,
            norm == square_sum(start, i as nat),
        decreases len - i,
    {
        norm = norm.plus(v[i].times(v[i]));
        i = i + 1;
    }
    if norm.is_less(Binary64 { bits: EPSILON }) {
        return;
    }
    let scale = norm.sqrt().invert();
    let mut k: usize = 0;
    while k < len
        invariant
            k <= len,
            len == v@.len(),
            len == start.len(),
            forall|j: int| 0 <= j < k ==> #[trigger] v@[j] == start[j].product(scale),
            forall|j: int| k <= j < len ==> #[trigger] v@[j] == start[j],
        decreases len - k,
    {
        let x = v[k].times(scale);
        v.set(k, x);
        k = k + 1;
    }
    assert(v@ =~= normalised(start));
}

proof fn lemma_cell_index(i: nat, j: nat, n: nat, d: nat)
    requires
        i < n,
        j < d,
    ensures
        i * d + j < n * d,
        i * d <= n * d,
        (i + 1) * d == i * d + d,
        (i + 1) * d <= n * d,
        (i * d + j) as int / d as int == i,
        (i * d + j) as int % d as int == j,
{
    assert((i + 1) * d <= n * d) by (nonlinear_arith)
        requires
            i + 1 <= n,
    ;
    assert((i + 1) * d == i * d + d) by (nonlinear_arith);
    lemma_fundamental_div_mod_converse(
        (i * d + j) as int,
        d as int,
        i as int,
        j as int,
    );
}

/// The matrix of `n` rows of length `d`, or its transpose, times `vec`.
pub fn mat_vec_mul(
    data: &[Binary64],
    n: usize,
    d: usize,
    vec: &[Binary64],
    transpose: bool,
) -> (r: Vec<Binary64>)
    requires
        n * d <= data@.len(),
        if transpose {
            n <= vec@.len() && 8 * d <= isize::MAX
        } else {
            (n == 0 || d <= vec@.len()) && 8 * n <= isize::MAX
        },
    ensures
        r@ == multiplied(data@, n as nat, d as nat, vec@, transpose),
{
    assert(data.len() == data@.len());
    let mut out: Vec<Binary64> = Vec::new();
    if transpose {
        let mut j: usize = 0;
        while j < d
            invariant
                j <= d,
                n * d <= data@.len() <= usize::MAX,
                n <= vec@.len(),
                out@.len() == j,
                forall|k: int|
                    0 <= k < j ==> #[trigger] out@[k] == column_dot(
                        data@,
                        d as nat,
                        vec@,
                        k,
                        n as nat,
                    ),
            decreases d - j,
        {
            let mut sum = Binary64 { bits: 0 };
            let mut i: usize = 0;
            while i < n
                invariant
                    i <= n,
                    j < d,
                    n * d <= data@.len() <= usize::MAX,
                    n <= vec@.len(),
                    sum == column_dot(data@, d as nat, vec@, j as int, i as nat),
                decreases n - i,
            {
                proof {
                    lemma_cell_index(i as nat, j as nat, n as nat, d as nat);
                }
                sum = sum.plus(data[i * d + j].times(vec[i]));
                i = i + 1;
            }
            out.push(sum);
            j = j + 1;
        }
    } else {
        let mut i: usize = 0;
        while i < n
            invariant
                i <= n,
                n * d <= data@.len() <= usize::MAX,
                n == 0 || d <= vec@.len(),
                out@.len() == i,
                forall|k: int|
                    0 <= k < i ==> #[trigger] out@[k] == row_dot(
                        data@,
                        d as nat,
                        vec@,
                        k,
                        d as nat,
                    ),
            decreases n - i,
        {
            let mut sum = Binary64 { bits: 0 };
            let mut j: usize = 0;
            while j < d
                invariant
                    j <= d,
                    i < n,
                    n * d <= data@.len() <= usize::MAX,
                    d <= vec@.len(),
                    sum == row_dot(data@, d as nat, vec@, i as int, j as nat),
                decreases d - j,
            {
                proof {
                    lemma_cell_index(i as nat, j as nat, n as nat, d as nat);
                }
                sum = sum.plus(data[i * d + j].times(vec[j]));
                j = j + 1;
            }
            out.push(sum);
            i = i + 1;
        }
    }
    assert(out@ =~= multiplied(data@, n as nat, d as nat, vec@, transpose));
    out
}

/// The means of the columns.
fn column_means(data: &[Binary32], n: usize, d: usize) -> (r: Vec<Binary64>)
    requires
        n * d <= data@.len(),
    ensures
        r@ == Seq::new(d as nat, |j: int| column_mean(data@, n as nat, d as nat, j)),
{
    assert(data.len() == data@.len());
    let inv_n = Binary64::from_natural(n as u64).invert();
    let mut out: Vec<Binary64> = Vec::new();
    let mut j: usize = 0;
    while j < d
        invariant
            j <= d,
            n * d <= data@.len() <= usize::MAX,
            inv_n == Binary64::natural(n as nat).reciprocal(),
            out@.len() == j,
            forall|k: int|
                0 <= k < j ==> #[trigger] out@[k] == column_mean(data@, n as nat, d as nat, k),
        decreases d - j,
    {
        let mut sum = Binary64 { bits: 0 };
        let mut i: usize = 0;
        while i < n
            invariant
                i <= n,
                j < d,
                n * d <= data@.len() <= usize::MAX,
                sum == column_sum(data@, d as nat, j as int, i as nat),
            decreases n - i,
        {
            proof {
                lemma_cell_index(i as nat, j as nat, n as nat, d as nat);
            }
            sum = sum.plus(data[i * d + j].widen());
            i = i + 1;
        }
        out.push(sum.times(inv_n));
        j = j + 1;
    }
    assert(out@ =~= Seq::new(d as nat, |j: int| column_mean(data@, n as nat, d as nat, j)));
    out
}

/// Subtracts the means of the columns.
fn center(data: &[Binary32], n: usize, d: usize) -> (r: Vec<Binary64>)
    requires
        n * d <= data@.len(),
        d > 0,
    ensures
        r@ == centered(data@, n as nat, d as nat),
{
    assert(data.len() == data@.len());
    let mean = column_means(data, n, d);
    let total = n * d;
    let mut out: Vec<Binary64> = Vec::new();
    let mut i: usize = 0;
    while i < total
        invariant
            i <= total,
            total == n * d,
            total <= data@.len(),
            d > 0,
            mean@ == Seq::new(d as nat, |j: int| column_mean(data@, n as nat, d as nat, j)),
            out@.len() == i,
            forall|k: int|
                0 <= k < i ==> #[trigger] out@[k] == centered(data@, n as nat, d as nat)[k],
        decreases total - i,
    {
        proof {
            lemma_mod_bound(i as int, d as int);
        }
        let x = data[i].widen().minus(mean[i % d]);
        out.push(x);
        i = i + 1;
    }
    assert(out@ =~= centered(data@, n as nat, d as nat));
    out
}

/// Draws the vector that an iteration starts from.
fn draw_start(rng: &mut DeterministicRng, d: usize, Ghost(c): Ghost<nat>) -> (r: Vec<Binary64>)
    requires
        old(rng)@ == advanced_by(seeded(START_SEED), c * d as nat),
    ensures
        r@ == start_vector(d as nat, c),
        final(rng)@ == advanced_by(seeded(START_SEED), (c + 1) * d as nat),
{
    let mut v: Vec<Binary64> = Vec::new();
    let mut j: usize = 0;
    let ghost seed = seeded(START_SEED);
    while j < d
        invariant
            j <= d,
            rng@ == advanced_by(seed, c * d as nat + j as nat),
            v@.len() == j,
            forall|k: int|
                0 <= k < j ==> #[trigger] v@[k] == uniform_double(
                    advanced_by(seed, (c * d + k + 1) as nat),
                ),
        decreases d - j,
    {
        let x = rng.next_f64();
        v.push(x);
        j = j + 1;
    }
    assert(v@ =~= Seq::new(
        d as nat,
        |j: int| uniform_double(advanced_by(seed, (c * d + j + 1) as nat)),
    ));
    assert((c + 1) * d == c * d + d) by (nonlinear_arith);
    l2_normalise(&mut v);
    v
}

proof fn lemma_normalised_len(v: Seq<Binary64>)
    ensures
        normalised(v).len() == v.len(),
{
}

/// Runs `rounds` rounds of power iteration on `start`.
fn iterate(
    x: &[Binary64],
    n: usize,
    d: usize,
    start: Vec<Binary64>,
    rounds: usize,
) -> (r: Vec<Binary64>)
    requires
        n * d <= x@.len(),
        start@.len() == d,
        8 * n <= isize::MAX,
        8 * d <= isize::MAX,
    ensures
        r@ == iterated(x@, n as nat, d as nat, start@, rounds as nat),
        r@.len() == d,
{
    let ghost first = start@;
    let mut v = start;
    let mut k: usize = 0;
    while k < rounds
        invariant
            k <= rounds,
            n * d <= x@.len(),
            8 * n <= isize::MAX,
            8 * d <= isize::MAX,
            v@.len() == d,
            v@ == iterated(x@, n as nat, d as nat, first, k as nat),
        decreases rounds - k,
    {
        let along = mat_vec_mul(x, n, d, v.as_slice(), false);
        v = mat_vec_mul(x, n, d, along.as_slice(), true);
        proof {
            lemma_normalised_len(v@);
        }
        l2_normalise(&mut v);
        k = k + 1;
    }
    v
}

/// Takes out of `x` what lies along `v`.
fn deflate(x: &mut Vec<Binary64>, n: usize, d: usize, v: &[Binary64])
    requires
        n * d == old(x)@.len(),
        v@.len() == d,
        d > 0,
        8 * n <= isize::MAX,
    ensures
        final(x)@ == deflated(old(x)@, n as nat, d as nat, v@),
{
    let ghost start = x@;
    let along = mat_vec_mul(x.as_slice(), n, d, v, false);
    let total = x.len();
    let mut i: usize = 0;
    while i < total
        invariant
            i <= total,
            total == x@.len(),
            total == start.len(),
            total == n * d,
            d > 0,
            v@.len() == d,
            along@ == multiplied(start, n as nat, d as nat, v@, false),
            forall|k: int|
                0 <= k < i ==> #[trigger] x@[k] == deflated(start, n as nat, d as nat, v@)[k],
            forall|k: int| i <= k < total ==> #[trigger] x@[k] == start[k],
        decreases total - i,
    {
        proof {
            lemma_mod_bound(i as int, d as int);
            lemma_fundamental_div_mod(i as int, d as int);
            let q = i as int / d as int;
            let r = i as int % d as int;
            assert(q < n) by (nonlinear_arith)
                requires
                    i == d * q + r,
                    0 <= r,
                    i < n * d,
                    d > 0,
            ;
        }
        let y = x[i].minus(along[i / d].times(v[i % d]));
        x.set(i, y);
        i = i + 1;
    }
    assert(x@ =~= deflated(start, n as nat, d as nat, v@));
}

/// The three directions along which the samples vary most, as the rows of a projection matrix:
/// power iteration on the centred samples, which each component is taken out of before the next
/// one is looked for.
pub fn compute_pca_projection(
    data: &[Binary32],
    num_samples: usize,
    high_dim: usize,
    max_iters: usize,
) -> (r: Vec<Binary32>)
    requires
        data@.len() == num_samples * high_dim,
        num_samples > 0,
        high_dim > 0,
        max_iters > 0,
        8 * data@.len() <= isize::MAX,
        12 * high_dim <= isize::MAX,
    ensures
        r@ == principal_components(
            data@,
            num_samples as nat,
            high_dim as nat,
            max_iters as nat,
        ),
        r@.len() == 3 * high_dim,
{
    let n = num_samples;
    let d = high_dim;
    let ghost rounds = max_iters as nat;
    assert(n <= n * d) by (nonlinear_arith)
        requires
            d > 0,
    ;
    let mut x = center(data, n, d);
    let mut rng = DeterministicRng::new(START_SEED);
    let mut projection: Vec<Binary32> = Vec::new();
    let ghost goal = principal_components(data@, n as nat, d as nat, rounds);
    let mut c: usize = 0;
    assert(0 * d == 0);
    while c < 3
        invariant
            c <= 3,
            d > 0,
            rounds == max_iters,
            n == num_samples,
            d == high_dim,
            data@.len() == n * d,
            12 * d <= isize::MAX,
            8 * n <= isize::MAX,
            c < 3 ==> x@ == remaining(data@, n as nat, d as nat, rounds, c as nat),
            x@.len() == n * d,
            rng@ == advanced_by(seeded(START_SEED), c as nat * d as nat),
            goal == principal_components(data@, n as nat, d as nat, rounds),
            projection@.len() == c * d,
            forall|k: int| 0 <= k < c * d ==> #[trigger] projection@[k] == goal[k],
        decreases 3 - c,
    {
        let start = draw_start(&mut rng, d, Ghost(c as nat));
        proof {
            lemma_normalised_len(
                Seq::new(
                    d as nat,
                    |j: int|
                        uniform_double(
                            advanced_by(seeded(START_SEED), (c as nat * d as nat + j + 1) as nat),
                        ),
                ),
            );
        }
        let v = iterate(x.as_slice(), n, d, start, max_iters);
        assert(v@ == component(data@, n as nat, d as nat, rounds, c as nat));
        let ghost done = projection@;
        let mut j: usize = 0;
        while j < d
            invariant
                j <= d,
                c < 3,
                v@.len() == d,
                v@ == component(data@, n as nat, d as nat, rounds, c as nat),
                goal == principal_components(data@, n as nat, d as nat, rounds),
                projection@.len() == c * d + j,
                forall|k: int| 0 <= k < c * d + j ==> #[trigger] projection@[k] == goal[k],
            decreases d - j,
        {
            proof {
                lemma_cell_index(c as nat, j as nat, 3, d as nat);
            }
            projection.push(v[j].narrow());
            j = j + 1;
        }
        assert((c + 1) * d == c * d + d) by (nonlinear_arith);
        if c < 2 {
            deflate(&mut x, n, d, v.as_slice());
        }
        c = c + 1;
    }
    assert(projection@ =~= goal);
    projection
}

/// The matrix that is drawn from a seed.
pub open spec fn seeded_matrix(seed: u64, len: nat) -> Seq<Binary32> {
    Seq::new(len, |i: int| uniform_single(advanced_by(seeded(seed), (i + 1) as nat)))
}

impl FractalMemory3D {
    /// Creates an empty memory that projects by a matrix drawn from a seed.
    pub fn new(high_dim: usize, seed: u64) -> (r: Self)
        requires
            12 * high_dim <= isize::MAX,
        ensures
            r@ == MemoryModel::empty(high_dim, seeded_matrix(seed, 3 * high_dim as nat)),
            r@.well_formed(),
            forall|i: int|
                0 <= i < r@.projection.len() ==> (#[trigger] r@.projection[i]).is_finite(),
    {
        let len = 3 * high_dim;
        let mut rng = DeterministicRng::new(seed);
        let mut matrix: Vec<Binary32> = Vec::new();
        let mut i: usize = 0;
        while i < len
            invariant
                i <= len,
                rng@ == advanced_by(seeded(seed), i as nat),
                matrix@.len() == i,
                forall|k: int|
                    0 <= k < i ==> #[trigger] matrix@[k] == uniform_single(
                        advanced_by(seeded(seed), (k + 1) as nat),
                    ),
                forall|k: int| 0 <= k < i ==> (#[trigger] matrix@[k]).is_finite(),
            decreases len - i,
        {
            let x = rng.next_f32();
            matrix.push(x);
            i = i + 1;
        }
        assert(matrix@ =~= seeded_matrix(seed, 3 * high_dim as nat));
        Self::new_empty(high_dim, matrix)
    }

    /// Creates an empty memory that projects by the principal components of sample embeddings.
    pub fn new_with_pca(
        high_dim: usize,
        calibration_data: &[Binary32],
        num_samples: usize,
    ) -> (r: Self)
        requires
            calibration_data@.len() == num_samples * high_dim,
            num_samples > 0,
            high_dim > 0,
            8 * calibration_data@.len() <= isize::MAX,
            12 * high_dim <= isize::MAX,
        ensures
            r@ == MemoryModel::empty(
                high_dim,
                principal_components(
                    calibration_data@,
                    num_samples as nat,
                    high_dim as nat,
                    20,
                ),
            ),
            r@.well_formed(),
    {
        let matrix = compute_pca_projection(
            calibration_data,
            num_samples,
            high_dim,
            CALIBRATION_ROUNDS,
        );
        Self::new_from_calibration(high_dim, matrix)
    }
}

} // verus!
