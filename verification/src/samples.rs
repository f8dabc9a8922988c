//! Sample embeddings, handed over row by row.
use crate::numbers::Binary32;
use vstd::prelude::*;

verus! {

/// Why samples are not accepted.
pub enum SampleError {
    /// There are none.
    Empty,
    /// The row `row` has another length than the first one.
    Uneven { expected: usize, row: usize, found: usize },
}

pub open spec fn row_models(rows: Seq<Vec<Binary32>>) -> Seq<Seq<Binary32>> {
    Seq::new(rows.len(), |i: int| rows[i]@)
}

/// The first `count` rows, one after the other.
pub open spec fn flattened(rows: Seq<Seq<Binary32>>, count: nat) -> Seq<Binary32>
    decreases count,
{
    if count == 0 {
        Seq::empty()
    } else {
        flattened(rows, (count - 1) as nat) + rows[count - 1]
    }
}

/// Whether the row `i` is the first one that is not as long as row 0.
pub open spec fn first_uneven(rows: Seq<Seq<Binary32>>, i: int) -> bool {
    &&& 0 <= i < rows.len()
    &&& rows[i].len() != rows[0].len()
    &&& forall|j: int| 0 <= j < i ==> (#[trigger] rows[j]).len() == rows[0].len()
}

/// Rows of equal length, as long as a sequence of them: `n` times `d` numbers.
proof fn lemma_flattened_len(rows: Seq<Seq<Binary32>>, count: nat, d: nat)
    requires
        count <= rows.len(),
        forall|j: int| 0 <= j < rows.len() ==> (#[trigger] rows[j]).len() == d,
    ensures
        flattened(rows, count).len() == count * d,
    decreases count,
{
    if count > 0 {
        lemma_flattened_len(rows, (count - 1) as nat, d);
        assert(count * d == (count - 1) * d + d) by (nonlinear_arith);
    } else {
        assert(0 * d == 0);
    }
}

/// The samples one after the other, and the length of each; an error where there are none or
/// where a row is not as long as the first one.
pub fn flatten_samples(rows: &Vec<Vec<Binary32>>) -> (r: Result<
    (Vec<Binary32>, usize),
    SampleError,
>)
    ensures
        match r {
            Ok((flat, high_dim)) => {
                &&& rows@.len() > 0
                &&& forall|j: int| 0 <= j < rows@.len() ==> (#[trigger] rows@[j])@.len() == high_dim
                &&& flat@ == flattened(row_models(rows@), rows@.len())
                &&& flat@.len() == rows@.len() * high_dim
            },
            Err(SampleError::Empty) => rows@.len() == 0,
            Err(SampleError::Uneven { expected, row, found }) => {
                &&& first_uneven(row_models(rows@), row as int)
                &&& expected == rows@[0]@.len()
                &&& found == rows@[row as int]@.len()
            },
        },
{
    if rows.len() == 0 {
        return Err(SampleError::Empty);
    }
    let ghost models = row_models(rows@);
    let high_dim = rows[0].len();
    let mut flat: Vec<Binary32> = Vec::new();
    let mut i: usize = 0;
    while i < rows.len()
        invariant
            i <= rows@.len(),
            rows@.len() > 0,
            models == row_models(rows@),
            high_dim == rows@[0]@.len(),
            forall|j: int| 0 <= j < i ==> (#[trigger] models[j]).len() == high_dim,
            flat@ == flattened(models, i as nat),
        decreases rows@.len() - i,
    {
        assert(models[i as int] == rows@[i as int]@);
        assert(models[0] == rows@[0]@);
        if rows[i].len() != high_dim {
            return Err(SampleError::Uneven { expected: high_dim, row: i, found: rows[i].len() });
        }
        flat.extend_from_slice(rows[i].as_slice());
        assert(flat@ =~= flattened(models, (i + 1) as nat));
        i = i + 1;
    }
    proof {
        lemma_flattened_len(models, rows@.len(), high_dim as nat);
        assert forall|j: int| 0 <= j < rows@.len() implies (#[trigger] rows@[j])@.len()
            == high_dim by {
            assert(models[j].len() == high_dim);
        }
    }
    Ok((flat, high_dim))
}

/// In the flattened samples, number `j` of row `i` stands at `i` times the length of a row plus `j`.
pub proof fn lemma_flattened_entry(
    rows: Seq<Seq<Binary32>>,
    count: nat,
    d: nat,
    i: int,
    j: int,
)
    requires
        count <= rows.len(),
        forall|k: int| 0 <= k < rows.len() ==> (#[trigger] rows[k]).len() == d,
        0 <= i < count,
        0 <= j < d,
    ensures
        flattened(rows, count).len() == count * d,
        i * d + j < count * d,
        flattened(rows, count)[i * d + j] == rows[i][j],
    decreases count,
{
    lemma_flattened_len(rows, count, d);
    lemma_flattened_len(rows, (count - 1) as nat, d);
    assert(count * d == (count - 1) * d + d) by (nonlinear_arith);
    assert(rows[count - 1].len() == d);
    if i < count - 1 {
        lemma_flattened_entry(rows, (count - 1) as nat, d, i, j);
    } else {
        assert(i * d == (count - 1) * d) by (nonlinear_arith)
            requires
                i == count - 1,
        ;
    }
    assert(0 <= i * d) by (nonlinear_arith)
        requires
            0 <= i,
    ;
}

} // verus!
