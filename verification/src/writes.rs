//! Queued insertions, applied to a copy of the memory that readers go on reading.
use crate::memory::{FractalMemory3D, MemoryModel};
use crate::numbers::Binary32;
use crate::projection::projected;
use vstd::prelude::*;

verus! {

/// An insertion that waits to be made.
pub struct WriteOp {
    pub embedding: Vec<Binary32>,
    pub payload: Vec<u8>,
}

/// What a queued insertion holds.
pub struct WriteModel {
    pub embedding: Seq<Binary32>,
    pub payload: Seq<u8>,
}

impl View for WriteOp {
    type V = WriteModel;

    open spec fn view(&self) -> WriteModel {
        WriteModel { embedding: self.embedding@, payload: self.payload@ }
    }
}

pub open spec fn write_models(ops: Seq<WriteOp>) -> Seq<WriteModel> {
    Seq::new(ops.len(), |i: int| ops[i]@)
}

impl MemoryModel {
    /// The memory after a queued insertion. One whose embedding cannot be projected is dropped.
    pub open spec fn written(self, op: WriteModel, min: Binary32) -> MemoryModel {
        match projected(op.embedding, self.projection, self.high_dim as nat) {
            None => self,
            Some(point) => self.inserted(point, Some(op.payload), min).0,
        }
    }

    /// The memory after the first `count` insertions of the queue.
    pub open spec fn applied(self, ops: Seq<WriteModel>, min: Binary32, count: nat) -> MemoryModel
        decreases count,
    {
        if count == 0 {
            self
        } else {
            self.applied(ops, min, (count - 1) as nat).written(ops[count - 1], min)
        }
    }

    /// Whether a queued insertion stays within the node table.
    pub open spec fn writable(self, op: WriteModel, min: Binary32) -> bool {
        projected(op.embedding, self.projection, self.high_dim as nat) matches Some(point)
            ==> self.insertable(point, min)
    }

    /// Whether each of the first `count` insertions of the queue stays within the node table when
    /// its turn comes.
    pub open spec fn applicable(self, ops: Seq<WriteModel>, min: Binary32, count: nat) -> bool
        decreases count,
    {
        count == 0 || {
            &&& self.applicable(ops, min, (count - 1) as nat)
            &&& self.applied(ops, min, (count - 1) as nat).writable(ops[count - 1], min)
        }
    }
}

proof fn lemma_applicable_prefix(
    m: MemoryModel,
    ops: Seq<WriteModel>,
    min: Binary32,
    few: nat,
    many: nat,
)
    requires
        few <= many,
        m.applicable(ops, min, many),
    ensures
        m.applicable(ops, min, few),
    decreases many,
{
    if few < many {
        lemma_applicable_prefix(m, ops, min, few, (many - 1) as nat);
    }
}

impl FractalMemory3D {
    /// Makes a queued insertion, if it stays within the node table; returns whether it does.
    fn write(&mut self, op: &WriteOp, min: Binary32) -> (r: bool)
        ensures
            r == old(self)@.writable(op@, min),
            final(self)@ == if r {
                old(self)@.written(op@, min)
            } else {
                old(self)@
            },
            old(self)@.well_formed() ==> r && final(self)@.well_formed(),
    {
        if !self.can_insert(op.embedding.as_slice(), min) {
            return false;
        }
        let _ = self.insert(op.embedding.as_slice(), Some(op.payload.as_slice()), min);
        true
    }

    /// A copy of this memory with all insertions of the queue made in their order. `None` where
    /// one of them would leave the node table, which happens in no well-formed memory.
    #[verifier::rlimit(60)]
    pub fn apply_writes(&self, ops: &Vec<WriteOp>, min_half_size: Binary32) -> (r: Option<Self>)
        ensures
            r is Some <==> self@.applicable(write_models(ops@), min_half_size, ops@.len()),
            r matches Some(after) ==> after@ == self@.applied(
                write_models(ops@),
                min_half_size,
                ops@.len(),
            ),
            self@.well_formed() ==> (r matches Some(after) && after@.well_formed()),
    {
        let ghost m = self@;
        let ghost queue = write_models(ops@);
        let mut shadow = self.clone();
        let mut i: usize = 0;
        while i < ops.len()
            invariant
                i <= ops@.len(),
                m == self@,
                queue == write_models(ops@),
                shadow@ == m.applied(queue, min_half_size, i as nat),
                m.applicable(queue, min_half_size, i as nat),
                m.well_formed() ==> shadow@.well_formed(),
            decreases ops@.len() - i,
        {
            let op = &ops[i];
            assert(queue[i as int] == op@);
            if !shadow.write(op, min_half_size) {
                proof {
                    assert(!m.applicable(queue, min_half_size, (i + 1) as nat));
                    if m.applicable(queue, min_half_size, queue.len()) {
                        lemma_applicable_prefix(
                            m,
                            queue,
                            min_half_size,
                            (i + 1) as nat,
                            queue.len(),
                        );
                    }
                }
                return None;
            }
            i = i + 1;
        }
        Some(shadow)
    }
}

proof fn lemma_applied_prefix(
    m: MemoryModel,
    a: Seq<WriteModel>,
    b: Seq<WriteModel>,
    min: Binary32,
    count: nat,
)
    requires
        count <= a.len(),
    ensures
        m.applied(a + b, min, count) == m.applied(a, min, count),
    decreases count,
{
    if count > 0 {
        lemma_applied_prefix(m, a, b, min, (count - 1) as nat);
        assert((a + b)[count - 1] == a[count - 1]);
    }
}

/// How the queue is cut into batches makes no difference: a batch after another leaves what both
/// leave as one.
#[verifier::rlimit(60)]
pub proof fn lemma_batches_compose(
    m: MemoryModel,
    a: Seq<WriteModel>,
    b: Seq<WriteModel>,
    min: Binary32,
    count: nat,
)
    requires
        count <= b.len(),
    ensures
        m.applied(a + b, min, a.len() + count) == m.applied(a, min, a.len()).applied(
            b,
            min,
            count,
        ),
    decreases count,
{
    if count == 0 {
        lemma_applied_prefix(m, a, b, min, a.len());
    } else {
        lemma_batches_compose(m, a, b, min, (count - 1) as nat);
        let k = a.len() + count;
        assert((a + b)[k - 1] == b[count - 1]);
        assert(m.applied(a + b, min, k) == m.applied(a + b, min, (k - 1) as nat).written(
            (a + b)[k - 1],
            min,
        ));
    }
}

} // verus!
