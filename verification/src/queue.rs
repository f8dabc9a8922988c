//! What holds of queued insertions as a whole.
use crate::insertion::{lemma_inserted_well_formed, lemma_rest_is_end, lemma_rooted};
use crate::memory::MemoryModel;
use crate::numbers::Binary32;
use crate::projection::projected;
use crate::recall::{
    lemma_insertion_keeps_the_rest, lemma_new_node_has_payload,
    lemma_query_yields_what_was_inserted, lookup_follows,
};
use crate::writes::WriteModel;
use vstd::prelude::*;

verus! {

/// A queue of one insertion leaves what inserting its embedding with its payload leaves: if that makes
/// a new node, the node's payload is byte for byte the one of the queue.
pub proof fn lemma_single_write(m: MemoryModel, op: WriteModel, point: Seq<Binary32>, min: Binary32)
    requires
        m.well_formed(),
        projected(op.embedding, m.projection, m.high_dim as nat) == Some(point),
        m.rooted(point, Some(op.payload)).nodes.len() <= usize::MAX,
        m.staged(Some(op.payload)).arena.len() <= usize::MAX,
    ensures
        ({
            let after = m.applied(seq![op], min, 1);
            let id = m.inserted(point, Some(op.payload), min).1;
            &&& after == m.inserted(point, Some(op.payload), min).0
            &&& after.arena == m.arena + op.payload
            &&& id >= m.nodes.len() ==> after.payload(id as int) == Some(op.payload)
            &&& id >= m.nodes.len() && lookup_follows(m, point, Some(op.payload), min)
                ==> after.answer(op.embedding) == Some(op.payload)
        }),
{
    assert(m.applied(seq![op], min, 0) == m);
    assert(m.applied(seq![op], min, 1) == m.written(op, min));
    let id = m.inserted(point, Some(op.payload), min).1;
    if id >= m.nodes.len() {
        lemma_new_node_has_payload(m, point, Some(op.payload), min);
        if lookup_follows(m, point, Some(op.payload), min) {
            lemma_query_yields_what_was_inserted(m, op.embedding, point, op.payload, min);
        }
    }
}

/// A queue of one insertion whose embedding has another length than the memory takes leaves the memory
/// as it is.
pub proof fn lemma_misfit_is_dropped(m: MemoryModel, op: WriteModel, min: Binary32)
    requires
        op.embedding.len() != m.high_dim,
    ensures
        m.applied(seq![op], min, 1) == m,
{
    assert(m.applied(seq![op], min, 0) == m);
}

/// Whether the memory fits the machine at every stage of the queue.
pub open spec fn fits(m: MemoryModel, ops: Seq<WriteModel>, min: Binary32, count: nat) -> bool {
    forall|k: nat|
        k <= count ==> (#[trigger] m.applied(ops, min, k)).nodes.len() <= usize::MAX && m.applied(
            ops,
            min,
            k,
        ).arena.len() <= usize::MAX
}

/// What one insertion keeps.
proof fn lemma_insertion_keeps_payloads(
    m: MemoryModel,
    point: Seq<Binary32>,
    payload: Option<Seq<u8>>,
    min: Binary32,
)
    requires
        m.well_formed(),
        m.nodes.len() <= usize::MAX,
        m.inserted(point, payload, min).0.nodes.len() <= usize::MAX,
        m.inserted(point, payload, min).0.arena.len() <= usize::MAX,
    ensures
        m.rooted(point, payload).nodes.len() <= usize::MAX,
        m.staged(payload).arena.len() <= usize::MAX,
        m.inserted(point, payload, min).0.well_formed(),
        m.inserted(point, payload, min).1 < m.inserted(point, payload, min).0.nodes.len(),
        m.inserted(point, payload, min).0.nodes.len() >= m.nodes.len(),
        forall|i: int|
            0 <= i < m.nodes.len() ==> #[trigger] m.inserted(point, payload, min).0.payload(i)
                == m.payload(i),
{
    let base = m.rooted(point, payload);
    lemma_rooted(m, point, payload, min);
    lemma_rest_is_end(base.nodes, point, min, base.root->0 as int, base.nodes.len());
    assert(m.inserted(point, payload, min).0.nodes.len() >= base.nodes.len());
    assert(m.inserted(point, payload, min).0.arena =~= m.staged(payload).arena);
    lemma_inserted_well_formed(m, point, payload, min);
    assert forall|i: int| 0 <= i < m.nodes.len() implies #[trigger] m.inserted(
        point,
        payload,
        min,
    ).0.payload(i) == m.payload(i) by {
        lemma_insertion_keeps_the_rest(m, point, payload, min, i);
    }
}

proof fn lemma_queue_keeps(m: MemoryModel, ops: Seq<WriteModel>, min: Binary32, few: nat, many: nat)
    requires
        m.well_formed(),
        few <= many,
        fits(m, ops, min, many),
    ensures
        m.applied(ops, min, many).well_formed(),
        m.applied(ops, min, few).nodes.len() <= m.applied(ops, min, many).nodes.len(),
        forall|i: int|
            0 <= i < m.applied(ops, min, few).nodes.len() ==> #[trigger] m.applied(
                ops,
                min,
                many,
            ).payload(i) == m.applied(ops, min, few).payload(i),
    decreases many,
{
    if many > 0 {
        let last = m.applied(ops, min, (many - 1) as nat);
        let op = ops[many - 1];
        let all = m.applied(ops, min, many);
        assert(fits(m, ops, min, (many - 1) as nat));
        lemma_queue_keeps(
            m,
            ops,
            min,
            if few < many {
                few
            } else {
                (many - 1) as nat
            },
            (many - 1) as nat,
        );
        match projected(op.embedding, last.projection, last.high_dim as nat) {
            None => {},
            Some(point) => {
                lemma_insertion_keeps_payloads(last, point, Some(op.payload), min);
            },
        }
        if few < many {
            let first = m.applied(ops, min, few);
            assert forall|i: int| 0 <= i < first.nodes.len() implies #[trigger] all.payload(i)
                == first.payload(i) by {
                assert(last.payload(i) == first.payload(i));
            }
        }
    }
}

/// Every payload of a queue that made a new node is there, byte for byte, when the whole queue has been
/// applied.
pub proof fn lemma_queue_keeps_every_payload(
    m: MemoryModel,
    ops: Seq<WriteModel>,
    min: Binary32,
    k: int,
    point: Seq<Binary32>,
)
    requires
        m.well_formed(),
        0 <= k < ops.len(),
        fits(m, ops, min, ops.len()),
        projected(
            ops[k].embedding,
            m.applied(ops, min, k as nat).projection,
            m.applied(ops, min, k as nat).high_dim as nat,
        ) == Some(point),
    ensures
        ({
            let before = m.applied(ops, min, k as nat);
            let id = before.inserted(point, Some(ops[k].payload), min).1;
            id >= before.nodes.len() ==> m.applied(ops, min, ops.len()).payload(id as int) == Some(
                ops[k].payload,
            )
        }),
{
    let before = m.applied(ops, min, k as nat);
    let data = Some(ops[k].payload);
    let next = m.applied(ops, min, (k + 1) as nat);
    assert(next == before.written(ops[k], min));
    assert(fits(m, ops, min, k as nat));
    lemma_queue_keeps(m, ops, min, k as nat, k as nat);
    lemma_queue_keeps(m, ops, min, (k + 1) as nat, ops.len());
    let id = before.inserted(point, data, min).1;
    assert(before.inserted(point, data, min).0 == next);
    lemma_insertion_keeps_payloads(before, point, data, min);
    if id >= before.nodes.len() {
        lemma_new_node_has_payload(before, point, data, min);
        assert(m.applied(ops, min, ops.len()).payload(id as int) == next.payload(id as int));
    }
}

} // verus!
