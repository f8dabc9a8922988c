//! Insertion of an embedding and its payload.
use crate::geometry::{
    center_of_octant, half_of, octant, octant_center, octant_of, origin, HALF, ONE, ONE_AND_A_HALF,
};
use crate::memory::{has_parent, is_tree, links, FractalMemory3D, MemoryModel};
use crate::node::{is_payload_range, NodeId, NodeModel, OctreeNode};
use crate::numbers::Binary32;
use crate::projection::projected;
use vstd::prelude::*;

verus! {

/// The node at which the descent of `point` from node `at` comes to rest: the first one that is
/// no larger than `min`, or that has no node in the octant of `point`. None where the descent
/// leaves the node table or takes more than `steps` steps.
pub open spec fn resting(
    nodes: Seq<NodeModel>,
    point: Seq<Binary32>,
    min: Binary32,
    at: int,
    steps: nat,
) -> Option<int>
    decreases steps,
{
    if !(0 <= at < nodes.len()) {
        None
    } else if nodes[at].half_size.at_most(min) {
        Some(at)
    } else {
        match nodes[at].children[octant(nodes[at].center, point) as int] {
            None => Some(at),
            Some(c) => if steps == 0 {
                None
            } else {
                resting(nodes, point, min, c as int, (steps - 1) as nat)
            },
        }
    }
}

pub open spec fn payload_bytes(payload: Option<&[u8]>) -> Option<Seq<u8>> {
    match payload {
        Some(data) => Some(data@),
        None => None,
    }
}

/// The half size of a root that is made for `point`: one and a half times its largest
/// coordinate, but at least 1.
pub open spec fn root_half(point: Seq<Binary32>) -> Binary32 {
    point[0].absolute().larger(point[1].absolute()).larger(point[2].absolute()).product(
        Binary32 { bits: ONE_AND_A_HALF },
    ).larger(Binary32 { bits: ONE })
}

impl MemoryModel {
    /// The memory with the payload at the end of its arena.
    pub open spec fn staged(self, payload: Option<Seq<u8>>) -> MemoryModel {
        match payload {
            Some(data) => MemoryModel { arena: self.arena + data, ..self },
            None => self,
        }
    }

    /// A new leaf for an insertion into this memory, with the payload as it is staged here.
    pub open spec fn fresh(
        self,
        id: NodeId,
        center: Seq<Binary32>,
        half: Binary32,
        payload: Option<Seq<u8>>,
    ) -> NodeModel {
        let (offset, len) = match payload {
            Some(data) => (self.arena.len() as usize, data.len() as usize),
            None => (0usize, 0usize),
        };
        NodeModel::leaf(id, center, half, self.nodes.len() as usize, offset, len, payload is Some)
    }

    /// The memory with a root that has room for `point`, where it had none.
    pub open spec fn rooted(self, point: Seq<Binary32>, payload: Option<Seq<u8>>) -> MemoryModel {
        match self.root {
            Some(r) => self,
            None => {
                let id = self.nodes.len() as NodeId;
                MemoryModel {
                    nodes: self.nodes.push(self.fresh(id, origin(), root_half(point), payload)),
                    root: Some(id),
                    ..self
                }
            },
        }
    }

    /// Where the descent of `point` from the root comes to rest.
    pub open spec fn rest(self, point: Seq<Binary32>, min: Binary32) -> Option<int> {
        match self.root {
            Some(r) => resting(self.nodes, point, min, r as int, self.nodes.len()),
            None => None,
        }
    }

    /// Whether the descent of `point` comes to rest within the node table. A descent that does so
    /// at all passes no node twice, so it takes no more steps than there are nodes.
    pub open spec fn insertable(self, point: Seq<Binary32>, min: Binary32) -> bool {
        self.well_formed() || self.root is None || self.rest(point, min) is Some
    }

    /// The memory after an insertion, and the node at which the point was placed.
    pub open spec fn inserted(
        self,
        point: Seq<Binary32>,
        payload: Option<Seq<u8>>,
        min: Binary32,
    ) -> (MemoryModel, NodeId) {
        let base = self.rooted(point, payload);
        let at = base.rest(point, min)->0;
        let cell = base.nodes[at];
        if cell.half_size.at_most(min) {
            (base.staged(payload), at as NodeId)
        } else {
            let o = octant(cell.center, point);
            let id = base.nodes.len() as NodeId;
            let child = self.fresh(
                id,
                octant_center(cell.center, cell.half_size, o),
                half_of(cell.half_size),
                payload,
            );
            (
                MemoryModel {
                    nodes: base.nodes.update(at, cell.with_child(o as int, id)).push(child),
                    ..base.staged(payload)
                },
                id,
            )
        }
    }
}

/// In a tree every descent comes to rest.
pub proof fn lemma_tree_rests(
    nodes: Seq<NodeModel>,
    arena_len: nat,
    point: Seq<Binary32>,
    min: Binary32,
    at: int,
    steps: nat,
)
    requires
        is_tree(nodes, arena_len),
        0 <= at < nodes.len(),
        steps >= nodes.len() - at,
    ensures
        resting(nodes, point, min, at, steps) is Some,
    decreases steps,
{
    if !nodes[at].half_size.at_most(min) {
        let o = octant(nodes[at].center, point) as int;
        match nodes[at].children[o] {
            None => {},
            Some(c) => {
                assert(links(nodes, at, o, c));
                lemma_tree_rests(nodes, arena_len, point, min, c as int, (steps - 1) as nat);
            },
        }
    }
}

/// A descent comes to rest at a node of the table that is small enough, or has no node in the
/// octant of the point.
pub proof fn lemma_rest_is_end(
    nodes: Seq<NodeModel>,
    point: Seq<Binary32>,
    min: Binary32,
    at: int,
    steps: nat,
)
    requires
        resting(nodes, point, min, at, steps) is Some,
    ensures
        ({
            let end = resting(nodes, point, min, at, steps)->0;
            &&& 0 <= end < nodes.len()
            &&& nodes[end].half_size.at_most(min) || nodes[end].children[octant(
                nodes[end].center,
                point,
            ) as int] is None
        }),
    decreases steps,
{
    if !nodes[at].half_size.at_most(min) {
        match nodes[at].children[octant(nodes[at].center, point) as int] {
            None => {},
            Some(c) => {
                lemma_rest_is_end(nodes, point, min, c as int, (steps - 1) as nat);
            },
        }
    }
}

/// An insertion finds a place.
pub proof fn lemma_rooted(
    m: MemoryModel,
    point: Seq<Binary32>,
    payload: Option<Seq<u8>>,
    min: Binary32,
)
    requires
        m.insertable(point, min),
        m.nodes.len() <= usize::MAX,
    ensures
        m.rooted(point, payload).rest(point, min) is Some,
{
    let base = m.rooted(point, payload);
    match m.root {
        None => {
            let id = m.nodes.len();
            assert(base.nodes[id as int].children.len() == 8);
        },
        Some(r) => {
            if m.well_formed() {
                lemma_tree_rests(m.nodes, m.arena.len(), point, min, r as int, m.nodes.len());
            }
        },
    }
}

/// A leaf in an empty octant keeps a tree a tree.
proof fn lemma_tree_grows(
    nodes: Seq<NodeModel>,
    arena_len: nat,
    at: int,
    o: int,
    child: NodeModel,
)
    requires
        is_tree(nodes, arena_len),
        0 <= at < nodes.len(),
        0 <= o < 8,
        nodes[at].children[o] is None,
        nodes.len() <= usize::MAX,
        child.id == nodes.len(),
        child.center == octant_center(nodes[at].center, nodes[at].half_size, o as nat),
        child.half_size == half_of(nodes[at].half_size),
        child.children == Seq::new(8, |i: int| None::<NodeId>),
        child.payload_offset + child.payload_len <= arena_len,
        child.has_payload || !is_payload_range(child.payload_offset, child.payload_len),
    ensures
        is_tree(nodes.update(at, nodes[at].with_child(o, child.id)).push(child), arena_len),
{
    let after = nodes.update(at, nodes[at].with_child(o, child.id)).push(child);
    assert forall|i: int, u: int, c: NodeId| #[trigger] links(after, i, u, c) implies if c
        == child.id {
        i == at && u == o
    } else {
        links(nodes, i, u, c)
    } by {
        assert(i < nodes.len());
        if i == at && u == o {
        } else {
            assert(links(nodes, i, u, c));
        }
    }
    assert forall|i: int, u: int, c: NodeId| #[trigger] links(after, i, u, c) implies {
        &&& i < c < after.len()
        &&& after[c as int].center == octant_center(
            after[i].center,
            after[i].half_size,
            u as nat,
        )
        &&& after[c as int].half_size == half_of(after[i].half_size)
    } by {
        if c != child.id {
            assert(links(nodes, i, u, c));
        }
    }
    assert forall|c: NodeId| 0 < c < after.len() implies #[trigger] has_parent(after, c) by {
        if c == child.id {
            assert(links(after, at, o, c));
        } else {
            assert(has_parent(nodes, c));
            let (i, u) = choose|i: int, u: int| #[trigger] links(nodes, i, u, c);
            assert(links(after, i, u, c));
        }
    }
}

/// A memory that is well formed stays so when something is inserted.
pub proof fn lemma_inserted_well_formed(
    m: MemoryModel,
    point: Seq<Binary32>,
    payload: Option<Seq<u8>>,
    min: Binary32,
)
    requires
        m.well_formed(),
        m.rooted(point, payload).nodes.len() <= usize::MAX,
        m.staged(payload).arena.len() <= usize::MAX,
    ensures
        m.inserted(point, payload, min).0.well_formed(),
{
    let base = m.rooted(point, payload);
    let arena = m.staged(payload).arena;
    assert(m.arena.len() <= arena.len());
    assert(base.staged(payload).arena == arena);
    assert(base.staged(payload).nodes == base.nodes);
    lemma_rooted(m, point, payload, min);
    let root = base.root->0;
    lemma_rest_is_end(base.nodes, point, min, root as int, base.nodes.len());
    assert(is_tree(base.nodes, arena.len())) by {
        assert forall|i: int, o: int, c: NodeId| #[trigger] links(base.nodes, i, o, c) implies links(
            m.nodes,
            i,
            o,
            c,
        ) by {}
    }
    let at = base.rest(point, min)->0;
    let cell = base.nodes[at];
    if !cell.half_size.at_most(min) {
        let o = octant(cell.center, point);
        let id = base.nodes.len() as NodeId;
        let child = m.fresh(
            id,
            octant_center(cell.center, cell.half_size, o),
            half_of(cell.half_size),
            payload,
        );
        assert(child.children =~= Seq::new(8, |i: int| None::<NodeId>));
        lemma_tree_grows(base.nodes, arena.len(), at, o as int, child);
    }
}

impl FractalMemory3D {
    /// The octant of `point` as seen from `center`.
    pub fn octant_index(center: [Binary32; 3], point: [Binary32; 3]) -> (o: usize)
        ensures
            o == octant(center@, point@),
            o < 8,
    {
        octant_of(center, point)
    }

    /// The centre of an octant of a cell.
    pub fn child_center(
        parent_center: [Binary32; 3],
        parent_half: Binary32,
        octant: usize,
    ) -> (r: [Binary32; 3])
        ensures
            r@ == octant_center(parent_center@, parent_half, octant as nat),
    {
        center_of_octant(parent_center, parent_half, octant)
    }

    /// Puts the payload at the end of the arena; returns its range.
    fn stage(&mut self, payload: Option<&[u8]>) -> (r: (usize, usize))
        ensures
            final(self)@ == old(self)@.staged(payload_bytes(payload)),
            r == match payload_bytes(payload) {
                Some(data) => (old(self)@.arena.len() as usize, data.len() as usize),
                None => (0usize, 0usize),
            },
    {
        match payload {
            Some(data) => {
                let offset = self.payload_arena.len();
                self.payload_arena.extend_from_slice(data);
                assert(self.payload_arena@ =~= old(self).payload_arena@ + data@);
                (offset, data.len())
            },
            None => (0, 0),
        }
    }

    /// Makes a root for `point` where there is none; returns the root.
    fn ensure_root(
        &mut self,
        point: [Binary32; 3],
        embedding_id: usize,
        payload_offset: usize,
        payload_len: usize,
        has_payload: bool,
    ) -> (r: NodeId)
        ensures
            final(self)@ == match old(self)@.root {
                Some(root) => old(self)@,
                None => MemoryModel {
                    nodes: old(self)@.nodes.push(
                        NodeModel::leaf(
                            old(self)@.nodes.len() as NodeId,
                            origin(),
                            root_half(point@),
                            embedding_id,
                            payload_offset,
                            payload_len,
                            has_payload,
                        ),
                    ),
                    root: Some(old(self)@.nodes.len() as NodeId),
                    ..old(self)@
                },
            },
            final(self)@.root == Some(r),
    {
        match self.root_id {
            Some(root) => root,
            None => {
                let max_coord = point[0].abs().max(point[1].abs()).max(point[2].abs());
                let half = max_coord.times(Binary32 { bits: ONE_AND_A_HALF }).max(
                    Binary32 { bits: ONE },
                );
                let zero = Binary32 { bits: 0 };
                let center = [zero, zero, zero];
                assert(center@ =~= origin());
                let id = self.nodes.len();
                let mut root = OctreeNode::new(
                    id,
                    center,
                    half,
                    embedding_id,
                    payload_offset,
                    payload_len,
                );
                root.has_payload = has_payload;
                self.nodes.push(root);
                self.root_id = Some(id);
                assert(self@.nodes =~= old(self)@.nodes.push(self.nodes@[id as int]@));
                id
            },
        }
    }

    /// Follows the octants of `point` down from the node `start`.
    fn descend(&self, start: NodeId, point: [Binary32; 3], min: Binary32) -> (r: NodeId)
        requires
            resting(self@.nodes, point@, min, start as int, self@.nodes.len()) is Some,
        ensures
            resting(self@.nodes, point@, min, start as int, self@.nodes.len()) == Some(r as int),
            r < self@.nodes.len(),
    {
        let ghost nodes = self@.nodes;
        let ghost goal = resting(nodes, point@, min, start as int, nodes.len());
        let mut current = start;
        let ghost mut steps: nat = nodes.len();
        loop
            invariant
                nodes == self@.nodes,
                goal == resting(nodes, point@, min, start as int, nodes.len()),
                goal is Some,
                resting(nodes, point@, min, current as int, steps) == goal,
            decreases steps,
        {
            assert(nodes[current as int] == self.nodes@[current as int]@);
            if self.nodes[current].half_size.is_at_most(min) {
                return current;
            }
            let o = Self::octant_index(self.nodes[current].center, point);
            match self.nodes[current].children[o] {
                None => {
                    return current;
                },
                Some(child) => {
                    current = child;
                    proof {
                        steps = (steps - 1) as nat;
                    }
                },
            }
        }
    }

    /// Puts a new leaf into an empty octant of the node `at`; returns the leaf.
    fn add_child(
        &mut self,
        at: NodeId,
        octant: usize,
        embedding_id: usize,
        payload_offset: usize,
        payload_len: usize,
        has_payload: bool,
    ) -> (id: NodeId)
        requires
            at < old(self)@.nodes.len(),
            octant < 8,
        ensures
            id == old(self)@.nodes.len(),
            final(self)@ == (MemoryModel {
                nodes: old(self)@.nodes.update(
                    at as int,
                    old(self)@.nodes[at as int].with_child(octant as int, id),
                ).push(
                    NodeModel::leaf(
                        id,
                        octant_center(
                            old(self)@.nodes[at as int].center,
                            old(self)@.nodes[at as int].half_size,
                            octant as nat,
                        ),
                        half_of(old(self)@.nodes[at as int].half_size),
                        embedding_id,
                        payload_offset,
                        payload_len,
                        has_payload,
                    ),
                ),
                ..old(self)@
            }),
    {
        let id = self.nodes.len();
        let center = self.nodes[at].center;
        let half = self.nodes[at].half_size;
        let mut child = OctreeNode::new(
            id,
            Self::child_center(center, half, octant),
            half.times(Binary32 { bits: HALF }),
            embedding_id,
            payload_offset,
            payload_len,
        );
        child.has_payload = has_payload;
        let ghost leaf = child@;
        self.nodes.push(child);
        self.nodes[at].children[octant] = Some(id);
        proof {
            let before = old(self)@.nodes;
            let after = self@.nodes;
            assert(after[at as int].children =~= before[at as int].children.update(
                octant as int,
                Some(id),
            ));
            assert(after =~= before.update(
                at as int,
                before[at as int].with_child(octant as int, id),
            ).push(leaf));
        }
        id
    }

    /// Inserts an embedding and its payload. The descent of the projected point takes existing
    /// cells as far as they go and adds at most one below them; cells no larger than
    /// `min_half_size` are not divided. Returns the node at which the point was placed, or `None`
    /// where the embedding cannot be projected.
    pub fn insert(
        &mut self,
        embedding: &[Binary32],
        payload: Option<&[u8]>,
        min_half_size: Binary32,
    ) -> (r: Option<NodeId>)
        requires
            projected(embedding@, old(self)@.projection, old(self)@.high_dim as nat) matches Some(
                point,
            ) ==> old(self)@.insertable(point, min_half_size),
        ensures
            match projected(embedding@, old(self)@.projection, old(self)@.high_dim as nat) {
                None => r is None && final(self)@ == old(self)@,
                Some(point) => (final(self)@, r) == ({
                    let (after, id) = old(self)@.inserted(
                        point,
                        payload_bytes(payload),
                        min_half_size,
                    );
                    (after, Some(id))
                }),
            },
            old(self)@.well_formed() ==> final(self)@.well_formed(),
            r matches Some(id) ==> id < final(self)@.nodes.len(),
    {
        let point = match self.project_to_3d(embedding) {
            None => return None,
            Some(point) => point,
        };
        let embedding_id = self.nodes.len();
        let ghost before = self@;
        let ghost bytes = payload_bytes(payload);
        let given = payload.is_some();
        let (payload_offset, payload_len) = self.stage(payload);
        let root = self.ensure_root(point, embedding_id, payload_offset, payload_len, given);
        let ghost base = before.rooted(point@, bytes);
        assert(self@ == base.staged(bytes));
        proof {
            lemma_rooted(before, point@, bytes, min_half_size);
        }
        let current = self.descend(root, point, min_half_size);
        assert(self.payload_arena.len() == self@.arena.len());
        assert(self.nodes.len() == self@.nodes.len());
        assert(self@.nodes[current as int] == self.nodes@[current as int]@);
        if self.nodes[current].half_size.is_at_most(min_half_size) {
            proof {
                if before.well_formed() {
                    lemma_inserted_well_formed(before, point@, bytes, min_half_size);
                }
            }
            return Some(current);
        }
        let o = Self::octant_index(self.nodes[current].center, point);
        let id = self.add_child(current, o, embedding_id, payload_offset, payload_len, given);
        proof {
            if before.well_formed() {
                lemma_inserted_well_formed(before, point@, bytes, min_half_size);
            }
        }
        Some(id)
    }
}

} // verus!
