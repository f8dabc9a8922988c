//! Lookup: the deepest cell on a loose descent that still has a point.
use crate::geometry::octant;
use crate::memory::{is_tree, links, FractalMemory3D, MemoryModel};
use crate::node::{NodeId, NodeModel};
use crate::numbers::Binary32;
use crate::projection::projected;
use vstd::prelude::*;

verus! {

/// How many steps down a lookup takes at most.
pub const MAX_DEPTH: u32 = 128;

/// Whether octant `o` of node `at` holds a node whose stretched cell has `point`.
pub open spec fn claims(
    nodes: Seq<NodeModel>,
    at: int,
    o: int,
    point: Seq<Binary32>,
    factor: Binary32,
) -> bool {
    match nodes[at].children[o] {
        Some(c) => nodes[c as int].loosely_contains(point, factor),
        None => false,
    }
}

/// The first octant of node `at` from `o` on that claims `point`, or 8.
pub open spec fn first_claim(
    nodes: Seq<NodeModel>,
    at: int,
    o: int,
    point: Seq<Binary32>,
    factor: Binary32,
) -> int
    decreases 8 - o,
{
    if o >= 8 {
        8
    } else if claims(nodes, at, o, point, factor) {
        o
    } else {
        first_claim(nodes, at, o + 1, point, factor)
    }
}

/// The node that a lookup goes on to from node `at`: the one in the octant of `point` where it
/// claims the point, else the first one that does.
pub open spec fn next_cell(
    nodes: Seq<NodeModel>,
    at: int,
    point: Seq<Binary32>,
    factor: Binary32,
) -> Option<NodeId> {
    let own = octant(nodes[at].center, point) as int;
    if claims(nodes, at, own, point, factor) {
        nodes[at].children[own]
    } else {
        let o = first_claim(nodes, at, 0, point, factor);
        if o < 8 {
            nodes[at].children[o]
        } else {
            None
        }
    }
}

/// Where a lookup of at most `steps` steps that has come to node `at` ends.
pub open spec fn located(
    nodes: Seq<NodeModel>,
    at: int,
    point: Seq<Binary32>,
    factor: Binary32,
    steps: nat,
) -> int
    decreases steps,
{
    if steps == 0 {
        at
    } else {
        match next_cell(nodes, at, point, factor) {
            Some(c) => located(nodes, c as int, point, factor, (steps - 1) as nat),
            None => at,
        }
    }
}

/// Whether the octant `o` of node `at` is looked into: the octant of `point` always is, the
/// others in turn as long as none has claimed the point.
pub open spec fn examined(
    nodes: Seq<NodeModel>,
    at: int,
    o: int,
    point: Seq<Binary32>,
    factor: Binary32,
) -> bool {
    let own = octant(nodes[at].center, point) as int;
    o == own || (!claims(nodes, at, own, point, factor) && o <= first_claim(
        nodes,
        at,
        0,
        point,
        factor,
    ))
}

/// Whether every node that a lookup of at most `steps` steps from node `at` looks at is in the
/// node table.
pub open spec fn stays_inside(
    nodes: Seq<NodeModel>,
    at: int,
    point: Seq<Binary32>,
    factor: Binary32,
    steps: nat,
) -> bool
    decreases steps,
{
    steps == 0 || {
        &&& 0 <= at < nodes.len()
        &&& forall|o: int|
            0 <= o < 8 && examined(nodes, at, o, point, factor) ==> match #[trigger] nodes[at].children[o] {
                Some(c) => c < nodes.len(),
                None => true,
            }
        &&& match next_cell(nodes, at, point, factor) {
            Some(c) => stays_inside(nodes, c as int, point, factor, (steps - 1) as nat),
            None => true,
        }
    }
}

impl MemoryModel {
    /// The node that a lookup of `point` ends at; none where the memory is empty.
    pub open spec fn location(self, point: Seq<Binary32>) -> Option<NodeId> {
        match self.root {
            Some(r) => Some(
                located(self.nodes, r as int, point, self.relaxation, MAX_DEPTH as nat) as NodeId,
            ),
            None => None,
        }
    }

    /// The payload that a query with `embedding` yields; none where the memory is empty, where the
    /// embedding cannot be projected and where the node that is found has no payload.
    pub open spec fn answer(self, embedding: Seq<Binary32>) -> Option<Seq<u8>> {
        match projected(embedding, self.projection, self.high_dim as nat) {
            None => None,
            Some(point) => match self.location(point) {
                None => None,
                Some(id) => if self.nodes[id as int].has_payload {
                    self.payload(id as int)
                } else {
                    None
                },
            },
        }
    }

    /// Whether a lookup of `point` stays within the node table.
    pub open spec fn searchable(self, point: Seq<Binary32>) -> bool {
        self.well_formed() || (self.root matches Some(r) ==> stays_inside(
            self.nodes,
            r as int,
            point,
            self.relaxation,
            MAX_DEPTH as nat,
        ))
    }
}

/// In a tree every lookup stays within the node table.
pub proof fn lemma_tree_stays_inside(
    nodes: Seq<NodeModel>,
    arena_len: nat,
    at: int,
    point: Seq<Binary32>,
    factor: Binary32,
    steps: nat,
)
    requires
        is_tree(nodes, arena_len),
        0 <= at < nodes.len(),
    ensures
        stays_inside(nodes, at, point, factor, steps),
    decreases steps,
{
    if steps > 0 {
        assert forall|o: int|
            0 <= o < 8 && examined(
                nodes,
                at,
                o,
                point,
                factor,
            ) implies match #[trigger] nodes[at].children[o] {
            Some(c) => c < nodes.len(),
            None => true,
        } by {
            match nodes[at].children[o] {
                Some(c) => {
                    assert(links(nodes, at, o, c));
                },
                None => {},
            }
        }
        match next_cell(nodes, at, point, factor) {
            Some(c) => {
                let o = next_octant(nodes, at, point, factor);
                lemma_first_claim(nodes, at, 0, point, factor);
                assert(links(nodes, at, o, c));
                lemma_tree_stays_inside(
                    nodes,
                    arena_len,
                    c as int,
                    point,
                    factor,
                    (steps - 1) as nat,
                );
            },
            None => {},
        }
    }
}

/// The octant that a lookup goes on to.
pub open spec fn next_octant(
    nodes: Seq<NodeModel>,
    at: int,
    point: Seq<Binary32>,
    factor: Binary32,
) -> int {
    let own = octant(nodes[at].center, point) as int;
    if claims(nodes, at, own, point, factor) {
        own
    } else {
        first_claim(nodes, at, 0, point, factor)
    }
}

/// `first_claim` is the least octant from `o` on that claims the point.
pub proof fn lemma_first_claim(
    nodes: Seq<NodeModel>,
    at: int,
    o: int,
    point: Seq<Binary32>,
    factor: Binary32,
)
    requires
        0 <= o <= 8,
    ensures
        o <= first_claim(nodes, at, o, point, factor) <= 8,
        first_claim(nodes, at, o, point, factor) < 8 ==> claims(
            nodes,
            at,
            first_claim(nodes, at, o, point, factor),
            point,
            factor,
        ),
        forall|u: int|
            o <= u < first_claim(nodes, at, o, point, factor) ==> !#[trigger] claims(
                nodes,
                at,
                u,
                point,
                factor,
            ),
    decreases 8 - o,
{
    if o < 8 && !claims(nodes, at, o, point, factor) {
        lemma_first_claim(nodes, at, o + 1, point, factor);
    }
}

impl FractalMemory3D {
    /// `next_cell`.
    fn step_down(&self, at: NodeId, point: [Binary32; 3]) -> (r: Option<NodeId>)
        requires
            stays_inside(self@.nodes, at as int, point@, self@.relaxation, 1),
        ensures
            r == next_cell(self@.nodes, at as int, point@, self@.relaxation),
    {
        let factor = self.relaxation_factor;
        let ghost nodes = self@.nodes;
        let node = &self.nodes[at];
        assert(nodes[at as int] == node@);
        let own = Self::octant_index(node.center, point);
        match node.children[own] {
            Some(c) => {
                assert(examined(nodes, at as int, own as int, point@, factor));
                assert(nodes[at as int].children[own as int] == Some(c));
                assert(nodes[c as int] == self.nodes@[c as int]@);
                if self.nodes[c].contains_point_loose(point, factor) {
                    return Some(c);
                }
            },
            None => {},
        }
        assert(!claims(nodes, at as int, own as int, point@, factor));
        let mut o: usize = 0;
        while o < 8
            invariant
                o <= 8,
                nodes == self@.nodes,
                factor == self@.relaxation,
                at < nodes.len(),
                node == self.nodes@[at as int],
                nodes[at as int] == node@,
                own == octant(nodes[at as int].center, point@),
                !claims(nodes, at as int, own as int, point@, factor),
                stays_inside(nodes, at as int, point@, factor, 1),
                first_claim(nodes, at as int, 0, point@, factor) == first_claim(
                    nodes,
                    at as int,
                    o as int,
                    point@,
                    factor,
                ),
            decreases 8 - o,
        {
            proof {
                lemma_first_claim(nodes, at as int, o as int, point@, factor);
            }
            if o != own {
                match node.children[o] {
                    Some(c) => {
                        assert(examined(nodes, at as int, o as int, point@, factor));
                        assert(nodes[at as int].children[o as int] == Some(c));
                        assert(nodes[c as int] == self.nodes@[c as int]@);
                        if self.nodes[c].contains_point_loose(point, factor) {
                            return Some(c);
                        }
                    },
                    None => {},
                }
            }
            o = o + 1;
        }
        None
    }

    /// The node at which `point` is looked up.
    pub fn locate_point(&self, point: [Binary32; 3]) -> (r: Option<NodeId>)
        requires
            self@.searchable(point@),
        ensures
            r == self@.location(point@),
    {
        let ghost nodes = self@.nodes;
        let ghost factor = self@.relaxation;
        let mut current = match self.root_id {
            None => return None,
            Some(r) => r,
        };
        let ghost root = current as int;
        proof {
            if self@.well_formed() {
                lemma_tree_stays_inside(
                    nodes,
                    self@.arena.len(),
                    root,
                    point@,
                    factor,
                    MAX_DEPTH as nat,
                );
            }
        }
        let mut depth: u32 = 0;
        while depth < MAX_DEPTH
            invariant
                depth <= MAX_DEPTH,
                nodes == self@.nodes,
                factor == self@.relaxation,
                self@.root == Some(root as NodeId),
                0 <= root <= usize::MAX,
                stays_inside(nodes, current as int, point@, factor, (MAX_DEPTH - depth) as nat),
                located(nodes, root, point@, factor, MAX_DEPTH as nat) == located(
                    nodes,
                    current as int,
                    point@,
                    factor,
                    (MAX_DEPTH - depth) as nat,
                ),
            decreases MAX_DEPTH - depth,
        {
            assert(stays_inside(nodes, current as int, point@, factor, 1)) by {
                reveal_with_fuel(stays_inside, 2);
            }
            match self.step_down(current, point) {
                Some(child) => {
                    current = child;
                },
                None => {
                    return Some(current);
                },
            }
            depth = depth + 1;
        }
        Some(current)
    }

    /// The node at which `embedding` is looked up; `None` where it cannot be projected or the
    /// memory is empty.
    pub fn locate(&self, embedding: &[Binary32]) -> (r: Option<NodeId>)
        requires
            projected(embedding@, self@.projection, self@.high_dim as nat) matches Some(
                point,
            ) ==> self@.searchable(point),
        ensures
            r == match projected(embedding@, self@.projection, self@.high_dim as nat) {
                Some(point) => self@.location(point),
                None => None,
            },
    {
        match self.project_to_3d(embedding) {
            None => None,
            Some(point) => self.locate_point(point),
        }
    }

    /// The payload at the node at which `embedding` is looked up; `None` where there is no such
    /// node or the node has no payload.
    pub fn query(&self, embedding: &[Binary32]) -> (r: Option<&[u8]>)
        requires
            projected(embedding@, self@.projection, self@.high_dim as nat) matches Some(
                point,
            ) ==> self@.searchable(point),
        ensures
            r is Some <==> self@.answer(embedding@) is Some,
            r matches Some(data) ==> data@ == self@.answer(embedding@)->0,
    {
        match self.locate(embedding) {
            None => None,
            Some(id) => {
                if id >= self.nodes.len() {
                    return None;
                }
                assert(self@.nodes[id as int] == self.nodes@[id as int]@);
                if self.nodes[id].has_payload {
                    self.get_payload(id)
                } else {
                    None
                }
            },
        }
    }

    /// How many nodes there are, and how many bytes the payloads take up.
    pub fn stats(&self) -> (r: (usize, usize))
        ensures
            r.0 == self@.nodes.len(),
            r.1 == self@.arena.len(),
    {
        (self.node_count(), self.arena_size())
    }
}

} // verus!
