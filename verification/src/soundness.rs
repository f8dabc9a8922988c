//! Checks on memories of unknown origin, such as those that were loaded from a file: whether an
//! insertion or a lookup stays within the node table.
use crate::geometry::octant;
use crate::insertion::{lemma_tree_rests, resting};
use crate::lookup::{
    claims, examined, first_claim, lemma_first_claim, lemma_tree_stays_inside, next_cell,
    stays_inside, MAX_DEPTH,
};
use crate::memory::{FractalMemory3D, MemoryModel};
use crate::node::NodeId;
use crate::numbers::Binary32;
use crate::projection::projected;
use vstd::prelude::*;

verus! {

impl FractalMemory3D {
    /// Whether the descent of `point` from the node `start` comes to rest.
    fn comes_to_rest(&self, start: NodeId, point: [Binary32; 3], min: Binary32) -> (r: bool)
        ensures
            r == (resting(self@.nodes, point@, min, start as int, self@.nodes.len()) is Some),
    {
        let ghost nodes = self@.nodes;
        let ghost goal = resting(nodes, point@, min, start as int, nodes.len());
        let len = self.nodes.len();
        let mut current = start;
        let mut left: usize = len;
        loop
            invariant
                nodes == self@.nodes,
                len == nodes.len(),
                goal == resting(nodes, point@, min, start as int, nodes.len()),
                resting(nodes, point@, min, current as int, left as nat) == goal,
            decreases left,
        {
            if current >= len {
                return false;
            }
            assert(nodes[current as int] == self.nodes@[current as int]@);
            if self.nodes[current].half_size.is_at_most(min) {
                return true;
            }
            let o = Self::octant_index(self.nodes[current].center, point);
            match self.nodes[current].children[o] {
                None => {
                    return true;
                },
                Some(child) => {
                    if left == 0 {
                        return false;
                    }
                    current = child;
                    left = left - 1;
                },
            }
        }
    }

    /// Whether an insertion stays within the node table.
    pub fn can_insert(&self, embedding: &[Binary32], min_half_size: Binary32) -> (r: bool)
        ensures
            r == (projected(embedding@, self@.projection, self@.high_dim as nat) matches Some(
                point,
            ) ==> self@.insertable(point, min_half_size)),
    {
        let point = match self.project_to_3d(embedding) {
            None => return true,
            Some(point) => point,
        };
        match self.root_id {
            None => true,
            Some(root) => {
                proof {
                    if self@.well_formed() {
                        lemma_tree_rests(
                            self@.nodes,
                            self@.arena.len(),
                            point@,
                            min_half_size,
                            root as int,
                            self@.nodes.len(),
                        );
                    }
                }
                self.comes_to_rest(root, point, min_half_size)
            },
        }
    }

    /// `next_cell`, if all that is looked into on the way to it is in the node table.
    fn try_step(&self, at: NodeId, point: [Binary32; 3]) -> (r: Result<Option<NodeId>, ()>)
        ensures
            r is Ok <==> stays_inside(self@.nodes, at as int, point@, self@.relaxation, 1),
            r matches Ok(next) ==> next == next_cell(
                self@.nodes,
                at as int,
                point@,
                self@.relaxation,
            ),
    {
        let factor = self.relaxation_factor;
        let ghost nodes = self@.nodes;
        let len = self.nodes.len();
        if at >= len {
            return Err(());
        }
        let node = &self.nodes[at];
        assert(nodes[at as int] == node@);
        let own = Self::octant_index(node.center, point);
        match node.children[own] {
            Some(c) => {
                assert(examined(nodes, at as int, own as int, point@, factor));
                assert(nodes[at as int].children[own as int] == Some(c));
                if c >= len {
                    return Err(());
                }
                assert(nodes[c as int] == self.nodes@[c as int]@);
                if self.nodes[c].contains_point_loose(point, factor) {
                    assert(claims(nodes, at as int, own as int, point@, factor));
                    reveal_with_fuel(stays_inside, 2);
                    return Ok(Some(c));
                }
            },
            None => {},
        }
        assert(!claims(nodes, at as int, own as int, point@, factor));
        let mut o: usize = 0;
        while o < 8
            invariant
                o <= 8,
                nodes == self@.nodes,
                len == nodes.len(),
                factor == self@.relaxation,
                at < nodes.len(),
                node == self.nodes@[at as int],
                nodes[at as int] == node@,
                own == octant(nodes[at as int].center, point@),
                own < 8,
                !claims(nodes, at as int, own as int, point@, factor),
                nodes[at as int].children[own as int] matches Some(c) ==> c < len,
                forall|u: int|
                    0 <= u < o ==> match #[trigger] nodes[at as int].children[u] {
                        Some(c) => c < len,
                        None => true,
                    },
                first_claim(nodes, at as int, 0, point@, factor) == first_claim(
                    nodes,
                    at as int,
                    o as int,
                    point@,
                    factor,
                ),
            decreases 8 - o,
        {
            proof {
                lemma_first_claim(nodes, at as int, o as int, point@, factor);
            }
            if o != own {
                match node.children[o] {
                    Some(c) => {
                        assert(examined(nodes, at as int, o as int, point@, factor));
                        assert(nodes[at as int].children[o as int] == Some(c));
                        if c >= len {
                            return Err(());
                        }
                        assert(nodes[c as int] == self.nodes@[c as int]@);
                        if self.nodes[c].contains_point_loose(point, factor) {
                            assert(first_claim(nodes, at as int, 0, point@, factor) == o);
                            reveal_with_fuel(stays_inside, 2);
                            return Ok(Some(c));
                        }
                    },
                    None => {},
                }
            }
            o = o + 1;
        }
        Ok(None)
    }

    /// Whether a lookup stays within the node table.
    pub fn can_locate(&self, embedding: &[Binary32]) -> (r: bool)
        ensures
            r == (projected(embedding@, self@.projection, self@.high_dim as nat) matches Some(
                point,
            ) ==> self@.searchable(point)),
    {
        let point = match self.project_to_3d(embedding) {
            None => return true,
            Some(point) => point,
        };
        let mut current = match self.root_id {
            None => return true,
            Some(root) => root,
        };
        let ghost nodes = self@.nodes;
        let ghost factor = self@.relaxation;
        let ghost root = current as int;
        let ghost goal = stays_inside(nodes, root, point@, factor, MAX_DEPTH as nat);
        proof {
            if self@.well_formed() {
                lemma_tree_stays_inside(
                    nodes,
                    self@.arena.len(),
                    root,
                    point@,
                    factor,
                    MAX_DEPTH as nat,
                );
            }
        }
        let mut depth: u32 = 0;
        while depth < MAX_DEPTH
            invariant
                depth <= MAX_DEPTH,
                nodes == self@.nodes,
                factor == self@.relaxation,
                goal == self@.searchable(point@),
                projected(embedding@, self@.projection, self@.high_dim as nat) == Some(point@),
                goal == stays_inside(
                    nodes,
                    current as int,
                    point@,
                    factor,
                    (MAX_DEPTH - depth) as nat,
                ),
            decreases MAX_DEPTH - depth,
        {
            reveal_with_fuel(stays_inside, 2);
            match self.try_step(current, point) {
                Err(()) => {
                    return false;
                },
                Ok(Some(child)) => {
                    current = child;
                },
                Ok(None) => {
                    return true;
                },
            }
            depth = depth + 1;
        }
        true
    }
}

/// In a well-formed memory every insertion and every lookup stays within the node table.
pub proof fn lemma_well_formed_memories_can_be_used(
    m: MemoryModel,
    point: Seq<Binary32>,
    min: Binary32,
)
    requires
        m.well_formed(),
    ensures
        m.insertable(point, min),
        m.searchable(point),
{
}

} // verus!
