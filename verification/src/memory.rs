//! The memory: a table of octree nodes, the matrix that projects embeddings and
//! the arena that payloads are kept in.
use crate::geometry::{half_of, octant_center, origin, DEFAULT_RELAXATION, ONE};
use crate::node::{is_payload_range, NodeId, NodeModel, OctreeNode};
use crate::numbers::Binary32;
use vstd::prelude::*;
use vstd::slice::slice_subrange;

verus! {

/// An octree of byte payloads, searched by projected embeddings.
pub struct FractalMemory3D {
    /// All nodes, in the order in which they were made.
    pub nodes: Vec<OctreeNode>,
    /// The root, once there is one.
    pub root_id: Option<NodeId>,
    /// Three rows of `high_dim` numbers each.
    pub projection_matrix: Vec<Binary32>,
    /// How many numbers an embedding has.
    pub high_dim: usize,
    /// The payloads, one after the other.
    pub payload_arena: Vec<u8>,
    /// What a query stretches the half size of a cell by.
    pub relaxation_factor: Binary32,
}

/// What a memory holds.
#[verifier::ext_equal]
pub struct MemoryModel {
    pub nodes: Seq<NodeModel>,
    pub root: Option<NodeId>,
    pub projection: Seq<Binary32>,
    pub high_dim: usize,
    pub arena: Seq<u8>,
    pub relaxation: Binary32,
}

pub open spec fn node_models(nodes: Seq<OctreeNode>) -> Seq<NodeModel> {
    Seq::new(nodes.len(), |i: int| nodes[i]@)
}

impl View for FractalMemory3D {
    type V = MemoryModel;

    open spec fn view(&self) -> MemoryModel {
        MemoryModel {
            nodes: node_models(self.nodes@),
            root: self.root_id,
            projection: self.projection_matrix@,
            high_dim: self.high_dim,
            arena: self.payload_arena@,
            relaxation: self.relaxation_factor,
        }
    }
}

/// Whether octant `o` of node `i` links to the node `c`.
pub open spec fn links(nodes: Seq<NodeModel>, i: int, o: int, c: NodeId) -> bool {
    0 <= i < nodes.len() && 0 <= o < nodes[i].children.len() && nodes[i].children[o] == Some(c)
}

/// Whether some octant links to the node `c`.
pub open spec fn has_parent(nodes: Seq<NodeModel>, c: NodeId) -> bool {
    exists|i: int, o: int| #[trigger] links(nodes, i, o, c)
}

/// The nodes form a tree under node 0 whose cells halve from level to level, and every payload
/// lies within an arena of `arena_len` bytes.
pub open spec fn is_tree(nodes: Seq<NodeModel>, arena_len: nat) -> bool {
    &&& forall|i: int|
        0 <= i < nodes.len() ==> {
            &&& (#[trigger] nodes[i]).id == i
            &&& nodes[i].center.len() == 3
            &&& nodes[i].children.len() == 8
            &&& nodes[i].payload_offset + nodes[i].payload_len <= arena_len
            &&& nodes[i].has_payload || !is_payload_range(
                nodes[i].payload_offset,
                nodes[i].payload_len,
            )
        }
    &&& forall|i: int, o: int, c: NodeId| #[trigger]
        links(nodes, i, o, c) ==> {
            &&& i < c < nodes.len()
            &&& nodes[c as int].center == octant_center(nodes[i].center, nodes[i].half_size, o as nat)
            &&& nodes[c as int].half_size == half_of(nodes[i].half_size)
        }
    &&& forall|i: int, o: int, j: int, u: int, c: NodeId|
        #![trigger links(nodes, i, o, c), links(nodes, j, u, c)]
        links(nodes, i, o, c) && links(nodes, j, u, c) ==> i == j && o == u
    &&& forall|c: NodeId| 0 < c < nodes.len() ==> #[trigger] has_parent(nodes, c)
}

/// Whether the node is such as a root is made: around the origin, with a half size of at least 1.
pub open spec fn is_root_cell(n: NodeModel) -> bool {
    n.center == origin() && (Binary32 { bits: ONE }).at_most(n.half_size)
}

impl MemoryModel {
    /// What every memory satisfies that was made by this library and changed by it alone.
    pub open spec fn well_formed(self) -> bool {
        &&& is_tree(self.nodes, self.arena.len())
        &&& self.root == if self.nodes.len() == 0 {
            None::<NodeId>
        } else {
            Some(0)
        }
        &&& self.nodes.len() > 0 ==> is_root_cell(self.nodes[0])
        &&& self.projection.len() == 3 * self.high_dim
    }

    pub open spec fn empty(high_dim: usize, projection: Seq<Binary32>) -> MemoryModel {
        MemoryModel {
            nodes: Seq::empty(),
            root: None,
            projection,
            high_dim,
            arena: Seq::empty(),
            relaxation: Binary32 { bits: DEFAULT_RELAXATION },
        }
    }

    /// The payload of a node; none where there is no such node, or where its range leaves the
    /// arena.
    pub open spec fn payload(self, id: int) -> Option<Seq<u8>> {
        if 0 <= id < self.nodes.len() {
            let offset = self.nodes[id].payload_offset as int;
            let end = offset + self.nodes[id].payload_len;
            if end <= self.arena.len() {
                Some(self.arena.subrange(offset, end))
            } else {
                None
            }
        } else {
            None
        }
    }
}

impl Clone for FractalMemory3D {
    fn clone(&self) -> (r: Self)
        ensures
            r@ == self@,
    {
        let r = FractalMemory3D {
            nodes: self.nodes.clone(),
            root_id: self.root_id,
            projection_matrix: self.projection_matrix.clone(),
            high_dim: self.high_dim,
            payload_arena: self.payload_arena.clone(),
            relaxation_factor: self.relaxation_factor,
        };
        proof {
            assert forall|i: int| 0 <= i < self.nodes@.len() implies r.nodes@[i] == self.nodes@[i] by {
                assert(cloned::<OctreeNode>(self.nodes@[i], r.nodes@[i]));
            }
            assert(r.nodes@ =~= self.nodes@);
            assert(r.projection_matrix@ =~= self.projection_matrix@);
            assert(r.payload_arena@ =~= self.payload_arena@);
        }
        r
    }
}

impl FractalMemory3D {
    pub(crate) fn new_empty(high_dim: usize, projection_matrix: Vec<Binary32>) -> (r: Self)
        ensures
            r@ == MemoryModel::empty(high_dim, projection_matrix@),
            projection_matrix@.len() == 3 * high_dim ==> r@.well_formed(),
    {
        let r = FractalMemory3D {
            nodes: Vec::new(),
            root_id: None,
            projection_matrix,
            high_dim,
            payload_arena: Vec::new(),
            relaxation_factor: Binary32 { bits: DEFAULT_RELAXATION },
        };
        assert(r@.nodes =~= Seq::empty());
        r
    }

    /// Creates an empty memory that projects by a given matrix of three rows.
    pub fn new_from_calibration(high_dim: usize, projection_matrix: Vec<Binary32>) -> (r: Self)
        requires
            projection_matrix@.len() == 3 * high_dim,
        ensures
            r@ == MemoryModel::empty(high_dim, projection_matrix@),
            r@.well_formed(),
    {
        Self::new_empty(high_dim, projection_matrix)
    }

    /// How many nodes there are.
    pub fn node_count(&self) -> (r: usize)
        ensures
            r == self@.nodes.len(),
    {
        self.nodes.len()
    }

    /// How many bytes the payloads take up.
    pub fn arena_size(&self) -> (r: usize)
        ensures
            r == self@.arena.len(),
    {
        self.payload_arena.len()
    }

    /// The payload of a node.
    pub fn get_payload(&self, node_id: NodeId) -> (r: Option<&[u8]>)
        ensures
            r is Some <==> self@.payload(node_id as int) is Some,
            r matches Some(data) ==> data@ == self@.payload(node_id as int)->0,
    {
        if node_id >= self.nodes.len() {
            return None;
        }
        let node = &self.nodes[node_id];
        assert(self@.nodes[node_id as int] == node@);
        let arena_len = self.payload_arena.len();
        match node.payload_offset.checked_add(node.payload_len) {
            None => None,
            Some(end) => if end > arena_len {
                None
            } else {
                let data = slice_subrange(self.payload_arena.as_slice(), node.payload_offset, end);
                Some(data)
            },
        }
    }
}

} // verus!
