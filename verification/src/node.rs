//! One node of the octree.
use crate::geometry::{is_within, within};
use crate::numbers::Binary32;
use vstd::prelude::*;

verus! {

/// An index into the node table of a memory.
pub type NodeId = usize;

/// A cubic cell of space, the data point kept in it and its eight octants.
#[derive(Debug)]
pub struct OctreeNode {
    /// The index of this node in the node table.
    pub id: NodeId,
    /// The centre of the cell.
    pub center: [Binary32; 3],
    /// Half the length of the cell's edges.
    pub half_size: Binary32,
    /// The nodes of the octants, `None` where an octant is empty.
    pub children: [Option<NodeId>; 8],
    /// The number of the embedding that the node was made for.
    pub embedding_id: usize,
    /// Where the payload starts in the arena.
    pub payload_offset: usize,
    /// How many bytes the payload has.
    pub payload_len: usize,
    /// Whether a payload was given for the node, be it one of no bytes.
    pub has_payload: bool,
    /// Fills three cache lines.
    pub padding: [u8; 15],
}

/// What a node holds.
#[verifier::ext_equal]
pub struct NodeModel {
    pub id: NodeId,
    pub center: Seq<Binary32>,
    pub half_size: Binary32,
    pub children: Seq<Option<NodeId>>,
    pub embedding_id: usize,
    pub payload_offset: usize,
    pub payload_len: usize,
    pub has_payload: bool,
}

/// Whether a payload range is one that only a payload leaves: a node without payload has the empty
/// range at 0.
pub open spec fn is_payload_range(offset: usize, len: usize) -> bool {
    offset != 0 || len != 0
}

impl View for OctreeNode {
    type V = NodeModel;

    open spec fn view(&self) -> NodeModel {
        NodeModel {
            id: self.id,
            center: self.center@,
            half_size: self.half_size,
            children: self.children@,
            embedding_id: self.embedding_id,
            payload_offset: self.payload_offset,
            payload_len: self.payload_len,
            has_payload: self.has_payload,
        }
    }
}

impl NodeModel {
    /// A node without children.
    pub open spec fn leaf(
        id: NodeId,
        center: Seq<Binary32>,
        half_size: Binary32,
        embedding_id: usize,
        payload_offset: usize,
        payload_len: usize,
        has_payload: bool,
    ) -> NodeModel {
        NodeModel {
            id,
            center,
            half_size,
            children: Seq::new(8, |i: int| None),
            embedding_id,
            payload_offset,
            payload_len,
            has_payload,
        }
    }

    /// This node with the node `child` in octant `o`.
    pub open spec fn with_child(self, o: int, child: NodeId) -> NodeModel {
        NodeModel { children: self.children.update(o, Some(child)), ..self }
    }

    /// Whether `point` lies in the cell once its half size is stretched by `factor`.
    pub open spec fn loosely_contains(self, point: Seq<Binary32>, factor: Binary32) -> bool {
        within(self.center, self.half_size.product(factor), point)
    }
}

impl Clone for OctreeNode {
    fn clone(&self) -> (r: Self)
        ensures
            r == *self,
    {
        OctreeNode {
            id: self.id,
            center: self.center,
            half_size: self.half_size,
            children: self.children,
            embedding_id: self.embedding_id,
            payload_offset: self.payload_offset,
            payload_len: self.payload_len,
            has_payload: self.has_payload,
            padding: self.padding,
        }
    }
}

impl OctreeNode {
    /// Creates a node without children. With the empty range at 0 it has no payload.
    pub fn new(
        id: NodeId,
        center: [Binary32; 3],
        half_size: Binary32,
        embedding_id: usize,
        payload_offset: usize,
        payload_len: usize,
    ) -> (r: Self)
        ensures
            r@ == NodeModel::leaf(
                id,
                center@,
                half_size,
                embedding_id,
                payload_offset,
                payload_len,
                is_payload_range(payload_offset, payload_len),
            ),
    {
        let r = OctreeNode {
            id,
            center,
            half_size,
            children: [None; 8],
            embedding_id,
            payload_offset,
            payload_len,
            has_payload: payload_offset != 0 || payload_len != 0,
            padding: [0u8; 15],
        };
        assert(r.children@ =~= Seq::new(8, |i: int| None));
        r
    }

    /// The half size stretched by `factor`.
    pub fn loose_half_size(&self, factor: Binary32) -> (r: Binary32)
        ensures
            r == self.half_size.product(factor),
    {
        self.half_size.times(factor)
    }

    /// Whether `point` lies in the cell once its half size is stretched by `factor`.
    pub fn contains_point_loose(&self, point: [Binary32; 3], factor: Binary32) -> (r: bool)
        ensures
            r == self@.loosely_contains(point@, factor),
    {
        is_within(self.center, self.loose_half_size(factor), point)
    }
}

} // verus!
