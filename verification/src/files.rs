//! What holds of files: a saved memory is loaded back as it was. A file that is cut, is for
//! embeddings of another length, or starts otherwise than a file does is refused.
use crate::bytes::{
    le, lemma_byte_limits, lemma_from_le_bound, lemma_largest, lemma_le_len, lemma_le_round_trip,
    u32_at, u64_at,
};
use crate::codec::{
    arena_len_in, block_in, block_len_in, cell_bytes, child_code, children_bytes, complete,
    data_bytes, file_magic, header_bytes, kept_of, loaded, node_at, node_bytes, node_count_in, nodes_bytes, nodes_end,
    nodes_in, number_count_in, numbers_bytes, numbers_end, numbers_in, refused, Refusal,
    FILE_VERSION, NODE_LEN,
};
use crate::geometry::DEFAULT_RELAXATION;
use crate::lz4::lz4_decoded;
use crate::memory::{has_parent, links, MemoryModel};
use crate::node::{is_payload_range, NodeId, NodeModel};
use crate::numbers::Binary32;
use vstd::prelude::*;

verus! {

/// A number of eight bytes that stands at `i` is read there.
proof fn lemma_u64_at(b: Seq<u8>, i: int, x: u64)
    requires
        0 <= i,
        i + 8 <= b.len(),
        b.subrange(i, i + 8) == le(x as nat, 8),
    ensures
        u64_at(b, i) == x,
{
    lemma_byte_limits();
    lemma_le_round_trip(x as nat, 8);
}

/// A number of four bytes that stands at `i` is read there.
proof fn lemma_u32_at(b: Seq<u8>, i: int, x: u32)
    requires
        0 <= i,
        i + 4 <= b.len(),
        b.subrange(i, i + 4) == le(x as nat, 4),
    ensures
        u32_at(b, i) == x,
{
    lemma_byte_limits();
    lemma_le_round_trip(x as nat, 4);
}

proof fn lemma_children_bytes(children: Seq<Option<NodeId>>, count: nat, o: int)
    requires
        0 <= o < count,
    ensures
        children_bytes(children, count).len() == 8 * count,
        children_bytes(children, count).subrange(8 * o, 8 * o + 8) == le(
            child_code(children[o]) as nat,
            8,
        ),
    decreases count,
{
    lemma_le_len(child_code(children[count - 1]) as nat, 8);
    let before = children_bytes(children, (count - 1) as nat);
    let all = children_bytes(children, count);
    if count > 1 {
        lemma_children_bytes(
            children,
            (count - 1) as nat,
            if o < count - 1 {
                o
            } else {
                0
            },
        );
    }
    assert(before.len() == 8 * (count - 1));
    if o < count - 1 {
        assert(all.subrange(8 * o, 8 * o + 8) =~= before.subrange(8 * o, 8 * o + 8));
    } else {
        assert(all.subrange(8 * o, 8 * o + 8) =~= le(child_code(children[o]) as nat, 8));
    }
}

proof fn lemma_cell_bytes(n: NodeModel)
    ensures
        cell_bytes(n).len() == 24,
        cell_bytes(n).subrange(0, 8) == le(n.id as nat, 8),
        cell_bytes(n).subrange(8, 12) == le(n.center[0].bits as nat, 4),
        cell_bytes(n).subrange(12, 16) == le(n.center[1].bits as nat, 4),
        cell_bytes(n).subrange(16, 20) == le(n.center[2].bits as nat, 4),
        cell_bytes(n).subrange(20, 24) == le(n.half_size.bits as nat, 4),
{
    lemma_le_len(n.id as nat, 8);
    lemma_le_len(n.center[0].bits as nat, 4);
    lemma_le_len(n.center[1].bits as nat, 4);
    lemma_le_len(n.center[2].bits as nat, 4);
    lemma_le_len(n.half_size.bits as nat, 4);
    let c = cell_bytes(n);
    assert(c.subrange(0, 8) =~= le(n.id as nat, 8));
    assert(c.subrange(8, 12) =~= le(n.center[0].bits as nat, 4));
    assert(c.subrange(12, 16) =~= le(n.center[1].bits as nat, 4));
    assert(c.subrange(16, 20) =~= le(n.center[2].bits as nat, 4));
    assert(c.subrange(20, 24) =~= le(n.half_size.bits as nat, 4));
}

proof fn lemma_data_bytes(n: NodeModel)
    ensures
        data_bytes(n).len() == 40,
        data_bytes(n).subrange(0, 8) == le(n.embedding_id as nat, 8),
        data_bytes(n).subrange(8, 16) == le(n.payload_offset as nat, 8),
        data_bytes(n).subrange(16, 24) == le(n.payload_len as nat, 8),
{
    lemma_le_len(n.embedding_id as nat, 8);
    lemma_le_len(n.payload_offset as nat, 8);
    lemma_le_len(n.payload_len as nat, 8);
    let d = data_bytes(n);
    assert(d.subrange(0, 8) =~= le(n.embedding_id as nat, 8));
    assert(d.subrange(8, 16) =~= le(n.payload_offset as nat, 8));
    assert(d.subrange(16, 24) =~= le(n.payload_len as nat, 8));
}

proof fn lemma_node_bytes_len(n: NodeModel)
    ensures
        node_bytes(n).len() == 128,
{
    lemma_cell_bytes(n);
    lemma_data_bytes(n);
    lemma_children_bytes(n.children, 8, 0);
}

/// A node that stands at `i` is read there.
pub proof fn lemma_node_round_trip(b: Seq<u8>, i: int, n: NodeModel)
    requires
        0 <= i,
        i + 128 <= b.len(),
        b.subrange(i, i + 128) == node_bytes(n),
        n.center.len() == 3,
        n.children.len() == 8,
        forall|o: int|
            0 <= o < 8 ==> (#[trigger] n.children[o] matches Some(c) ==> c < u64::MAX),
    ensures
        node_at(b, i) == kept_of(n),
{
    let w = node_bytes(n);
    let cell = cell_bytes(n);
    let kids = children_bytes(n.children, 8);
    let data = data_bytes(n);
    lemma_cell_bytes(n);
    lemma_data_bytes(n);
    lemma_children_bytes(n.children, 8, 0);
    assert(w.subrange(0, 24) =~= cell);
    assert(w.subrange(24, 88) =~= kids);
    assert(w.subrange(88, 128) =~= data);
    assert(b.subrange(i, i + 24) =~= w.subrange(0, 24));
    assert(b.subrange(i + 24, i + 88) =~= w.subrange(24, 88));
    assert(b.subrange(i + 88, i + 128) =~= w.subrange(88, 128));
    assert(b.subrange(i, i + 8) =~= cell.subrange(0, 8));
    lemma_u64_at(b, i, n.id as u64);
    assert(b.subrange(i + 8, i + 12) =~= cell.subrange(8, 12));
    lemma_u32_at(b, i + 8, n.center[0].bits);
    assert(b.subrange(i + 12, i + 16) =~= cell.subrange(12, 16));
    lemma_u32_at(b, i + 12, n.center[1].bits);
    assert(b.subrange(i + 16, i + 20) =~= cell.subrange(16, 20));
    lemma_u32_at(b, i + 16, n.center[2].bits);
    assert(b.subrange(i + 20, i + 24) =~= cell.subrange(20, 24));
    lemma_u32_at(b, i + 20, n.half_size.bits);
    assert(b.subrange(i + 88, i + 96) =~= data.subrange(0, 8));
    lemma_u64_at(b, i + 88, n.embedding_id as u64);
    assert(b.subrange(i + 96, i + 104) =~= data.subrange(8, 16));
    lemma_u64_at(b, i + 96, n.payload_offset as u64);
    assert(b.subrange(i + 104, i + 112) =~= data.subrange(16, 24));
    lemma_u64_at(b, i + 104, n.payload_len as u64);
    let r = node_at(b, i);
    assert(r.center =~= n.center);
    assert forall|o: int| 0 <= o < 8 implies r.children[o] == n.children[o] by {
        lemma_children_bytes(n.children, 8, o);
        assert(b.subrange(i + 24 + 8 * o, i + 24 + 8 * o + 8) =~= kids.subrange(
            8 * o,
            8 * o + 8,
        ));
        lemma_u64_at(b, i + 24 + 8 * o, child_code(n.children[o]));
    }
    assert(r.children =~= n.children);
}

/// What `write_node` writes is what `read_node` reads, whatever follows it, and nothing less is
/// enough: 128 bytes are written.
pub proof fn lemma_node_write_then_read(n: NodeModel, rest: Seq<u8>)
    requires
        n.center.len() == 3,
        n.children.len() == 8,
        forall|o: int|
            0 <= o < 8 ==> (#[trigger] n.children[o] matches Some(c) ==> c < u64::MAX),
    ensures
        node_bytes(n).len() == NODE_LEN,
        node_at(node_bytes(n) + rest, 0) == kept_of(n),
{
    let b = node_bytes(n) + rest;
    lemma_node_bytes_len(n);
    assert(b.subrange(0, 128) =~= node_bytes(n));
    lemma_node_round_trip(b, 0, n);
}

/// An octant of the node at `i` is read as empty if and only if its eight bytes are all 255.
pub proof fn lemma_empty_octant(b: Seq<u8>, i: int, o: int)
    requires
        0 <= i,
        i + 128 <= b.len(),
        0 <= o < 8,
    ensures
        node_at(b, i).children[o] is None <==> forall|k: int|
            i + 24 + 8 * o <= k < i + 32 + 8 * o ==> #[trigger] b[k] == 0xff,
{
    let at = i + 24 + 8 * o;
    let s = b.subrange(at, at + 8);
    lemma_byte_limits();
    lemma_from_le_bound(s);
    lemma_largest(s);
    assert forall|k: int| at <= k < at + 8 implies #[trigger] b[k] == s[k - at] by {}
    assert forall|j: int| 0 <= j < 8 implies #[trigger] s[j] == b[at + j] by {}
}

proof fn lemma_nodes_bytes(nodes: Seq<NodeModel>, count: nat, j: int)
    ensures
        nodes_bytes(nodes, count).len() == 128 * count,
        0 <= j < count ==> nodes_bytes(nodes, count).subrange(128 * j, 128 * j + 128)
            == node_bytes(nodes[j]),
    decreases count,
{
    if count > 0 {
        let before = nodes_bytes(nodes, (count - 1) as nat);
        let all = nodes_bytes(nodes, count);
        lemma_nodes_bytes(nodes, (count - 1) as nat, j);
        lemma_node_bytes_len(nodes[count - 1]);
        if 0 <= j < count - 1 {
            assert(all.subrange(128 * j, 128 * j + 128) =~= before.subrange(
                128 * j,
                128 * j + 128,
            ));
        } else if j == count - 1 {
            assert(all.subrange(128 * j, 128 * j + 128) =~= node_bytes(nodes[j]));
        }
    }
}

proof fn lemma_numbers_bytes(numbers: Seq<Binary32>, count: nat, j: int)
    ensures
        numbers_bytes(numbers, count).len() == 4 * count,
        0 <= j < count ==> numbers_bytes(numbers, count).subrange(4 * j, 4 * j + 4) == le(
            numbers[j].bits as nat,
            4,
        ),
    decreases count,
{
    if count > 0 {
        let before = numbers_bytes(numbers, (count - 1) as nat);
        let all = numbers_bytes(numbers, count);
        lemma_numbers_bytes(numbers, (count - 1) as nat, j);
        lemma_le_len(numbers[count - 1].bits as nat, 4);
        if 0 <= j < count - 1 {
            assert(all.subrange(4 * j, 4 * j + 4) =~= before.subrange(4 * j, 4 * j + 4));
        } else if j == count - 1 {
            assert(all.subrange(4 * j, 4 * j + 4) =~= le(numbers[j].bits as nat, 4));
        }
    }
}

/// The parts of the file of `m` stand where they are looked for.
spec fn in_place(b: Seq<u8>, m: MemoryModel, block: Seq<u8>) -> bool {
    let nodes: int = 20 + 128 * m.nodes.len() as int;
    let numbers: int = nodes + 8 + 4 * m.projection.len();
    &&& b.subrange(0, 4) == file_magic()
    &&& u32_at(b, 4) == FILE_VERSION
    &&& u32_at(b, 8) == m.high_dim as u32
    &&& node_count_in(b) == m.nodes.len()
    &&& b.subrange(20, nodes) == nodes_bytes(m.nodes, m.nodes.len())
    &&& number_count_in(b) == m.projection.len()
    &&& b.subrange(nodes + 8, numbers) == numbers_bytes(m.projection, m.projection.len())
    &&& arena_len_in(b) == m.arena.len()
    &&& block_len_in(b) == block.len()
    &&& block_in(b) == block
    &&& b.len() == numbers + 16 + block.len()
    &&& u64_at(b, 12) == m.nodes.len()
    &&& u64_at(b, nodes) == m.projection.len()
    &&& u64_at(b, numbers) == m.arena.len()
    &&& u64_at(b, numbers + 8) == block.len()
}

proof fn lemma_in_place(m: MemoryModel, block: Seq<u8>)
    requires
        m.nodes.len() <= usize::MAX,
        m.projection.len() <= usize::MAX,
        m.arena.len() <= usize::MAX,
        block.len() <= usize::MAX,
    ensures
        in_place(m.file_bytes(block), m, block),
{
    let b = m.file_bytes(block);
    let n = m.nodes.len();
    let p = m.projection.len();
    let nodes: int = 20 + 128 * n as int;
    let numbers: int = nodes + 8 + 4 * p;
    let header = header_bytes(file_magic(), FILE_VERSION, m.high_dim as u32);
    lemma_le_len(FILE_VERSION as nat, 4);
    lemma_le_len(m.high_dim as u32 as nat, 4);
    lemma_le_len(n, 8);
    lemma_le_len(p, 8);
    lemma_le_len(m.arena.len(), 8);
    lemma_le_len(block.len(), 8);
    lemma_nodes_bytes(m.nodes, n, 0);
    lemma_numbers_bytes(m.projection, p, 0);
    assert(header.len() == 12);
    assert(b.subrange(0, 12) =~= header);
    assert(b.subrange(0, 4) =~= header.subrange(0, 4));
    assert(header.subrange(0, 4) =~= file_magic());
    assert(b.subrange(4, 8) =~= header.subrange(4, 8));
    assert(header.subrange(4, 8) =~= le(FILE_VERSION as nat, 4));
    lemma_u32_at(b, 4, FILE_VERSION);
    assert(b.subrange(8, 12) =~= header.subrange(8, 12));
    assert(header.subrange(8, 12) =~= le(m.high_dim as u32 as nat, 4));
    lemma_u32_at(b, 8, m.high_dim as u32);
    assert(b.subrange(12, 20) =~= le(n, 8));
    lemma_u64_at(b, 12, n as u64);
    assert(nodes_end(b) == nodes);
    assert(b.subrange(20, nodes) =~= nodes_bytes(m.nodes, n));
    assert(b.subrange(nodes, nodes + 8) =~= le(p, 8));
    lemma_u64_at(b, nodes, p as u64);
    assert(numbers_end(b) == numbers);
    assert(b.subrange(nodes + 8, numbers) =~= numbers_bytes(m.projection, p));
    assert(b.subrange(numbers, numbers + 8) =~= le(m.arena.len(), 8));
    lemma_u64_at(b, numbers, m.arena.len() as u64);
    assert(b.subrange(numbers + 8, numbers + 16) =~= le(block.len(), 8));
    lemma_u64_at(b, numbers + 8, block.len() as u64);
    assert(block_in(b) =~= block);
}

/// Whether a file can hold the memory: no octant links to the one number that stands for an empty
/// octant, and the root is the first node.
pub open spec fn storable(m: MemoryModel) -> bool {
    &&& forall|i: int|
        0 <= i < m.nodes.len() ==> (#[trigger] m.nodes[i]).center.len() == 3
            && m.nodes[i].children.len() == 8
    &&& forall|i: int, o: int, c: NodeId| #[trigger] links(m.nodes, i, o, c) ==> c < u64::MAX
    &&& m.root == if m.nodes.len() == 0 {
        None::<NodeId>
    } else {
        Some(0)
    }
}

/// Every well-formed memory can be held by a file.
pub proof fn lemma_well_formed_is_storable(m: MemoryModel)
    requires
        m.well_formed(),
        m.nodes.len() <= usize::MAX,
    ensures
        storable(m),
{
}

/// The nodes of a memory are read back.
proof fn lemma_nodes_read_back(b: Seq<u8>, m: MemoryModel)
    requires
        storable(m),
        m.nodes.len() <= usize::MAX,
        node_count_in(b) == m.nodes.len(),
        20 + 128 * m.nodes.len() <= b.len(),
        b.subrange(20, 20 + 128 * m.nodes.len() as int) == nodes_bytes(m.nodes, m.nodes.len()),
    ensures
        nodes_in(b) == m.kept().nodes,
{
    let all = b.subrange(20, 20 + 128 * m.nodes.len() as int);
    assert forall|i: int| 0 <= i < m.nodes.len() implies #[trigger] nodes_in(b)[i]
        == kept_of(m.nodes[i]) by {
        lemma_nodes_bytes(m.nodes, m.nodes.len(), i);
        assert(b.subrange(20 + 128 * i, 20 + 128 * i + 128) =~= all.subrange(
            128 * i,
            128 * i + 128,
        ));
        assert forall|o: int| 0 <= o < 8 implies (#[trigger] m.nodes[i].children[o] matches Some(
            c,
        ) ==> c < u64::MAX) by {
            match m.nodes[i].children[o] {
                Some(c) => {
                    assert(links(m.nodes, i, o, c));
                },
                None => {},
            }
        }
        lemma_node_round_trip(b, 20 + 128 * i, m.nodes[i]);
    }
    assert(nodes_in(b) =~= m.kept().nodes);
}

/// The numbers of a matrix are read back.
proof fn lemma_numbers_read_back(b: Seq<u8>, n: nat, projection: Seq<Binary32>)
    requires
        node_count_in(b) == n,
        number_count_in(b) == projection.len(),
        28 + 128 * n + 4 * projection.len() <= b.len(),
        b.subrange(28 + 128 * n as int, 28 + 128 * n as int + 4 * projection.len() as int)
            == numbers_bytes(projection, projection.len()),
    ensures
        numbers_in(b) == projection,
{
    let start = 28 + 128 * n as int;
    let all = b.subrange(start, start + 4 * projection.len() as int);
    assert forall|i: int| 0 <= i < projection.len() implies #[trigger] numbers_in(b)[i]
        == projection[i] by {
        lemma_numbers_bytes(projection, projection.len(), i);
        let at = start + 4 * i;
        assert(b.subrange(at, at + 4) =~= all.subrange(4 * i, 4 * i + 4));
        lemma_u32_at(b, at, projection[i].bits);
    }
    assert(numbers_in(b) =~= projection);
}

/// A file whose parts stand in place is loaded as the memory.
proof fn lemma_loaded(b: Seq<u8>, m: MemoryModel, block: Seq<u8>)
    requires
        in_place(b, m, block),
        storable(m),
        m.high_dim <= u32::MAX,
        m.nodes.len() <= usize::MAX,
        m.arena.len() <= isize::MAX,
        lz4_decoded(block, m.arena.len()) == Some(m.arena),
    ensures
        loaded(b, m.high_dim) == Ok::<MemoryModel, Refusal>(m.kept()),
{
    lemma_nodes_read_back(b, m);
    lemma_numbers_read_back(b, m.nodes.len(), m.projection);
    assert(complete(b));
}

/// What a file keeps of a memory.
proof fn lemma_kept(m: MemoryModel)
    requires
        storable(m),
    ensures
        m.well_formed() ==> m.kept().well_formed(),
        forall|i: int| #[trigger] m.kept().payload(i) == m.payload(i),
        (forall|i: int|
            0 <= i < m.nodes.len() ==> (#[trigger] m.nodes[i]).has_payload == is_payload_range(
                m.nodes[i].payload_offset,
                m.nodes[i].payload_len,
            )) ==> m.kept() == (MemoryModel {
            relaxation: Binary32 { bits: DEFAULT_RELAXATION },
            ..m
        }),
{
    let k = m.kept();
    if m.well_formed() {
        assert forall|i: int, o: int, c: NodeId| #[trigger] links(k.nodes, i, o, c) implies links(
            m.nodes,
            i,
            o,
            c,
        ) by {}
        assert forall|c: NodeId| 0 < c < k.nodes.len() implies #[trigger] has_parent(k.nodes, c) by {
            assert(has_parent(m.nodes, c));
            let (i, o) = choose|i: int, o: int| #[trigger] links(m.nodes, i, o, c);
            assert(links(k.nodes, i, o, c));
        }
    }
    if forall|i: int|
        0 <= i < m.nodes.len() ==> (#[trigger] m.nodes[i]).has_payload == is_payload_range(
            m.nodes[i].payload_offset,
            m.nodes[i].payload_len,
        ) {
        assert(k.nodes =~= m.nodes);
    }
}

/// A memory that was saved is loaded back: the nodes, the root, the matrix and the payloads are
/// as they were. The relaxation factor is not saved and is the default one afterwards. A node with
/// a payload of no bytes that was inserted into an empty arena is, in a file, as one without
/// payload.
pub proof fn lemma_save_then_load(m: MemoryModel, block: Seq<u8>)
    requires
        storable(m),
        m.high_dim <= u32::MAX,
        m.nodes.len() <= usize::MAX,
        m.projection.len() <= usize::MAX,
        m.arena.len() <= isize::MAX,
        block.len() <= usize::MAX,
        lz4_decoded(block, m.arena.len()) == Some(m.arena),
    ensures
        loaded(m.file_bytes(block), m.high_dim) == Ok::<MemoryModel, Refusal>(m.kept()),
        m.well_formed() ==> m.kept().well_formed(),
        forall|i: int| #[trigger] m.kept().payload(i) == m.payload(i),
        (forall|i: int|
            0 <= i < m.nodes.len() ==> (#[trigger] m.nodes[i]).has_payload == is_payload_range(
                m.nodes[i].payload_offset,
                m.nodes[i].payload_len,
            )) ==> m.kept() == (MemoryModel {
            relaxation: Binary32 { bits: DEFAULT_RELAXATION },
            ..m
        }),
{
    lemma_in_place(m, block);
    lemma_loaded(m.file_bytes(block), m, block);
    lemma_kept(m);
}

/// A memory is not loaded for embeddings of another length.
pub proof fn lemma_other_dimension_refused(m: MemoryModel, block: Seq<u8>, high_dim: usize)
    requires
        m.high_dim <= u32::MAX,
        m.nodes.len() <= usize::MAX,
        m.projection.len() <= usize::MAX,
        m.arena.len() <= usize::MAX,
        block.len() <= usize::MAX,
        high_dim != m.high_dim,
    ensures
        loaded(m.file_bytes(block), high_dim) == Err::<MemoryModel, Refusal>(
            Refusal::BadDimension(m.high_dim as u32),
        ),
{
    lemma_in_place(m, block);
    lemma_refused_dimension(m.file_bytes(block), m, block, high_dim);
}

proof fn lemma_refused_dimension(b: Seq<u8>, m: MemoryModel, block: Seq<u8>, high_dim: usize)
    requires
        in_place(b, m, block),
        m.high_dim <= u32::MAX,
        high_dim != m.high_dim,
    ensures
        loaded(b, high_dim) == Err::<MemoryModel, Refusal>(
            Refusal::BadDimension(m.high_dim as u32),
        ),
{
}

/// What is read of a file's start does not depend on what follows.
proof fn lemma_start(b: Seq<u8>, k: int, i: int, n: int)
    requires
        0 <= i,
        0 <= n,
        i + n <= k <= b.len(),
    ensures
        b.take(k).subrange(i, i + n) == b.subrange(i, i + n),
{
    assert(b.take(k).subrange(i, i + n) =~= b.subrange(i, i + n));
}

/// A saved memory of which the end is missing is not loaded.
pub proof fn lemma_truncated_refused(m: MemoryModel, block: Seq<u8>, k: int)
    requires
        m.high_dim <= u32::MAX,
        m.nodes.len() <= usize::MAX,
        m.projection.len() <= usize::MAX,
        m.arena.len() <= usize::MAX,
        block.len() <= usize::MAX,
        0 <= k < m.file_bytes(block).len(),
    ensures
        loaded(m.file_bytes(block).take(k), m.high_dim) == Err::<MemoryModel, Refusal>(
            Refusal::Truncated,
        ),
{
    lemma_in_place(m, block);
    lemma_refused_cut(m.file_bytes(block), m, block, k);
}

proof fn lemma_refused_cut(b: Seq<u8>, m: MemoryModel, block: Seq<u8>, k: int)
    requires
        in_place(b, m, block),
        m.high_dim <= u32::MAX,
        0 <= k < b.len(),
    ensures
        loaded(b.take(k), m.high_dim) == Err::<MemoryModel, Refusal>(Refusal::Truncated),
{
    let t = b.take(k);
    if k >= 12 {
        lemma_start(b, k, 0, 4);
        lemma_start(b, k, 4, 4);
        lemma_start(b, k, 8, 4);
        if k >= 20 {
            lemma_start(b, k, 12, 8);
            let nodes = nodes_end(b);
            if k >= nodes + 8 {
                lemma_start(b, k, nodes, 8);
                let numbers = numbers_end(b);
                if k >= numbers + 16 {
                    lemma_start(b, k, numbers + 8, 8);
                }
            }
        }
        assert(!complete(t));
    }
}

/// Bytes after the end of a file are ignored.
pub proof fn lemma_trailing_bytes_ignored(b: Seq<u8>, more: Seq<u8>, high_dim: usize)
    requires
        complete(b),
    ensures
        loaded(b + more, high_dim) == loaded(b, high_dim),
{
    let a = b + more;
    assert(a.take(b.len() as int) =~= b);
    lemma_start(a, b.len() as int, 0, 4);
    lemma_start(a, b.len() as int, 4, 4);
    lemma_start(a, b.len() as int, 8, 4);
    lemma_start(a, b.len() as int, 12, 8);
    lemma_start(a, b.len() as int, nodes_end(b), 8);
    let numbers = numbers_end(b);
    lemma_start(a, b.len() as int, numbers, 8);
    lemma_start(a, b.len() as int, numbers + 8, 8);
    lemma_start(a, b.len() as int, numbers + 16, block_len_in(b) as int);
    assert forall|i: int| 0 <= i < node_count_in(b) implies #[trigger] nodes_in(a)[i] == nodes_in(
        b,
    )[i] by {
        lemma_node_start(a, b.len() as int, 20 + 128 * i);
    }
    assert(nodes_in(a) =~= nodes_in(b));
    assert forall|i: int| 0 <= i < number_count_in(b) implies numbers_in(a)[i] == numbers_in(
        b,
    )[i] by {
        lemma_start(a, b.len() as int, nodes_end(b) + 8 + 4 * i, 4);
    }
    assert(numbers_in(a) =~= numbers_in(b));
}

proof fn lemma_node_start(b: Seq<u8>, k: int, i: int)
    requires
        0 <= i,
        i + 128 <= k <= b.len(),
    ensures
        node_at(b.take(k), i) == node_at(b, i),
{
    let t = b.take(k);
    lemma_start(b, k, i, 8);
    lemma_start(b, k, i + 8, 4);
    lemma_start(b, k, i + 12, 4);
    lemma_start(b, k, i + 16, 4);
    lemma_start(b, k, i + 20, 4);
    lemma_start(b, k, i + 88, 8);
    lemma_start(b, k, i + 96, 8);
    lemma_start(b, k, i + 104, 8);
    assert forall|o: int| 0 <= o < 8 implies node_at(t, i).children[o] == node_at(
        b,
        i,
    ).children[o] by {
        lemma_start(b, k, i + 24 + 8 * o, 8);
    }
    assert(node_at(t, i).children =~= node_at(b, i).children);
    assert(node_at(t, i).center =~= node_at(b, i).center);
}

/// The last sixteen bytes of a node are zeros.
proof fn lemma_node_padding(b: Seq<u8>, i: int, n: NodeModel)
    requires
        0 <= i,
        i + 128 <= b.len(),
        b.subrange(i, i + 128) == node_bytes(n),
    ensures
        forall|k: int| i + 112 <= k < i + 128 ==> #[trigger] b[k] == 0,
{
    let w = node_bytes(n);
    let data = data_bytes(n);
    lemma_cell_bytes(n);
    lemma_data_bytes(n);
    lemma_children_bytes(n.children, 8, 0);
    lemma_le_len(n.embedding_id as nat, 8);
    lemma_le_len(n.payload_offset as nat, 8);
    lemma_le_len(n.payload_len as nat, 8);
    assert forall|k: int| i + 112 <= k < i + 128 implies #[trigger] b[k] == 0 by {
        assert(b[k] == b.subrange(i, i + 128)[k - i]);
        assert(w[k - i] == data[k - i - 88]);
        assert(data[k - i - 88] == 0);
    }
}

/// A node is its cell, its octants and its data.
proof fn lemma_node_parts(b: Seq<u8>, i: int, n: NodeModel)
    requires
        0 <= i,
        i + 128 <= b.len(),
        b.subrange(i, i + 128) == node_bytes(n),
    ensures
        b.subrange(i, i + 24) == cell_bytes(n),
        b.subrange(i + 24, i + 88) == children_bytes(n.children, 8),
        b.subrange(i + 88, i + 128) == data_bytes(n),
{
    let w = node_bytes(n);
    lemma_cell_bytes(n);
    lemma_data_bytes(n);
    lemma_children_bytes(n.children, 8, 0);
    assert(w.subrange(0, 24) =~= cell_bytes(n));
    assert(w.subrange(24, 88) =~= children_bytes(n.children, 8));
    assert(w.subrange(88, 128) =~= data_bytes(n));
    assert(b.subrange(i, i + 24) =~= w.subrange(0, 24));
    assert(b.subrange(i + 24, i + 88) =~= w.subrange(24, 88));
    assert(b.subrange(i + 88, i + 128) =~= w.subrange(88, 128));
}

proof fn lemma_cell_layout(b: Seq<u8>, i: int, n: NodeModel)
    requires
        0 <= i,
        i + 24 <= b.len(),
        b.subrange(i, i + 24) == cell_bytes(n),
    ensures
        u64_at(b, i) == n.id,
        u32_at(b, i + 8) == n.center[0].bits,
        u32_at(b, i + 12) == n.center[1].bits,
        u32_at(b, i + 16) == n.center[2].bits,
        u32_at(b, i + 20) == n.half_size.bits,
{
    let cell = cell_bytes(n);
    lemma_cell_bytes(n);
    assert(b.subrange(i, i + 8) =~= cell.subrange(0, 8));
    lemma_u64_at(b, i, n.id as u64);
    assert(b.subrange(i + 8, i + 12) =~= cell.subrange(8, 12));
    lemma_u32_at(b, i + 8, n.center[0].bits);
    assert(b.subrange(i + 12, i + 16) =~= cell.subrange(12, 16));
    lemma_u32_at(b, i + 12, n.center[1].bits);
    assert(b.subrange(i + 16, i + 20) =~= cell.subrange(16, 20));
    lemma_u32_at(b, i + 16, n.center[2].bits);
    assert(b.subrange(i + 20, i + 24) =~= cell.subrange(20, 24));
    lemma_u32_at(b, i + 20, n.half_size.bits);
}

proof fn lemma_data_layout(b: Seq<u8>, i: int, n: NodeModel)
    requires
        0 <= i,
        i + 40 <= b.len(),
        b.subrange(i, i + 40) == data_bytes(n),
    ensures
        u64_at(b, i) == n.embedding_id,
        u64_at(b, i + 8) == n.payload_offset,
        u64_at(b, i + 16) == n.payload_len,
{
    let data = data_bytes(n);
    lemma_data_bytes(n);
    assert(b.subrange(i, i + 8) =~= data.subrange(0, 8));
    lemma_u64_at(b, i, n.embedding_id as u64);
    assert(b.subrange(i + 8, i + 16) =~= data.subrange(8, 16));
    lemma_u64_at(b, i + 8, n.payload_offset as u64);
    assert(b.subrange(i + 16, i + 24) =~= data.subrange(16, 24));
    lemma_u64_at(b, i + 16, n.payload_len as u64);
}

proof fn lemma_child_layout(b: Seq<u8>, i: int, children: Seq<Option<NodeId>>, o: int)
    requires
        0 <= i,
        i + 64 <= b.len(),
        b.subrange(i, i + 64) == children_bytes(children, 8),
        0 <= o < 8,
    ensures
        u64_at(b, i + 8 * o) == child_code(children[o]),
{
    let kids = children_bytes(children, 8);
    lemma_children_bytes(children, 8, o);
    let at = i + 8 * o;
    assert(b.subrange(at, at + 8) =~= kids.subrange(8 * o, 8 * o + 8));
    lemma_u64_at(b, at, child_code(children[o]));
}

/// Where the parts of a node stand among its 128 bytes.
proof fn lemma_node_layout(b: Seq<u8>, i: int, n: NodeModel, o: int)
    requires
        0 <= i,
        i + 128 <= b.len(),
        b.subrange(i, i + 128) == node_bytes(n),
        0 <= o < 8,
    ensures
        u64_at(b, i) == n.id,
        u32_at(b, i + 8) == n.center[0].bits,
        u32_at(b, i + 12) == n.center[1].bits,
        u32_at(b, i + 16) == n.center[2].bits,
        u32_at(b, i + 20) == n.half_size.bits,
        u64_at(b, i + 24 + 8 * o) == child_code(n.children[o]),
        u64_at(b, i + 88) == n.embedding_id,
        u64_at(b, i + 96) == n.payload_offset,
        u64_at(b, i + 104) == n.payload_len,
        forall|k: int| i + 112 <= k < i + 128 ==> #[trigger] b[k] == 0,
{
    lemma_node_parts(b, i, n);
    lemma_cell_layout(b, i, n);
    lemma_data_layout(b, i + 88, n);
    lemma_child_layout(b, i + 24, n.children, o);
    lemma_node_padding(b, i, n);
}

/// Where everything stands in the file of a memory: "FRAC", the version 2 and the dimension; the number
/// of nodes and the nodes, of 128 bytes each; the number of matrix entries and the entries; the length
/// of the arena, the length of the compressed arena and the compressed arena itself.
pub proof fn lemma_file_layout(m: MemoryModel, block: Seq<u8>, i: int, o: int, j: int)
    requires
        m.nodes.len() <= usize::MAX,
        m.projection.len() <= usize::MAX,
        m.arena.len() <= usize::MAX,
        block.len() <= usize::MAX,
        0 <= o < 8,
    ensures
        ({
            let b = m.file_bytes(block);
            let nodes: int = 20 + 128 * m.nodes.len() as int;
            let numbers: int = nodes + 8 + 4 * m.projection.len();
            &&& b.len() == numbers + 16 + block.len()
            &&& b[0] == 0x46 && b[1] == 0x52 && b[2] == 0x41 && b[3] == 0x43
            &&& u32_at(b, 4) == 2
            &&& u32_at(b, 8) == m.high_dim as u32
            &&& u64_at(b, 12) == m.nodes.len()
            &&& 0 <= i < m.nodes.len() ==> {
                let n = m.nodes[i];
                let at = 20 + 128 * i;
                &&& u64_at(b, at) == n.id
                &&& u32_at(b, at + 8) == n.center[0].bits
                &&& u32_at(b, at + 12) == n.center[1].bits
                &&& u32_at(b, at + 16) == n.center[2].bits
                &&& u32_at(b, at + 20) == n.half_size.bits
                &&& u64_at(b, at + 24 + 8 * o) == match n.children[o] {
                    Some(id) => id as u64,
                    None => u64::MAX,
                }
                &&& u64_at(b, at + 88) == n.embedding_id
                &&& u64_at(b, at + 96) == n.payload_offset
                &&& u64_at(b, at + 104) == n.payload_len
                &&& forall|k: int| at + 112 <= k < at + 128 ==> #[trigger] b[k] == 0
            }
            &&& u64_at(b, nodes) == m.projection.len()
            &&& 0 <= j < m.projection.len() ==> u32_at(b, nodes + 8 + 4 * j) == m.projection[j].bits
            &&& u64_at(b, numbers) == m.arena.len()
            &&& u64_at(b, numbers + 8) == block.len()
            &&& b.subrange(numbers + 16, b.len() as int) == block
        }),
{
    lemma_in_place(m, block);
    lemma_layout_of(m.file_bytes(block), m, block, i, o, j);
}

proof fn lemma_layout_of(b: Seq<u8>, m: MemoryModel, block: Seq<u8>, i: int, o: int, j: int)
    requires
        in_place(b, m, block),
        m.nodes.len() <= usize::MAX,
        m.projection.len() <= usize::MAX,
        0 <= o < 8,
    ensures
        ({
            let nodes: int = 20 + 128 * m.nodes.len() as int;
            let numbers: int = nodes + 8 + 4 * m.projection.len();
            &&& b[0] == 0x46 && b[1] == 0x52 && b[2] == 0x41 && b[3] == 0x43
            &&& 0 <= i < m.nodes.len() ==> {
                let n = m.nodes[i];
                let at = 20 + 128 * i;
                &&& u64_at(b, at) == n.id
                &&& u32_at(b, at + 8) == n.center[0].bits
                &&& u32_at(b, at + 12) == n.center[1].bits
                &&& u32_at(b, at + 16) == n.center[2].bits
                &&& u32_at(b, at + 20) == n.half_size.bits
                &&& u64_at(b, at + 24 + 8 * o) == match n.children[o] {
                    Some(id) => id as u64,
                    None => u64::MAX,
                }
                &&& u64_at(b, at + 88) == n.embedding_id
                &&& u64_at(b, at + 96) == n.payload_offset
                &&& u64_at(b, at + 104) == n.payload_len
                &&& forall|k: int| at + 112 <= k < at + 128 ==> #[trigger] b[k] == 0
            }
            &&& 0 <= j < m.projection.len() ==> u32_at(b, nodes + 8 + 4 * j) == m.projection[j].bits
            &&& b.subrange(numbers + 16, b.len() as int) == block
            &&& b.len() == numbers + 16 + block.len()
            &&& u32_at(b, 4) == 2
            &&& u32_at(b, 8) == m.high_dim as u32
            &&& u64_at(b, 12) == m.nodes.len()
            &&& u64_at(b, nodes) == m.projection.len()
            &&& u64_at(b, numbers) == m.arena.len()
            &&& u64_at(b, numbers + 8) == block.len()
        }),
{
    let nodes: int = 20 + 128 * m.nodes.len() as int;
    let numbers: int = nodes + 8 + 4 * m.projection.len();
    let head = b.subrange(0, 4);
    assert(head[0] == b[0] && head[1] == b[1] && head[2] == b[2] && head[3] == b[3]);
    if 0 <= i < m.nodes.len() {
        let all = b.subrange(20, nodes);
        lemma_nodes_bytes(m.nodes, m.nodes.len(), i);
        assert(b.subrange(20 + 128 * i, 20 + 128 * i + 128) =~= all.subrange(
            128 * i,
            128 * i + 128,
        ));
        lemma_node_layout(b, 20 + 128 * i, m.nodes[i], o);
    }
    if 0 <= j < m.projection.len() {
        let all = b.subrange(nodes + 8, numbers);
        lemma_numbers_bytes(m.projection, m.projection.len(), j);
        let at = nodes + 8 + 4 * j;
        assert(b.subrange(at, at + 4) =~= all.subrange(4 * j, 4 * j + 4));
        lemma_u32_at(b, at, m.projection[j].bits);
    }
}

/// What a file is refused for, by its bytes: the first of these that applies.
pub proof fn lemma_refusals(b: Seq<u8>, high_dim: usize)
    ensures
        b.len() < 12 ==> loaded(b, high_dim) == Err::<MemoryModel, Refusal>(Refusal::Truncated),
        b.len() >= 12 && !(b[0] == 0x46 && b[1] == 0x52 && b[2] == 0x41 && b[3] == 0x43) ==> loaded(
            b,
            high_dim,
        ) == Err::<MemoryModel, Refusal>(Refusal::BadMagic(b.subrange(0, 4))),
        b.len() >= 12 && b[0] == 0x46 && b[1] == 0x52 && b[2] == 0x41 && b[3] == 0x43 ==> {
            &&& u32_at(b, 4) != 2 ==> loaded(b, high_dim) == Err::<MemoryModel, Refusal>(
                Refusal::BadVersion(u32_at(b, 4)),
            )
            &&& u32_at(b, 4) == 2 && u32_at(b, 8) != high_dim ==> loaded(b, high_dim) == Err::<
                MemoryModel,
                Refusal,
            >(Refusal::BadDimension(u32_at(b, 8)))
            &&& u32_at(b, 4) == 2 && u32_at(b, 8) == high_dim && b.len() < 20 ==> loaded(
                b,
                high_dim,
            ) == Err::<MemoryModel, Refusal>(Refusal::Truncated)
        },
{
    let head = b.subrange(0, 4);
    if b.len() >= 12 {
        assert(head[0] == b[0] && head[1] == b[1] && head[2] == b[2] && head[3] == b[3]);
        if b[0] == 0x46 && b[1] == 0x52 && b[2] == 0x41 && b[3] == 0x43 {
            assert(head =~= file_magic());
        }
    }
}

/// What a file that is loaded holds: the numbers at the places where they stand, and the arena that its
/// block decodes to. The root is the first node, and the relaxation factor is 21/20.
pub proof fn lemma_what_is_loaded(b: Seq<u8>, high_dim: usize, i: int, o: int, j: int)
    requires
        loaded(b, high_dim) is Ok,
        0 <= o < 8,
    ensures
        ({
            let m = loaded(b, high_dim)->Ok_0;
            let nodes = 20 + 128 * (u64_at(b, 12) as usize);
            let numbers = nodes + 8 + 4 * (u64_at(b, nodes) as usize);
            let end = numbers + 16 + (u64_at(b, numbers + 8) as usize);
            &&& b.len() >= end
            &&& m.nodes.len() == u64_at(b, 12) as usize
            &&& 0 <= i < m.nodes.len() ==> {
                let n = m.nodes[i];
                let at = 20 + 128 * i;
                &&& n.id == u64_at(b, at) as usize
                &&& n.center.len() == 3
                &&& n.center[0].bits == u32_at(b, at + 8)
                &&& n.center[1].bits == u32_at(b, at + 12)
                &&& n.center[2].bits == u32_at(b, at + 16)
                &&& n.half_size.bits == u32_at(b, at + 20)
                &&& n.children.len() == 8
                &&& n.children[o] == if u64_at(b, at + 24 + 8 * o) == u64::MAX {
                    None
                } else {
                    Some(u64_at(b, at + 24 + 8 * o) as usize)
                }
                &&& n.embedding_id == u64_at(b, at + 88) as usize
                &&& n.payload_offset == u64_at(b, at + 96) as usize
                &&& n.payload_len == u64_at(b, at + 104) as usize
                &&& n.has_payload == (n.payload_offset != 0 || n.payload_len != 0)
            }
            &&& m.projection.len() == u64_at(b, nodes) as usize
            &&& 0 <= j < m.projection.len() ==> m.projection[j].bits == u32_at(b, nodes + 8 + 4 * j)
            &&& lz4_decoded(
                b.subrange(numbers + 16, end),
                u64_at(b, numbers) as usize as nat,
            ) == Some(m.arena)
            &&& m.high_dim == high_dim
            &&& m.relaxation.bits == 0x3f86_6666
            &&& m.root == if m.nodes.len() == 0 {
                None::<NodeId>
            } else {
                Some(0)
            }
        }),
{
    assert(refused(b, high_dim) is None);
}

} // verus!
