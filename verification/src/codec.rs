//! The file format of a memory: a header, the nodes, the projection matrix and the compressed
//! arena, all numbers little-endian.
use crate::bytes::{le, push_u32, push_u64, read_u32, read_u64, u32_at, u64_at};
use crate::geometry::DEFAULT_RELAXATION;
use crate::lz4::{compress, compressible, decompress, lz4_decoded};
use crate::memory::{node_models, FractalMemory3D, MemoryModel};
use crate::node::{is_payload_range, NodeId, NodeModel, OctreeNode};
use crate::numbers::Binary32;
use lz4_flex::block::DecompressError;
use vstd::prelude::*;
use vstd::slice::slice_subrange;

verus! {

/// The version of the format.
pub const FILE_VERSION: u32 = 2;

/// How many bytes the header takes up.
pub const HEADER_LEN: usize = 12;

/// How many bytes a node takes up.
pub const NODE_LEN: usize = 128;

/// The bytes that every file starts with: "FRAC".
pub open spec fn file_magic() -> Seq<u8> {
    seq![0x46u8, 0x52u8, 0x41u8, 0x43u8]
}

/// What a file starts with.
pub struct FileHeader {
    pub magic: [u8; 4],
    pub version: u32,
    pub high_dim: u32,
}

pub open spec fn header_bytes(magic: Seq<u8>, version: u32, high_dim: u32) -> Seq<u8> {
    magic + le(version as nat, 4) + le(high_dim as nat, 4)
}

impl FileHeader {
    /// Appends the header.
    pub fn write_to(&self, out: &mut Vec<u8>)
        ensures
            final(out)@ == old(out)@ + header_bytes(self.magic@, self.version, self.high_dim),
    {
        let ghost start = out@;
        let mut i: usize = 0;
        while i < 4
            invariant
                i <= 4,
                out@ == start + self.magic@.take(i as int),
            decreases 4 - i,
        {
            out.push(self.magic[i]);
            assert(out@ =~= start + self.magic@.take(i + 1));
            i = i + 1;
        }
        assert(self.magic@.take(4) =~= self.magic@);
        push_u32(out, self.version);
        push_u32(out, self.high_dim);
        assert(out@ =~= start + header_bytes(self.magic@, self.version, self.high_dim));
    }

    /// Reads the header at the start of `bytes`; `None` where there are too few of them.
    pub fn read_from(bytes: &[u8]) -> (r: Option<FileHeader>)
        ensures
            r is Some <==> bytes@.len() >= HEADER_LEN,
            r matches Some(header) ==> {
                &&& header.magic@ == bytes@.subrange(0, 4)
                &&& header.version == u32_at(bytes@, 4)
                &&& header.high_dim == u32_at(bytes@, 8)
            },
    {
        if bytes.len() < HEADER_LEN {
            return None;
        }
        let magic = [bytes[0], bytes[1], bytes[2], bytes[3]];
        assert(magic@ =~= bytes@.subrange(0, 4));
        Some(FileHeader { magic, version: read_u32(bytes, 4), high_dim: read_u32(bytes, 8) })
    }
}

/// What is written for an octant: the node in it, or the largest number where it is empty.
pub open spec fn child_code(child: Option<NodeId>) -> u64 {
    match child {
        Some(id) => id as u64,
        None => u64::MAX,
    }
}

/// The octant that was written as `code`.
pub open spec fn child_of(code: u64) -> Option<NodeId> {
    if code == u64::MAX {
        None
    } else {
        Some(code as NodeId)
    }
}

/// The first `count` octants.
pub open spec fn children_bytes(children: Seq<Option<NodeId>>, count: nat) -> Seq<u8>
    decreases count,
{
    if count == 0 {
        Seq::empty()
    } else {
        children_bytes(children, (count - 1) as nat) + le(
            child_code(children[count - 1]) as nat,
            8,
        )
    }
}

/// What a node is written as before its octants.
pub open spec fn cell_bytes(n: NodeModel) -> Seq<u8> {
    le(n.id as nat, 8) + le(n.center[0].bits as nat, 4) + le(n.center[1].bits as nat, 4) + le(
        n.center[2].bits as nat,
        4,
    ) + le(n.half_size.bits as nat, 4)
}

/// What a node is written as after its octants.
pub open spec fn data_bytes(n: NodeModel) -> Seq<u8> {
    le(n.embedding_id as nat, 8) + le(n.payload_offset as nat, 8) + le(n.payload_len as nat, 8)
        + Seq::new(16, |i: int| 0u8)
}

/// What a node is written as.
pub open spec fn node_bytes(n: NodeModel) -> Seq<u8> {
    cell_bytes(n) + children_bytes(n.children, 8) + data_bytes(n)
}

/// The first `count` nodes.
pub open spec fn nodes_bytes(nodes: Seq<NodeModel>, count: nat) -> Seq<u8>
    decreases count,
{
    if count == 0 {
        Seq::empty()
    } else {
        nodes_bytes(nodes, (count - 1) as nat) + node_bytes(nodes[count - 1])
    }
}

/// The first `count` numbers.
pub open spec fn numbers_bytes(numbers: Seq<Binary32>, count: nat) -> Seq<u8>
    decreases count,
{
    if count == 0 {
        Seq::empty()
    } else {
        numbers_bytes(numbers, (count - 1) as nat) + le(numbers[count - 1].bits as nat, 4)
    }
}

/// What a file keeps of a node: all of it, but whether a payload was given is told by the range.
pub open spec fn kept_of(n: NodeModel) -> NodeModel {
    NodeModel { has_payload: is_payload_range(n.payload_offset, n.payload_len), ..n }
}

impl MemoryModel {
    /// What a file keeps of this memory: the relaxation factor is not in it, and is the default one
    /// afterwards.
    pub open spec fn kept(self) -> MemoryModel {
        MemoryModel {
            nodes: Seq::new(self.nodes.len(), |i: int| kept_of(self.nodes[i])),
            relaxation: Binary32 { bits: DEFAULT_RELAXATION },
            ..self
        }
    }

    /// The file of this memory up to its arena.
    pub open spec fn body_bytes(self) -> Seq<u8> {
        header_bytes(file_magic(), FILE_VERSION, self.high_dim as u32) + le(self.nodes.len(), 8)
            + nodes_bytes(self.nodes, self.nodes.len()) + le(self.projection.len(), 8)
            + numbers_bytes(self.projection, self.projection.len())
    }

    /// The file of this memory, with `block` for its compressed arena.
    pub open spec fn file_bytes(self, block: Seq<u8>) -> Seq<u8> {
        self.body_bytes() + le(self.arena.len(), 8) + le(block.len(), 8) + block
    }
}

/// The node that is written at `i`. A file does not say whether a node has a payload, so one with
/// the empty range at 0 is taken to have none.
pub open spec fn node_at(b: Seq<u8>, i: int) -> NodeModel {
    NodeModel {
        id: u64_at(b, i) as NodeId,
        center: seq![
            Binary32 { bits: u32_at(b, i + 8) },
            Binary32 { bits: u32_at(b, i + 12) },
            Binary32 { bits: u32_at(b, i + 16) },
        ],
        half_size: Binary32 { bits: u32_at(b, i + 20) },
        children: Seq::new(8, |o: int| child_of(u64_at(b, i + 24 + 8 * o))),
        embedding_id: u64_at(b, i + 88) as usize,
        payload_offset: u64_at(b, i + 96) as usize,
        payload_len: u64_at(b, i + 104) as usize,
        has_payload: is_payload_range(
            u64_at(b, i + 96) as usize,
            u64_at(b, i + 104) as usize,
        ),
    }
}

/// Appends a node.
pub fn write_node(out: &mut Vec<u8>, node: &OctreeNode)
    ensures
        final(out)@ == old(out)@ + node_bytes(node@),
{
    let ghost start = out@;
    push_u64(out, node.id as u64);
    push_u32(out, node.center[0].bits);
    push_u32(out, node.center[1].bits);
    push_u32(out, node.center[2].bits);
    push_u32(out, node.half_size.bits);
    assert(out@ =~= start + cell_bytes(node@));
    let ghost head = out@;
    let mut o: usize = 0;
    while o < 8
        invariant
            o <= 8,
            out@ == head + children_bytes(node@.children, o as nat),
        decreases 8 - o,
    {
        let code: u64 = match node.children[o] {
            Some(id) => id as u64,
            None => u64::MAX,
        };
        let ghost before = out@;
        push_u64(out, code);
        assert(out@ =~= head + children_bytes(node@.children, (o + 1) as nat));
        o = o + 1;
    }
    let ghost mid = out@;
    push_u64(out, node.embedding_id as u64);
    push_u64(out, node.payload_offset as u64);
    push_u64(out, node.payload_len as u64);
    let ghost before = out@;
    let mut k: usize = 0;
    while k < 16
        invariant
            k <= 16,
            out@ == before + Seq::new(k as nat, |i: int| 0u8),
        decreases 16 - k,
    {
        out.push(0);
        assert(out@ =~= before + Seq::new((k + 1) as nat, |i: int| 0u8));
        k = k + 1;
    }
    assert(out@ =~= mid + data_bytes(node@));
    assert(out@ =~= start + node_bytes(node@));
}

/// Reads the node at `i`; `None` where there are too few bytes.
pub fn read_node(bytes: &[u8], i: usize) -> (r: Option<OctreeNode>)
    ensures
        r is Some <==> i + NODE_LEN <= bytes@.len(),
        r matches Some(node) ==> node@ == node_at(bytes@, i as int),
{
    if bytes.len() < NODE_LEN || i > bytes.len() - NODE_LEN {
        return None;
    }
    let id = read_u64(bytes, i) as NodeId;
    let center = [
        Binary32 { bits: read_u32(bytes, i + 8) },
        Binary32 { bits: read_u32(bytes, i + 12) },
        Binary32 { bits: read_u32(bytes, i + 16) },
    ];
    let half_size = Binary32 { bits: read_u32(bytes, i + 20) };
    let mut node = OctreeNode::new(
        id,
        center,
        half_size,
        read_u64(bytes, i + 88) as usize,
        read_u64(bytes, i + 96) as usize,
        read_u64(bytes, i + 104) as usize,
    );
    let ghost plain = node@;
    let mut o: usize = 0;
    while o < 8
        invariant
            o <= 8,
            i + NODE_LEN <= bytes@.len(),
            bytes@.len() <= usize::MAX,
            node@ == (NodeModel { children: node@.children, ..plain }),
            node@.children.len() == 8,
            forall|u: int|
                0 <= u < o ==> #[trigger] node@.children[u] == child_of(
                    u64_at(bytes@, i + 24 + 8 * u),
                ),
        decreases 8 - o,
    {
        let code = read_u64(bytes, i + 24 + 8 * o);
        let child = if code == u64::MAX {
            None
        } else {
            Some(code as NodeId)
        };
        node.children[o] = child;
        o = o + 1;
    }
    assert(node@.center =~= node_at(bytes@, i as int).center);
    assert(node@.children =~= node_at(bytes@, i as int).children);
    Some(node)
}

/// Why a file is not loaded.
pub enum LoadError {
    /// It ends too early.
    Truncated,
    /// It does not start with the right bytes.
    BadMagic([u8; 4]),
    /// It has another version.
    BadVersion(u32),
    /// It is of a memory for embeddings of another length.
    BadDimension(u32),
    /// Its arena is larger than any buffer can be.
    ArenaTooLarge(usize),
    /// Its arena cannot be decompressed.
    Decompression(DecompressError),
}

/// Why a file is not loaded, but for the details of a failed decompression.
pub enum Refusal {
    Truncated,
    BadMagic(Seq<u8>),
    BadVersion(u32),
    BadDimension(u32),
    ArenaTooLarge(usize),
    BadBlock,
}

impl LoadError {
    pub open spec fn refusal(self) -> Refusal {
        match self {
            LoadError::Truncated => Refusal::Truncated,
            LoadError::BadMagic(found) => Refusal::BadMagic(found@),
            LoadError::BadVersion(found) => Refusal::BadVersion(found),
            LoadError::BadDimension(found) => Refusal::BadDimension(found),
            LoadError::ArenaTooLarge(len) => Refusal::ArenaTooLarge(len),
            LoadError::Decompression(e) => Refusal::BadBlock,
        }
    }
}

/// How many nodes the file `b` announces.
pub open spec fn node_count_in(b: Seq<u8>) -> usize {
    u64_at(b, 12) as usize
}

/// Where the nodes of the file `b` end.
pub open spec fn nodes_end(b: Seq<u8>) -> int {
    20 + 128 * node_count_in(b)
}

/// How many numbers the matrix of the file `b` is announced to have.
pub open spec fn number_count_in(b: Seq<u8>) -> usize {
    u64_at(b, nodes_end(b)) as usize
}

/// Where the matrix of the file `b` ends.
pub open spec fn numbers_end(b: Seq<u8>) -> int {
    nodes_end(b) + 8 + 4 * number_count_in(b)
}

/// How many bytes the arena of the file `b` is announced to have.
pub open spec fn arena_len_in(b: Seq<u8>) -> usize {
    u64_at(b, numbers_end(b)) as usize
}

/// How many bytes the compressed arena of the file `b` is announced to have.
pub open spec fn block_len_in(b: Seq<u8>) -> usize {
    u64_at(b, numbers_end(b) + 8) as usize
}

/// Whether the file `b` has all that it announces.
pub open spec fn complete(b: Seq<u8>) -> bool {
    &&& b.len() >= 20
    &&& b.len() >= nodes_end(b) + 8
    &&& b.len() >= numbers_end(b) + 16
    &&& b.len() >= numbers_end(b) + 16 + block_len_in(b)
}

/// Why the file `b` is refused before its arena is decompressed, if it is. The first reason that
/// applies counts.
pub open spec fn refused(b: Seq<u8>, high_dim: usize) -> Option<Refusal> {
    if b.len() < HEADER_LEN {
        Some(Refusal::Truncated)
    } else if b.subrange(0, 4) != file_magic() {
        Some(Refusal::BadMagic(b.subrange(0, 4)))
    } else if u32_at(b, 4) != FILE_VERSION {
        Some(Refusal::BadVersion(u32_at(b, 4)))
    } else if u32_at(b, 8) != high_dim {
        Some(Refusal::BadDimension(u32_at(b, 8)))
    } else if !complete(b) {
        Some(Refusal::Truncated)
    } else if arena_len_in(b) > isize::MAX {
        Some(Refusal::ArenaTooLarge(arena_len_in(b)))
    } else {
        None
    }
}

pub open spec fn nodes_in(b: Seq<u8>) -> Seq<NodeModel> {
    Seq::new(node_count_in(b) as nat, |i: int| node_at(b, 20 + 128 * i))
}

pub open spec fn numbers_in(b: Seq<u8>) -> Seq<Binary32> {
    Seq::new(
        number_count_in(b) as nat,
        |i: int| Binary32 { bits: u32_at(b, nodes_end(b) + 8 + 4 * i) },
    )
}

pub open spec fn block_in(b: Seq<u8>) -> Seq<u8> {
    b.subrange(numbers_end(b) + 16, numbers_end(b) + 16 + block_len_in(b))
}

impl MemoryModel {
    /// The memory that is put together from what a file holds.
    pub open spec fn restored(
        nodes: Seq<NodeModel>,
        projection: Seq<Binary32>,
        high_dim: usize,
        arena: Seq<u8>,
    ) -> MemoryModel {
        MemoryModel {
            nodes,
            root: if nodes.len() == 0 {
                None
            } else {
                Some(0)
            },
            projection,
            high_dim,
            arena,
            relaxation: Binary32 { bits: DEFAULT_RELAXATION },
        }
    }
}

/// What comes of loading the file `b`.
pub open spec fn loaded(b: Seq<u8>, high_dim: usize) -> Result<MemoryModel, Refusal> {
    match refused(b, high_dim) {
        Some(refusal) => Err(refusal),
        None => match lz4_decoded(block_in(b), arena_len_in(b) as nat) {
            None => Err(Refusal::BadBlock),
            Some(arena) => Ok(
                MemoryModel::restored(nodes_in(b), numbers_in(b), high_dim, arena),
            ),
        },
    }
}

/// What a file holds, with its arena still compressed.
pub struct FileParts {
    pub nodes: Vec<OctreeNode>,
    pub projection_matrix: Vec<Binary32>,
    pub high_dim: usize,
    pub arena_len: usize,
    pub block: Vec<u8>,
}

impl FileParts {
    /// The memory, once its arena is decompressed.
    pub fn with_arena(self, payload_arena: Vec<u8>) -> (r: FractalMemory3D)
        ensures
            r@ == MemoryModel::restored(
                node_models(self.nodes@),
                self.projection_matrix@,
                self.high_dim,
                payload_arena@,
            ),
    {
        let root_id = if self.nodes.len() == 0 {
            None
        } else {
            Some(0)
        };
        FractalMemory3D {
            nodes: self.nodes,
            root_id,
            projection_matrix: self.projection_matrix,
            high_dim: self.high_dim,
            payload_arena,
            relaxation_factor: Binary32 { bits: DEFAULT_RELAXATION },
        }
    }
}

/// Reads `count` nodes from `start` on.
fn read_nodes(bytes: &[u8], start: usize, count: usize) -> (r: Vec<OctreeNode>)
    requires
        start + 128 * count <= bytes@.len(),
    ensures
        node_models(r@) == Seq::new(count as nat, |i: int| node_at(bytes@, start + 128 * i)),
{
    assert(bytes.len() == bytes@.len());
    let mut nodes: Vec<OctreeNode> = Vec::new();
    let mut i: usize = 0;
    while i < count
        invariant
            i <= count,
            start + 128 * count <= bytes@.len() <= usize::MAX,
            nodes@.len() == i,
            forall|j: int| 0 <= j < i ==> #[trigger] nodes@[j]@ == node_at(bytes@, start + 128 * j),
        decreases count - i,
    {
        if let Some(node) = read_node(bytes, start + 128 * i) {
            nodes.push(node);
        }
        i = i + 1;
    }
    assert(node_models(nodes@) =~= Seq::new(
        count as nat,
        |i: int| node_at(bytes@, start + 128 * i),
    ));
    nodes
}

/// Reads `count` numbers from `start` on.
fn read_numbers(bytes: &[u8], start: usize, count: usize) -> (r: Vec<Binary32>)
    requires
        start + 4 * count <= bytes@.len(),
    ensures
        r@ == Seq::new(count as nat, |i: int| Binary32 { bits: u32_at(bytes@, start + 4 * i) }),
{
    assert(bytes.len() == bytes@.len());
    let mut numbers: Vec<Binary32> = Vec::new();
    let mut i: usize = 0;
    while i < count
        invariant
            i <= count,
            start + 4 * count <= bytes@.len() <= usize::MAX,
            numbers@.len() == i,
            forall|j: int|
                0 <= j < i ==> #[trigger] numbers@[j] == (Binary32 {
                    bits: u32_at(bytes@, start + 4 * j),
                }),
        decreases count - i,
    {
        numbers.push(Binary32 { bits: read_u32(bytes, start + 4 * i) });
        i = i + 1;
    }
    assert(numbers@ =~= Seq::new(
        count as nat,
        |i: int| Binary32 { bits: u32_at(bytes@, start + 4 * i) },
    ));
    numbers
}

/// The number of nodes, the number of matrix entries, where the matrix ends and how long the
/// compressed arena is; `None` where the file is not complete.
fn read_counts(bytes: &[u8]) -> (r: Option<(usize, usize, usize, usize)>)
    ensures
        r is Some <==> complete(bytes@),
        r matches Some((nodes, numbers, at, block)) ==> {
            &&& nodes == node_count_in(bytes@)
            &&& numbers == number_count_in(bytes@)
            &&& at == numbers_end(bytes@)
            &&& block == block_len_in(bytes@)
        },
{
    let len = bytes.len();
    if len < 20 {
        return None;
    }
    let nodes = read_u64(bytes, 12) as usize;
    if len < 28 || nodes > (len - 28) / 128 {
        return None;
    }
    let nodes_stop = 20 + 128 * nodes;
    let numbers = read_u64(bytes, nodes_stop) as usize;
    if len - nodes_stop < 24 || numbers > (len - nodes_stop - 24) / 4 {
        return None;
    }
    let at = nodes_stop + 8 + 4 * numbers;
    let block = read_u64(bytes, at + 8) as usize;
    if block > len - at - 16 {
        return None;
    }
    Some((nodes, numbers, at, block))
}

/// Takes a file apart.
pub fn parse_file(bytes: &[u8], high_dim: usize) -> (r: Result<FileParts, LoadError>)
    ensures
        r matches Err(e) ==> refused(bytes@, high_dim) == Some(e.refusal()),
        r matches Ok(parts) ==> {
            &&& refused(bytes@, high_dim) is None
            &&& node_models(parts.nodes@) == nodes_in(bytes@)
            &&& parts.projection_matrix@ == numbers_in(bytes@)
            &&& parts.high_dim == high_dim
            &&& parts.arena_len == arena_len_in(bytes@)
            &&& parts.block@ == block_in(bytes@)
        },
{
    let header = match FileHeader::read_from(bytes) {
        None => return Err(LoadError::Truncated),
        Some(header) => header,
    };
    if !(header.magic[0] == 0x46 && header.magic[1] == 0x52 && header.magic[2] == 0x41
        && header.magic[3] == 0x43) {
        assert(header.magic@[0] != file_magic()[0] || header.magic@[1] != file_magic()[1]
            || header.magic@[2] != file_magic()[2] || header.magic@[3] != file_magic()[3]);
        return Err(LoadError::BadMagic(header.magic));
    }
    assert(header.magic@ =~= file_magic());
    if header.version != FILE_VERSION {
        return Err(LoadError::BadVersion(header.version));
    }
    if header.high_dim as usize != high_dim {
        return Err(LoadError::BadDimension(header.high_dim));
    }
    let (node_count, number_count, at, block_len) = match read_counts(bytes) {
        None => return Err(LoadError::Truncated),
        Some(counts) => counts,
    };
    assert(bytes.len() == bytes@.len());
    let arena_len = read_u64(bytes, at) as usize;
    if arena_len > isize::MAX as usize {
        return Err(LoadError::ArenaTooLarge(arena_len));
    }
    let nodes = read_nodes(bytes, 20, node_count);
    let projection_matrix = read_numbers(bytes, 28 + 128 * node_count, number_count);
    let mut block: Vec<u8> = Vec::new();
    block.extend_from_slice(slice_subrange(bytes, at + 16, at + 16 + block_len));
    assert(block@ =~= block_in(bytes@));
    Ok(FileParts { nodes, projection_matrix, high_dim, arena_len, block })
}

impl FractalMemory3D {
    /// The file of this memory, with `block` for its compressed arena.
    pub fn encode_with(&self, block: &[u8]) -> (r: Vec<u8>)
        ensures
            r@ == self@.file_bytes(block@),
    {
        let mut out: Vec<u8> = Vec::new();
        let header = FileHeader {
            magic: [0x46, 0x52, 0x41, 0x43],
            version: FILE_VERSION,
            high_dim: self.high_dim as u32,
        };
        assert(header.magic@ =~= file_magic());
        header.write_to(&mut out);
        push_u64(&mut out, self.nodes.len() as u64);
        let ghost head = out@;
        let ghost m = self@;
        assert(head =~= header_bytes(file_magic(), FILE_VERSION, m.high_dim as u32) + le(
            m.nodes.len(),
            8,
        ));
        let mut i: usize = 0;
        while i < self.nodes.len()
            invariant
                i <= self.nodes@.len(),
                m == self@,
                out@ == head + nodes_bytes(m.nodes, i as nat),
            decreases self.nodes.len() - i,
        {
            write_node(&mut out, &self.nodes[i]);
            assert(m.nodes[i as int] == self.nodes@[i as int]@);
            assert(out@ =~= head + nodes_bytes(m.nodes, (i + 1) as nat));
            i = i + 1;
        }
        push_u64(&mut out, self.projection_matrix.len() as u64);
        let ghost mid = out@;
        let mut j: usize = 0;
        while j < self.projection_matrix.len()
            invariant
                j <= self.projection_matrix@.len(),
                m == self@,
                out@ == mid + numbers_bytes(m.projection, j as nat),
            decreases self.projection_matrix.len() - j,
        {
            push_u32(&mut out, self.projection_matrix[j].bits);
            assert(out@ =~= mid + numbers_bytes(m.projection, (j + 1) as nat));
            j = j + 1;
        }
        assert(out@ =~= m.body_bytes());
        push_u64(&mut out, self.payload_arena.len() as u64);
        push_u64(&mut out, block.len() as u64);
        out.extend_from_slice(block);
        assert(out@ =~= m.file_bytes(block@));
        out
    }

    /// The file of this memory, with its arena compressed.
    pub fn encode(&self) -> (r: Vec<u8>)
        requires
            compressible(self@.arena.len()),
        ensures
            exists|block: Seq<u8>|
                r@ == #[trigger] self@.file_bytes(block) && lz4_decoded(block, self@.arena.len())
                    == Some(self@.arena),
    {
        let block = compress(self.payload_arena.as_slice());
        self.encode_with(block.as_slice())
    }

    /// The memory that the file `bytes` holds.
    pub fn decode(bytes: &[u8], high_dim: usize) -> (r: Result<FractalMemory3D, LoadError>)
        ensures
            loaded(bytes@, high_dim) == match r {
                Ok(memory) => Ok::<MemoryModel, Refusal>(memory@),
                Err(e) => Err(e.refusal()),
            },
    {
        let parts = match parse_file(bytes, high_dim) {
            Err(e) => return Err(e),
            Ok(parts) => parts,
        };
        match decompress(parts.block.as_slice(), parts.arena_len) {
            Err(e) => Err(LoadError::Decompression(e)),
            Ok(arena) => Ok(parts.with_arena(arena)),
        }
    }
}

} // verus!
