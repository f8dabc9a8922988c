//! Files: what is saved is loaded back, and what is damaged is refused.
use octasoma::codec::{read_node, write_node, FileHeader, LoadError, NODE_LEN};
use octasoma::numbers::Binary32;
use octasoma::FractalMemory3D;

fn single(x: f32) -> Binary32 {
    Binary32 { bits: x.to_bits() }
}

fn singles(xs: &[f32]) -> Vec<Binary32> {
    xs.iter().map(|&x| single(x)).collect()
}

fn refusal(bytes: &[u8], high_dim: usize) -> LoadError {
    match FractalMemory3D::decode(bytes, high_dim) {
        Ok(_) => panic!("loaded"),
        Err(e) => e,
    }
}

fn load(bytes: &[u8], high_dim: usize) -> FractalMemory3D {
    match FractalMemory3D::decode(bytes, high_dim) {
        Ok(memory) => memory,
        Err(_) => panic!("not loaded"),
    }
}

#[test]
fn save_and_load_roundtrip() {
    let mut mem = FractalMemory3D::new(8, 123);
    let p1 = b"alpha";
    let p2 = b"beta_gamma";
    let e1 = singles(&vec![-1.0f32; 8]);
    let e2 = singles(&vec![1.0f32; 8]);
    mem.insert(&e1, Some(p1), single(1e-12));
    mem.insert(&e2, Some(p2), single(1e-12));

    let bytes = mem.encode();

    let loaded = load(&bytes, 8);
    assert_eq!(loaded.node_count(), mem.node_count());
    assert_eq!(loaded.projection_matrix, mem.projection_matrix);
    assert_eq!(loaded.payload_arena, mem.payload_arena);

    let loc1 = loaded.locate(&e1).unwrap();
    assert_eq!(loaded.get_payload(loc1).unwrap(), p1);
    let loc2 = loaded.locate(&e2).unwrap();
    assert_eq!(loaded.get_payload(loc2).unwrap(), p2);
}

#[test]
fn load_rejects_wrong_dimension() {
    let mut mem = FractalMemory3D::new(8, 0);
    mem.insert(&singles(&[0.0f32; 8]), None, single(1e-6));
    let bytes = mem.encode();
    assert!(FractalMemory3D::decode(&bytes, 16).is_err());
    assert!(matches!(refusal(&bytes, 16), LoadError::BadDimension(8)));
}

#[test]
fn load_rejects_bad_magic() {
    assert!(FractalMemory3D::decode(b"XXXX", 4).is_err());
    assert!(matches!(refusal(b"XXXX", 4), LoadError::Truncated));
    assert!(matches!(refusal(b"XXXX\x02\0\0\0\x04\0\0\0", 4), LoadError::BadMagic([88, 88, 88, 88])));
}

#[test]
fn arena_compression_reduces_size_for_redundant_data() {
    let mut mem = FractalMemory3D::new(4, 1);
    let payload = vec![0xABu8; 4096];
    mem.insert(&singles(&[0.0f32; 4]), Some(&payload), single(1e-6));

    let bytes = mem.encode();
    let file_size = bytes.len();
    assert!(file_size < 1024, "file should be well under 1 KiB for 4 KiB of redundant data; got {file_size}");

    let loaded = load(&bytes, 4);
    assert_eq!(loaded.payload_arena, payload);
}

/// The layout of a file, written out by hand.
fn file_by_hand(mem: &FractalMemory3D, block: &[u8]) -> Vec<u8> {
    let mut out = Vec::new();
    out.extend_from_slice(b"FRAC");
    out.extend_from_slice(&2u32.to_le_bytes());
    out.extend_from_slice(&(mem.high_dim as u32).to_le_bytes());
    out.extend_from_slice(&(mem.nodes.len() as u64).to_le_bytes());
    for node in &mem.nodes {
        out.extend_from_slice(&(node.id as u64).to_le_bytes());
        for c in &node.center {
            out.extend_from_slice(&c.bits.to_le_bytes());
        }
        out.extend_from_slice(&node.half_size.bits.to_le_bytes());
        for child in &node.children {
            let code = match child {
                Some(id) => *id as u64,
                None => u64::MAX,
            };
            out.extend_from_slice(&code.to_le_bytes());
        }
        out.extend_from_slice(&(node.embedding_id as u64).to_le_bytes());
        out.extend_from_slice(&(node.payload_offset as u64).to_le_bytes());
        out.extend_from_slice(&(node.payload_len as u64).to_le_bytes());
        out.extend_from_slice(&[0u8; 16]);
    }
    out.extend_from_slice(&(mem.projection_matrix.len() as u64).to_le_bytes());
    for x in &mem.projection_matrix {
        out.extend_from_slice(&x.bits.to_le_bytes());
    }
    out.extend_from_slice(&(mem.payload_arena.len() as u64).to_le_bytes());
    out.extend_from_slice(&(block.len() as u64).to_le_bytes());
    out.extend_from_slice(block);
    out
}

fn sample() -> FractalMemory3D {
    let mut mem = FractalMemory3D::new(5, 77);
    for i in 0..7 {
        let e: Vec<f32> = (0..5).map(|j| (i as f32) * 0.3 - (j as f32) * 0.2).collect();
        let payload = vec![i as u8; 40 + i];
        mem.insert(&singles(&e), Some(&payload), single(1e-4));
    }
    mem
}

#[test]
fn files_have_the_documented_layout() {
    let mem = sample();
    let block = [1u8, 2, 3];
    assert_eq!(mem.encode_with(&block), file_by_hand(&mem, &block));
    let compressed = lz4_flex::block::compress(&mem.payload_arena);
    assert_eq!(mem.encode(), file_by_hand(&mem, &compressed));
    assert_ne!(compressed, mem.payload_arena);
}

#[test]
fn all_but_the_relaxation_factor_is_restored() {
    let mut mem = sample();
    mem.relaxation_factor = single(2.0);
    let loaded = load(&mem.encode(), 5);
    assert_eq!(loaded.relaxation_factor, single(1.05));
    assert_eq!(loaded.root_id, Some(0));
    assert_eq!(loaded.high_dim, 5);
    assert_eq!(loaded.payload_arena, mem.payload_arena);
    for (a, b) in loaded.nodes.iter().zip(mem.nodes.iter()) {
        assert_eq!(a.id, b.id);
        assert_eq!(a.center, b.center);
        assert_eq!(a.half_size, b.half_size);
        assert_eq!(a.children, b.children);
        assert_eq!(a.embedding_id, b.embedding_id);
        assert_eq!(a.payload_offset, b.payload_offset);
        assert_eq!(a.payload_len, b.payload_len);
    }
}

#[test]
fn empty_memories_are_saved_and_loaded() {
    let mem = FractalMemory3D::new(3, 5);
    let loaded = load(&mem.encode(), 3);
    assert_eq!(loaded.stats(), (0, 0));
    assert_eq!(loaded.root_id, None);
    assert_eq!(loaded.projection_matrix, mem.projection_matrix);
}

#[test]
fn every_cut_is_noticed_and_trailing_bytes_are_not() {
    let mem = sample();
    let bytes = mem.encode();
    for k in 0..bytes.len() {
        assert!(matches!(refusal(&bytes[..k], 5), LoadError::Truncated));
    }
    let mut longer = bytes.clone();
    longer.extend_from_slice(b"trailing");
    assert_eq!(load(&longer, 5).stats(), mem.stats());
}

#[test]
fn other_versions_are_refused() {
    let mut bytes = sample().encode();
    bytes[4] = 3;
    assert!(matches!(refusal(&bytes, 5), LoadError::BadVersion(3)));
    bytes[0] = b'f';
    assert!(matches!(refusal(&bytes, 5), LoadError::BadMagic([102, 82, 65, 67])));
}

#[test]
fn huge_counts_are_refused() {
    let mut bytes = sample().encode();
    for b in &mut bytes[12..20] {
        *b = 0xff;
    }
    assert!(matches!(refusal(&bytes, 5), LoadError::Truncated));
}

#[test]
fn huge_arenas_are_refused() {
    let mem = FractalMemory3D::new(1, 5);
    let mut bytes = mem.encode_with(&[]);
    let at = 12 + 8 + 8 + 4 * 3;
    for b in &mut bytes[at..at + 8] {
        *b = 0xff;
    }
    assert!(matches!(refusal(&bytes, 1), LoadError::ArenaTooLarge(usize::MAX)));
}

#[test]
fn damaged_blocks_are_refused() {
    let mem = sample();
    let bytes = mem.encode_with(&[0xff, 0xff, 0xff]);
    assert!(matches!(refusal(&bytes, 5), LoadError::Decompression(_)));
    let bytes = mem.encode_with(&[]);
    assert!(matches!(refusal(&bytes, 5), LoadError::Decompression(_)));
}

#[test]
fn headers_are_written_and_read() {
    let header = FileHeader { magic: *b"FRAC", version: 2, high_dim: 0x0102_0304 };
    let mut out = vec![9u8];
    header.write_to(&mut out);
    assert_eq!(out, [9, b'F', b'R', b'A', b'C', 2, 0, 0, 0, 4, 3, 2, 1]);
    let read = FileHeader::read_from(&out[1..]).unwrap();
    assert_eq!(&read.magic, b"FRAC");
    assert_eq!(read.version, 2);
    assert_eq!(read.high_dim, 0x0102_0304);
    assert!(FileHeader::read_from(&out[2..]).is_none());
}

#[test]
fn nodes_are_written_and_read() {
    let mem = sample();
    for node in &mem.nodes {
        let mut out = Vec::new();
        write_node(&mut out, node);
        assert_eq!(out.len(), NODE_LEN);
        for k in 0..NODE_LEN {
            assert!(read_node(&out[..k], 0).is_none());
        }
        for (o, child) in node.children.iter().enumerate() {
            let at = 24 + 8 * o;
            assert_eq!(child.is_none(), out[at..at + 8].iter().all(|b| *b == 0xff));
        }
        out.extend_from_slice(b"rest");
        let read = read_node(&out, 0).unwrap();
        assert_eq!(read.id, node.id);
        assert_eq!(read.center, node.center);
        assert_eq!(read.half_size, node.half_size);
        assert_eq!(read.children, node.children);
        assert_eq!(read.embedding_id, node.embedding_id);
        assert_eq!(read.payload_offset, node.payload_offset);
        assert_eq!(read.payload_len, node.payload_len);
        assert!(read_node(&out, 4).is_some());
        assert!(read_node(&out, 5).is_none());
        assert!(read_node(&out, usize::MAX).is_none());
    }
}

#[test]
fn payloads_and_their_absence_survive_a_file() {
    let rows = [1.0f32, 0.0, 0.0, 0.0, 1.0, 0.0, 0.0, 0.0, 1.0];
    let mut mem = FractalMemory3D::new_from_calibration(3, singles(&rows));
    let bare = singles(&[0.5, 0.5, 0.5]);
    let full = singles(&[-0.5, 0.5, 0.5]);
    let empty = singles(&[0.5, -0.5, 0.5]);
    mem.insert(&bare, None, single(1e-6));
    mem.insert(&full, Some(b"full"), single(1e-6));
    mem.insert(&empty, Some(b""), single(1e-6));
    let loaded = load(&mem.encode(), 3);
    assert!(loaded.query(&bare).is_none());
    assert_eq!(loaded.query(&full).unwrap(), b"full");
    assert_eq!(loaded.query(&empty).unwrap(), b"");
}
