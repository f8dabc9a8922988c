//! The memory as a whole: projection, insertion, lookup and payloads.
use octasoma::geometry::{DEFAULT_RELAXATION, HALF, ONE, ONE_AND_A_HALF};
use octasoma::numbers::Binary32;
use octasoma::{project_to_3d, DeterministicRng, FractalMemory3D, OctreeNode};

fn single(x: f32) -> Binary32 {
    Binary32 { bits: x.to_bits() }
}

fn number(x: Binary32) -> f32 {
    f32::from_bits(x.bits)
}

fn singles(xs: &[f32]) -> Vec<Binary32> {
    xs.iter().map(|&x| single(x)).collect()
}

fn triple(xs: [f32; 3]) -> [Binary32; 3] {
    [single(xs[0]), single(xs[1]), single(xs[2])]
}

#[test]
fn rng_determinism() {
    let mut a = DeterministicRng::new(42);
    let mut b = DeterministicRng::new(42);
    for _ in 0..100 {
        assert_eq!(a.next_f32(), b.next_f32());
    }
}

#[test]
fn rng_range() {
    let mut rng = DeterministicRng::new(12345);
    for _ in 0..10_000 {
        let v = number(rng.next_f32());
        assert!(v >= -1.0 && v < 1.0, "out of range: {v}");
    }
}

#[test]
fn rng_follows_the_shifts() {
    let mut rng = DeterministicRng::new(1);
    let mut x: u64 = 1;
    for _ in 0..100 {
        x ^= x << 13;
        x ^= x >> 7;
        x ^= x << 17;
        assert_eq!(rng.next_u64(), x);
        assert_ne!(x, 0);
    }
    let copy = rng.clone();
    x ^= x << 13;
    x ^= x >> 7;
    x ^= x << 17;
    let bits = (x >> 32) as u32;
    let drawn = f32::from_bits(0x3F80_0000 | ((bits >> 9) & 0x007F_FFFF));
    assert_eq!(number(copy.clone().next_f32()), (drawn - 1.0) * 2.0 - 1.0);
    let wide = (x >> 11) as f64 / (1u64 << 52) as f64 - 1.0;
    assert_eq!(f64::from_bits(copy.clone().next_f64().bits), wide);
}

#[test]
fn doubles_use_53_bits_of_the_state() {
    let mut rng = DeterministicRng::new(0x800);
    let mut states = DeterministicRng::new(0x800);
    let mut odd = 0;
    for _ in 0..1000 {
        let u = states.next_u64();
        let v = f64::from_bits(rng.next_f64().bits);
        assert_eq!(v, (u >> 11) as f64 / 4_503_599_627_370_496.0 - 1.0);
        assert!((-1.0..1.0).contains(&v));
        odd += (u >> 11) & 1;
    }
    assert!(odd > 0);
}

#[test]
fn rng_replaces_seed_zero() {
    let mut zero = DeterministicRng::new(0);
    let mut other = DeterministicRng::new(0xDEAD_BEEF_CAFE_BABE);
    assert_eq!(zero.next_u64(), other.next_u64());
}

#[test]
fn projection_shape_mismatch_rejected() {
    assert!(project_to_3d(&singles(&[1.0, 2.0]), &[], 4).is_none());
    assert!(project_to_3d(&singles(&[1.0]), &singles(&[0.0; 2]), 1).is_none());
    assert!(project_to_3d(&singles(&[1.0]), &singles(&[0.0, 0.0, 0.0]), 1).is_some());
}

#[test]
fn projection_zero_embedding() {
    let mat = singles(&vec![0.5f32; 3 * 4]);
    let pt = project_to_3d(&singles(&[0.0; 4]), &mat, 4).unwrap();
    assert_eq!(pt, triple([0.0, 0.0, 0.0]));
}

#[test]
fn projection_with_remainder() {
    let mat: Vec<f32> = (0..21).map(|i| i as f32 * 0.1).collect();
    let emb: Vec<f32> = (0..7).map(|i| (i + 1) as f32 * 0.2).collect();
    let pt = project_to_3d(&singles(&emb), &singles(&mat), 7).unwrap();
    assert!(pt.iter().all(|x| number(*x).is_finite()));
}

/// The sums that the projection is made of, in the processor's arithmetic.
fn project_by_hand(e: &[f32], m: &[f32], d: usize) -> [f32; 3] {
    let mut out = [0.0f32; 3];
    for (dim, slot) in out.iter_mut().enumerate() {
        let row = &m[dim * d..(dim + 1) * d];
        let mut sum = 0.0f64;
        let mut j = 0;
        while j + 4 <= d {
            sum += e[j] as f64 * row[j] as f64
                + e[j + 1] as f64 * row[j + 1] as f64
                + e[j + 2] as f64 * row[j + 2] as f64
                + e[j + 3] as f64 * row[j + 3] as f64;
            j += 4;
        }
        while j < d {
            sum += e[j] as f64 * row[j] as f64;
            j += 1;
        }
        *slot = sum as f32;
    }
    out
}

#[test]
fn projection_agrees_with_the_processor() {
    let mut rng = DeterministicRng::new(77);
    for d in 0..24 {
        let m: Vec<f32> = (0..3 * d).map(|_| number(rng.next_f32())).collect();
        let e: Vec<f32> = (0..d).map(|_| number(rng.next_f32()) * 3.7).collect();
        let ours = project_to_3d(&singles(&e), &singles(&m), d).unwrap();
        assert_eq!(ours, triple(project_by_hand(&e, &m, d)));
    }
}

#[test]
fn octant_bits() {
    let at = |point: [f32; 3]| FractalMemory3D::octant_index(triple([0.0; 3]), triple(point));
    assert_eq!(at([1.0, 1.0, 1.0]), 7);
    assert_eq!(at([-1.0, -1.0, -1.0]), 0);
    assert_eq!(at([1.0, -1.0, -1.0]), 1);
    assert_eq!(at([-1.0, 1.0, -1.0]), 2);
    assert_eq!(at([-1.0, -1.0, 1.0]), 4);
    assert_eq!(at([1.0, -1.0, 1.0]), 5);
}

#[test]
fn octants_count_the_boundary_as_upper() {
    let at = |point: [f32; 3]| FractalMemory3D::octant_index(triple([0.0; 3]), triple(point));
    assert_eq!(at([0.0, -0.0, 0.0]), 7);
    assert_eq!(at([f32::NAN, 1.0, 1.0]), 6);
}

#[test]
fn child_centers_are_half_way() {
    let c = FractalMemory3D::child_center(triple([1.0, 2.0, 3.0]), single(4.0), 5);
    assert_eq!(c, triple([3.0, 0.0, 5.0]));
    let c = FractalMemory3D::child_center(triple([1.0, 2.0, 3.0]), single(4.0), 2);
    assert_eq!(c, triple([-1.0, 4.0, 1.0]));
}

#[test]
fn constants_are_what_they_say() {
    assert_eq!(f32::from_bits(HALF), 0.5);
    assert_eq!(f32::from_bits(ONE), 1.0);
    assert_eq!(f32::from_bits(ONE_AND_A_HALF), 1.5);
    assert_eq!(f32::from_bits(DEFAULT_RELAXATION), 1.05);
}

#[test]
fn loose_contains_point_inside() {
    let node = OctreeNode::new(0, triple([0.0; 3]), single(1.0), 0, 0, 0);
    assert!(node.contains_point_loose(triple([0.5, 0.5, 0.5]), single(1.05)));
}

#[test]
fn loose_contains_near_boundary() {
    let node = OctreeNode::new(0, triple([0.0; 3]), single(1.0), 0, 0, 0);
    assert!(node.contains_point_loose(triple([1.03, 0.0, 0.0]), single(1.05)));
    assert!(!node.contains_point_loose(triple([1.06, 0.0, 0.0]), single(1.05)));
}

#[test]
fn loose_cells_grow_with_the_factor() {
    let node = OctreeNode::new(0, triple([0.0; 3]), single(2.0), 0, 0, 0);
    assert_eq!(node.loose_half_size(single(1.5)), single(3.0));
    let point = triple([2.0, -2.0, 2.0]);
    assert!(node.contains_point_loose(point, single(1.0)));
    assert!(node.contains_point_loose(point, single(1.25)));
    let beyond = triple([2.5, 0.0, 0.0]);
    assert!(!node.contains_point_loose(beyond, single(1.0)));
    assert!(node.contains_point_loose(beyond, single(1.25)));
}

#[test]
fn insert_single_subdivides_to_leaf() {
    let mut mem = FractalMemory3D::new(8, 0);
    let emb: Vec<f32> = (0..8).map(|i| i as f32 / 8.0).collect();
    let id = mem.insert(&singles(&emb), None, single(1e-6)).unwrap();
    assert!(mem.node_count() > 1);
    assert!(mem.root_id.is_some());
    assert_eq!(mem.locate(&singles(&emb)).unwrap(), id);
}

#[test]
fn insert_many_subdivides() {
    let mut mem = FractalMemory3D::new(4, 42);
    for i in 0..20 {
        let emb: Vec<f32> = (0..4).map(|j| (i * 4 + j) as f32 * 0.01).collect();
        mem.insert(&singles(&emb), None, single(1e-6));
    }
    assert!(mem.node_count() >= 20);
}

#[test]
fn locate_finds_inserted() {
    let mut mem = FractalMemory3D::new(6, 7);
    let emb = singles(&[0.1f32, 0.2, 0.3, 0.4, 0.5, 0.6]);
    let inserted = mem.insert(&emb, None, single(1e-6)).unwrap();
    let located = mem.locate(&emb).unwrap();
    assert_eq!(inserted, located);
}

#[test]
fn payload_roundtrip() {
    let mut mem = FractalMemory3D::new(8, 99);
    let payload_data = b"Hello, OctaSoma fractal memory!";
    let emb = singles(&[0.0f32; 8]);
    let id = mem.insert(&emb, Some(payload_data), single(1e-6)).unwrap();
    let retrieved = mem.get_payload(id).unwrap();
    assert_eq!(retrieved, payload_data);
}

#[test]
fn get_payload_guards() {
    let mem = FractalMemory3D::new(4, 0);
    assert!(mem.get_payload(0).is_none());
    assert!(mem.get_payload(usize::MAX).is_none());
}

#[test]
fn get_payload_refuses_ranges_outside_the_arena() {
    let mut mem = FractalMemory3D::new(4, 0);
    let id = mem.insert(&singles(&[0.0; 4]), Some(b"abc"), single(1e-6)).unwrap();
    mem.nodes[id].payload_len = 4;
    assert!(mem.get_payload(id).is_none());
    mem.nodes[id].payload_len = usize::MAX;
    mem.nodes[id].payload_offset = 1;
    assert!(mem.get_payload(id).is_none());
    mem.nodes[id].payload_len = 2;
    assert_eq!(mem.get_payload(id).unwrap(), b"bc");
}

#[test]
fn deterministic_projection_matrix() {
    let a = FractalMemory3D::new(16, 42);
    let b = FractalMemory3D::new(16, 42);
    assert_eq!(a.projection_matrix, b.projection_matrix);
}

#[test]
fn seeded_matrix_is_drawn_in_order() {
    let mem = FractalMemory3D::new(5, 9);
    let mut rng = DeterministicRng::new(9);
    assert_eq!(mem.projection_matrix.len(), 15);
    for x in &mem.projection_matrix {
        assert_eq!(*x, rng.next_f32());
    }
    assert_eq!(mem.high_dim, 5);
    assert_eq!(mem.relaxation_factor, single(1.05));
    assert_eq!(mem.root_id, None);
}

#[test]
fn octree_node_size_is_cache_line_multiple() {
    assert_eq!(std::mem::size_of::<OctreeNode>() % 64, 0);
    assert_eq!(std::mem::size_of::<OctreeNode>(), 192);
}

fn identity() -> FractalMemory3D {
    let rows = [1.0f32, 0.0, 0.0, 0.0, 1.0, 0.0, 0.0, 0.0, 1.0];
    FractalMemory3D::new_from_calibration(3, singles(&rows))
}

#[test]
fn first_insertion_makes_a_root_and_one_octant() {
    let mut mem = identity();
    let id = mem.insert(&singles(&[0.5, -2.0, 1.0]), Some(b"x"), single(1e-6)).unwrap();
    assert_eq!(id, 1);
    assert_eq!(mem.stats(), (2, 1));
    assert_eq!(mem.nodes[0].half_size, single(3.0));
    assert_eq!(mem.nodes[0].center, triple([0.0; 3]));
    assert_eq!(mem.nodes[0].children[5], Some(1));
    assert_eq!(mem.nodes[1].half_size, single(1.5));
    assert_eq!(mem.nodes[1].center, triple([1.5, -1.5, 1.5]));
    assert_eq!(mem.get_payload(0).unwrap(), b"x");
    assert_eq!(mem.get_payload(1).unwrap(), b"x");
}

#[test]
fn small_points_get_a_root_of_half_size_one() {
    let mut mem = identity();
    mem.insert(&singles(&[0.1, 0.1, 0.1]), None, single(1e-6));
    assert_eq!(mem.nodes[0].half_size, single(1.0));
}

#[test]
fn first_insertion_is_found_wherever_it_is() {
    for x in [0.0f32, 1e-30, 0.75, -3.0e5, 3.0e38, -3.4e38] {
        let mut mem = identity();
        let e = singles(&[x, -x, x * 0.5]);
        let id = mem.insert(&e, Some(b"here"), single(1e-12)).unwrap();
        assert_eq!(mem.locate(&e), Some(id));
        assert_eq!(mem.query(&e).unwrap(), b"here");
    }
}

#[test]
fn an_insertion_adds_one_node_below_the_old_ones() {
    let mut mem = identity();
    let e = singles(&[0.5, 0.5, 0.5]);
    let mut last = mem.insert(&e, Some(b"0"), single(1e-6)).unwrap();
    for k in 1..6u8 {
        let before = mem.node_count();
        let id = mem.insert(&e, Some(&[k]), single(1e-6)).unwrap();
        assert_eq!(id, before);
        assert_eq!(mem.node_count(), before + 1);
        assert!(mem.nodes[last].children.iter().any(|c| *c == Some(id)));
        assert_eq!(mem.get_payload(last).unwrap(), if k == 1 { b"0".to_vec() } else { vec![k - 1] });
        assert_eq!(mem.query(&e).unwrap(), &[k]);
        last = id;
    }
}

#[test]
fn cells_of_the_least_size_are_shared() {
    let mut mem = identity();
    let e = singles(&[0.25, 0.25, 0.25]);
    let a = mem.insert(&e, Some(b"a"), single(0.5)).unwrap();
    let b = mem.insert(&e, Some(b"b"), single(0.5)).unwrap();
    assert_eq!(a, b);
    assert_eq!(mem.node_count(), 2);
    assert_eq!(mem.get_payload(a).unwrap(), b"a");
    assert_eq!(mem.arena_size(), 2);
}

#[test]
fn embeddings_of_another_length_are_not_inserted() {
    let mut mem = identity();
    assert_eq!(mem.insert(&singles(&[1.0, 2.0]), Some(b"lost"), single(1e-6)), None);
    assert_eq!(mem.stats(), (0, 0));
    assert_eq!(mem.locate(&singles(&[1.0, 2.0])), None);
    assert_eq!(mem.locate(&singles(&[1.0, 2.0, 3.0])), None);
    assert!(mem.query(&singles(&[1.0, 2.0, 3.0])).is_none());
}

#[test]
fn siblings_are_probed_across_a_boundary() {
    let mut mem = identity();
    let id = mem.insert(&singles(&[0.5, 0.5, 0.5]), None, single(1e-6)).unwrap();
    assert_eq!(mem.locate_point(triple([-0.02, 0.5, 0.5])), Some(id));
    assert_eq!(mem.locate_point(triple([-0.5, 0.5, 0.5])), Some(0));
}

#[test]
fn lookups_end_in_the_cell_of_the_point() {
    let mut mem = FractalMemory3D::new(6, 3);
    let mut rng = DeterministicRng::new(5);
    let mut all = Vec::new();
    for _ in 0..200 {
        let e: Vec<Binary32> = (0..6).map(|_| rng.next_f32()).collect();
        assert!(mem.can_insert(&e, single(1e-3)));
        mem.insert(&e, None, single(1e-3)).unwrap();
        all.push(e);
    }
    for e in &all {
        assert!(mem.can_locate(e));
        let point = mem.project_to_3d(e).unwrap();
        let id = mem.locate(e).unwrap();
        assert!(id == 0 || mem.nodes[id].contains_point_loose(point, mem.relaxation_factor));
    }
}

#[test]
fn links_out_of_the_table_are_noticed() {
    let mut mem = identity();
    let e = singles(&[0.5, 0.5, 0.5]);
    mem.insert(&e, None, single(1e-6));
    mem.nodes[0].children[7] = Some(9);
    assert!(!mem.can_insert(&e, single(1e-6)));
    assert!(!mem.can_locate(&e));
    mem.nodes[0].children[7] = Some(0);
    assert!(!mem.can_insert(&e, single(1e-6)));
    assert!(mem.can_locate(&e));
    assert_eq!(mem.locate(&e), Some(0));
}

#[test]
fn clones_are_equal_and_independent() {
    let mut mem = identity();
    let e = singles(&[0.5, 0.5, 0.5]);
    mem.insert(&e, Some(b"one"), single(1e-6));
    let copy = mem.clone();
    mem.insert(&e, Some(b"two"), single(1e-6));
    assert_eq!(copy.stats(), (2, 3));
    assert_eq!(mem.stats(), (3, 6));
    assert_eq!(copy.query(&e).unwrap(), b"one");
    assert_eq!(mem.query(&e).unwrap(), b"two");
}

#[test]
fn queries_of_nodes_without_payload_yield_none() {
    let mut mem = identity();
    let e = singles(&[0.5, 0.5, 0.5]);
    let id = mem.insert(&e, None, single(1e-6)).unwrap();
    assert_eq!(mem.locate(&e), Some(id));
    assert_eq!(mem.get_payload(id).unwrap(), b"");
    assert!(mem.query(&e).is_none());
    mem.insert(&e, Some(b"full"), single(1e-6));
    assert_eq!(mem.query(&e).unwrap(), b"full");
    mem.insert(&e, Some(b""), single(1e-6));
    assert_eq!(mem.query(&e).unwrap(), b"");
    mem.insert(&e, None, single(1e-6));
    assert!(mem.query(&e).is_none());
}

#[test]
fn an_empty_payload_is_told_from_none() {
    let mut mem = identity();
    let e = singles(&[0.5, 0.5, 0.5]);
    mem.insert(&e, Some(b""), single(1e-6));
    assert_eq!(mem.query(&e).unwrap(), b"");
    mem.insert(&e, None, single(1e-6));
    assert!(mem.query(&e).is_none());
    mem.insert(&e, Some(b""), single(1e-6));
    assert_eq!(mem.query(&e).unwrap(), b"");
    assert_eq!(mem.clone().query(&e).unwrap(), b"");
    assert_eq!(mem.arena_size(), 0);
}

#[test]
fn points_in_the_root_are_found_down_to_level_fifteen() {
    let mut rng = DeterministicRng::new(8);
    for _ in 0..40 {
        let mut mem = identity();
        mem.insert(&singles(&[0.7, 0.71, 0.72]), None, single(1e-12));
        let e: Vec<Binary32> = (0..3).map(|_| rng.next_f32()).collect();
        for k in 0..14u8 {
            let id = mem.insert(&e, Some(&[k]), single(1e-12)).unwrap();
            assert_eq!(mem.locate(&e), Some(id));
            assert_eq!(mem.query(&e).unwrap(), &[k]);
        }
    }
}

#[test]
fn every_node_but_the_first_has_one_parent() {
    let mut mem = FractalMemory3D::new(6, 3);
    let mut rng = DeterministicRng::new(5);
    for _ in 0..100 {
        let e: Vec<Binary32> = (0..6).map(|_| rng.next_f32()).collect();
        mem.insert(&e, None, single(1e-3)).unwrap();
    }
    let mut parents = vec![0; mem.node_count()];
    for node in &mem.nodes {
        for child in node.children.iter().flatten() {
            parents[*child] += 1;
        }
    }
    assert_eq!(parents[0], 0);
    assert!(parents[1..].iter().all(|n| *n == 1));
}
