//! Learned projections, sample rows and queued writes.
use octasoma::calibration::{l2_normalise, mat_vec_mul};
use octasoma::numbers::{Binary32, Binary64};
use octasoma::samples::{flatten_samples, SampleError};
use octasoma::writes::WriteOp;
use octasoma::{compute_pca_projection, DeterministicRng, FractalMemory3D};

fn single(x: f32) -> Binary32 {
    Binary32 { bits: x.to_bits() }
}

fn singles(xs: &[f32]) -> Vec<Binary32> {
    xs.iter().map(|&x| single(x)).collect()
}

fn doubles(xs: &[f64]) -> Vec<Binary64> {
    xs.iter().map(|&x| Binary64 { bits: x.to_bits() }).collect()
}

fn number(x: Binary32) -> f32 {
    f32::from_bits(x.bits)
}

fn normalise_by_hand(v: &mut [f64]) {
    let mut norm = 0.0;
    for x in v.iter() {
        norm += x * x;
    }
    if norm < f64::EPSILON {
        return;
    }
    let scale = 1.0 / norm.sqrt();
    for x in v.iter_mut() {
        *x *= scale;
    }
}

fn multiply_by_hand(x: &[f64], n: usize, d: usize, v: &[f64], transpose: bool) -> Vec<f64> {
    let mut out = vec![0.0; if transpose { d } else { n }];
    for i in 0..n {
        for j in 0..d {
            if transpose {
                out[j] += x[i * d + j] * v[i];
            } else {
                out[i] += x[i * d + j] * v[j];
            }
        }
    }
    out
}

/// The power iteration in the processor's arithmetic.
fn components_by_hand(data: &[f32], n: usize, d: usize, rounds: usize) -> Vec<f32> {
    let mut mean = vec![0.0f64; d];
    for i in 0..n {
        for j in 0..d {
            mean[j] += data[i * d + j] as f64;
        }
    }
    let inv = 1.0 / n as f64;
    for m in mean.iter_mut() {
        *m *= inv;
    }
    let mut x: Vec<f64> = (0..n * d).map(|i| data[i] as f64 - mean[i % d]).collect();
    let mut rng = DeterministicRng::new(0x50_4443_415F_4341);
    let mut out = Vec::new();
    for _ in 0..3 {
        let mut v: Vec<f64> = (0..d).map(|_| f64::from_bits(rng.next_f64().bits)).collect();
        normalise_by_hand(&mut v);
        for _ in 0..rounds {
            let along = multiply_by_hand(&x, n, d, &v, false);
            v = multiply_by_hand(&x, n, d, &along, true);
            normalise_by_hand(&mut v);
        }
        out.extend(v.iter().map(|c| *c as f32));
        let along = multiply_by_hand(&x, n, d, &v, false);
        for i in 0..n {
            for j in 0..d {
                x[i * d + j] -= along[i] * v[j];
            }
        }
    }
    out
}

fn noisy_samples() -> (Vec<f32>, usize, usize) {
    let n = 50;
    let d = 8;
    let mut data = vec![0.0f32; n * d];
    for i in 0..n {
        data[i * d] = (i as f32 - 25.0) * 0.1;
    }
    for i in 0..n {
        data[i * d + 1] = (i as f32 - 25.0) * 0.07;
    }
    let mut rng = DeterministicRng::new(999);
    for v in data.iter_mut() {
        *v += number(rng.next_f32()) * 0.001;
    }
    (data, n, d)
}

#[test]
fn pca_projection_deterministic() {
    let (data, n, d) = noisy_samples();
    let proj = compute_pca_projection(&singles(&data), n, d, 15);
    assert_eq!(proj.len(), 3 * d);

    let row0: Vec<f32> = proj[0..d].iter().map(|x| number(*x)).collect();
    let max_idx = row0
        .iter()
        .enumerate()
        .max_by(|(_, a), (_, b)| a.abs().partial_cmp(&b.abs()).unwrap())
        .unwrap()
        .0;
    assert!(
        max_idx == 0 || max_idx == 1,
        "first PC should align with dim 0 or 1, got {max_idx}"
    );
}

#[test]
fn components_agree_with_the_processor() {
    let (data, n, d) = noisy_samples();
    let ours = compute_pca_projection(&singles(&data), n, d, 15);
    assert_eq!(ours, singles(&components_by_hand(&data, n, d, 15)));
    let one = [0.5f32, -0.25, 3.0];
    let ours = compute_pca_projection(&singles(&one), 1, 3, 2);
    assert_eq!(ours, singles(&components_by_hand(&one, 1, 3, 2)));
}

#[test]
fn new_with_pca_integration() {
    let n = 30;
    let d = 6;
    let mut data = vec![0.0f32; n * d];
    for i in 0..n {
        data[i * d] = i as f32 * 0.1;
    }
    let mem = FractalMemory3D::new_with_pca(d, &singles(&data), n);
    assert_eq!(mem.high_dim, d);
    assert_eq!(mem.projection_matrix.len(), 3 * d);
    assert!(mem.projection_matrix.iter().all(|x| number(*x).is_finite()));
    assert_eq!(mem.projection_matrix, singles(&components_by_hand(&data, n, d, 20)));
}

#[test]
fn vectors_are_normalised() {
    let mut v = doubles(&[3.0, 4.0]);
    l2_normalise(&mut v);
    assert_eq!(v, doubles(&[3.0 * (1.0 / 5.0), 4.0 * (1.0 / 5.0)]));
    let mut short = doubles(&[1e-9, 0.0]);
    l2_normalise(&mut short);
    assert_eq!(short, doubles(&[1e-9, 0.0]));
}

#[test]
fn matrices_are_multiplied_both_ways() {
    let x = doubles(&[1.0, 2.0, 3.0, 4.0, 5.0, 6.0]);
    assert_eq!(mat_vec_mul(&x, 2, 3, &doubles(&[1.0, 0.5, 2.0]), false), doubles(&[8.0, 18.5]));
    assert_eq!(mat_vec_mul(&x, 2, 3, &doubles(&[1.0, -1.0]), true), doubles(&[-3.0, -3.0, -3.0]));
    assert_eq!(mat_vec_mul(&[], 0, 3, &[], false), doubles(&[]));
    assert_eq!(mat_vec_mul(&[], 0, 2, &[], true), doubles(&[0.0, 0.0]));
    assert_eq!(mat_vec_mul(&[], 2, 0, &[], false), doubles(&[0.0, 0.0]));
}

#[test]
fn samples_are_flattened() {
    let rows = vec![singles(&[1.0, 2.0]), singles(&[3.0, 4.0]), singles(&[5.0, 6.0])];
    match flatten_samples(&rows) {
        Ok((flat, high_dim)) => {
            assert_eq!(flat, singles(&[1.0, 2.0, 3.0, 4.0, 5.0, 6.0]));
            assert_eq!(high_dim, 2);
        }
        Err(_) => panic!("refused"),
    }
}

#[test]
fn uneven_samples_are_refused() {
    assert!(matches!(flatten_samples(&vec![]), Err(SampleError::Empty)));
    let rows = vec![singles(&[1.0, 2.0]), singles(&[3.0, 4.0]), singles(&[5.0]), singles(&[])];
    assert!(matches!(
        flatten_samples(&rows),
        Err(SampleError::Uneven { expected: 2, row: 2, found: 1 })
    ));
}

fn ops() -> Vec<WriteOp> {
    (0..6)
        .map(|i| WriteOp {
            embedding: singles(&[i as f32 * 0.2, 1.0 - i as f32 * 0.3, 0.5]),
            payload: vec![i as u8; 3],
        })
        .collect()
}

#[test]
fn queued_writes_are_insertions_in_order() {
    let start = FractalMemory3D::new(3, 11);
    let after = start.apply_writes(&ops(), single(1e-3)).unwrap();
    let mut by_hand = FractalMemory3D::new(3, 11);
    for op in ops() {
        by_hand.insert(&op.embedding, Some(&op.payload), single(1e-3));
    }
    assert_eq!(after.encode(), by_hand.encode());
    assert_eq!(start.stats(), (0, 0));
}

#[test]
fn batches_make_no_difference() {
    let start = FractalMemory3D::new(3, 11);
    let whole = start.apply_writes(&ops(), single(1e-3)).unwrap();
    for cut in 0..=6 {
        let mut first = ops();
        let second = first.split_off(cut);
        let mid = start.apply_writes(&first, single(1e-3)).unwrap();
        let end = mid.apply_writes(&second, single(1e-3)).unwrap();
        assert_eq!(end.encode(), whole.encode());
    }
}

#[test]
fn writes_of_another_length_are_dropped() {
    let start = FractalMemory3D::new(3, 11);
    let bad = vec![WriteOp { embedding: singles(&[1.0]), payload: vec![1, 2, 3] }];
    let after = start.apply_writes(&bad, single(1e-3)).unwrap();
    assert_eq!(after.stats(), (0, 0));
}

#[test]
fn writes_into_a_damaged_memory_are_refused() {
    let mut mem = FractalMemory3D::new(3, 11);
    mem.insert(&singles(&[0.1, 0.2, 0.3]), None, single(1e-3));
    for child in mem.nodes[0].children.iter_mut() {
        *child = Some(99);
    }
    assert!(mem.apply_writes(&ops(), single(1e-3)).is_none());
}
