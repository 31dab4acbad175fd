//! The aggregation and projection engine on concrete inputs.

use hadronis::build_batched_neighbors;
use hadronis::model::aggregate_features;
use hadronis::model::compute_rbf_centers;
use hadronis::model::compute_rbf_gamma;
use hadronis::model::compute_rbf_sum;
use hadronis::model::GNNModel;
use hadronis::model::ModelError;

const S: i64 = 65536;

/// The spelled-out fixed-point radial basis sum for one center at zero:
/// distance 1.0, cutoff 1.0, one center, so the argument is exactly -0.5 and
/// each Taylor term is a short exact division.
#[test]
fn rbf_sum_closed_form() {
    let centers = compute_rbf_centers(1, S);
    assert_eq!(centers, vec![0]);
    let gamma = compute_rbf_gamma(1, S);
    // 2^48 / (2 * 65536^2)
    assert_eq!(gamma, 32768);
    let r = compute_rbf_sum(S, S, 1, &centers, gamma);
    // 65536 - 32768 + 16384/2 - 8192/6 + 4096/24 - 2048/120, floors taken.
    assert_eq!(r, 65536 - 32768 + 8192 - 1366 + 170 - 18);
}

/// Evenly spaced centers and the documented width parameter.
#[test]
fn centers_and_gamma() {
    let centers = compute_rbf_centers(4, 2 * S);
    assert_eq!(centers, vec![0, 32768, 65536, 98304]);
    let gamma = compute_rbf_gamma(4, 2 * S);
    // 2^48 / (2 * 32768^2)
    assert_eq!(gamma, 131072);
}

/// An atom with no outgoing edge keeps an all-zero aggregated row.
#[test]
fn zero_edges_zero_row() {
    let dim = 3usize;
    let features: Vec<i64> = vec![S; 3 * dim];
    let edge_src: Vec<usize> = vec![0];
    let edge_dst: Vec<usize> = vec![1];
    let edge_rel = vec![hadronis::connectivity::Rel { x: S, y: 0, z: 0 }];
    let acc = aggregate_features(&features, 3, dim, &edge_src, &edge_dst, &edge_rel, 2 * S, 4);
    assert_eq!(acc.len(), 9);
    // Atom 1 and atom 2 source no edge: their rows stay zero.
    assert_eq!(&acc[3..9], &[0, 0, 0, 0, 0, 0]);
    // Atom 0's row is nonzero.
    assert!(acc[0] != 0);
}

/// Identity weights and all-one features: each output entry is the sum of
/// the atom's per-edge radial basis scalars.
#[test]
fn unit_features_identity_weights() {
    let n: usize = 3;
    let dim: usize = 2;
    let cutoff = 2 * S;
    let num_rbf = 4usize;
    let positions: Vec<i64> = vec![0, 0, 0, S, 0, 0, 0, S, 0];
    let g = build_batched_neighbors(&positions, &vec![0, 3], cutoff, 8).unwrap();
    let features: Vec<i64> = vec![S; n * dim];
    // Identity times 1.0: S on the diagonal.
    let weights: Vec<i64> = vec![S, 0, 0, S];
    let model = GNNModel::new(weights, dim).unwrap();
    let out = model
        .run_batched(&features, n, &g.edge_src, &g.edge_dst, &g.edge_rel, cutoff, num_rbf)
        .unwrap();
    let centers = compute_rbf_centers(num_rbf, cutoff);
    let gamma = compute_rbf_gamma(num_rbf, cutoff);
    let mut expected: Vec<i128> = vec![0; n * dim];
    for e in 0..g.edge_src.len() {
        let r = g.edge_rel[e];
        let d2 = (r.x * r.x) as u64 + (r.y * r.y) as u64 + (r.z * r.z) as u64;
        let d = (d2 as f64).sqrt().floor() as i64;
        let w = compute_rbf_sum(d, cutoff, num_rbf, &centers, gamma);
        for f in 0..dim {
            expected[g.edge_src[e] * dim + f] += w;
        }
    }
    assert_eq!(out, expected);
}

/// Scaling the weight matrix by an integer scales the output by the same
/// integer, up to the fixed-point rounding slack of the summed terms.
#[test]
fn projection_scales_with_weights() {
    let n: usize = 2;
    let dim: usize = 2;
    let cutoff = 2 * S;
    let num_rbf = 4usize;
    let positions: Vec<i64> = vec![0, 0, 0, S, S, 0];
    let g = build_batched_neighbors(&positions, &vec![0, 2], cutoff, 8).unwrap();
    let features: Vec<i64> = vec![S, S / 2, S / 4, 3 * S];
    let w1: Vec<i64> = vec![S, S / 3, -S / 2, S / 5];
    let m = 3i128;
    let w2: Vec<i64> = w1.iter().map(|w| 3 * w).collect();
    let m1 = GNNModel::new(w1, dim).unwrap();
    let m2 = GNNModel::new(w2, dim).unwrap();
    let o1 = m1
        .run_batched(&features, n, &g.edge_src, &g.edge_dst, &g.edge_rel, cutoff, num_rbf)
        .unwrap();
    let o2 = m2
        .run_batched(&features, n, &g.edge_src, &g.edge_dst, &g.edge_rel, cutoff, num_rbf)
        .unwrap();
    for t in 0..o1.len() {
        assert!(m * o1[t] <= o2[t]);
        assert!(o2[t] <= m * o1[t] + (dim as i128) * (m - 1));
    }
}

/// A feature matrix of the wrong shape is reported, not misread.
#[test]
fn dimension_mismatch_is_rejected() {
    let model = GNNModel::new(vec![S, 0, 0, S], 2).unwrap();
    let r = model.run_batched(&vec![S; 5], 3, &Vec::new(), &Vec::new(), &Vec::new(), S, 1);
    assert_eq!(r.unwrap_err(), ModelError::DimensionMismatch);
}

/// Edges naming an atom outside the batch are rejected.
#[test]
fn bad_edges_are_rejected() {
    let model = GNNModel::new(vec![S, 0, 0, S], 2).unwrap();
    let rel = vec![hadronis::connectivity::Rel { x: 0, y: 0, z: 0 }];
    let r = model.run_batched(&vec![S; 4], 2, &vec![0], &vec![5], &rel, S, 1);
    assert_eq!(r.unwrap_err(), ModelError::InvalidEdges);
    let r = model.run_batched(&vec![S; 4], 2, &vec![0, 1], &vec![1], &rel, S, 1);
    assert_eq!(r.unwrap_err(), ModelError::InvalidEdges);
    // A displacement longer than the cutoff is rejected too.
    let far = vec![hadronis::connectivity::Rel { x: 2 * S, y: 0, z: 0 }];
    let r = model.run_batched(&vec![S; 4], 2, &vec![0], &vec![1], &far, S, 1);
    assert_eq!(r.unwrap_err(), ModelError::InvalidEdges);
}

/// A feature beyond the accepted magnitude is rejected.
#[test]
fn oversized_feature_is_rejected() {
    let model = GNNModel::new(vec![S, 0, 0, S], 2).unwrap();
    let r = model.run_batched(
        &vec![16777217; 4],
        2,
        &Vec::new(),
        &Vec::new(),
        &Vec::new(),
        S,
        1,
    );
    assert_eq!(r.unwrap_err(), ModelError::FeatureOutOfRange);
}

/// A weight matrix that is not square is rejected at construction.
#[test]
fn bad_weights_are_rejected() {
    assert_eq!(GNNModel::new(vec![S; 3], 2).unwrap_err(), ModelError::InvalidWeights);
    assert_eq!(GNNModel::new(vec![S; 4], 0).unwrap_err(), ModelError::InvalidWeights);
    assert_eq!(
        GNNModel::new(vec![16777217; 4], 2).unwrap_err(),
        ModelError::InvalidWeights
    );
}
