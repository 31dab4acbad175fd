//! The batched neighbor builder on concrete molecules.
//!
//! Coordinates are fixed-point: one real unit is 65536 underlying units.

use hadronis::build_batched_neighbors;
use hadronis::NeighborError;

const S: i64 = 65536;

/// Three atoms on a line at 0.0, 1.0 and 10.0 with cutoff 2.0 and a cap of
/// two: the two near atoms pair up, the far atom is isolated.
#[test]
fn three_atoms_one_molecule() {
    let positions: Vec<i64> = vec![0, 0, 0, S, 0, 0, 10 * S, 0, 0];
    let mol_ptrs: Vec<usize> = vec![0, 3];
    let g = build_batched_neighbors(&positions, &mol_ptrs, 2 * S, 2).unwrap();
    assert_eq!(g.edge_src, vec![0, 1]);
    assert_eq!(g.edge_dst, vec![1, 0]);
    assert_eq!(g.edge_rel.len(), 2);
    assert_eq!((g.edge_rel[0].x, g.edge_rel[0].y, g.edge_rel[0].z), (S, 0, 0));
    assert_eq!((g.edge_rel[1].x, g.edge_rel[1].y, g.edge_rel[1].z), (-S, 0, 0));
}

/// A singleton molecule yields no edges at all.
#[test]
fn singleton_molecule_no_edges() {
    let positions: Vec<i64> = vec![5 * S, 0, 0];
    let mol_ptrs: Vec<usize> = vec![0, 1];
    let g = build_batched_neighbors(&positions, &mol_ptrs, 2 * S, 4).unwrap();
    assert!(g.edge_src.is_empty());
    assert!(g.edge_dst.is_empty());
    assert!(g.edge_rel.is_empty());
}

/// No returned edge is a self-loop, every squared displacement is within the
/// squared cutoff, every atom sources at most min(k, molecule size - 1)
/// edges, and each atom's edges come closest first.
#[test]
fn edge_invariants_on_a_cluster() {
    let positions: Vec<i64> = vec![
        0, 0, 0, S, 0, 0, 0, S, 0, S, S, 0, 0, 0, S, 3 * S, 3 * S, 3 * S,
    ];
    let mol_ptrs: Vec<usize> = vec![0, 6];
    let k = 3usize;
    let cutoff = 2 * S;
    let g = build_batched_neighbors(&positions, &mol_ptrs, cutoff, k).unwrap();
    let n_edges = g.edge_src.len();
    assert_eq!(g.edge_dst.len(), n_edges);
    assert_eq!(g.edge_rel.len(), n_edges);
    let mut per_atom = vec![0usize; 6];
    let mut last_src = 0usize;
    let mut last_d2 = 0u64;
    for e in 0..n_edges {
        let (src, dst) = (g.edge_src[e], g.edge_dst[e]);
        assert_ne!(src, dst);
        let r = g.edge_rel[e];
        let d2 = (r.x * r.x) as u64 + (r.y * r.y) as u64 + (r.z * r.z) as u64;
        assert!(d2 <= (cutoff as u64) * (cutoff as u64));
        // The displacement is destination minus source.
        assert_eq!(r.x, positions[3 * dst] - positions[3 * src]);
        assert_eq!(r.y, positions[3 * dst + 1] - positions[3 * src + 1]);
        assert_eq!(r.z, positions[3 * dst + 2] - positions[3 * src + 2]);
        per_atom[src] += 1;
        if src == last_src && e > 0 {
            assert!(last_d2 <= d2);
        }
        last_src = src;
        last_d2 = d2;
    }
    for count in per_atom {
        assert!(count <= k.min(6 - 1));
    }
}

/// An atom with more near neighbors than the cap keeps exactly the nearest
/// cap's worth, in ascending distance order.
#[test]
fn nearest_are_kept_when_over_cap() {
    // Atom 0 at the origin; partners at distances 4, 1, 3, 2 (in units).
    let positions: Vec<i64> = vec![
        0, 0, 0, 4 * S, 0, 0, S, 0, 0, 0, 3 * S, 0, 0, 0, 2 * S,
    ];
    let mol_ptrs: Vec<usize> = vec![0, 5];
    let g = build_batched_neighbors(&positions, &mol_ptrs, 5 * S, 2).unwrap();
    // Atom 0's edges come first: the nearest two are atoms 2 (1.0) and 4 (2.0).
    assert_eq!(g.edge_src[0], 0);
    assert_eq!(g.edge_dst[0], 2);
    assert_eq!(g.edge_src[1], 0);
    assert_eq!(g.edge_dst[1], 4);
}

/// A tie in distance is won by the atom seen first in the scan.
#[test]
fn tie_breaks_by_scan_order() {
    let positions: Vec<i64> = vec![0, 0, 0, S, 0, 0, -S, 0, 0];
    let mol_ptrs: Vec<usize> = vec![0, 3];
    let g = build_batched_neighbors(&positions, &mol_ptrs, 2 * S, 1).unwrap();
    assert_eq!(g.edge_src[0], 0);
    assert_eq!(g.edge_dst[0], 1);
}

/// Concatenating two single-molecule batches gives, per molecule, exactly
/// the edges of each molecule run alone, indices shifted by the offset.
#[test]
fn batching_matches_single_molecule_runs() {
    let mol_a: Vec<i64> = vec![0, 0, 0, S, 0, 0];
    let mol_b: Vec<i64> = vec![0, 0, 0, 0, S, 0, 0, 0, S];
    let mut batch = mol_a.clone();
    batch.extend(mol_b.iter().copied());
    let cutoff = 2 * S;
    let k = 4usize;
    let ga = build_batched_neighbors(&mol_a, &vec![0, 2], cutoff, k).unwrap();
    let gb = build_batched_neighbors(&mol_b, &vec![0, 3], cutoff, k).unwrap();
    let g = build_batched_neighbors(&batch, &vec![0, 2, 5], cutoff, k).unwrap();
    assert_eq!(g.edge_src.len(), ga.edge_src.len() + gb.edge_src.len());
    for e in 0..ga.edge_src.len() {
        assert_eq!(g.edge_src[e], ga.edge_src[e]);
        assert_eq!(g.edge_dst[e], ga.edge_dst[e]);
        assert_eq!(g.edge_rel[e], ga.edge_rel[e]);
    }
    let off = 2usize;
    for e in 0..gb.edge_src.len() {
        let w = ga.edge_src.len() + e;
        assert_eq!(g.edge_src[w], gb.edge_src[e] + off);
        assert_eq!(g.edge_dst[w], gb.edge_dst[e] + off);
        assert_eq!(g.edge_rel[w], gb.edge_rel[e]);
    }
}

/// A neighbor cap above the hard limit is rejected, not undefined behavior.
#[test]
fn cap_above_limit_is_rejected() {
    let positions: Vec<i64> = vec![0, 0, 0];
    let r = build_batched_neighbors(&positions, &vec![0, 1], S, 65);
    assert_eq!(r.unwrap_err(), NeighborError::NeighborCapExceeded);
}

/// Offsets that do not increase strictly from zero are rejected.
#[test]
fn bad_molecule_pointers_are_rejected() {
    let positions: Vec<i64> = vec![0, 0, 0, S, 0, 0];
    let r = build_batched_neighbors(&positions, &vec![0, 2, 2], S, 4);
    assert_eq!(r.unwrap_err(), NeighborError::InvalidMoleculePointers);
    let r = build_batched_neighbors(&positions, &vec![1, 2], S, 4);
    assert_eq!(r.unwrap_err(), NeighborError::InvalidMoleculePointers);
    let r = build_batched_neighbors(&positions, &Vec::new(), S, 4);
    assert_eq!(r.unwrap_err(), NeighborError::InvalidMoleculePointers);
}

/// A position buffer that is not three entries per atom is rejected.
#[test]
fn non_contiguous_positions_are_rejected() {
    let positions: Vec<i64> = vec![0, 0, 0, S, 0];
    let r = build_batched_neighbors(&positions, &vec![0, 2], S, 4);
    assert_eq!(r.unwrap_err(), NeighborError::NotContiguous);
}

/// A coordinate beyond the accepted magnitude is rejected.
#[test]
fn oversized_coordinate_is_rejected() {
    let positions: Vec<i64> = vec![0, 0, 0, 1073741825, 0, 0];
    let r = build_batched_neighbors(&positions, &vec![0, 2], S, 4);
    assert_eq!(r.unwrap_err(), NeighborError::CoordinateOutOfRange);
    let positions: Vec<i64> = vec![0, 0, 0, 1073741824, 0, 0];
    assert!(build_batched_neighbors(&positions, &vec![0, 2], S, 4).is_ok());
}
