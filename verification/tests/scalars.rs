//! Fixed-point scalar arithmetic and the standalone bond finder.

use hadronis::fixed::div_floor;
use hadronis::fixed::fx_mul;
use hadronis::fixed::fx_mul_wide;
use hadronis::fixed::isqrt;
use hadronis::MolecularGraph;

const S: i64 = 65536;

/// Floor division rounds toward negative infinity on both signs.
#[test]
fn div_floor_rounds_down() {
    assert_eq!(div_floor(7, 2), 3);
    assert_eq!(div_floor(-7, 2), -4);
    assert_eq!(div_floor(-8, 2), -4);
    assert_eq!(div_floor(0, 5), 0);
    assert_eq!(div_floor(-1, 65536), -1);
}

/// The fixed-point product scales back down exactly.
#[test]
fn fx_mul_scales() {
    assert_eq!(fx_mul(65536, 65536), 65536);
    assert_eq!(fx_mul(32768, 32768), 16384);
    assert_eq!(fx_mul(-32768, 32768), -16384);
    assert_eq!(fx_mul(3, 5), 0);
    assert_eq!(fx_mul(-3, 5), -1);
}

/// The wide product agrees with the narrow one where both apply.
#[test]
fn fx_mul_wide_agrees() {
    assert_eq!(fx_mul_wide(65536, 65536), 65536);
    assert_eq!(fx_mul_wide(-32768, 98304), -49152);
    assert_eq!(fx_mul_wide(123, 456789123456789), fx_mul(123, 456789123456789));
    assert_eq!(fx_mul_wide(-123, 456789123456789), fx_mul(-123, 456789123456789));
}

/// The integer square root floors.
#[test]
fn isqrt_floors() {
    assert_eq!(isqrt(0), 0);
    assert_eq!(isqrt(1), 1);
    assert_eq!(isqrt(8), 2);
    assert_eq!(isqrt(9), 3);
    assert_eq!(isqrt(10), 3);
    assert_eq!(isqrt(u64::MAX), 4294967295);
}

/// The all-pairs bond finder returns each near pair once, lower index
/// first, with the floored distance.
#[test]
fn find_bonds_pairs() {
    let graph = MolecularGraph::new(
        vec![1, 1, 8],
        vec![(0, 0, 0), (S, 0, 0), (10 * S, 0, 0)],
    );
    let bonds = graph.find_bonds(2 * S);
    assert_eq!(bonds, vec![(0, 1, S)]);
    let none = graph.find_bonds(S / 2);
    assert!(none.is_empty());
}

/// A diagonal pair's distance comes out floored.
#[test]
fn find_bonds_floors_distance() {
    let graph = MolecularGraph::new(vec![6, 6], vec![(0, 0, 0), (S, S, 0)]);
    let bonds = graph.find_bonds(2 * S);
    assert_eq!(bonds.len(), 1);
    let (i, j, d) = bonds[0];
    assert_eq!((i, j), (0, 1));
    // sqrt(2) in fixed point, floored: isqrt(2 * 65536^2).
    assert_eq!(d, 92681);
}
