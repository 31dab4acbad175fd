//! Bounded-degree spatial neighbor graphs for batches of molecules, and a
//! message-passing feature aggregation with a dense linear projection over
//! such a graph.
//!
//! All geometry and all feature arithmetic is carried out in fixed-point:
//! a scalar is an `i64` (or an `i128` accumulator) holding the underlying
//! real value times [`fixed::SCALE`]. The host layer converts its own scalar
//! format to and from this representation at the boundary; every function in
//! this crate is exact integer arithmetic with a full contract.

use vstd::prelude::*;

pub mod connectivity;
pub mod fixed;
pub mod laws;
pub mod model;
pub mod topk;

pub use connectivity::build_batched_neighbors;
pub use connectivity::NeighborError;
pub use connectivity::NeighborGraph;

verus! {

use crate::connectivity::COORD_LIMIT;
use crate::fixed::isqrt;
use crate::model::is_floor_sqrt;
use crate::model::lemma_sqrt_unique;
use crate::model::sqrt_floor;

/// Exact squared distance between two points of a coordinate list.
pub open spec fn pair_dist2(ps: Seq<(i64, i64, i64)>, i: int, j: int) -> int {
    let dx = ps[j].0 - ps[i].0;
    let dy = ps[j].1 - ps[i].1;
    let dz = ps[j].2 - ps[i].2;
    dx * dx + dy * dy + dz * dz
}

/// Every coordinate of every point within [`COORD_LIMIT`].
pub open spec fn points_ok(ps: Seq<(i64, i64, i64)>) -> bool {
    forall|p: int|
        0 <= p < ps.len() ==> -COORD_LIMIT <= (#[trigger] ps[p]).0 <= COORD_LIMIT && -COORD_LIMIT
            <= ps[p].1 <= COORD_LIMIT && -COORD_LIMIT <= ps[p].2 <= COORD_LIMIT
}

/// The bonds of atom `i` against partners `i + 1` up to `hi`: every pair at
/// or under the cutoff, with the floor of its distance.
pub open spec fn bonds_row(ps: Seq<(i64, i64, i64)>, cutoff: int, i: int, hi: int) -> Seq<
    (usize, usize, i64),
>
    decreases hi - i,
{
    if hi <= i + 1 {
        Seq::empty()
    } else {
        let j = hi - 1;
        let rest = bonds_row(ps, cutoff, i, hi - 1);
        if pair_dist2(ps, i, j) <= cutoff * cutoff {
            rest.push((i as usize, j as usize, sqrt_floor(pair_dist2(ps, i, j)) as i64))
        } else {
            rest
        }
    }
}

/// All bonds among the first `upto` atoms' rows, in ascending atom order.
pub open spec fn bonds_upto(ps: Seq<(i64, i64, i64)>, cutoff: int, upto: int) -> Seq<
    (usize, usize, i64),
>
    decreases upto,
{
    if upto <= 0 {
        Seq::empty()
    } else {
        bonds_upto(ps, cutoff, upto - 1) + bonds_row(ps, cutoff, upto - 1, ps.len() as int)
    }
}

/// A molecule on its own: atomic numbers and exact fixed-point coordinates,
/// with the all-pairs bond finder used for illustrative comparisons.
pub struct MolecularGraph {
    pub atomic_numbers: Vec<i64>,
    pub positions: Vec<(i64, i64, i64)>,
}

impl MolecularGraph {
    /// Wrap atomic numbers and coordinates.
    pub fn new(atomic_numbers: Vec<i64>, coords: Vec<(i64, i64, i64)>) -> (r: MolecularGraph)
        ensures
            r.atomic_numbers@ == atomic_numbers@,
            r.positions@ == coords@,
    {
        MolecularGraph { atomic_numbers, positions: coords }
    }

    /// Every unordered pair of atoms within the cutoff distance, as
    /// (lower index, higher index, floor of the distance), in ascending
    /// index order.
    pub fn find_bonds(&self, cutoff: i64) -> (r: Vec<(usize, usize, i64)>)
        requires
            0 < cutoff <= COORD_LIMIT,
            points_ok(self.positions@),
        ensures
            r@ == bonds_upto(self.positions@, cutoff as int, self.positions@.len() as int),
    {
        let ghost ps = self.positions@;
        let n = self.positions.len();
        let mut bonds: Vec<(usize, usize, i64)> = Vec::new();
        proof {
            assert((cutoff as u64) * (cutoff as u64) == (cutoff as int) * (cutoff as int)
                && (cutoff as u64) * (cutoff as u64) <= 0x4000000000000000) by (nonlinear_arith)
                requires
                    0 < cutoff as u64 <= 0x40000000,
                    cutoff as u64 == cutoff as int,
            ;
        }
        let cutoff2 = (cutoff as u64) * (cutoff as u64);
        let mut i: usize = 0;
        while i < n
            invariant
                i <= n,
                n == ps.len(),
                self.positions@ == ps,
                points_ok(ps),
                0 < cutoff <= COORD_LIMIT,
                cutoff2 == (cutoff as int) * (cutoff as int),
                bonds@ == bonds_upto(ps, cutoff as int, i as int),
            decreases n - i,
        {
            let pi = self.positions[i];
            let mut j: usize = i + 1;
            while j < n
                invariant
                    i < j <= n || (j == i + 1 && j > n),
                    i < n,
                    n == ps.len(),
                    self.positions@ == ps,
                    points_ok(ps),
                    0 < cutoff <= COORD_LIMIT,
                    cutoff2 == (cutoff as int) * (cutoff as int),
                    pi == ps[i as int],
                    bonds@ == bonds_upto(ps, cutoff as int, i as int) + bonds_row(
                        ps,
                        cutoff as int,
                        i as int,
                        j as int,
                    ),
                decreases n - j,
            {
                let pj = self.positions[j];
                let dx = pj.0 - pi.0;
                let dy = pj.1 - pi.1;
                let dz = pj.2 - pi.2;
                proof {
                    assert(0 <= dx * dx <= 0x4000000000000000) by (nonlinear_arith)
                        requires
                            -2 * COORD_LIMIT <= dx <= 2 * COORD_LIMIT,
                    ;
                    assert(0 <= dy * dy <= 0x4000000000000000) by (nonlinear_arith)
                        requires
                            -2 * COORD_LIMIT <= dy <= 2 * COORD_LIMIT,
                    ;
                    assert(0 <= dz * dz <= 0x4000000000000000) by (nonlinear_arith)
                        requires
                            -2 * COORD_LIMIT <= dz <= 2 * COORD_LIMIT,
                    ;
                }
                let d2 = (dx * dx) as u64 + (dy * dy) as u64 + (dz * dz) as u64;
                if d2 <= cutoff2 {
                    let d = isqrt(d2);
                    proof {
                        assert(is_floor_sqrt(pair_dist2(ps, i as int, j as int), d as int));
                        lemma_sqrt_unique(pair_dist2(ps, i as int, j as int), d as int);
                    }
                    bonds.push((i, j, d as i64));
                }
                j = j + 1;
            }
            i = i + 1;
        }
        bonds
    }
}

} // verus!
