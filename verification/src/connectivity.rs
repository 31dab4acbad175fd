//! Batched bounded-degree neighbor search.
//!
//! A batch is a flat row-major sequence of 3-component atom positions plus a
//! strictly increasing sequence of molecule boundary offsets. For every atom,
//! the builder returns its up-to-`k` nearest same-molecule neighbors within
//! the cutoff radius, closest first, as three parallel edge sequences
//! (source, destination, displacement). Molecules never interact: the scan of
//! one molecule reads only that molecule's positions.
//!
//! Coordinates and the cutoff are fixed-point scalars (see [`crate::fixed`]);
//! squared distances are exact `u64` values, so the cutoff comparison and the
//! nearest-`k` order are exact.

use vstd::prelude::*;

use rayon::iter::IntoParallelIterator;
use rayon::iter::ParallelIterator;

verus! {

use crate::topk::BoundedNearest;
use crate::topk::Candidate;
use crate::topk::selected;

/// Largest coordinate magnitude (and cutoff) the builder accepts; keeps every
/// squared distance inside `u64`.
pub const COORD_LIMIT: i64 = 1073741824;

/// The hard cap on the per-atom neighbor count `k`. A request above this
/// limit is rejected as a contract violation rather than accepted.
pub const MAX_NEIGHBORS: usize = 64;

/// Why a batch was rejected.
#[derive(Clone, Copy, PartialEq, Eq, Structural, Debug)]
pub enum NeighborError {
    /// The position buffer is not a contiguous `[N, 3]` block.
    NotContiguous,
    /// `k` exceeds [`MAX_NEIGHBORS`].
    NeighborCapExceeded,
    /// Molecule offsets are not strictly increasing from zero.
    InvalidMoleculePointers,
    /// A coordinate exceeds [`COORD_LIMIT`] in magnitude.
    CoordinateOutOfRange,
}

/// One displacement vector, destination minus source.
#[derive(Clone, Copy, PartialEq, Eq, Structural, Debug)]
pub struct Rel {
    pub x: i64,
    pub y: i64,
    pub z: i64,
}

/// The edge list: three parallel sequences of equal length.
#[derive(Debug)]
pub struct NeighborGraph {
    pub edge_src: Vec<usize>,
    pub edge_dst: Vec<usize>,
    pub edge_rel: Vec<Rel>,
}

/// Exact squared Euclidean distance between atoms `i` and `j` of the flat
/// position sequence.
pub open spec fn sq_dist(pos: Seq<i64>, i: int, j: int) -> int {
    let dx = pos[3 * j] - pos[3 * i];
    let dy = pos[3 * j + 1] - pos[3 * i + 1];
    let dz = pos[3 * j + 2] - pos[3 * i + 2];
    dx * dx + dy * dy + dz * dz
}

/// The candidate record atom `j` contributes to atom `i`'s scan.
pub open spec fn candidate_of(pos: Seq<i64>, i: int, j: int) -> Candidate {
    Candidate {
        dst: j as usize,
        dist2: sq_dist(pos, i, j) as u64,
        rx: (pos[3 * j] - pos[3 * i]) as i64,
        ry: (pos[3 * j + 1] - pos[3 * i + 1]) as i64,
        rz: (pos[3 * j + 2] - pos[3 * i + 2]) as i64,
    }
}

/// Atom `i`'s candidate stream over `j` in `[start, hi)`: every other atom of
/// the molecule at or under the cutoff, in scan order.
pub open spec fn candidates_for(pos: Seq<i64>, start: int, hi: int, i: int, c2: int) -> Seq<
    Candidate,
>
    decreases hi - start,
{
    if hi <= start {
        Seq::empty()
    } else {
        let rest = candidates_for(pos, start, hi - 1, i, c2);
        let j = hi - 1;
        if j != i && sq_dist(pos, i, j) <= c2 {
            rest.push(candidate_of(pos, i, j))
        } else {
            rest
        }
    }
}

/// Atom `i`'s final neighbor list: the selection of the up-to-`k` nearest
/// candidates, closest first.
pub open spec fn atom_edges(pos: Seq<i64>, start: int, end: int, i: int, c2: int, k: nat) -> Seq<
    Candidate,
> {
    selected(candidates_for(pos, start, end, i, c2), k)
}

/// Pair every candidate of one atom with its source index.
pub open spec fn tag_src(i: int, cs: Seq<Candidate>) -> Seq<(usize, Candidate)> {
    Seq::new(cs.len(), |a: int| (i as usize, cs[a]))
}

/// Edges of the molecule `[start, end)` contributed by atoms below `upto`,
/// in atom order.
pub open spec fn mol_edges_upto(
    pos: Seq<i64>,
    start: int,
    end: int,
    upto: int,
    c2: int,
    k: nat,
) -> Seq<(usize, Candidate)>
    decreases upto - start,
{
    if upto <= start {
        Seq::empty()
    } else {
        mol_edges_upto(pos, start, end, upto - 1, c2, k) + tag_src(
            upto - 1,
            atom_edges(pos, start, end, upto - 1, c2, k),
        )
    }
}

/// All edges of the molecule `[start, end)`.
pub open spec fn mol_edges(pos: Seq<i64>, start: int, end: int, c2: int, k: nat) -> Seq<
    (usize, Candidate),
> {
    mol_edges_upto(pos, start, end, end, c2, k)
}

/// Edges of the first `mcount` molecules of the batch, in molecule order.
pub open spec fn batch_edges_upto(
    pos: Seq<i64>,
    ptrs: Seq<usize>,
    mcount: int,
    c2: int,
    k: nat,
) -> Seq<(usize, Candidate)>
    decreases mcount,
{
    if mcount <= 0 {
        Seq::empty()
    } else {
        batch_edges_upto(pos, ptrs, mcount - 1, c2, k) + mol_edges(
            pos,
            ptrs[mcount - 1] as int,
            ptrs[mcount] as int,
            c2,
            k,
        )
    }
}

/// Every edge of the batch, in molecule order, atom order within a molecule,
/// and ascending distance within an atom.
pub open spec fn batch_edges(pos: Seq<i64>, ptrs: Seq<usize>, c2: int, k: nat) -> Seq<
    (usize, Candidate),
> {
    batch_edges_upto(pos, ptrs, ptrs.len() - 1, c2, k)
}

/// Entry `e` of the three parallel sequences spells out edge `es[e]`.
pub open spec fn entry_matches(
    srcs: Seq<usize>,
    dsts: Seq<usize>,
    rels: Seq<Rel>,
    es: Seq<(usize, Candidate)>,
    e: int,
) -> bool {
    &&& srcs[e] == es[e].0
    &&& dsts[e] == es[e].1.dst
    &&& rels[e].x == es[e].1.rx
    &&& rels[e].y == es[e].1.ry
    &&& rels[e].z == es[e].1.rz
}

/// The three parallel sequences spell out exactly the edge sequence `es`.
pub open spec fn parallel_match(
    srcs: Seq<usize>,
    dsts: Seq<usize>,
    rels: Seq<Rel>,
    es: Seq<(usize, Candidate)>,
) -> bool {
    &&& srcs.len() == es.len()
    &&& dsts.len() == es.len()
    &&& rels.len() == es.len()
    &&& (forall|e: int| 0 <= e < es.len() ==> #[trigger] entry_matches(srcs, dsts, rels, es, e))
}

/// The graph spells out exactly the edge sequence `es`.
pub open spec fn graph_matches(g: NeighborGraph, es: Seq<(usize, Candidate)>) -> bool {
    parallel_match(g.edge_src@, g.edge_dst@, g.edge_rel@, es)
}

/// Molecule offsets: at least one entry, starting at zero, strictly
/// increasing.
pub open spec fn valid_mol_ptrs(ptrs: Seq<usize>) -> bool {
    &&& ptrs.len() >= 1
    &&& ptrs[0] == 0
    &&& (forall|m: int| 0 <= m < ptrs.len() - 1 ==> #[trigger] ptrs[m] < ptrs[m + 1])
}

/// The position buffer is a contiguous `[N, 3]` block for the batch's total
/// atom count.
pub open spec fn positions_contiguous(pos: Seq<i64>, ptrs: Seq<usize>) -> bool {
    pos.len() == 3 * ptrs[ptrs.len() - 1]
}

/// Every coordinate is within [`COORD_LIMIT`].
pub open spec fn coords_ok(pos: Seq<i64>) -> bool {
    forall|t: int| 0 <= t < pos.len() ==> -COORD_LIMIT <= #[trigger] pos[t] <= COORD_LIMIT
}

/// Scan one atom's molecule and keep its up-to-`k` nearest neighbors within
/// the cutoff, closest first.
fn build_atom_neighbors(
    pos: &Vec<i64>,
    start: usize,
    end: usize,
    i: usize,
    cutoff2: u64,
    k: usize,
) -> (r: Vec<Candidate>)
    requires
        start <= i < end,
        3 * end <= pos@.len(),
        coords_ok(pos@),
    ensures
        r@ == atom_edges(pos@, start as int, end as int, i as int, cutoff2 as int, k as nat),
{
    let mut near = BoundedNearest::new(k);
    let total = pos.len();
    assert(3 * i + 2 < total);
    let base_i = 3 * i;
    let pix = pos[base_i];
    let piy = pos[base_i + 1];
    let piz = pos[base_i + 2];
    let mut j: usize = start;
    while j < end
        invariant
            start <= j <= end,
            start <= i < end,
            3 * end <= pos@.len(),
            pos@.len() <= usize::MAX,
            coords_ok(pos@),
            pix == pos@[3 * i],
            piy == pos@[3 * i + 1],
            piz == pos@[3 * i + 2],
            near.wf(),
            near.cap() == k as nat,
            near.stream() == candidates_for(
                pos@,
                start as int,
                j as int,
                i as int,
                cutoff2 as int,
            ),
        decreases end - j,
    {
        if j != i {
            let base_j = 3 * j;
            let pjx = pos[base_j];
            let pjy = pos[base_j + 1];
            let pjz = pos[base_j + 2];
            proof {
                assert(-COORD_LIMIT <= pos@[3 * (j as int)] <= COORD_LIMIT);
                assert(-COORD_LIMIT <= pos@[3 * (j as int) + 1] <= COORD_LIMIT);
                assert(-COORD_LIMIT <= pos@[3 * (j as int) + 2] <= COORD_LIMIT);
                assert(-COORD_LIMIT <= pos@[3 * (i as int)] <= COORD_LIMIT);
                assert(-COORD_LIMIT <= pos@[3 * (i as int) + 1] <= COORD_LIMIT);
                assert(-COORD_LIMIT <= pos@[3 * (i as int) + 2] <= COORD_LIMIT);
            }
            let dx = pjx - pix;
            let dy = pjy - piy;
            let dz = pjz - piz;
            proof {
                assert(-2 * COORD_LIMIT <= dx <= 2 * COORD_LIMIT);
                assert(0 <= dx * dx <= 4 * COORD_LIMIT * COORD_LIMIT) by (nonlinear_arith)
                    requires
                        -2 * COORD_LIMIT <= dx <= 2 * COORD_LIMIT,
                ;
                assert(0 <= dy * dy <= 4 * COORD_LIMIT * COORD_LIMIT) by (nonlinear_arith)
                    requires
                        -2 * COORD_LIMIT <= dy <= 2 * COORD_LIMIT,
                ;
                assert(0 <= dz * dz <= 4 * COORD_LIMIT * COORD_LIMIT) by (nonlinear_arith)
                    requires
                        -2 * COORD_LIMIT <= dz <= 2 * COORD_LIMIT,
                ;
            }
            let d2 = (dx * dx) as u64 + (dy * dy) as u64 + (dz * dz) as u64;
            assert(d2 == sq_dist(pos@, i as int, j as int));
            if d2 <= cutoff2 {
                near.insert(Candidate { dst: j, dist2: d2, rx: dx, ry: dy, rz: dz });
                assert(Candidate { dst: j, dist2: d2, rx: dx, ry: dy, rz: dz } == candidate_of(
                    pos@,
                    i as int,
                    j as int,
                ));
            }
        }
        j = j + 1;
    }
    near.finish()
}

/// Collect the edges of one molecule, atom by atom.
fn build_mol_neighbors(pos: &Vec<i64>, start: usize, end: usize, cutoff2: u64, k: usize) -> (r:
    Vec<(usize, Candidate)>)
    requires
        start <= end,
        3 * end <= pos@.len(),
        coords_ok(pos@),
    ensures
        r@ == mol_edges(pos@, start as int, end as int, cutoff2 as int, k as nat),
{
    let mut out: Vec<(usize, Candidate)> = Vec::new();
    let mut i: usize = start;
    while i < end
        invariant
            start <= i <= end,
            3 * end <= pos@.len(),
            coords_ok(pos@),
            out@ == mol_edges_upto(
                pos@,
                start as int,
                end as int,
                i as int,
                cutoff2 as int,
                k as nat,
            ),
        decreases end - i,
    {
        let cs = build_atom_neighbors(pos, start, end, i, cutoff2, k);
        let ghost tagged = tag_src(i as int, cs@);
        let mut a: usize = 0;
        while a < cs.len()
            invariant
                a <= cs@.len(),
                tagged == tag_src(i as int, cs@),
                out@ == mol_edges_upto(
                    pos@,
                    start as int,
                    end as int,
                    i as int,
                    cutoff2 as int,
                    k as nat,
                ) + tagged.take(a as int),
            decreases cs@.len() - a,
        {
            out.push((i, cs[a]));
            proof {
                assert(tagged.take(a + 1) =~= tagged.take(a as int).push(tagged[a as int]));
            }
            a = a + 1;
        }
        proof {
            assert(tagged.take(cs@.len() as int) =~= tagged);
        }
        i = i + 1;
    }
    out
}

/// Scan the batch's molecules in parallel, one task per molecule, and return
/// each molecule's edges in molecule index order.
///
/// Relies on rayon's `into_par_iter` / `map` / `collect` over a range: the
/// collected vector has one entry per index, in index order, each the
/// closure's value at that index; the closure only calls the verified
/// per-molecule builder.
#[verifier::external_body]
fn par_molecule_edges(pos: &Vec<i64>, ptrs: &Vec<usize>, cutoff2: u64, k: usize) -> (r: Vec<
    Vec<(usize, Candidate)>,
>)
    requires
        valid_mol_ptrs(ptrs@),
        positions_contiguous(pos@, ptrs@),
        coords_ok(pos@),
        forall|m: int| 0 <= m < ptrs@.len() - 1 ==> #[trigger] ptrs@[m] < ptrs@[m + 1],
        forall|m: int| 0 <= m < ptrs@.len() ==> 3 * #[trigger] ptrs@[m] <= pos@.len(),
    ensures
        r@.len() == ptrs@.len() - 1,
        forall|m: int|
            0 <= m < r@.len() ==> #[trigger] r@[m]@ == mol_edges(
                pos@,
                ptrs@[m] as int,
                ptrs@[m + 1] as int,
                cutoff2 as int,
                k as nat,
            ),
{
    (0..ptrs.len() - 1)
        .into_par_iter()
        .map(|m| build_mol_neighbors(pos, ptrs[m], ptrs[m + 1], cutoff2, k))
        .collect()
}

/// Each molecule offset delimits a range inside the batch: monotonicity of
/// the strictly increasing offsets.
pub proof fn lemma_ptrs_mono(ptrs: Seq<usize>, a: int, b: int)
    requires
        forall|m: int| 0 <= m < ptrs.len() - 1 ==> #[trigger] ptrs[m] < ptrs[m + 1],
        0 <= a <= b < ptrs.len(),
    ensures
        ptrs[a] <= ptrs[b],
    decreases b - a,
{
    if a < b {
        lemma_ptrs_mono(ptrs, a, b - 1);
        assert(ptrs[b - 1] < ptrs[b]);
    }
}

/// Build the batched neighbor graph.
///
/// Rejects, in this order: a neighbor cap above [`MAX_NEIGHBORS`], molecule
/// offsets that are not strictly increasing from zero, a position buffer
/// whose length is not three entries per atom, and a coordinate beyond
/// [`COORD_LIMIT`]. Otherwise the returned graph lists, for every atom, its
/// up-to-`k` nearest same-molecule neighbors within `cutoff`, closest first,
/// exactly as [`batch_edges`] spells out.
///
/// The bound on `cutoff` is a machine limit: together with
/// [`COORD_LIMIT`] it keeps every squared distance inside `u64`.
#[verifier::rlimit(100)]
pub fn build_batched_neighbors(
    positions: &Vec<i64>,
    mol_ptrs: &Vec<usize>,
    cutoff: i64,
    k: usize,
) -> (r: Result<NeighborGraph, NeighborError>)
    requires
        0 < cutoff <= COORD_LIMIT,
    ensures
        r == Err::<NeighborGraph, NeighborError>(NeighborError::NeighborCapExceeded) <==> k
            > MAX_NEIGHBORS,
        r == Err::<NeighborGraph, NeighborError>(NeighborError::InvalidMoleculePointers) <==> k
            <= MAX_NEIGHBORS && !valid_mol_ptrs(mol_ptrs@),
        r == Err::<NeighborGraph, NeighborError>(NeighborError::NotContiguous) <==> k
            <= MAX_NEIGHBORS && valid_mol_ptrs(mol_ptrs@) && !positions_contiguous(
            positions@,
            mol_ptrs@,
        ),
        r == Err::<NeighborGraph, NeighborError>(NeighborError::CoordinateOutOfRange) <==> k
            <= MAX_NEIGHBORS && valid_mol_ptrs(mol_ptrs@) && positions_contiguous(
            positions@,
            mol_ptrs@,
        ) && !coords_ok(positions@),
        r is Ok <==> k <= MAX_NEIGHBORS && valid_mol_ptrs(mol_ptrs@) && positions_contiguous(
            positions@,
            mol_ptrs@,
        ) && coords_ok(positions@),
        r is Ok ==> graph_matches(
            r->Ok_0,
            batch_edges(positions@, mol_ptrs@, cutoff as int * cutoff as int, k as nat),
        ),
{
    if k > MAX_NEIGHBORS {
        return Err(NeighborError::NeighborCapExceeded);
    }
    // Molecule offsets: non-empty, from zero, strictly increasing.
    if mol_ptrs.len() == 0 {
        return Err(NeighborError::InvalidMoleculePointers);
    }
    if mol_ptrs[0] != 0 {
        return Err(NeighborError::InvalidMoleculePointers);
    }
    let mut m: usize = 0;
    while m < mol_ptrs.len() - 1
        invariant
            k <= MAX_NEIGHBORS,
            mol_ptrs@.len() >= 1,
            mol_ptrs@[0] == 0,
            m < mol_ptrs@.len(),
            forall|t: int| 0 <= t < m ==> #[trigger] mol_ptrs@[t] < mol_ptrs@[t + 1],
        decreases mol_ptrs@.len() - m,
    {
        if mol_ptrs[m] >= mol_ptrs[m + 1] {
            return Err(NeighborError::InvalidMoleculePointers);
        }
        m = m + 1;
    }
    assert(valid_mol_ptrs(mol_ptrs@));
    // The flat buffer must hold exactly three entries per atom.
    let n_atoms: usize = mol_ptrs[mol_ptrs.len() - 1];
    if (positions.len() as u128) != 3 * (n_atoms as u128) {
        return Err(NeighborError::NotContiguous);
    }
    assert(positions_contiguous(positions@, mol_ptrs@));
    // Every coordinate within range.
    let mut t: usize = 0;
    while t < positions.len()
        invariant
            k <= MAX_NEIGHBORS,
            valid_mol_ptrs(mol_ptrs@),
            positions_contiguous(positions@, mol_ptrs@),
            t <= positions@.len(),
            forall|u: int| 0 <= u < t ==> -COORD_LIMIT <= #[trigger] positions@[u] <= COORD_LIMIT,
        decreases positions@.len() - t,
    {
        let c = positions[t];
        if c > COORD_LIMIT || c < -COORD_LIMIT {
            return Err(NeighborError::CoordinateOutOfRange);
        }
        t = t + 1;
    }
    assert(coords_ok(positions@));
    proof {
        assert(cutoff as u64 * cutoff as u64 <= 0x4000000000000000) by (nonlinear_arith)
            requires
                0 < cutoff as u64 <= COORD_LIMIT as u64,
        ;
        assert forall|w: int| 0 <= w < mol_ptrs@.len() implies 3 * #[trigger] mol_ptrs@[w]
            <= positions@.len() by {
            lemma_ptrs_mono(mol_ptrs@, w, mol_ptrs@.len() - 1);
        }
    }
    let cutoff2 = (cutoff as u64) * (cutoff as u64);
    let packs = par_molecule_edges(positions, mol_ptrs, cutoff2, k);
    let ghost c2 = cutoff as int * cutoff as int;
    let mut edge_src: Vec<usize> = Vec::new();
    let mut edge_dst: Vec<usize> = Vec::new();
    let mut edge_rel: Vec<Rel> = Vec::new();
    let mut m: usize = 0;
    while m < packs.len()
        invariant
            m <= packs@.len(),
            packs@.len() == mol_ptrs@.len() - 1,
            cutoff2 as int == c2,
            forall|w: int|
                0 <= w < packs@.len() ==> #[trigger] packs@[w]@ == mol_edges(
                    positions@,
                    mol_ptrs@[w] as int,
                    mol_ptrs@[w + 1] as int,
                    c2,
                    k as nat,
                ),
            parallel_match(
                edge_src@,
                edge_dst@,
                edge_rel@,
                batch_edges_upto(positions@, mol_ptrs@, m as int, c2, k as nat),
            ),
        decreases packs@.len() - m,
    {
        let ghost built = batch_edges_upto(positions@, mol_ptrs@, m as int, c2, k as nat);
        let pack = &packs[m];
        let mut e: usize = 0;
        while e < pack.len()
            invariant
                e <= pack@.len(),
                pack@ == packs@[m as int]@,
                m < packs@.len(),
                built == batch_edges_upto(positions@, mol_ptrs@, m as int, c2, k as nat),
                parallel_match(edge_src@, edge_dst@, edge_rel@, built + pack@.take(e as int)),
            decreases pack@.len() - e,
        {
            let ghost s0 = edge_src@;
            let ghost d0 = edge_dst@;
            let ghost r0 = edge_rel@;
            let ghost es0 = built + pack@.take(e as int);
            let (s, c) = pack[e];
            edge_src.push(s);
            edge_dst.push(c.dst);
            edge_rel.push(Rel { x: c.rx, y: c.ry, z: c.rz });
            proof {
                assert((built + pack@.take(e + 1)) =~= es0.push(pack@[e as int]));
                let es = built + pack@.take(e + 1);
                assert forall|w: int| 0 <= w < es.len() implies #[trigger] entry_matches(
                    edge_src@,
                    edge_dst@,
                    edge_rel@,
                    es,
                    w,
                ) by {
                    if w < es.len() - 1 {
                        assert(entry_matches(s0, d0, r0, es0, w));
                    }
                }
            }
            e = e + 1;
        }
        proof {
            assert(pack@.take(pack@.len() as int) =~= pack@);
            assert(built + pack@ =~= batch_edges_upto(
                positions@,
                mol_ptrs@,
                m + 1,
                c2,
                k as nat,
            ));
        }
        m = m + 1;
    }
    let g = NeighborGraph { edge_src, edge_dst, edge_rel };
    Ok(g)
}

} // verus!
