//! What holds of every neighbor graph the builder returns.
//!
//! These proof functions state, over the spec-level edge sequences of
//! [`crate::connectivity`], the guarantees a caller may rely on: no
//! self-loops; every edge within the cutoff, with its displacement and
//! squared distance read off the positions; per-atom degree at most the cap
//! and at most the molecule's size less one; an atom with a full complement
//! of near neighbors keeps exactly its nearest cap's worth, in ascending
//! distance order; and a molecule's edges in a batch equal the edges of that
//! molecule run alone, shifted by its offset.

use vstd::prelude::*;

verus! {

use crate::topk::Candidate;
use crate::topk::lex_before;
use crate::topk::selection;
use crate::topk::insert_pos;
use crate::topk::lemma_selection_wf;
use crate::connectivity::COORD_LIMIT;
use crate::connectivity::atom_edges;
use crate::connectivity::batch_edges;
use crate::connectivity::batch_edges_upto;
use crate::connectivity::candidate_of;
use crate::connectivity::candidates_for;
use crate::connectivity::coords_ok;
use crate::connectivity::lemma_ptrs_mono;
use crate::connectivity::mol_edges;
use crate::connectivity::mol_edges_upto;
use crate::connectivity::positions_contiguous;
use crate::connectivity::sq_dist;
use crate::connectivity::tag_src;
use crate::connectivity::valid_mol_ptrs;

/// Edge `ed` reads truthfully off the positions: distinct endpoints, its
/// squared distance within `c2` and equal to the distance of its endpoints,
/// and its displacement the difference of its endpoints' coordinates.
pub open spec fn edge_geom_ok(pos: Seq<i64>, c2: int, ed: (usize, Candidate)) -> bool {
    &&& ed.1.dst != ed.0
    &&& ed.1.dist2 == sq_dist(pos, ed.0 as int, ed.1.dst as int)
    &&& sq_dist(pos, ed.0 as int, ed.1.dst as int) <= c2
    &&& ed.1.rx == pos[3 * (ed.1.dst as int)] - pos[3 * (ed.0 as int)]
    &&& ed.1.ry == pos[3 * (ed.1.dst as int) + 1] - pos[3 * (ed.0 as int) + 1]
    &&& ed.1.rz == pos[3 * (ed.1.dst as int) + 2] - pos[3 * (ed.0 as int) + 2]
}

/// The candidate a position pair yields reads truthfully off the positions.
proof fn lemma_candidate_of_exact(pos: Seq<i64>, i: int, j: int)
    requires
        coords_ok(pos),
        pos.len() <= usize::MAX,
        0 <= i,
        3 * i + 3 <= pos.len(),
        0 <= j,
        3 * j + 3 <= pos.len(),
    ensures
        candidate_of(pos, i, j).dst == j,
        candidate_of(pos, i, j).dist2 == sq_dist(pos, i, j),
        0 <= sq_dist(pos, i, j) < 0x10000000000000000,
        candidate_of(pos, i, j).rx == pos[3 * j] - pos[3 * i],
        candidate_of(pos, i, j).ry == pos[3 * j + 1] - pos[3 * i + 1],
        candidate_of(pos, i, j).rz == pos[3 * j + 2] - pos[3 * i + 2],
{
    let dx = pos[3 * j] - pos[3 * i];
    let dy = pos[3 * j + 1] - pos[3 * i + 1];
    let dz = pos[3 * j + 2] - pos[3 * i + 2];
    assert(0 <= dx * dx <= 0x4000000000000000 && 0 <= dy * dy <= 0x4000000000000000 && 0 <= dz * dz
        <= 0x4000000000000000) by (nonlinear_arith)
        requires
            -2 * COORD_LIMIT <= dx <= 2 * COORD_LIMIT,
            -2 * COORD_LIMIT <= dy <= 2 * COORD_LIMIT,
            -2 * COORD_LIMIT <= dz <= 2 * COORD_LIMIT,
            COORD_LIMIT == 0x40000000,
    ;
}

/// Every candidate of an atom's stream reads truthfully off the positions,
/// lies in the scanned range, is not the atom itself, is within the cutoff,
/// and the stream lists destinations in strictly ascending order.
pub proof fn lemma_candidates_props(pos: Seq<i64>, start: int, hi: int, i: int, c2: int)
    requires
        coords_ok(pos),
        pos.len() <= usize::MAX,
        0 <= start <= i,
        3 * i + 3 <= pos.len(),
        3 * hi <= pos.len(),
        start <= hi,
    ensures
        forall|a: int|
            0 <= a < candidates_for(pos, start, hi, i, c2).len() ==> {
                let c = #[trigger] candidates_for(pos, start, hi, i, c2)[a];
                &&& start <= c.dst < hi
                &&& c.dst != i
                &&& c == candidate_of(pos, i, c.dst as int)
                &&& c.dist2 == sq_dist(pos, i, c.dst as int)
                &&& sq_dist(pos, i, c.dst as int) <= c2
            },
        forall|a: int, b: int|
            0 <= a < b < candidates_for(pos, start, hi, i, c2).len()
                ==> (#[trigger] candidates_for(pos, start, hi, i, c2)[a]).dst
                < (#[trigger] candidates_for(pos, start, hi, i, c2)[b]).dst,
    decreases hi - start,
{
    if hi <= start {
    } else {
        lemma_candidates_props(pos, start, hi - 1, i, c2);
        let rest = candidates_for(pos, start, hi - 1, i, c2);
        let cur = candidates_for(pos, start, hi, i, c2);
        let j = hi - 1;
        if j != i && sq_dist(pos, i, j) <= c2 {
            lemma_candidate_of_exact(pos, i, j);
            assert(cur == rest.push(candidate_of(pos, i, j)));
            assert forall|a: int| 0 <= a < cur.len() implies {
                let c = #[trigger] cur[a];
                &&& start <= c.dst < hi
                &&& c.dst != i
                &&& c == candidate_of(pos, i, c.dst as int)
                &&& c.dist2 == sq_dist(pos, i, c.dst as int)
                &&& sq_dist(pos, i, c.dst as int) <= c2
            } by {
                if a < rest.len() {
                    assert(cur[a] == rest[a]);
                } else {
                    assert(cur[a] == candidate_of(pos, i, j));
                    assert(cur[a].dst == j);
                }
            }
            assert forall|a: int, b: int| 0 <= a < b < cur.len() implies (#[trigger] cur[a]).dst
                < (#[trigger] cur[b]).dst by {
                assert(cur[a] == rest[a]);
                if b < rest.len() {
                    assert(cur[b] == rest[b]);
                } else {
                    assert(cur[b] == candidate_of(pos, i, j));
                    assert(rest[a].dst < hi - 1);
                }
            }
        } else {
            assert(cur == rest);
        }
    }
}

/// The candidate stream never holds more entries than the scanned range has
/// atoms other than `i`.
pub proof fn lemma_candidates_count(pos: Seq<i64>, start: int, hi: int, i: int, c2: int)
    requires
        start <= hi,
    ensures
        candidates_for(pos, start, hi, i, c2).len() <= hi - start - (if start <= i < hi {
            1int
        } else {
            0int
        }),
    decreases hi - start,
{
    if hi > start {
        lemma_candidates_count(pos, start, hi - 1, i, c2);
    }
}

/// Every returned edge of one atom obeys the geometry, the list is sorted by
/// ascending squared distance, destinations are distinct, and its length is
/// the lesser of the cap and the number of qualifying candidates.
pub proof fn lemma_atom_edges_props(pos: Seq<i64>, start: int, end: int, i: int, c2: int, k: nat)
    requires
        coords_ok(pos),
        pos.len() <= usize::MAX,
        0 <= start <= i < end,
        3 * end <= pos.len(),
    ensures
        atom_edges(pos, start, end, i, c2, k).len() == (if k as int <= candidates_for(
            pos,
            start,
            end,
            i,
            c2,
        ).len() {
            k as int
        } else {
            candidates_for(pos, start, end, i, c2).len() as int
        }),
        forall|a: int|
            0 <= a < atom_edges(pos, start, end, i, c2, k).len() ==> edge_geom_ok(
                pos,
                c2,
                (i as usize, #[trigger] atom_edges(pos, start, end, i, c2, k)[a]),
            ) && start <= atom_edges(pos, start, end, i, c2, k)[a].dst < end,
        forall|a: int, b: int|
            0 <= a <= b < atom_edges(pos, start, end, i, c2, k).len()
                ==> (#[trigger] atom_edges(pos, start, end, i, c2, k)[a]).dist2
                <= (#[trigger] atom_edges(pos, start, end, i, c2, k)[b]).dist2,
        forall|a: int, b: int|
            0 <= a < b < atom_edges(pos, start, end, i, c2, k).len()
                ==> (#[trigger] atom_edges(pos, start, end, i, c2, k)[a]).dst
                != (#[trigger] atom_edges(pos, start, end, i, c2, k)[b]).dst,
{
    let cands = candidates_for(pos, start, end, i, c2);
    let sel = selection(cands, k);
    let es = atom_edges(pos, start, end, i, c2, k);
    lemma_candidates_props(pos, start, end, i, c2);
    lemma_selection_wf(cands, k);
    assert(es.len() == sel.len());
    assert(forall|a: int| 0 <= a < es.len() ==> #[trigger] es[a] == cands[sel[a]]);
    assert((i as usize) as int == i);
    assert forall|a: int| 0 <= a < es.len() implies edge_geom_ok(
        pos,
        c2,
        (i as usize, #[trigger] es[a]),
    ) && start <= es[a].dst < end by {
        assert(es[a] == cands[sel[a]]);
        lemma_candidate_of_exact(pos, i, es[a].dst as int);
    }
    assert forall|a: int, b: int| 0 <= a <= b < es.len() implies (#[trigger] es[a]).dist2
        <= (#[trigger] es[b]).dist2 by {
        if a < b {
            assert(lex_before(cands, sel[a], sel[b]));
            assert(es[a] == cands[sel[a]]);
            assert(es[b] == cands[sel[b]]);
        }
    }
    assert forall|a: int, b: int| 0 <= a < b < es.len() implies (#[trigger] es[a]).dst
        != (#[trigger] es[b]).dst by {
        assert(lex_before(cands, sel[a], sel[b]));
        assert(sel[a] != sel[b]);
        if sel[a] < sel[b] {
            assert(cands[sel[a]].dst < cands[sel[b]].dst);
        } else {
            assert(cands[sel[b]].dst < cands[sel[a]].dst);
        }
    }
}

/// An atom with at least a full cap's worth of qualifying candidates keeps
/// exactly the cap's worth, and everything it left out is at least as far as
/// everything it kept.
pub proof fn lemma_k_closest(pos: Seq<i64>, start: int, end: int, i: int, c2: int, k: nat)
    requires
        coords_ok(pos),
        pos.len() <= usize::MAX,
        0 <= start <= i < end,
        3 * end <= pos.len(),
        k >= 1,
        candidates_for(pos, start, end, i, c2).len() >= k,
    ensures
        atom_edges(pos, start, end, i, c2, k).len() == k,
        forall|j: int|
            0 <= j < candidates_for(pos, start, end, i, c2).len() && !atom_edges(
                pos,
                start,
                end,
                i,
                c2,
                k,
            ).contains(#[trigger] candidates_for(pos, start, end, i, c2)[j])
                ==> candidates_for(pos, start, end, i, c2)[j].dist2 >= atom_edges(
                pos,
                start,
                end,
                i,
                c2,
                k,
            )[k - 1].dist2,
{
    let cands = candidates_for(pos, start, end, i, c2);
    let sel = selection(cands, k);
    let es = atom_edges(pos, start, end, i, c2, k);
    lemma_atom_edges_props(pos, start, end, i, c2, k);
    lemma_selection_wf(cands, k);
    assert(forall|a: int| 0 <= a < es.len() ==> #[trigger] es[a] == cands[sel[a]]);
    assert forall|j: int| 0 <= j < cands.len() && !es.contains(#[trigger] cands[j]) implies
        cands[j].dist2 >= es[k - 1].dist2 by {
        if sel.contains(j) {
            let a = choose|a: int| 0 <= a < sel.len() && sel[a] == j;
            assert(es[a] == cands[j]);
            assert(es.contains(cands[j]));
            assert(false);
        } else {
            assert(lex_before(cands, sel[sel.len() - 1], j));
            assert(es[k - 1] == cands[sel[k - 1]]);
        }
    }
}

/// Every edge of a molecule's list obeys the geometry, with its source
/// among the atoms already scanned and its destination inside the molecule.
pub proof fn lemma_mol_edges_geom(pos: Seq<i64>, start: int, end: int, upto: int, c2: int, k: nat)
    requires
        coords_ok(pos),
        pos.len() <= usize::MAX,
        0 <= start <= upto <= end,
        3 * end <= pos.len(),
    ensures
        forall|a: int|
            0 <= a < mol_edges_upto(pos, start, end, upto, c2, k).len() ==> edge_geom_ok(
                pos,
                c2,
                #[trigger] mol_edges_upto(pos, start, end, upto, c2, k)[a],
            ) && start <= mol_edges_upto(pos, start, end, upto, c2, k)[a].0 < upto && start
                <= mol_edges_upto(pos, start, end, upto, c2, k)[a].1.dst < end,
    decreases upto - start,
{
    if upto <= start {
    } else {
        lemma_mol_edges_geom(pos, start, end, upto - 1, c2, k);
        let i = upto - 1;
        lemma_atom_edges_props(pos, start, end, i, c2, k);
        let before = mol_edges_upto(pos, start, end, upto - 1, c2, k);
        let mine = tag_src(i, atom_edges(pos, start, end, i, c2, k));
        let cur = mol_edges_upto(pos, start, end, upto, c2, k);
        assert(cur == before + mine);
        assert forall|a: int| 0 <= a < cur.len() implies edge_geom_ok(pos, c2, #[trigger] cur[a])
            && start <= cur[a].0 < upto && start <= cur[a].1.dst < end by {
            if a < before.len() {
                assert(cur[a] == before[a]);
            } else {
                assert(cur[a] == mine[a - before.len()]);
                assert(mine[a - before.len()] == (
                    i as usize,
                    atom_edges(pos, start, end, i, c2, k)[a - before.len()],
                ));
            }
        }
    }
}

/// Every edge of a batch's list obeys the geometry, and joins two atoms of
/// one molecule among the first `mcount`.
pub proof fn lemma_batch_edges_geom(pos: Seq<i64>, ptrs: Seq<usize>, mcount: int, c2: int, k: nat)
    requires
        valid_mol_ptrs(ptrs),
        positions_contiguous(pos, ptrs),
        coords_ok(pos),
        pos.len() <= usize::MAX,
        0 <= mcount <= ptrs.len() - 1,
    ensures
        forall|a: int|
            0 <= a < batch_edges_upto(pos, ptrs, mcount, c2, k).len() ==> edge_geom_ok(
                pos,
                c2,
                #[trigger] batch_edges_upto(pos, ptrs, mcount, c2, k)[a],
            ) && batch_edges_upto(pos, ptrs, mcount, c2, k)[a].0 < ptrs[mcount]
                && batch_edges_upto(pos, ptrs, mcount, c2, k)[a].1.dst < ptrs[mcount],
    decreases mcount,
{
    if mcount <= 0 {
    } else {
        lemma_batch_edges_geom(pos, ptrs, mcount - 1, c2, k);
        lemma_ptrs_mono(ptrs, mcount - 1, ptrs.len() - 1);
        lemma_ptrs_mono(ptrs, mcount, ptrs.len() - 1);
        let start = ptrs[mcount - 1] as int;
        let end = ptrs[mcount] as int;
        lemma_mol_edges_geom(pos, start, end, end, c2, k);
        let before = batch_edges_upto(pos, ptrs, mcount - 1, c2, k);
        let mine = mol_edges(pos, start, end, c2, k);
        let cur = batch_edges_upto(pos, ptrs, mcount, c2, k);
        assert(cur == before + mine);
        assert forall|a: int| 0 <= a < cur.len() implies edge_geom_ok(pos, c2, #[trigger] cur[a])
            && cur[a].0 < ptrs[mcount] && cur[a].1.dst < ptrs[mcount] by {
            if a < before.len() {
                assert(cur[a] == before[a]);
                assert(ptrs[mcount - 1] <= ptrs[mcount]);
            } else {
                assert(cur[a] == mine[a - before.len()]);
            }
        }
    }
}

/// How many edges of `es` have source atom `i`.
pub open spec fn count_src(es: Seq<(usize, Candidate)>, i: int) -> int
    decreases es.len(),
{
    if es.len() == 0 {
        0
    } else {
        count_src(es.drop_last(), i) + if es.last().0 == i {
            1int
        } else {
            0int
        }
    }
}

/// Counting distributes over concatenation.
proof fn lemma_count_concat(a: Seq<(usize, Candidate)>, b: Seq<(usize, Candidate)>, i: int)
    ensures
        count_src(a + b, i) == count_src(a, i) + count_src(b, i),
    decreases b.len(),
{
    if b.len() == 0 {
        assert(a + b =~= a);
    } else {
        lemma_count_concat(a, b.drop_last(), i);
        assert((a + b).drop_last() =~= a + b.drop_last());
        assert((a + b).last() == b.last());
    }
}

/// One atom's tagged list counts its own length for that atom and nothing
/// for any other.
proof fn lemma_count_tag(j: int, cs: Seq<Candidate>, i: int)
    ensures
        count_src(tag_src(j, cs), i) == if ((j as usize) as int) == i {
            cs.len() as int
        } else {
            0int
        },
    decreases cs.len(),
{
    if cs.len() == 0 {
    } else {
        lemma_count_tag(j, cs.drop_last(), i);
        assert(tag_src(j, cs).drop_last() =~= tag_src(j, cs.drop_last()));
        assert(tag_src(j, cs).last() == ((j as usize), cs.last()));
    }
}

/// A list whose sources all differ from `i` counts nothing for `i`.
proof fn lemma_count_zero(es: Seq<(usize, Candidate)>, i: int)
    requires
        forall|a: int| 0 <= a < es.len() ==> (#[trigger] es[a]).0 != i,
    ensures
        count_src(es, i) == 0,
    decreases es.len(),
{
    if es.len() > 0 {
        assert(forall|a: int|
            0 <= a < es.drop_last().len() ==> (#[trigger] es.drop_last()[a]).0 == es[a].0);
        lemma_count_zero(es.drop_last(), i);
        assert(es.last() == es[es.len() - 1]);
    }
}

/// Within one molecule, atom `i` sources exactly its own neighbor list.
proof fn lemma_mol_count(
    pos: Seq<i64>,
    start: int,
    end: int,
    upto: int,
    c2: int,
    k: nat,
    i: int,
)
    requires
        0 <= start <= upto <= end <= usize::MAX,
        0 <= i <= usize::MAX,
    ensures
        count_src(mol_edges_upto(pos, start, end, upto, c2, k), i) == if start <= i < upto {
            atom_edges(pos, start, end, i, c2, k).len() as int
        } else {
            0int
        },
    decreases upto - start,
{
    if upto <= start {
    } else {
        lemma_mol_count(pos, start, end, upto - 1, c2, k, i);
        let j = upto - 1;
        lemma_count_concat(
            mol_edges_upto(pos, start, end, upto - 1, c2, k),
            tag_src(j, atom_edges(pos, start, end, j, c2, k)),
            i,
        );
        lemma_count_tag(j, atom_edges(pos, start, end, j, c2, k), i);
    }
}

/// Per-atom degree bound: in the whole batch, an atom of molecule `m`
/// sources at most `k` edges, and at most one per other atom of its
/// molecule.
pub proof fn lemma_degree_bound(
    pos: Seq<i64>,
    ptrs: Seq<usize>,
    c2: int,
    k: nat,
    m: int,
    i: int,
)
    requires
        valid_mol_ptrs(ptrs),
        positions_contiguous(pos, ptrs),
        coords_ok(pos),
        pos.len() <= usize::MAX,
        0 <= m < ptrs.len() - 1,
        ptrs[m] <= i < ptrs[m + 1],
    ensures
        count_src(batch_edges(pos, ptrs, c2, k), i) == atom_edges(
            pos,
            ptrs[m] as int,
            ptrs[m + 1] as int,
            i,
            c2,
            k,
        ).len(),
        count_src(batch_edges(pos, ptrs, c2, k), i) <= k,
        count_src(batch_edges(pos, ptrs, c2, k), i) <= ptrs[m + 1] - ptrs[m] - 1,
{
    lemma_batch_count(pos, ptrs, ptrs.len() - 1, c2, k, m, i);
    lemma_ptrs_mono(ptrs, m + 1, ptrs.len() - 1);
    lemma_atom_edges_props(pos, ptrs[m] as int, ptrs[m + 1] as int, i, c2, k);
    lemma_candidates_count(pos, ptrs[m] as int, ptrs[m + 1] as int, i, c2);
}

/// Molecule by molecule, only the molecule that owns atom `i` contributes
/// edges with source `i`.
proof fn lemma_batch_count(
    pos: Seq<i64>,
    ptrs: Seq<usize>,
    mcount: int,
    c2: int,
    k: nat,
    m: int,
    i: int,
)
    requires
        valid_mol_ptrs(ptrs),
        positions_contiguous(pos, ptrs),
        coords_ok(pos),
        pos.len() <= usize::MAX,
        0 <= m < ptrs.len() - 1,
        ptrs[m] <= i < ptrs[m + 1],
        0 <= mcount <= ptrs.len() - 1,
    ensures
        count_src(batch_edges_upto(pos, ptrs, mcount, c2, k), i) == if m < mcount {
            atom_edges(pos, ptrs[m] as int, ptrs[m + 1] as int, i, c2, k).len() as int
        } else {
            0int
        },
    decreases mcount,
{
    if mcount <= 0 {
    } else {
        lemma_batch_count(pos, ptrs, mcount - 1, c2, k, m, i);
        let w = mcount - 1;
        let start = ptrs[w] as int;
        let end = ptrs[mcount] as int;
        let mine = mol_edges(pos, start, end, c2, k);
        lemma_count_concat(batch_edges_upto(pos, ptrs, mcount - 1, c2, k), mine, i);
        if w == m {
            lemma_mol_count(pos, start, end, end, c2, k, i);
        } else {
            lemma_ptrs_mono(ptrs, w, ptrs.len() - 1);
            lemma_ptrs_mono(ptrs, mcount, ptrs.len() - 1);
            lemma_mol_edges_geom(pos, start, end, end, c2, k);
            if w < m {
                lemma_ptrs_mono(ptrs, mcount, m);
            } else {
                lemma_ptrs_mono(ptrs, m + 1, w);
            }
            assert forall|a: int| 0 <= a < mine.len() implies (#[trigger] mine[a]).0 != i by {
                assert(start <= mine[a].0 < end);
            }
            lemma_count_zero(mine, i);
        }
    }
}

/// The same candidates with every destination moved up by `off`.
pub open spec fn shift_cands(cs: Seq<Candidate>, off: int) -> Seq<Candidate> {
    Seq::new(
        cs.len(),
        |a: int|
            Candidate {
                dst: (cs[a].dst + off) as usize,
                dist2: cs[a].dist2,
                rx: cs[a].rx,
                ry: cs[a].ry,
                rz: cs[a].rz,
            },
    )
}

/// The same edges with both endpoints moved up by `off`.
pub open spec fn shift_edges(es: Seq<(usize, Candidate)>, off: int) -> Seq<(usize, Candidate)> {
    Seq::new(
        es.len(),
        |a: int|
            (
                (es[a].0 + off) as usize,
                Candidate {
                    dst: (es[a].1.dst + off) as usize,
                    dist2: es[a].1.dist2,
                    rx: es[a].1.rx,
                    ry: es[a].1.ry,
                    rz: es[a].1.rz,
                },
            ),
    )
}

/// Where a candidate lands in a selection depends only on distances.
proof fn lemma_insert_pos_congruent(
    sel: Seq<int>,
    s1: Seq<Candidate>,
    s2: Seq<Candidate>,
    key: u64,
)
    requires
        s1.len() == s2.len(),
        forall|x: int| 0 <= x < s1.len() ==> (#[trigger] s1[x]).dist2 == s2[x].dist2,
        forall|a: int| 0 <= a < sel.len() ==> 0 <= #[trigger] sel[a] < s1.len(),
    ensures
        insert_pos(sel, s1, key) == insert_pos(sel, s2, key),
    decreases sel.len(),
{
    if sel.len() > 0 {
        let rest = sel.drop_first();
        assert(forall|a: int| 0 <= a < rest.len() ==> #[trigger] rest[a] == sel[a + 1]);
        lemma_insert_pos_congruent(rest, s1, s2, key);
        assert(s1[sel[0]].dist2 == s2[sel[0]].dist2);
    }
}

/// Which candidates a selection keeps depends only on distances.
proof fn lemma_selection_congruent(s1: Seq<Candidate>, s2: Seq<Candidate>, k: nat)
    requires
        s1.len() == s2.len(),
        forall|x: int| 0 <= x < s1.len() ==> (#[trigger] s1[x]).dist2 == s2[x].dist2,
    ensures
        selection(s1, k) == selection(s2, k),
    decreases s1.len(),
{
    if s1.len() > 0 {
        let p1 = s1.drop_last();
        let p2 = s2.drop_last();
        assert(forall|x: int| 0 <= x < p1.len() ==> (#[trigger] p1[x]).dist2 == p2[x].dist2);
        lemma_selection_congruent(p1, p2, k);
        lemma_selection_wf(p1, k);
        lemma_insert_pos_congruent(selection(p1, k), p1, p2, s1.last().dist2);
        assert(s1.last().dist2 == s2.last().dist2);
    }
}

/// A molecule's candidate streams in the batch and in the molecule taken
/// alone are the same candidates, destinations shifted by the molecule's
/// offset.
proof fn lemma_candidates_shift(pos: Seq<i64>, start: int, end: int, hi: int, i: int, c2: int)
    requires
        0 <= start <= i < end <= usize::MAX,
        start <= hi <= end,
        3 * end <= pos.len(),
    ensures
        candidates_for(pos, start, hi, i, c2) == shift_cands(
            candidates_for(pos.subrange(3 * start, 3 * end), 0, hi - start, i - start, c2),
            start,
        ),
    decreases hi - start,
{
    let sub = pos.subrange(3 * start, 3 * end);
    if hi <= start {
        assert(candidates_for(pos, start, hi, i, c2) =~= shift_cands(
            candidates_for(sub, 0, hi - start, i - start, c2),
            start,
        ));
    } else {
        lemma_candidates_shift(pos, start, end, hi - 1, i, c2);
        let j = hi - 1;
        let jj = j - start;
        let ii = i - start;
        assert(sub[3 * jj] == pos[3 * j] && sub[3 * jj + 1] == pos[3 * j + 1] && sub[3 * jj + 2]
            == pos[3 * j + 2]);
        assert(sub[3 * ii] == pos[3 * i] && sub[3 * ii + 1] == pos[3 * i + 1] && sub[3 * ii + 2]
            == pos[3 * i + 2]);
        assert(sq_dist(sub, ii, jj) == sq_dist(pos, i, j));
        let rest = candidates_for(pos, start, hi - 1, i, c2);
        let srest = candidates_for(sub, 0, hi - 1 - start, ii, c2);
        if j != i && sq_dist(pos, i, j) <= c2 {
            assert(candidates_for(pos, start, hi, i, c2) == rest.push(candidate_of(pos, i, j)));
            assert(candidates_for(sub, 0, hi - start, ii, c2) == srest.push(
                candidate_of(sub, ii, jj),
            ));
            assert(candidates_for(pos, start, hi, i, c2) =~= shift_cands(
                srest.push(candidate_of(sub, ii, jj)),
                start,
            ));
        } else {
            assert(candidates_for(sub, 0, hi - start, ii, c2) == srest);
        }
    }
}

/// One atom's neighbor list in the batch equals its list in the molecule
/// taken alone, destinations shifted by the molecule's offset.
proof fn lemma_atom_edges_shift(pos: Seq<i64>, start: int, end: int, i: int, c2: int, k: nat)
    requires
        0 <= start <= i < end <= usize::MAX,
        3 * end <= pos.len(),
    ensures
        atom_edges(pos, start, end, i, c2, k) == shift_cands(
            atom_edges(pos.subrange(3 * start, 3 * end), 0, end - start, i - start, c2, k),
            start,
        ),
{
    let sub = pos.subrange(3 * start, 3 * end);
    let cands = candidates_for(pos, start, end, i, c2);
    let scands = candidates_for(sub, 0, end - start, i - start, c2);
    lemma_candidates_shift(pos, start, end, end, i, c2);
    assert(cands == shift_cands(scands, start));
    assert(forall|x: int| 0 <= x < scands.len() ==> (#[trigger] cands[x]).dist2 == scands[x].dist2);
    lemma_selection_congruent(cands, scands, k);
    lemma_selection_wf(scands, k);
    let sel = selection(scands, k);
    assert(atom_edges(pos, start, end, i, c2, k) =~= shift_cands(
        atom_edges(sub, 0, end - start, i - start, c2, k),
        start,
    ));
}

/// A molecule's edges in the batch equal the edges of the molecule taken
/// alone, every index shifted by the molecule's offset.
proof fn lemma_mol_edges_shift(pos: Seq<i64>, start: int, end: int, upto: int, c2: int, k: nat)
    requires
        0 <= start <= upto <= end <= usize::MAX,
        3 * end <= pos.len(),
    ensures
        mol_edges_upto(pos, start, end, upto, c2, k) == shift_edges(
            mol_edges_upto(pos.subrange(3 * start, 3 * end), 0, end - start, upto - start, c2, k),
            start,
        ),
    decreases upto - start,
{
    let sub = pos.subrange(3 * start, 3 * end);
    if upto <= start {
        assert(mol_edges_upto(pos, start, end, upto, c2, k) =~= shift_edges(
            mol_edges_upto(sub, 0, end - start, upto - start, c2, k),
            start,
        ));
    } else {
        lemma_mol_edges_shift(pos, start, end, upto - 1, c2, k);
        let i = upto - 1;
        lemma_atom_edges_shift(pos, start, end, i, c2, k);
        let before = mol_edges_upto(pos, start, end, upto - 1, c2, k);
        let mine = tag_src(i, atom_edges(pos, start, end, i, c2, k));
        let sbefore = mol_edges_upto(sub, 0, end - start, upto - 1 - start, c2, k);
        let smine = tag_src(i - start, atom_edges(sub, 0, end - start, i - start, c2, k));
        assert(mol_edges_upto(pos, start, end, upto, c2, k) == before + mine);
        assert(mol_edges_upto(sub, 0, end - start, upto - start, c2, k) == sbefore + smine);
        assert forall|a: int| 0 <= a < (before + mine).len() implies #[trigger] (before + mine)[a]
            == shift_edges(sbefore + smine, start)[a] by {
            if a < before.len() {
                assert((before + mine)[a] == before[a]);
                assert((sbefore + smine)[a] == sbefore[a]);
                assert(before[a] == shift_edges(sbefore, start)[a]);
            } else {
                let b = a - before.len();
                assert((before + mine)[a] == mine[b]);
                assert((sbefore + smine)[a] == smine[b]);
                assert(mine[b] == (
                    (i as usize),
                    shift_cands(atom_edges(sub, 0, end - start, i - start, c2, k), start)[b],
                ));
            }
        }
        assert(mol_edges_upto(pos, start, end, upto, c2, k) =~= shift_edges(
            mol_edges_upto(sub, 0, end - start, upto - start, c2, k),
            start,
        ));
    }
}

/// The batched builder does not leak across molecules: molecule `m`'s
/// segment of the batch edge list equals what the builder returns for that
/// molecule's positions alone, as a batch of one molecule, with every atom
/// index shifted up by the molecule's starting offset.
pub proof fn lemma_molecule_independent(pos: Seq<i64>, ptrs: Seq<usize>, c2: int, k: nat, m: int)
    requires
        valid_mol_ptrs(ptrs),
        positions_contiguous(pos, ptrs),
        pos.len() <= usize::MAX,
        0 <= m < ptrs.len() - 1,
    ensures
        batch_edges(pos, ptrs, c2, k).subrange(
            batch_edges_upto(pos, ptrs, m, c2, k).len() as int,
            batch_edges_upto(pos, ptrs, m + 1, c2, k).len() as int,
        ) == shift_edges(
            batch_edges(
                pos.subrange(3 * ptrs[m], 3 * ptrs[m + 1]),
                seq![0usize, (ptrs[m + 1] - ptrs[m]) as usize],
                c2,
                k,
            ),
            ptrs[m] as int,
        ),
{
    let start = ptrs[m] as int;
    let end = ptrs[m + 1] as int;
    lemma_ptrs_mono(ptrs, m + 1, ptrs.len() - 1);
    let sub = pos.subrange(3 * start, 3 * end);
    let single = seq![0usize, (end - start) as usize];
    // The one-molecule batch is just that molecule's edge list.
    assert(batch_edges_upto(sub, single, 0, c2, k) =~= Seq::<(usize, Candidate)>::empty());
    assert(batch_edges(sub, single, c2, k) =~= mol_edges(sub, 0, end - start, c2, k));
    lemma_mol_edges_shift(pos, start, end, end, c2, k);
    lemma_batch_segment(pos, ptrs, ptrs.len() - 1, c2, k, m);
}

/// Molecule `m`'s segment of the first `mc` molecules' edges is its own
/// molecule edge list.
proof fn lemma_batch_segment(pos: Seq<i64>, ptrs: Seq<usize>, mc: int, c2: int, k: nat, m: int)
    requires
        0 <= m < mc <= ptrs.len() - 1,
    ensures
        batch_edges_upto(pos, ptrs, m, c2, k).len() <= batch_edges_upto(
            pos,
            ptrs,
            m + 1,
            c2,
            k,
        ).len() <= batch_edges_upto(pos, ptrs, mc, c2, k).len(),
        batch_edges_upto(pos, ptrs, mc, c2, k).subrange(
            batch_edges_upto(pos, ptrs, m, c2, k).len() as int,
            batch_edges_upto(pos, ptrs, m + 1, c2, k).len() as int,
        ) == mol_edges(pos, ptrs[m] as int, ptrs[m + 1] as int, c2, k),
    decreases mc,
{
    let lo = batch_edges_upto(pos, ptrs, m, c2, k).len() as int;
    let hi = batch_edges_upto(pos, ptrs, m + 1, c2, k).len() as int;
    let mine = mol_edges(pos, ptrs[m] as int, ptrs[m + 1] as int, c2, k);
    if mc == m + 1 {
        assert(batch_edges_upto(pos, ptrs, mc, c2, k) == batch_edges_upto(pos, ptrs, m, c2, k)
            + mine);
        assert(batch_edges_upto(pos, ptrs, mc, c2, k).subrange(lo, hi) =~= mine);
    } else {
        lemma_batch_segment(pos, ptrs, mc - 1, c2, k, m);
        let before = batch_edges_upto(pos, ptrs, mc - 1, c2, k);
        assert(batch_edges_upto(pos, ptrs, mc, c2, k) == before + mol_edges(
            pos,
            ptrs[mc - 1] as int,
            ptrs[mc] as int,
            c2,
            k,
        ));
        assert(batch_edges_upto(pos, ptrs, mc, c2, k).subrange(lo, hi) =~= before.subrange(lo, hi));
    }
}

} // verus!
