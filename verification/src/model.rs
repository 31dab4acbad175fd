//! Feature aggregation and linear projection over a neighbor graph.
//!
//! For every edge the engine expands the edge length into a sum of radial
//! basis responses — each evaluated with the deliberately inexact fifth-order
//! polynomial stand-in for the exponential — and accumulates the destination
//! atom's feature row, scaled by that sum, into the source atom's row. A
//! dense square weight matrix then maps every aggregated row to an output
//! row. All arithmetic is fixed-point (see [`crate::fixed`]), and the result
//! is pinned down exactly, term by term, by the spec functions here.

use vstd::prelude::*;

verus! {

use vstd::arithmetic::div_mod::lemma_fundamental_div_mod;
use vstd::arithmetic::div_mod::lemma_div_is_ordered;
use vstd::arithmetic::div_mod::lemma_div_pos_is_pos;
use crate::fixed::SCALE;
use crate::fixed::div_floor;
use crate::fixed::fx_mul;
use crate::fixed::fx_mul_wide;
use crate::fixed::isqrt;
use crate::fixed::lemma_div_bound_abs;
use crate::fixed::lemma_fxm_bound;
use crate::connectivity::Rel;

/// Largest number of radial basis centers the engine accepts.
pub const RBF_LIMIT: usize = 64;

/// Largest feature width the engine accepts.
pub const DIM_LIMIT: usize = 1024;

/// Largest cutoff the engine accepts.
pub const CUTOFF_LIMIT: i64 = 16777216;

/// Largest feature magnitude the engine accepts.
pub const FEATURE_LIMIT: i64 = 16777216;

/// Largest weight magnitude the engine accepts.
pub const WEIGHT_LIMIT: i64 = 16777216;

/// Largest edge count the engine accepts.
pub const EDGE_LIMIT: usize = 262144;

/// Fixed-point product of two scalars.
pub open spec fn fxm(a: int, b: int) -> int {
    (a * b) / (SCALE as int)
}

/// Spacing between neighboring radial basis centers.
pub open spec fn rbf_step(cutoff: int, nrbf: int) -> int {
    cutoff / nrbf
}

/// Center `c` of the radial basis: `c` times the spacing, so the centers
/// cover `[0, cutoff)` evenly.
pub open spec fn rbf_center(cutoff: int, nrbf: int, c: int) -> int {
    c * rbf_step(cutoff, nrbf)
}

/// The shared width parameter: one half over the squared spacing, as a
/// fixed-point scalar.
pub open spec fn rbf_gamma(cutoff: int, nrbf: int) -> int {
    (SCALE as int * SCALE as int * SCALE as int) / (2 * rbf_step(cutoff, nrbf) * rbf_step(
        cutoff,
        nrbf,
    ))
}

/// The fifth-order polynomial stand-in for the exponential: the Taylor
/// expansion of `exp` through the fifth power, evaluated in fixed point.
/// Deliberately inexact away from zero.
pub open spec fn poly_exp(x: int) -> int {
    let x2 = fxm(x, x);
    let x3 = fxm(x2, x);
    let x4 = fxm(x3, x);
    let x5 = fxm(x4, x);
    SCALE as int + x + x2 / 2 + x3 / 6 + x4 / 24 + x5 / 120
}

/// The (negated) argument handed to the exponential for one center:
/// `gamma` times the squared offset of the distance from the center.
pub open spec fn rbf_arg_mag(d: int, mu: int, gamma: int) -> int {
    fxm(gamma, fxm(d - mu, d - mu))
}

/// Sum of the first `c` radial basis responses at distance `d`.
pub open spec fn rbf_sum_upto(d: int, cutoff: int, nrbf: int, c: int) -> int
    decreases c,
{
    if c <= 0 {
        0
    } else {
        rbf_sum_upto(d, cutoff, nrbf, c - 1) + poly_exp(
            -rbf_arg_mag(d, rbf_center(cutoff, nrbf, c - 1), rbf_gamma(cutoff, nrbf)),
        )
    }
}

/// The scalar weight of an edge of length `d`: the sum of all `nrbf` radial
/// basis responses.
pub open spec fn rbf_sum(d: int, cutoff: int, nrbf: int) -> int {
    rbf_sum_upto(d, cutoff, nrbf, nrbf)
}

/// `r` is the floor of the square root of `x`.
pub open spec fn is_floor_sqrt(x: int, r: int) -> bool {
    0 <= r && r * r <= x && x < (r + 1) * (r + 1)
}

/// The floor of the square root.
pub open spec fn sqrt_floor(x: int) -> int {
    choose|r: int| is_floor_sqrt(x, r)
}

/// A witness pins the floor square root down.
pub proof fn lemma_sqrt_unique(x: int, r: int)
    requires
        is_floor_sqrt(x, r),
    ensures
        sqrt_floor(x) == r,
{
    assert(is_floor_sqrt(x, sqrt_floor(x)));
    let rr = sqrt_floor(x);
    assert(rr == r) by (nonlinear_arith)
        requires
            0 <= r,
            r * r <= x,
            x < (r + 1) * (r + 1),
            0 <= rr,
            rr * rr <= x,
            x < (rr + 1) * (rr + 1),
    ;
}

/// Squared length of a displacement.
pub open spec fn rel_sq(rel: Rel) -> int {
    rel.x * rel.x + rel.y * rel.y + rel.z * rel.z
}

/// The scalar weight of an edge with displacement `rel`.
pub open spec fn edge_weight(rel: Rel, cutoff: int, nrbf: int) -> int {
    rbf_sum(sqrt_floor(rel_sq(rel)), cutoff, nrbf)
}

/// The radial basis centers, least first.
pub fn compute_rbf_centers(num_rbf: usize, cutoff: i64) -> (r: Vec<i64>)
    requires
        1 <= num_rbf <= RBF_LIMIT,
        3 * num_rbf <= cutoff <= CUTOFF_LIMIT,
    ensures
        r@.len() == num_rbf,
        forall|c: int|
            0 <= c < num_rbf ==> #[trigger] r@[c] == rbf_center(cutoff as int, num_rbf as int, c),
        forall|c: int| 0 <= c < num_rbf ==> 0 <= #[trigger] r@[c] <= cutoff,
{
    let step = ((cutoff as u64) / (num_rbf as u64)) as i64;
    let ghost rem = (cutoff as int) % (num_rbf as int);
    proof {
        assert(step == rbf_step(cutoff as int, num_rbf as int));
        lemma_fundamental_div_mod(cutoff as int, num_rbf as int);
        lemma_div_pos_is_pos(cutoff as int, num_rbf as int);
    }
    let mut r: Vec<i64> = Vec::new();
    let mut c: usize = 0;
    while c < num_rbf
        invariant
            c <= num_rbf,
            num_rbf <= RBF_LIMIT,
            step == rbf_step(cutoff as int, num_rbf as int),
            0 <= step,
            cutoff <= CUTOFF_LIMIT,
            cutoff as int == (num_rbf as int) * step + rem,
            0 <= rem,
            r@.len() == c,
            forall|w: int| 0 <= w < c ==> #[trigger] r@[w] == w * step,
            forall|w: int| 0 <= w < c ==> 0 <= #[trigger] r@[w] <= cutoff,
        decreases num_rbf - c,
    {
        proof {
            assert(0 <= (c as int) * step <= cutoff) by (nonlinear_arith)
                requires
                    0 <= (c as int) && (c as int) < (num_rbf as int),
                    step >= 0,
                    cutoff as int == (num_rbf as int) * step + rem,
                    rem >= 0,
            ;
        }
        r.push((c as i64) * step);
        c = c + 1;
    }
    r
}

/// The shared width parameter as a fixed-point scalar.
pub fn compute_rbf_gamma(num_rbf: usize, cutoff: i64) -> (r: i64)
    requires
        1 <= num_rbf <= RBF_LIMIT,
        3 * num_rbf <= cutoff <= CUTOFF_LIMIT,
    ensures
        r == rbf_gamma(cutoff as int, num_rbf as int),
        0 <= r <= 0x100000000000,
{
    let step = (cutoff as u64) / (num_rbf as u64);
    proof {
        assert(step == rbf_step(cutoff as int, num_rbf as int));
        lemma_step_at_least_three(cutoff as int, num_rbf as int);
        assert(18 <= 2 * (step as int) * (step as int) <= 0x2000000000000) by (nonlinear_arith)
            requires
                3 <= step as int <= 0x1000000,
        ;
        lemma_div_is_ordered_by_denominator_wrap(
            281474976710656,
            18,
            2 * (step as int) * (step as int),
        );
        assert(281474976710656int / 18 <= 0x100000000000);
        lemma_div_pos_is_pos(281474976710656, 2 * (step as int) * (step as int));
    }
    let g = 281474976710656u128 / (2 * (step as u128) * (step as u128));
    g as i64
}

/// With a cutoff of at least three spacings' worth of centers, the spacing
/// itself is at least three.
proof fn lemma_step_at_least_three(cutoff: int, nrbf: int)
    requires
        1 <= nrbf,
        3 * nrbf <= cutoff,
    ensures
        rbf_step(cutoff, nrbf) >= 3,
        rbf_step(cutoff, nrbf) <= cutoff,
{
    lemma_fundamental_div_mod(cutoff, nrbf);
    let q = cutoff / nrbf;
    let r = cutoff % nrbf;
    assert(q >= 3 && q <= cutoff) by (nonlinear_arith)
        requires
            cutoff == nrbf * q + r,
            0 <= r < nrbf,
            1 <= nrbf,
            3 * nrbf <= cutoff,
    ;
}

/// A larger denominator cannot give a larger quotient (positive dividend).
proof fn lemma_div_is_ordered_by_denominator_wrap(x: int, d1: int, d2: int)
    requires
        x >= 0,
        1 <= d1 <= d2,
    ensures
        x / d2 <= x / d1,
{
    vstd::arithmetic::div_mod::lemma_div_is_ordered_by_denominator(x, d1, d2);
}

/// Bound on the magnitude of a [`poly_exp`] value over the admitted
/// argument range.
pub const POLY_EXP_BOUND: i128 = 0x8000000000000000000;

/// The fast exponential: evaluates [`poly_exp`] exactly.
pub fn fast_exp(x: i128) -> (r: i128)
    requires
        -268435456 <= x <= 0,
    ensures
        r == poly_exp(x as int),
        -POLY_EXP_BOUND <= r <= POLY_EXP_BOUND,
{
    proof {
        lemma_fxm_bound(x as int, x as int, 0x10000000, 0x10000000);
        assert(0x10000000int * 0x10000000 / (SCALE as int) == 0x10000000000);
    }
    let x2 = fx_mul(x, x);
    proof {
        assert(-0x20000000000 <= x2 <= 0x20000000000);
        lemma_fxm_bound(x2 as int, x as int, 0x20000000000, 0x10000000);
        assert(0x20000000000int * 0x10000000 / (SCALE as int) == 0x20000000000000);
    }
    let x3 = fx_mul(x2, x);
    proof {
        assert(-0x40000000000000 <= x3 <= 0x40000000000000);
        lemma_fxm_bound(x3 as int, x as int, 0x40000000000000, 0x10000000);
        assert(0x40000000000000int * 0x10000000 / (SCALE as int) == 0x40000000000000000);
    }
    let x4 = fx_mul(x3, x);
    proof {
        assert(-0x80000000000000000 <= x4 <= 0x80000000000000000);
        lemma_fxm_bound(x4 as int, x as int, 0x80000000000000000, 0x10000000);
        assert(0x80000000000000000int * 0x10000000 / (SCALE as int) == 0x80000000000000000000);
    }
    let x5 = fx_mul(x4, x);
    proof {
        assert(-0x100000000000000000000 <= x5 <= 0x100000000000000000000);
        lemma_div_bound_abs(x2 as int, 0x20000000000, 2);
        lemma_div_bound_abs(x3 as int, 0x40000000000000, 6);
        lemma_div_bound_abs(x4 as int, 0x80000000000000000, 24);
        lemma_div_bound_abs(x5 as int, 0x100000000000000000000, 120);
    }
    let r = (SCALE as i128) + x + div_floor(x2, 2) + div_floor(x3, 6) + div_floor(x4, 24)
        + div_floor(x5, 120);
    r
}

/// Over the admitted parameter range, the argument handed to the fast
/// exponential is nonpositive with magnitude at most `SCALE` times the
/// squared number of centers — within [`fast_exp`]'s range.
proof fn lemma_arg_bound(cutoff: int, nrbf: int, t: int)
    requires
        1 <= nrbf <= 64,
        3 * nrbf <= cutoff <= 0x1000000,
        -cutoff <= t <= cutoff,
    ensures
        0 <= fxm(rbf_gamma(cutoff, nrbf), fxm(t, t)) <= 268435456,
{
    let s = SCALE as int;
    let step = rbf_step(cutoff, nrbf);
    let gamma = rbf_gamma(cutoff, nrbf);
    let t2 = fxm(t, t);
    let x = fxm(gamma, t2);
    lemma_step_at_least_three(cutoff, nrbf);
    assert(2 * step * step > 0) by (nonlinear_arith)
        requires
            step >= 3,
    ;
    // gamma: nonnegative, and gamma * (2 step^2) is at most SCALE^3.
    lemma_fundamental_div_mod(s * s * s, 2 * step * step);
    lemma_div_pos_is_pos(s * s * s, 2 * step * step);
    assert(gamma * (2 * step * step) <= s * s * s) by (nonlinear_arith)
        requires
            s * s * s == (2 * step * step) * gamma + (s * s * s) % (2 * step * step),
            (s * s * s) % (2 * step * step) >= 0,
    ;
    // t2: nonnegative, and t2 * SCALE is at most cutoff^2.
    assert(0 <= t * t <= cutoff * cutoff) by (nonlinear_arith)
        requires
            -cutoff <= t <= cutoff,
            cutoff >= 0,
    ;
    lemma_fundamental_div_mod(t * t, s);
    lemma_div_pos_is_pos(t * t, s);
    assert(t2 * s <= cutoff * cutoff) by (nonlinear_arith)
        requires
            t * t == s * t2 + (t * t) % s,
            (t * t) % s >= 0,
            t * t <= cutoff * cutoff,
    ;
    // The cutoff is under (step + 1) molecules' worth of spacing, and
    // (step + 1)^2 is under 2 step^2 once step is at least three.
    lemma_fundamental_div_mod(cutoff, nrbf);
    assert(cutoff * cutoff <= (2 * step * step) * (nrbf * nrbf)) by (nonlinear_arith)
        requires
            cutoff == nrbf * step + cutoff % nrbf,
            0 <= cutoff % nrbf < nrbf,
            step >= 3,
            nrbf >= 1,
            cutoff >= 0,
    ;
    // Chain the three bounds and cancel the positive factor.
    assert((gamma * t2) * ((2 * step * step) * s) <= ((s * s) * (nrbf * nrbf)) * ((2 * step * step)
        * s)) by (nonlinear_arith)
        requires
            gamma * (2 * step * step) <= s * s * s,
            t2 * s <= cutoff * cutoff,
            cutoff * cutoff <= (2 * step * step) * (nrbf * nrbf),
            gamma >= 0,
            t2 >= 0,
            s > 0,
            2 * step * step > 0,
    ;
    assert(gamma * t2 <= (s * s) * (nrbf * nrbf)) by (nonlinear_arith)
        requires
            (gamma * t2) * ((2 * step * step) * s) <= ((s * s) * (nrbf * nrbf)) * ((2 * step * step)
                * s),
            (2 * step * step) * s > 0,
    ;
    assert(gamma * t2 >= 0) by (nonlinear_arith)
        requires
            gamma >= 0,
            t2 >= 0,
    ;
    lemma_div_pos_is_pos(gamma * t2, s);
    lemma_div_is_ordered(gamma * t2, (s * s) * (nrbf * nrbf), s);
    assert(((s * s) * (nrbf * nrbf)) == s * (s * (nrbf * nrbf))) by (nonlinear_arith);
    vstd::arithmetic::div_mod::lemma_div_multiples_vanish(s * (nrbf * nrbf), s);
    assert(s * (nrbf * nrbf) <= 268435456) by (nonlinear_arith)
        requires
            s == 65536,
            1 <= nrbf <= 64,
    ;
}

/// Bound on the magnitude of an edge's radial basis sum.
pub const RBF_SUM_BOUND: i128 = 0x200000000000000000000;

/// The radial basis sum for one edge length: [`rbf_sum`], evaluated exactly.
pub fn compute_rbf_sum(dist: i64, cutoff: i64, num_rbf: usize, centers: &Vec<i64>, gamma: i64) -> (r:
    i128)
    requires
        1 <= num_rbf <= RBF_LIMIT,
        3 * num_rbf <= cutoff <= CUTOFF_LIMIT,
        0 <= dist <= cutoff,
        centers@.len() == num_rbf,
        forall|c: int|
            0 <= c < num_rbf ==> #[trigger] centers@[c] == rbf_center(
                cutoff as int,
                num_rbf as int,
                c,
            ),
        forall|c: int| 0 <= c < num_rbf ==> 0 <= #[trigger] centers@[c] <= cutoff,
        gamma == rbf_gamma(cutoff as int, num_rbf as int),
        0 <= gamma <= 0x100000000000,
    ensures
        r == rbf_sum(dist as int, cutoff as int, num_rbf as int),
        -RBF_SUM_BOUND <= r <= RBF_SUM_BOUND,
{
    let mut sum: i128 = 0;
    let mut c: usize = 0;
    while c < num_rbf
        invariant
            c <= num_rbf,
            1 <= num_rbf <= RBF_LIMIT,
            3 * num_rbf <= cutoff <= CUTOFF_LIMIT,
            0 <= dist <= cutoff,
            centers@.len() == num_rbf,
            forall|w: int|
                0 <= w < num_rbf ==> #[trigger] centers@[w] == rbf_center(
                    cutoff as int,
                    num_rbf as int,
                    w,
                ),
            forall|w: int| 0 <= w < num_rbf ==> 0 <= #[trigger] centers@[w] <= cutoff,
            gamma == rbf_gamma(cutoff as int, num_rbf as int),
            0 <= gamma <= 0x100000000000,
            sum == rbf_sum_upto(dist as int, cutoff as int, num_rbf as int, c as int),
            -(c as i128) * POLY_EXP_BOUND <= sum <= (c as i128) * POLY_EXP_BOUND,
        decreases num_rbf - c,
    {
        let mu = centers[c];
        let t = dist - mu;
        let t128 = t as i128;
        proof {
            lemma_fxm_bound(t128 as int, t128 as int, 0x1000000, 0x1000000);
            assert(0x1000000int * 0x1000000 / (SCALE as int) == 0x100000000);
        }
        let t2 = fx_mul(t128, t128);
        proof {
            lemma_arg_bound(cutoff as int, num_rbf as int, t as int);
            lemma_fxm_bound(gamma as int, t2 as int, 0x100000000000, 0x100000001);
        }
        let argm = fx_mul(gamma as i128, t2);
        assert(argm == rbf_arg_mag(
            dist as int,
            rbf_center(cutoff as int, num_rbf as int, c as int),
            gamma as int,
        ));
        assert(0 <= argm <= 268435456);
        let e = fast_exp(-argm);
        proof {
            assert((c as i128 + 1) * POLY_EXP_BOUND == (c as i128) * POLY_EXP_BOUND
                + POLY_EXP_BOUND) by (nonlinear_arith);
            assert((c as i128) * POLY_EXP_BOUND <= 64 * POLY_EXP_BOUND) by (nonlinear_arith)
                requires
                    0 <= c as i128 <= 64,
            ;
        }
        sum = sum + e;
        c = c + 1;
    }
    proof {
        assert((num_rbf as i128) * POLY_EXP_BOUND <= RBF_SUM_BOUND) by (nonlinear_arith)
            requires
                0 <= num_rbf as i128 <= 64,
        ;
    }
    sum
}

/// An all-zero accumulator of the given length.
pub open spec fn zero_row(n: int) -> Seq<int> {
    Seq::new(n as nat, |t: int| 0)
}

/// A machine-word sequence read as a sequence of mathematical integers.
pub open spec fn ints(s: Seq<i128>) -> Seq<int> {
    Seq::new(s.len(), |t: int| s[t] as int)
}

/// One aggregation step: add the destination's feature row, scaled by the
/// edge weight `w`, into the source's accumulator row.
pub open spec fn agg_step(
    acc: Seq<int>,
    feats: Seq<i64>,
    dim: int,
    src: int,
    dst: int,
    w: int,
) -> Seq<int> {
    Seq::new(
        acc.len(),
        |t: int|
            if src * dim <= t < (src + 1) * dim {
                acc[t] + fxm(w, feats[dst * dim + (t - src * dim)] as int)
            } else {
                acc[t]
            },
    )
}

/// The accumulator after the first `e` edges, in edge-list order.
pub open spec fn aggregate_upto(
    feats: Seq<i64>,
    dim: int,
    n_atoms: int,
    srcs: Seq<usize>,
    dsts: Seq<usize>,
    rels: Seq<Rel>,
    cutoff: int,
    nrbf: int,
    e: int,
) -> Seq<int>
    decreases e,
{
    if e <= 0 {
        zero_row(n_atoms * dim)
    } else {
        agg_step(
            aggregate_upto(feats, dim, n_atoms, srcs, dsts, rels, cutoff, nrbf, e - 1),
            feats,
            dim,
            srcs[e - 1] as int,
            dsts[e - 1] as int,
            edge_weight(rels[e - 1], cutoff, nrbf),
        )
    }
}

/// The aggregated feature matrix: sequential accumulation over the whole
/// edge list.
pub open spec fn aggregate_spec(
    feats: Seq<i64>,
    dim: int,
    n_atoms: int,
    srcs: Seq<usize>,
    dsts: Seq<usize>,
    rels: Seq<Rel>,
    cutoff: int,
    nrbf: int,
) -> Seq<int> {
    aggregate_upto(feats, dim, n_atoms, srcs, dsts, rels, cutoff, nrbf, srcs.len() as int)
}

/// The fixed-point dot product of weight row `o` with atom `atom`'s
/// accumulator row, over the first `d` entries.
pub open spec fn dot_upto(w: Seq<i64>, acc: Seq<int>, dim: int, atom: int, o: int, d: int) -> int
    decreases d,
{
    if d <= 0 {
        0
    } else {
        dot_upto(w, acc, dim, atom, o, d - 1) + fxm(
            w[o * dim + (d - 1)] as int,
            acc[atom * dim + (d - 1)],
        )
    }
}

/// The projected output matrix: every output row is the weight matrix
/// applied to that atom's aggregated row.
pub open spec fn project_spec(w: Seq<i64>, acc: Seq<int>, dim: int, n_atoms: int) -> Seq<int> {
    Seq::new((n_atoms * dim) as nat, |t: int| dot_upto(w, acc, dim, t / dim, t % dim, dim))
}

/// The whole engine: aggregation, then projection.
pub open spec fn infer_spec(
    feats: Seq<i64>,
    dim: int,
    n_atoms: int,
    srcs: Seq<usize>,
    dsts: Seq<usize>,
    rels: Seq<Rel>,
    cutoff: int,
    nrbf: int,
    w: Seq<i64>,
) -> Seq<int> {
    project_spec(
        w,
        aggregate_spec(feats, dim, n_atoms, srcs, dsts, rels, cutoff, nrbf),
        dim,
        n_atoms,
    )
}

/// A well-shaped edge list: parallel sequences of one length, within the
/// edge cap, every endpoint a valid atom, every displacement within the
/// cutoff.
pub open spec fn edges_ok(
    srcs: Seq<usize>,
    dsts: Seq<usize>,
    rels: Seq<Rel>,
    n_atoms: int,
    cutoff: int,
) -> bool {
    &&& dsts.len() == srcs.len()
    &&& rels.len() == srcs.len()
    &&& srcs.len() <= EDGE_LIMIT
    &&& (forall|e: int| 0 <= e < srcs.len() ==> #[trigger] srcs[e] < n_atoms)
    &&& (forall|e: int| 0 <= e < srcs.len() ==> #[trigger] dsts[e] < n_atoms)
    &&& (forall|e: int| 0 <= e < srcs.len() ==> rel_sq(#[trigger] rels[e]) <= cutoff * cutoff)
}

/// Every feature within the accepted magnitude.
pub open spec fn feats_ok(feats: Seq<i64>) -> bool {
    forall|t: int| 0 <= t < feats.len() ==> -FEATURE_LIMIT <= #[trigger] feats[t] <= FEATURE_LIMIT
}

/// The accumulator keeps its shape through every step.
proof fn lemma_aggregate_len(
    feats: Seq<i64>,
    dim: int,
    n_atoms: int,
    srcs: Seq<usize>,
    dsts: Seq<usize>,
    rels: Seq<Rel>,
    cutoff: int,
    nrbf: int,
    e: int,
)
    requires
        n_atoms >= 0,
        dim >= 0,
    ensures
        aggregate_upto(feats, dim, n_atoms, srcs, dsts, rels, cutoff, nrbf, e).len() == n_atoms
            * dim,
    decreases e,
{
    assert(n_atoms * dim >= 0) by (nonlinear_arith)
        requires
            n_atoms >= 0,
            dim >= 0,
    ;
    if e > 0 {
        lemma_aggregate_len(feats, dim, n_atoms, srcs, dsts, rels, cutoff, nrbf, e - 1);
    }
}

/// Bound on the magnitude of one aggregation term.
pub const AGG_TERM_BOUND: i128 = 0x40000000000000000000000;

/// Bound on the magnitude of an aggregated entry.
pub const AGG_BOUND: i128 = 0x1000000000000000000000000000;

/// Aggregate neighbor features: for every edge, the accumulator row of its
/// source atom gains the feature row of its destination atom, scaled by the
/// edge's radial basis sum; rows of atoms with no outgoing edge stay zero.
pub fn aggregate_features(
    features: &Vec<i64>,
    n_atoms: usize,
    dim: usize,
    edge_src: &Vec<usize>,
    edge_dst: &Vec<usize>,
    edge_rel: &Vec<Rel>,
    cutoff: i64,
    num_rbf: usize,
) -> (r: Vec<i128>)
    requires
        features@.len() == n_atoms * dim,
        dim <= DIM_LIMIT,
        1 <= num_rbf <= RBF_LIMIT,
        3 * num_rbf <= cutoff <= CUTOFF_LIMIT,
        edges_ok(edge_src@, edge_dst@, edge_rel@, n_atoms as int, cutoff as int),
        feats_ok(features@),
    ensures
        r@.len() == n_atoms * dim,
        forall|t: int|
            0 <= t < r@.len() ==> #[trigger] r@[t] == aggregate_spec(
                features@,
                dim as int,
                n_atoms as int,
                edge_src@,
                edge_dst@,
                edge_rel@,
                cutoff as int,
                num_rbf as int,
            )[t],
        forall|t: int| 0 <= t < r@.len() ==> -AGG_BOUND <= #[trigger] r@[t] <= AGG_BOUND,
{
    let total = features.len();
    let centers = compute_rbf_centers(num_rbf, cutoff);
    let gamma = compute_rbf_gamma(num_rbf, cutoff);
    let mut acc: Vec<i128> = Vec::new();
    while acc.len() < total
        invariant
            acc@.len() <= total,
            forall|t: int| 0 <= t < acc@.len() ==> #[trigger] acc@[t] == 0,
        decreases total - acc@.len(),
    {
        acc.push(0);
    }
    let ghost gfeats = features@;
    let ghost gsrcs = edge_src@;
    let ghost gdsts = edge_dst@;
    let ghost grels = edge_rel@;
    proof {
        assert forall|t: int| 0 <= t < total implies acc@[t] == aggregate_upto(
            gfeats,
            dim as int,
            n_atoms as int,
            gsrcs,
            gdsts,
            grels,
            cutoff as int,
            num_rbf as int,
            0,
        )[t] by {
            assert(acc@[t] == 0);
        }
    }
    let n_edges = edge_src.len();
    let mut e: usize = 0;
    while e < n_edges
        invariant
            e <= n_edges,
            n_edges == gsrcs.len(),
            total == n_atoms * dim,
            features@ == gfeats,
            edge_src@ == gsrcs,
            edge_dst@ == gdsts,
            edge_rel@ == grels,
            features@.len() == total,
            dim <= DIM_LIMIT,
            1 <= num_rbf <= RBF_LIMIT,
            3 * num_rbf <= cutoff <= CUTOFF_LIMIT,
            edges_ok(gsrcs, gdsts, grels, n_atoms as int, cutoff as int),
            feats_ok(gfeats),
            centers@.len() == num_rbf,
            forall|c: int|
                0 <= c < num_rbf ==> #[trigger] centers@[c] == rbf_center(
                    cutoff as int,
                    num_rbf as int,
                    c,
                ),
            forall|c: int| 0 <= c < num_rbf ==> 0 <= #[trigger] centers@[c] <= cutoff,
            gamma == rbf_gamma(cutoff as int, num_rbf as int),
            0 <= gamma <= 0x100000000000,
            acc@.len() == total,
            forall|t: int|
                0 <= t < total ==> #[trigger] acc@[t] == aggregate_upto(
                    gfeats,
                    dim as int,
                    n_atoms as int,
                    gsrcs,
                    gdsts,
                    grels,
                    cutoff as int,
                    num_rbf as int,
                    e as int,
                )[t],
            forall|t: int|
                0 <= t < total ==> -(e as i128) * AGG_TERM_BOUND <= #[trigger] acc@[t] <= (
                e as i128) * AGG_TERM_BOUND,
        decreases n_edges - e,
    {
        let ghost prev = acc@;
        proof {
            let agge = aggregate_upto(
                gfeats,
                dim as int,
                n_atoms as int,
                gsrcs,
                gdsts,
                grels,
                cutoff as int,
                num_rbf as int,
                e as int,
            );
            lemma_aggregate_len(
                gfeats,
                dim as int,
                n_atoms as int,
                gsrcs,
                gdsts,
                grels,
                cutoff as int,
                num_rbf as int,
                e as int,
            );
            assert forall|t: int| 0 <= t < total implies ints(prev)[t] == agge[t] by {
                assert(acc@[t] == agge[t]);
            }
            assert(ints(prev) =~= agge);
        }
        let src = edge_src[e];
        let dst = edge_dst[e];
        let rel = edge_rel[e];
        proof {
            assert(rel_sq(grels[e as int]) <= (cutoff as int) * (cutoff as int));
            assert(-cutoff <= rel.x <= cutoff && -cutoff <= rel.y <= cutoff && -cutoff <= rel.z
                <= cutoff) by (nonlinear_arith)
                requires
                    rel.x * rel.x + rel.y * rel.y + rel.z * rel.z <= (cutoff as int) * (
                    cutoff as int),
                    cutoff > 0,
            ;
            assert(0 <= rel.x * rel.x <= 0x1000000000000) by (nonlinear_arith)
                requires
                    -0x1000000 <= rel.x <= 0x1000000,
            ;
            assert(0 <= rel.y * rel.y <= 0x1000000000000) by (nonlinear_arith)
                requires
                    -0x1000000 <= rel.y <= 0x1000000,
            ;
            assert(0 <= rel.z * rel.z <= 0x1000000000000) by (nonlinear_arith)
                requires
                    -0x1000000 <= rel.z <= 0x1000000,
            ;
        }
        let d2 = (rel.x * rel.x) as u64 + (rel.y * rel.y) as u64 + (rel.z * rel.z) as u64;
        let dist = isqrt(d2);
        proof {
            assert(is_floor_sqrt(rel_sq(grels[e as int]), dist as int));
            lemma_sqrt_unique(rel_sq(grels[e as int]), dist as int);
            assert(dist as int <= cutoff) by (nonlinear_arith)
                requires
                    (dist as int) * (dist as int) <= (cutoff as int) * (cutoff as int),
                    dist as int >= 0,
                    cutoff > 0,
            ;
        }
        let w = compute_rbf_sum(dist as i64, cutoff, num_rbf, &centers, gamma);
        let ghost wspec = edge_weight(grels[e as int], cutoff as int, num_rbf as int);
        proof {
            assert(w == wspec);
        }
        let mut f: usize = 0;
        while f < dim
            invariant
                f <= dim,
                e < n_edges,
                n_edges == gsrcs.len(),
                total == n_atoms * dim,
                features@ == gfeats,
                features@.len() == total,
                dim <= DIM_LIMIT,
                edges_ok(gsrcs, gdsts, grels, n_atoms as int, cutoff as int),
                feats_ok(gfeats),
                src == gsrcs[e as int],
                dst == gdsts[e as int],
                w == wspec,
                -RBF_SUM_BOUND <= w <= RBF_SUM_BOUND,
                acc@.len() == total,
                prev.len() == total,
                forall|t: int|
                    0 <= t < total ==> -(e as i128) * AGG_TERM_BOUND <= #[trigger] prev[t] <= (
                    e as i128) * AGG_TERM_BOUND,
                forall|t: int|
                    0 <= t < total && !((src as int) * dim <= t < (src as int) * dim + f)
                        ==> #[trigger] acc@[t] == prev[t],
                forall|t: int|
                    (src as int) * dim <= t < (src as int) * dim + f ==> #[trigger] acc@[t]
                        == prev[t] + fxm(wspec, gfeats[(dst as int) * dim + (t - (src as int)
                        * dim)] as int),
            decreases dim - f,
        {
            proof {
                assert((src as int) * dim + f < total && 0 <= (src as int) * dim) by (
                nonlinear_arith)
                    requires
                        (src as int) < n_atoms as int,
                        0 <= f < dim,
                        total == (n_atoms as int) * (dim as int),
                        src as int >= 0,
                ;
                assert((dst as int) * dim + f < total && 0 <= (dst as int) * dim) by (
                nonlinear_arith)
                    requires
                        (dst as int) < n_atoms as int,
                        0 <= f < dim,
                        total == (n_atoms as int) * (dim as int),
                        dst as int >= 0,
                ;
            }
            let idx = src * dim + f;
            let fidx = dst * dim + f;
            proof {
                lemma_fxm_bound(w as int, gfeats[fidx as int] as int, RBF_SUM_BOUND as int, 0x1000000);
                assert((RBF_SUM_BOUND as int) * 0x1000000 / (SCALE as int) + 1
                    <= AGG_TERM_BOUND as int);
                assert(-(e as i128) * AGG_TERM_BOUND >= -(262144 as i128) * AGG_TERM_BOUND
                    && (e as i128) * AGG_TERM_BOUND <= (262144 as i128) * AGG_TERM_BOUND) by (
                nonlinear_arith)
                    requires
                        0 <= e as i128 <= 262144,
                ;
            }
            let term = fx_mul(w, features[fidx] as i128);
            let v = acc[idx] + term;
            acc[idx] = v;
            f = f + 1;
        }
        proof {
            let cur = aggregate_upto(
                gfeats,
                dim as int,
                n_atoms as int,
                gsrcs,
                gdsts,
                grels,
                cutoff as int,
                num_rbf as int,
                e + 1,
            );
            assert(cur == agg_step(
                aggregate_upto(
                    gfeats,
                    dim as int,
                    n_atoms as int,
                    gsrcs,
                    gdsts,
                    grels,
                    cutoff as int,
                    num_rbf as int,
                    e as int,
                ),
                gfeats,
                dim as int,
                gsrcs[e as int] as int,
                gdsts[e as int] as int,
                edge_weight(grels[e as int], cutoff as int, num_rbf as int),
            ));
            assert(cur == agg_step(ints(prev), gfeats, dim as int, src as int, dst as int, wspec));
            assert forall|t: int| 0 <= t < total implies #[trigger] acc@[t] == cur[t] by {
                assert((src as int) * dim + dim == ((src as int) + 1) * dim) by (nonlinear_arith);
            }
            assert forall|t: int| 0 <= t < total implies -(e as i128 + 1) * AGG_TERM_BOUND
                <= #[trigger] acc@[t] <= (e as i128 + 1) * AGG_TERM_BOUND by {
                assert((e as i128 + 1) * AGG_TERM_BOUND == (e as i128) * AGG_TERM_BOUND
                    + AGG_TERM_BOUND) by (nonlinear_arith);
                if (src as int) * dim <= t < (src as int) * dim + dim {
                    let ff = t - (src as int) * dim;
                    assert(0 <= (dst as int) * dim + ff < total) by (nonlinear_arith)
                        requires
                            (dst as int) < n_atoms as int,
                            0 <= ff < dim,
                            total == (n_atoms as int) * (dim as int),
                            dst as int >= 0,
                    ;
                    assert(-FEATURE_LIMIT <= gfeats[(dst as int) * dim + ff] <= FEATURE_LIMIT);
                    lemma_fxm_bound(
                        wspec,
                        gfeats[(dst as int) * dim + ff] as int,
                        RBF_SUM_BOUND as int,
                        0x1000000,
                    );
                    assert((RBF_SUM_BOUND as int) * 0x1000000 / (SCALE as int) + 1
                        <= AGG_TERM_BOUND as int);
                }
            }
        }
        e = e + 1;
    }
    proof {
        assert forall|t: int| 0 <= t < total implies -AGG_BOUND <= #[trigger] acc@[t]
            <= AGG_BOUND by {
            assert((n_edges as i128) * AGG_TERM_BOUND <= AGG_BOUND) by (nonlinear_arith)
                requires
                    0 <= n_edges as i128 <= 262144,
            ;
        }
    }
    acc
}

/// Bound on the magnitude of one projection term.
pub const PROJ_TERM_BOUND: i128 = 0x100000000000000000000000000001;

/// Apply the dense linear layer: every output row is the fixed-point
/// matrix-vector product of the weight matrix with that atom's aggregated
/// row.
pub fn apply_linear_layer(
    weights: &Vec<i64>,
    dim: usize,
    n_atoms: usize,
    acc: &Vec<i128>,
) -> (r: Vec<i128>)
    requires
        weights@.len() == dim * dim,
        forall|t: int|
            0 <= t < weights@.len() ==> -WEIGHT_LIMIT <= #[trigger] weights@[t] <= WEIGHT_LIMIT,
        dim <= DIM_LIMIT,
        acc@.len() == n_atoms * dim,
        forall|t: int| 0 <= t < acc@.len() ==> -AGG_BOUND <= #[trigger] acc@[t] <= AGG_BOUND,
    ensures
        r@.len() == n_atoms * dim,
        forall|t: int|
            0 <= t < r@.len() ==> #[trigger] r@[t] == project_spec(
                weights@,
                ints(acc@),
                dim as int,
                n_atoms as int,
            )[t],
{
    let ghost gw = weights@;
    let ghost gacc = ints(acc@);
    let total = acc.len();
    let wlen = weights.len();
    let mut out: Vec<i128> = Vec::new();
    let mut a: usize = 0;
    while a < n_atoms
        invariant
            a <= n_atoms,
            weights@ == gw,
            ints(acc@) == gacc,
            gw.len() == dim * dim,
            wlen == gw.len(),
            forall|t: int| 0 <= t < gw.len() ==> -WEIGHT_LIMIT <= #[trigger] gw[t] <= WEIGHT_LIMIT,
            dim <= DIM_LIMIT,
            acc@.len() == total,
            total == n_atoms * dim,
            forall|t: int| 0 <= t < acc@.len() ==> -AGG_BOUND <= #[trigger] acc@[t] <= AGG_BOUND,
            out@.len() == a * dim,
            forall|t: int|
                0 <= t < out@.len() ==> #[trigger] out@[t] == dot_upto(
                    gw,
                    gacc,
                    dim as int,
                    t / (dim as int),
                    t % (dim as int),
                    dim as int,
                ),
        decreases n_atoms - a,
    {
        let mut o: usize = 0;
        while o < dim
            invariant
                o <= dim,
                a < n_atoms,
                weights@ == gw,
                ints(acc@) == gacc,
                gw.len() == dim * dim,
                wlen == gw.len(),
                forall|t: int|
                    0 <= t < gw.len() ==> -WEIGHT_LIMIT <= #[trigger] gw[t] <= WEIGHT_LIMIT,
                dim <= DIM_LIMIT,
                acc@.len() == total,
                total == n_atoms * dim,
                forall|t: int|
                    0 <= t < acc@.len() ==> -AGG_BOUND <= #[trigger] acc@[t] <= AGG_BOUND,
                out@.len() == a * dim + o,
                forall|t: int|
                    0 <= t < out@.len() ==> #[trigger] out@[t] == dot_upto(
                        gw,
                        gacc,
                        dim as int,
                        t / (dim as int),
                        t % (dim as int),
                        dim as int,
                    ),
            decreases dim - o,
        {
            let mut sum: i128 = 0;
            let mut dd: usize = 0;
            while dd < dim
                invariant
                    dd <= dim,
                    o < dim,
                    a < n_atoms,
                    weights@ == gw,
                    ints(acc@) == gacc,
                    gw.len() == dim * dim,
                    wlen == gw.len(),
                    forall|t: int|
                        0 <= t < gw.len() ==> -WEIGHT_LIMIT <= #[trigger] gw[t] <= WEIGHT_LIMIT,
                    dim <= DIM_LIMIT,
                    acc@.len() == total,
                    total == n_atoms * dim,
                    forall|t: int|
                        0 <= t < acc@.len() ==> -AGG_BOUND <= #[trigger] acc@[t] <= AGG_BOUND,
                    sum == dot_upto(gw, gacc, dim as int, a as int, o as int, dd as int),
                    -(dd as i128) * PROJ_TERM_BOUND <= sum <= (dd as i128) * PROJ_TERM_BOUND,
                decreases dim - dd,
            {
                proof {
                    assert(0 <= (o as int) * dim + dd < dim * dim) by (nonlinear_arith)
                        requires
                            0 <= (o as int) && (o as int) < (dim as int),
                            0 <= (dd as int) && (dd as int) < (dim as int),
                    ;
                    assert(0 <= (a as int) * dim + dd < total) by (nonlinear_arith)
                        requires
                            0 <= a as int && (a as int) < (n_atoms as int),
                            0 <= dd as int && (dd as int) < (dim as int),
                            total == (n_atoms as int) * (dim as int),
                    ;
                }
                let widx = o * dim + dd;
                let aidx = a * dim + dd;
                let wv = weights[widx];
                let av = acc[aidx];
                proof {
                    lemma_fxm_bound(wv as int, av as int, WEIGHT_LIMIT as int, AGG_BOUND as int);
                    assert((WEIGHT_LIMIT as int) * (AGG_BOUND as int) / (SCALE as int) + 1
                        <= PROJ_TERM_BOUND as int);
                    assert((dd as i128 + 1) * PROJ_TERM_BOUND == (dd as i128) * PROJ_TERM_BOUND
                        + PROJ_TERM_BOUND) by (nonlinear_arith);
                    assert((dd as i128) * PROJ_TERM_BOUND <= 1024 * PROJ_TERM_BOUND
                        && -(dd as i128) * PROJ_TERM_BOUND >= -1024 * PROJ_TERM_BOUND) by (
                    nonlinear_arith)
                        requires
                            0 <= dd as i128 <= 1024,
                    ;
                }
                let term = fx_mul_wide(wv as i128, av);
                proof {
                    assert(gacc[(a as int) * dim + dd] == av as int);
                }
                sum = sum + term;
                dd = dd + 1;
            }
            out.push(sum);
            proof {
                let t = (a as int) * dim + o;
                assert(t == (a as int) * (dim as int) + (o as int));
                vstd::arithmetic::div_mod::lemma_fundamental_div_mod_converse_div(
                    t,
                    dim as int,
                    a as int,
                    o as int,
                );
                vstd::arithmetic::div_mod::lemma_fundamental_div_mod_converse_mod(
                    t,
                    dim as int,
                    a as int,
                    o as int,
                );
                assert(t / (dim as int) == a as int);
                assert(t % (dim as int) == o as int);
                assert(out@[t] == sum);
                assert(sum == dot_upto(gw, gacc, dim as int, a as int, o as int, dim as int));
                assert(out@[t] == dot_upto(gw, gacc, dim as int, t / (dim as int), t % (
                dim as int), dim as int));
            }
            o = o + 1;
        }
        proof {
            assert((a as int + 1) * dim == (a as int) * dim + dim) by (nonlinear_arith);
        }
        a = a + 1;
    }
    proof {
        assert forall|t: int| 0 <= t < out@.len() implies #[trigger] out@[t] == project_spec(
            gw,
            gacc,
            dim as int,
            n_atoms as int,
        )[t] by {
            assert(out@[t] == dot_upto(
                gw,
                gacc,
                dim as int,
                t / (dim as int),
                t % (dim as int),
                dim as int,
            ));
        }
    }
    out
}

/// Why the engine rejected a call.
#[derive(Clone, Copy, PartialEq, Eq, Structural, Debug)]
pub enum ModelError {
    /// The weight matrix is not square, too wide, or holds an entry beyond
    /// [`WEIGHT_LIMIT`].
    InvalidWeights,
    /// The feature matrix does not hold one row of the model's width per
    /// atom.
    DimensionMismatch,
    /// The edge sequences disagree in length, exceed [`EDGE_LIMIT`], name an
    /// atom outside the batch, or carry a displacement beyond the cutoff.
    InvalidEdges,
    /// A feature entry exceeds [`FEATURE_LIMIT`] in magnitude.
    FeatureOutOfRange,
}

/// The inference engine: an immutable square weight matrix of side `dim`,
/// stored row-major.
#[derive(Debug)]
pub struct GNNModel {
    pub weights: Vec<i64>,
    pub dim: usize,
}

impl GNNModel {
    /// The weight matrix is square, of accepted width, with every entry
    /// within [`WEIGHT_LIMIT`].
    pub open spec fn wf(self) -> bool {
        &&& self.weights@.len() == self.dim * self.dim
        &&& 1 <= self.dim <= DIM_LIMIT
        &&& (forall|t: int|
            0 <= t < self.weights@.len() ==> -WEIGHT_LIMIT <= #[trigger] self.weights@[t]
                <= WEIGHT_LIMIT)
    }

    /// Take ownership of a validated weight matrix.
    pub fn new(weights: Vec<i64>, dim: usize) -> (r: Result<GNNModel, ModelError>)
        ensures
            r is Ok <==> (1 <= dim <= DIM_LIMIT && weights@.len() == dim * dim && (forall|t: int|
                0 <= t < weights@.len() ==> -WEIGHT_LIMIT <= #[trigger] weights@[t]
                    <= WEIGHT_LIMIT)),
            r is Err ==> r == Err::<GNNModel, ModelError>(ModelError::InvalidWeights),
            r is Ok ==> r->Ok_0.wf() && r->Ok_0.weights@ == weights@ && r->Ok_0.dim == dim,
    {
        if dim < 1 || dim > DIM_LIMIT {
            return Err(ModelError::InvalidWeights);
        }
        proof {
            assert((dim as u128) * (dim as u128) <= 0x100000) by (nonlinear_arith)
                requires
                    dim as u128 <= 1024,
            ;
        }
        if (weights.len() as u128) != (dim as u128) * (dim as u128) {
            return Err(ModelError::InvalidWeights);
        }
        proof {
            assert(weights@.len() == dim * dim) by (nonlinear_arith)
                requires
                    weights@.len() == (dim as u128) * (dim as u128),
                    dim as u128 == dim as int,
            ;
        }
        let mut t: usize = 0;
        while t < weights.len()
            invariant
                t <= weights@.len(),
                forall|u: int|
                    0 <= u < t ==> -WEIGHT_LIMIT <= #[trigger] weights@[u] <= WEIGHT_LIMIT,
            decreases weights@.len() - t,
        {
            let w = weights[t];
            if w > WEIGHT_LIMIT || w < -WEIGHT_LIMIT {
                return Err(ModelError::InvalidWeights);
            }
            t = t + 1;
        }
        Ok(GNNModel { weights, dim })
    }

    /// Run one inference call: aggregate every atom's neighborhood through
    /// the radial basis edge weights, then project every aggregated row
    /// through the weight matrix. The result is row-major, one row of width
    /// `dim` per atom, pinned down exactly by [`infer_spec`].
    ///
    /// The preconditions are machine limits of the fixed-point evaluation:
    /// the center count and cutoff caps keep every intermediate product of
    /// the polynomial, the aggregation and the projection inside `i128`.
    pub fn run_batched(
        &self,
        features: &Vec<i64>,
        n_atoms: usize,
        edge_src: &Vec<usize>,
        edge_dst: &Vec<usize>,
        edge_rel: &Vec<Rel>,
        cutoff: i64,
        num_rbf: usize,
    ) -> (r: Result<Vec<i128>, ModelError>)
        requires
            self.wf(),
            1 <= num_rbf <= RBF_LIMIT,
            3 * num_rbf <= cutoff <= CUTOFF_LIMIT,
        ensures
            r == Err::<Vec<i128>, ModelError>(ModelError::DimensionMismatch) <==> features@.len()
                != n_atoms * self.dim,
            r == Err::<Vec<i128>, ModelError>(ModelError::InvalidEdges) <==> features@.len()
                == n_atoms * self.dim && !edges_ok(
                edge_src@,
                edge_dst@,
                edge_rel@,
                n_atoms as int,
                cutoff as int,
            ),
            r == Err::<Vec<i128>, ModelError>(ModelError::FeatureOutOfRange) <==> features@.len()
                == n_atoms * self.dim && edges_ok(
                edge_src@,
                edge_dst@,
                edge_rel@,
                n_atoms as int,
                cutoff as int,
            ) && !feats_ok(features@),
            r is Ok <==> features@.len() == n_atoms * self.dim && edges_ok(
                edge_src@,
                edge_dst@,
                edge_rel@,
                n_atoms as int,
                cutoff as int,
            ) && feats_ok(features@),
            r is Ok ==> r->Ok_0@.len() == n_atoms * self.dim,
            r is Ok ==> forall|t: int|
                0 <= t < r->Ok_0@.len() ==> #[trigger] r->Ok_0@[t] == infer_spec(
                    features@,
                    self.dim as int,
                    n_atoms as int,
                    edge_src@,
                    edge_dst@,
                    edge_rel@,
                    cutoff as int,
                    num_rbf as int,
                    self.weights@,
                )[t],
    {
        let dim = self.dim;
        proof {
            assert((n_atoms as u128) * (dim as u128) < 0xffffffffffffffffffffffffffffffff) by (
            nonlinear_arith)
                requires
                    n_atoms as u128 <= 0xffffffffffffffff,
                    dim as u128 <= 0xffffffffffffffff,
            ;
        }
        if (features.len() as u128) != (n_atoms as u128) * (dim as u128) {
            return Err(ModelError::DimensionMismatch);
        }
        proof {
            assert(features@.len() == n_atoms * dim) by (nonlinear_arith)
                requires
                    features@.len() == (n_atoms as u128) * (dim as u128),
                    n_atoms as u128 == n_atoms as int,
                    dim as u128 == dim as int,
            ;
        }
        let n_edges = edge_src.len();
        if edge_dst.len() != n_edges || edge_rel.len() != n_edges || n_edges > EDGE_LIMIT {
            return Err(ModelError::InvalidEdges);
        }
        let mut e: usize = 0;
        while e < n_edges
            invariant
                e <= n_edges,
                features@.len() == n_atoms * dim,
                dim == self.dim,
                n_edges == edge_src@.len(),
                edge_dst@.len() == n_edges,
                edge_rel@.len() == n_edges,
                n_edges <= EDGE_LIMIT,
                0 < cutoff <= CUTOFF_LIMIT,
                forall|u: int| 0 <= u < e ==> #[trigger] edge_src@[u] < n_atoms,
                forall|u: int| 0 <= u < e ==> #[trigger] edge_dst@[u] < n_atoms,
                forall|u: int|
                    0 <= u < e ==> rel_sq(#[trigger] edge_rel@[u]) <= (cutoff as int) * (
                    cutoff as int),
            decreases n_edges - e,
        {
            let rel = edge_rel[e];
            if edge_src[e] >= n_atoms || edge_dst[e] >= n_atoms {
                return Err(ModelError::InvalidEdges);
            }
            if rel.x > 0x40000000 || rel.x < -0x40000000 || rel.y > 0x40000000 || rel.y
                < -0x40000000 || rel.z > 0x40000000 || rel.z < -0x40000000 {
                proof {
                    lemma_component_break(rel, cutoff as int);
                }
                return Err(ModelError::InvalidEdges);
            }
            proof {
                assert(0 <= rel.x * rel.x <= 0x1000000000000000) by (nonlinear_arith)
                    requires
                        -0x40000000 <= rel.x <= 0x40000000,
                ;
                assert(0 <= rel.y * rel.y <= 0x1000000000000000) by (nonlinear_arith)
                    requires
                        -0x40000000 <= rel.y <= 0x40000000,
                ;
                assert(0 <= rel.z * rel.z <= 0x1000000000000000) by (nonlinear_arith)
                    requires
                        -0x40000000 <= rel.z <= 0x40000000,
                ;
            }
            let d2 = (rel.x * rel.x) as u64 + (rel.y * rel.y) as u64 + (rel.z * rel.z) as u64;
            proof {
                assert((cutoff as u64) * (cutoff as u64) <= 0x1000000000000) by (nonlinear_arith)
                    requires
                        0 < cutoff as u64 <= 0x1000000,
                ;
            }
            if d2 > (cutoff as u64) * (cutoff as u64) {
                proof {
                    assert((cutoff as u64) * (cutoff as u64) == (cutoff as int) * (
                    cutoff as int)) by (nonlinear_arith)
                        requires
                            0 < cutoff as u64 <= 0x1000000,
                            cutoff as u64 == cutoff as int,
                    ;
                }
                return Err(ModelError::InvalidEdges);
            }
            proof {
                assert((cutoff as u64) * (cutoff as u64) == (cutoff as int) * (cutoff as int)) by (
                nonlinear_arith)
                    requires
                        0 < cutoff as u64 <= 0x1000000,
                        cutoff as u64 == cutoff as int,
                ;
                assert(rel_sq(edge_rel@[e as int]) <= (cutoff as int) * (cutoff as int));
            }
            e = e + 1;
        }
        assert(edges_ok(edge_src@, edge_dst@, edge_rel@, n_atoms as int, cutoff as int));
        let mut t: usize = 0;
        while t < features.len()
            invariant
                t <= features@.len(),
                features@.len() == n_atoms * dim,
                dim == self.dim,
                edges_ok(edge_src@, edge_dst@, edge_rel@, n_atoms as int, cutoff as int),
                forall|u: int|
                    0 <= u < t ==> -FEATURE_LIMIT <= #[trigger] features@[u] <= FEATURE_LIMIT,
            decreases features@.len() - t,
        {
            let f = features[t];
            if f > FEATURE_LIMIT || f < -FEATURE_LIMIT {
                return Err(ModelError::FeatureOutOfRange);
            }
            t = t + 1;
        }
        let acc = aggregate_features(
            features,
            n_atoms,
            dim,
            edge_src,
            edge_dst,
            edge_rel,
            cutoff,
            num_rbf,
        );
        let out = apply_linear_layer(&self.weights, dim, n_atoms, &acc);
        proof {
            lemma_aggregate_len(
                features@,
                dim as int,
                n_atoms as int,
                edge_src@,
                edge_dst@,
                edge_rel@,
                cutoff as int,
                num_rbf as int,
                edge_src@.len() as int,
            );
            assert(ints(acc@) =~= aggregate_spec(
                features@,
                dim as int,
                n_atoms as int,
                edge_src@,
                edge_dst@,
                edge_rel@,
                cutoff as int,
                num_rbf as int,
            ));
        }
        Ok(out)
    }
}

/// An atom that no edge names as its source keeps an all-zero aggregated
/// row: aggregation only ever writes the source atom's row.
pub proof fn lemma_zero_edges_zero_row(
    feats: Seq<i64>,
    dim: int,
    n_atoms: int,
    srcs: Seq<usize>,
    dsts: Seq<usize>,
    rels: Seq<Rel>,
    cutoff: int,
    nrbf: int,
    atom: int,
    e: int,
)
    requires
        0 <= atom < n_atoms,
        0 < dim,
        e <= srcs.len(),
        forall|u: int| 0 <= u < srcs.len() ==> #[trigger] srcs[u] != atom,
    ensures
        forall|f: int|
            0 <= f < dim ==> #[trigger] aggregate_upto(
                feats,
                dim,
                n_atoms,
                srcs,
                dsts,
                rels,
                cutoff,
                nrbf,
                e,
            )[atom * dim + f] == 0,
    decreases e,
{
    assert(0 <= atom * dim && atom * dim + dim <= n_atoms * dim) by (nonlinear_arith)
        requires
            0 <= atom && atom < n_atoms,
            0 < dim,
    ;
    if e <= 0 {
    } else {
        lemma_zero_edges_zero_row(
            feats,
            dim,
            n_atoms,
            srcs,
            dsts,
            rels,
            cutoff,
            nrbf,
            atom,
            e - 1,
        );
        let prior = aggregate_upto(feats, dim, n_atoms, srcs, dsts, rels, cutoff, nrbf, e - 1);
        let src = srcs[e - 1] as int;
        assert forall|f: int| 0 <= f < dim implies #[trigger] aggregate_upto(
            feats,
            dim,
            n_atoms,
            srcs,
            dsts,
            rels,
            cutoff,
            nrbf,
            e,
        )[atom * dim + f] == 0 by {
            let t = atom * dim + f;
            assert(!(src * dim <= t < (src + 1) * dim)) by (nonlinear_arith)
                requires
                    src != atom,
                    0 <= f < dim,
                    t == atom * dim + f,
                    0 < dim,
            ;
            lemma_aggregate_len(feats, dim, n_atoms, srcs, dsts, rels, cutoff, nrbf, e - 1);
            if 0 <= t < prior.len() {
                assert(prior[t] == 0);
            }
        }
    }
}

/// Scaling the weight matrix by a positive integer scales every projected
/// entry by the same integer, up to the fixed-point rounding slack of at
/// most `m - 1` per summed term: the projection is linear in the weights.
pub proof fn lemma_projection_scaling(
    w: Seq<i64>,
    w2: Seq<i64>,
    acc: Seq<int>,
    dim: int,
    atom: int,
    o: int,
    d: int,
    m: int,
)
    requires
        m >= 1,
        w2.len() == w.len(),
        forall|t: int| 0 <= t < w.len() ==> #[trigger] w2[t] == m * w[t],
        0 <= d <= dim,
        0 <= o,
        o * dim + d <= w.len(),
        0 <= atom,
    ensures
        m * dot_upto(w, acc, dim, atom, o, d) <= dot_upto(w2, acc, dim, atom, o, d) <= m
            * dot_upto(w, acc, dim, atom, o, d) + d * (m - 1),
    decreases d,
{
    if d <= 0 {
    } else {
        lemma_projection_scaling(w, w2, acc, dim, atom, o, d - 1, m);
        let wi = w[o * dim + (d - 1)] as int;
        let av = acc[atom * dim + (d - 1)];
        lemma_scale_floor(wi * av, m);
        assert(w2[o * dim + (d - 1)] == m * w[o * dim + (d - 1)]);
        assert((m * wi) * av == m * (wi * av)) by (nonlinear_arith);
        let p1 = dot_upto(w, acc, dim, atom, o, d - 1);
        let p2 = dot_upto(w2, acc, dim, atom, o, d - 1);
        assert(m * (p1 + fxm(wi, av)) == m * p1 + m * fxm(wi, av)) by (nonlinear_arith);
        assert(m * p1 + (d - 1) * (m - 1) + (m * fxm(wi, av) + (m - 1)) == m * (p1 + fxm(wi, av))
            + d * (m - 1)) by (nonlinear_arith);
    }
}

/// The whole engine is linear in the weight matrix: an integer scale factor
/// on every weight scales every output entry by the same factor, up to the
/// fixed-point rounding slack of the summed terms. Aggregation does not read
/// the weights, so the slack comes from the projection alone.
pub proof fn lemma_infer_scaling(
    feats: Seq<i64>,
    dim: int,
    n_atoms: int,
    srcs: Seq<usize>,
    dsts: Seq<usize>,
    rels: Seq<Rel>,
    cutoff: int,
    nrbf: int,
    w: Seq<i64>,
    w2: Seq<i64>,
    m: int,
    t: int,
)
    requires
        m >= 1,
        1 <= dim,
        w.len() == dim * dim,
        w2.len() == w.len(),
        forall|u: int| 0 <= u < w.len() ==> #[trigger] w2[u] == m * w[u],
        0 <= t < n_atoms * dim,
    ensures
        m * infer_spec(feats, dim, n_atoms, srcs, dsts, rels, cutoff, nrbf, w)[t] <= infer_spec(
            feats,
            dim,
            n_atoms,
            srcs,
            dsts,
            rels,
            cutoff,
            nrbf,
            w2,
        )[t],
        infer_spec(feats, dim, n_atoms, srcs, dsts, rels, cutoff, nrbf, w2)[t] <= m * infer_spec(
            feats,
            dim,
            n_atoms,
            srcs,
            dsts,
            rels,
            cutoff,
            nrbf,
            w,
        )[t] + dim * (m - 1),
{
    let acc = aggregate_spec(feats, dim, n_atoms, srcs, dsts, rels, cutoff, nrbf);
    let atom = t / dim;
    let o = t % dim;
    lemma_fundamental_div_mod(t, dim);
    vstd::arithmetic::div_mod::lemma_mod_division_less_than_divisor(t, dim);
    lemma_div_pos_is_pos(t, dim);
    assert(o * dim + dim <= dim * dim) by (nonlinear_arith)
        requires
            0 <= o < dim,
    ;
    lemma_projection_scaling(w, w2, acc, dim, atom, o, dim, m);
    assert(infer_spec(feats, dim, n_atoms, srcs, dsts, rels, cutoff, nrbf, w)[t] == dot_upto(
        w,
        acc,
        dim,
        atom,
        o,
        dim,
    ));
    assert(infer_spec(feats, dim, n_atoms, srcs, dsts, rels, cutoff, nrbf, w2)[t] == dot_upto(
        w2,
        acc,
        dim,
        atom,
        o,
        dim,
    ));
}

/// Floor division interacts with an integer scale factor with a slack under
/// the factor itself.
proof fn lemma_scale_floor(x: int, m: int)
    requires
        m >= 1,
    ensures
        m * (x / (SCALE as int)) <= (m * x) / (SCALE as int) <= m * (x / (SCALE as int)) + (m - 1),
{
    let s = SCALE as int;
    lemma_fundamental_div_mod(x, s);
    let q = x / s;
    let r = x % s;
    assert(m * x == s * (m * q) + m * r) by (nonlinear_arith)
        requires
            x == s * q + r,
    ;
    vstd::arithmetic::div_mod::lemma_hoist_over_denominator(m * r, m * q, SCALE as nat);
    assert((m * r) / s + m * q == (m * r + (m * q) * s) / s);
    assert(m * r + (m * q) * s == m * x) by (nonlinear_arith)
        requires
            m * x == s * (m * q) + m * r,
    ;
    lemma_div_pos_is_pos(m * r, s);
    assert(m * r >= 0) by (nonlinear_arith)
        requires
            r >= 0,
            m >= 1,
    ;
    assert(m * r <= m * s - m) by (nonlinear_arith)
        requires
            0 <= r < s,
            m >= 1,
    ;
    assert((m * r) / s <= m - 1) by {
        lemma_div_is_ordered(m * r, m * s - m, s);
        assert((m * s - m) / s == m + (-m) / s) by {
            vstd::arithmetic::div_mod::lemma_hoist_over_denominator(-m, m, SCALE as nat);
        }
        crate::fixed::lemma_div_neg_lb(m, s);
        lemma_div_is_ordered(-m, -1, s);
        assert((-1int) / s == -1) by {
            vstd::arithmetic::div_mod::lemma_fundamental_div_mod_converse_div(-1, s, -1, s - 1);
        }
    }
}

/// A displacement with a component beyond the cutoff cannot be within the
/// cutoff in squared length.
proof fn lemma_component_break(rel: Rel, cutoff: int)
    requires
        0 < cutoff <= 0x1000000,
        !(-0x40000000 <= rel.x <= 0x40000000) || !(-0x40000000 <= rel.y <= 0x40000000) || !(
        -0x40000000 <= rel.z <= 0x40000000),
    ensures
        rel_sq(rel) > cutoff * cutoff,
{
    assert(rel_sq(rel) > cutoff * cutoff) by (nonlinear_arith)
        requires
            0 < cutoff <= 0x1000000,
            !(-0x40000000 <= rel.x <= 0x40000000) || !(-0x40000000 <= rel.y <= 0x40000000) || !(
            -0x40000000 <= rel.z <= 0x40000000),
    ;
}

} // verus!
