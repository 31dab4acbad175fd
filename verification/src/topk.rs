//! Bounded nearest-candidate selection.
//!
//! [`BoundedNearest`] keeps, out of a stream of candidates, the `k` smallest
//! by squared distance, with ties between equal distances won by the
//! candidate that arrived first. Its contents are characterised exactly by
//! the spec function [`selection`]: the arrival positions of the kept
//! candidates, in ascending order of (squared distance, arrival position).

use vstd::prelude::*;

verus! {

use vstd::seq_lib::*;

/// A neighbor candidate: destination atom, squared distance to the source
/// atom, and the displacement (destination minus source) per component.
#[derive(Clone, Copy, PartialEq, Eq, Structural, Debug)]
pub struct Candidate {
    pub dst: usize,
    pub dist2: u64,
    pub rx: i64,
    pub ry: i64,
    pub rz: i64,
}

/// Arrival position `i` strictly precedes `j`: closer, or equally close and
/// earlier.
pub open spec fn lex_before(seen: Seq<Candidate>, i: int, j: int) -> bool {
    ||| seen[i].dist2 < seen[j].dist2
    ||| (seen[i].dist2 == seen[j].dist2 && i < j)
}

/// Number of leading entries of `sel` whose distance is at most `key`: where
/// a new candidate with distance `key` (and the latest arrival position)
/// belongs in a selection ordered by [`lex_before`].
pub open spec fn insert_pos(sel: Seq<int>, seen: Seq<Candidate>, key: u64) -> int
    decreases sel.len(),
{
    if sel.len() == 0 {
        0
    } else if seen[sel[0]].dist2 <= key {
        1 + insert_pos(sel.drop_first(), seen, key)
    } else {
        0
    }
}

/// Arrival positions of the up-to-`k` candidates of `seen` that are kept:
/// the `k` smallest under (distance, arrival position), listed in that
/// order.
pub open spec fn selection(seen: Seq<Candidate>, k: nat) -> Seq<int>
    decreases seen.len(),
{
    if seen.len() == 0 {
        Seq::empty()
    } else {
        let prev = selection(seen.drop_last(), k);
        let p = insert_pos(prev, seen.drop_last(), seen.last().dist2);
        let grown = prev.insert(p, seen.len() - 1);
        if grown.len() > k {
            grown.take(k as int)
        } else {
            grown
        }
    }
}

/// The kept candidates themselves, in selection order.
pub open spec fn selected(seen: Seq<Candidate>, k: nat) -> Seq<Candidate> {
    let sel = selection(seen, k);
    Seq::new(sel.len() as nat, |a: int| seen[sel[a]])
}

/// Everything that holds of a finished selection: its length, that its
/// entries are arrival positions, its strict (distance, arrival) order, and
/// that an arrival left out is preceded by everything kept.
pub open spec fn selection_wf(seen: Seq<Candidate>, k: nat, sel: Seq<int>) -> bool {
    &&& sel.len() == (if k as int <= seen.len() {
        k as int
    } else {
        seen.len() as int
    })
    &&& (forall|a: int| 0 <= a < sel.len() ==> 0 <= #[trigger] sel[a] < seen.len())
    &&& (forall|a: int, b: int|
        0 <= a < b < sel.len() ==> #[trigger] lex_before(seen, sel[a], sel[b]))
    &&& (forall|i: int|
        0 <= i < seen.len() && !sel.contains(i) ==> sel.len() == k && (k > 0 ==> lex_before(
            seen,
            sel[sel.len() - 1],
            i,
        )))
}

/// `insert_pos` under a selection ordered by distance: the entries before it
/// are at most `key`, those from it on are greater.
proof fn lemma_insert_pos_props(sel: Seq<int>, seen: Seq<Candidate>, key: u64)
    requires
        forall|a: int| 0 <= a < sel.len() ==> 0 <= #[trigger] sel[a] < seen.len(),
        forall|a: int, b: int|
            0 <= a < b < sel.len() ==> #[trigger] lex_before(seen, sel[a], sel[b]),
    ensures
        0 <= insert_pos(sel, seen, key) <= sel.len(),
        forall|a: int|
            0 <= a < insert_pos(sel, seen, key) ==> seen[#[trigger] sel[a]].dist2 <= key,
        forall|a: int|
            insert_pos(sel, seen, key) <= a < sel.len() ==> seen[#[trigger] sel[a]].dist2 > key,
    decreases sel.len(),
{
    if sel.len() == 0 {
    } else {
        let rest = sel.drop_first();
        assert(forall|a: int| 0 <= a < rest.len() ==> #[trigger] rest[a] == sel[a + 1]);
        assert forall|a: int, b: int| 0 <= a < b < rest.len() implies #[trigger] lex_before(
            seen,
            rest[a],
            rest[b],
        ) by {
            assert(lex_before(seen, sel[a + 1], sel[b + 1]));
        }
        lemma_insert_pos_props(rest, seen, key);
        if seen[sel[0]].dist2 <= key {
            let p = 1 + insert_pos(rest, seen, key);
            assert forall|a: int| p <= a < sel.len() implies seen[#[trigger] sel[a]].dist2
                > key by {
                assert(seen[rest[a - 1]].dist2 > key);
            }
            assert forall|a: int| 0 <= a < p implies seen[#[trigger] sel[a]].dist2 <= key by {
                if a > 0 {
                    assert(seen[rest[a - 1]].dist2 <= key);
                }
            }
        } else {
            assert forall|a: int| 0 <= a < sel.len() implies seen[#[trigger] sel[a]].dist2
                > key by {
                if a > 0 {
                    assert(lex_before(seen, sel[0], sel[a]));
                }
            }
        }
    }
}

/// A boundary with the same shape pins `insert_pos` down: this is how the
/// executable scan is tied to the spec.
proof fn lemma_insert_pos_of_boundary(sel: Seq<int>, seen: Seq<Candidate>, key: u64, p: int)
    requires
        0 <= p <= sel.len(),
        forall|a: int| 0 <= a < p ==> seen[#[trigger] sel[a]].dist2 <= key,
        forall|a: int| p <= a < sel.len() ==> seen[#[trigger] sel[a]].dist2 > key,
    ensures
        insert_pos(sel, seen, key) == p,
    decreases sel.len(),
{
    if sel.len() == 0 {
    } else if p == 0 {
        assert(seen[sel[0]].dist2 > key);
    } else {
        let rest = sel.drop_first();
        assert(forall|a: int| 0 <= a < rest.len() ==> #[trigger] rest[a] == sel[a + 1]);
        assert(seen[sel[0]].dist2 <= key);
        assert forall|a: int| 0 <= a < p - 1 implies seen[#[trigger] rest[a]].dist2 <= key by {
            assert(seen[sel[a + 1]].dist2 <= key);
        }
        assert forall|a: int| p - 1 <= a < rest.len() implies seen[#[trigger] rest[a]].dist2
            > key by {
            assert(seen[sel[a + 1]].dist2 > key);
        }
        lemma_insert_pos_of_boundary(rest, seen, key, p - 1);
    }
}

/// Removing the last arrival does not change the order of the earlier ones.
proof fn lemma_lex_drop_last(seen: Seq<Candidate>, x: int, y: int)
    requires
        seen.len() > 0,
        0 <= x < seen.len() - 1,
        0 <= y < seen.len() - 1,
        lex_before(seen.drop_last(), x, y),
    ensures
        lex_before(seen, x, y),
{
    assert(seen.drop_last()[x] == seen[x]);
    assert(seen.drop_last()[y] == seen[y]);
}

/// The selection is well formed, for every candidate stream and every cap.
pub proof fn lemma_selection_wf(seen: Seq<Candidate>, k: nat)
    ensures
        selection_wf(seen, k, selection(seen, k)),
    decreases seen.len(),
{
    if seen.len() == 0 {
    } else {
        let n = seen.len() as int;
        let m = n - 1;
        let pseen = seen.drop_last();
        lemma_selection_wf(pseen, k);
        let prev = selection(pseen, k);
        let key = seen.last().dist2;
        assert(forall|i: int| 0 <= i < m ==> #[trigger] pseen[i] == seen[i]);
        assert(seen[m] == seen.last());
        lemma_insert_pos_props(prev, pseen, key);
        let p = insert_pos(prev, pseen, key);
        let grown = prev.insert(p, m);
        prev.insert_ensures(p, m);
        let sel = selection(seen, k);
        assert(sel == if grown.len() > k {
            grown.take(k as int)
        } else {
            grown
        });
        // Range of entries.
        assert forall|a: int| 0 <= a < grown.len() implies 0 <= #[trigger] grown[a] < n by {
            if a < p {
                assert(grown[a] == prev[a]);
            } else if a == p {
            } else {
                assert(grown[a] == prev[a - 1]);
            }
        }
        // Strict (distance, arrival) order of grown.
        assert forall|a: int, b: int| 0 <= a < b < grown.len() implies #[trigger] lex_before(
            seen,
            grown[a],
            grown[b],
        ) by {
            if b < p {
                lemma_lex_drop_last(seen, prev[a], prev[b]);
            } else if a < p && b == p {
                assert(seen[grown[a]].dist2 <= key);
                assert(grown[a] < m);
            } else if a < p && b > p {
                lemma_lex_drop_last(seen, prev[a], prev[b - 1]);
            } else if a == p {
                assert(seen[grown[b]].dist2 > key);
            } else {
                lemma_lex_drop_last(seen, prev[a - 1], prev[b - 1]);
            }
        }
        if grown.len() > k {
            assert(prev.len() == k);
            assert(sel == grown.take(k as int));
            assert(forall|a: int| 0 <= a < k ==> #[trigger] sel[a] == grown[a]);
            // Everything left out is preceded by the whole selection.
            assert forall|i: int| 0 <= i < n && !sel.contains(i) implies sel.len() == k && (k > 0
                ==> lex_before(seen, sel[k - 1], i)) by {
                if k == 0 {
                } else {
                    assert(sel[k - 1] == grown[k - 1]);
                    if i == grown[k as int] {
                        assert(lex_before(seen, grown[k - 1], grown[k as int]));
                    } else if i == m {
                        // The newcomer is somewhere in grown; being excluded from
                        // sel it can only be the dropped last entry.
                        assert(grown[p] == m);
                        if p < k {
                            assert(sel[p] == m);
                            assert(sel.contains(m));
                            assert(false);
                        } else {
                            assert(p == k);
                            assert(i == grown[k as int]);
                            assert(false);
                        }
                    } else {
                        // An old arrival, not the dropped one.
                        if prev.contains(i) {
                            let a = choose|a: int| 0 <= a < prev.len() && prev[a] == i;
                            if a < p {
                                assert(grown[a] == i);
                                assert(sel[a] == i);
                                assert(sel.contains(i));
                                assert(false);
                            } else {
                                assert(grown[a + 1] == i);
                                if a + 1 < k {
                                    assert(sel[a + 1] == i);
                                    assert(sel.contains(i));
                                    assert(false);
                                } else {
                                    assert(i == grown[k as int]);
                                    assert(false);
                                }
                            }
                        } else {
                            assert(prev.len() == k && lex_before(pseen, prev[k - 1], i));
                            lemma_lex_drop_last(seen, prev[k - 1], i);
                            // prev[k - 1] is grown's last entry or is preceded by it.
                            if p == k {
                                assert(grown[k - 1] == prev[k - 1]);
                                assert(lex_before(seen, sel[k - 1], i));
                            } else {
                                assert(grown[k as int] == prev[k - 1]);
                                assert(lex_before(seen, grown[k - 1], grown[k as int]));
                                lemma_lex_before_trans(seen, grown[k - 1], prev[k - 1], i);
                            }
                        }
                }
                }
            }
        } else {
            assert(sel == grown);
            // Nothing was dropped, and nothing had been left out before.
            assert forall|i: int| 0 <= i < n && !sel.contains(i) implies sel.len() == k
                && lex_before(seen, sel[sel.len() - 1], i) by {
                if i == m {
                    assert(grown[p] == m);
                    assert(sel.contains(m));
                    assert(false);
                } else if prev.contains(i) {
                    let a = choose|a: int| 0 <= a < prev.len() && prev[a] == i;
                    if a < p {
                        assert(grown[a] == i);
                    } else {
                        assert(grown[a + 1] == i);
                    }
                    assert(sel.contains(i));
                    assert(false);
                } else {
                    assert(prev.len() == k);
                    assert(grown.len() == k + 1);
                    assert(false);
                }
            }
        }
    }
}

/// Transitivity of the (distance, arrival) order.
proof fn lemma_lex_before_trans(seen: Seq<Candidate>, i: int, j: int, l: int)
    requires
        lex_before(seen, i, j),
        lex_before(seen, j, l),
    ensures
        lex_before(seen, i, l),
{
}

/// Keeps the `k` nearest of the candidates inserted so far, ties won by
/// earlier insertion; the stream of all inserted candidates is recorded in
/// the ghost field `seen`.
pub struct BoundedNearest {
    k: usize,
    buf: Vec<Candidate>,
    seen: Ghost<Seq<Candidate>>,
}

impl BoundedNearest {
    /// The candidates inserted so far, in insertion order.
    pub closed spec fn stream(self) -> Seq<Candidate> {
        self.seen@
    }

    /// The cap this selection was created with.
    pub closed spec fn cap(self) -> nat {
        self.k as nat
    }

    /// The buffer holds exactly the selection out of the stream.
    pub closed spec fn wf(self) -> bool {
        self.buf@ == selected(self.seen@, self.k as nat)
    }

    /// An empty selection with cap `k`.
    pub fn new(k: usize) -> (r: BoundedNearest)
        ensures
            r.wf(),
            r.stream() == Seq::<Candidate>::empty(),
            r.cap() == k as nat,
    {
        let r = BoundedNearest { k, buf: Vec::new(), seen: Ghost(Seq::empty()) };
        proof {
            assert(selection(Seq::<Candidate>::empty(), k as nat) == Seq::<int>::empty());
            assert(r.buf@ =~= selected(r.seen@, k as nat));
        }
        r
    }

    /// Offer one candidate: it is kept exactly if it is among the `k`
    /// smallest of everything offered so far.
    pub fn insert(&mut self, c: Candidate)
        requires
            old(self).wf(),
        ensures
            final(self).wf(),
            final(self).stream() == old(self).stream().push(c),
            final(self).cap() == old(self).cap(),
    {
        let ghost seen0 = self.seen@;
        let ghost kk = self.k as nat;
        let ghost prev = selection(seen0, kk);
        proof {
            lemma_selection_wf(seen0, kk);
        }
        let buf_len = self.buf.len();
        let mut p: usize = buf_len;
        while p > 0 && self.buf[p - 1].dist2 > c.dist2
            invariant
                p <= self.buf@.len(),
                self.buf@ == selected(seen0, kk),
                self.k as nat == kk,
                self.seen@ == seen0,
                forall|a: int|
                    p <= a < self.buf@.len() ==> #[trigger] self.buf@[a].dist2 > c.dist2,
            decreases p,
        {
            p = p - 1;
        }
        proof {
            assert(self.buf@.len() == prev.len());
            assert forall|a: int| 0 <= a < p implies seen0[#[trigger] prev[a]].dist2
                <= c.dist2 by {
                // The scan stopped at an entry not above the key; everything
                // before it is not above it either, by the selection's order.
                assert(self.buf@[p - 1] == seen0[prev[p - 1]]);
                assert(seen0[prev[p - 1]].dist2 <= c.dist2);
                if a < p - 1 {
                    assert(lex_before(seen0, prev[a], prev[p - 1]));
                }
                assert(self.buf@[a] == seen0[prev[a]]);
            }
            assert forall|a: int| p <= a < prev.len() implies seen0[#[trigger] prev[a]].dist2
                > c.dist2 by {
                assert(self.buf@[a] == seen0[prev[a]]);
            }
            lemma_insert_pos_of_boundary(prev, seen0, c.dist2, p as int);
        }
        let ghost seen1 = seen0.push(c);
        let ghost grown = prev.insert(p as int, seen0.len() as int);
        proof {
            assert(seen1.drop_last() =~= seen0);
            prev.insert_ensures(p as int, seen0.len() as int);
            assert(selection(seen1, kk) == if grown.len() > kk {
                grown.take(kk as int)
            } else {
                grown
            });
        }
        if buf_len < self.k {
            self.buf.insert(p, c);
            proof {
                assert(grown.len() <= kk);
                assert forall|a: int| 0 <= a < grown.len() implies self.buf@[a] == seen1[#[trigger] grown[a]] by {
                    if a < p {
                        assert(self.buf@[a] == seen0[prev[a]]);
                    } else if a == p {
                        assert(self.buf@[a] == c);
                    } else {
                        assert(self.buf@[a] == seen0[prev[a - 1]]);
                    }
                }
                assert(self.buf@ =~= selected(seen1, kk));
            }
        } else if p < self.k {
            self.buf.insert(p, c);
            let _ = self.buf.pop();
            proof {
                assert(grown.len() == kk + 1);
                let sel = grown.take(kk as int);
                assert(forall|a: int| 0 <= a < kk ==> #[trigger] sel[a] == grown[a]);
                assert forall|a: int| 0 <= a < kk implies self.buf@[a] == seen1[#[trigger] sel[a]] by {
                    if a < p {
                        assert(self.buf@[a] == seen0[prev[a]]);
                    } else if a == p {
                        assert(self.buf@[a] == c);
                    } else {
                        assert(self.buf@[a] == seen0[prev[a - 1]]);
                    }
                }
                assert(self.buf@ =~= selected(seen1, kk));
            }
        } else {
            proof {
                assert(grown.len() == kk + 1);
                let sel = grown.take(kk as int);
                assert(forall|a: int| 0 <= a < kk ==> #[trigger] sel[a] == grown[a]);
                assert forall|a: int| 0 <= a < kk implies self.buf@[a] == seen1[#[trigger] sel[a]] by {
                    assert(self.buf@[a] == seen0[prev[a]]);
                }
                assert(self.buf@ =~= selected(seen1, kk));
            }
        }
        self.seen = Ghost(seen1);
    }

    /// Hand the kept candidates out, closest first.
    pub fn finish(self) -> (r: Vec<Candidate>)
        requires
            self.wf(),
        ensures
            r@ == selected(self.stream(), self.cap()),
    {
        self.buf
    }
}

} // verus!
