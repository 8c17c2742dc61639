//! Mutable solver state: the per-cell candidate sets and the trail of
//! eliminations that lets search roll back to an earlier checkpoint exactly.
//!
//! The candidate sets of all eighty-one cells are kept as one flat board of
//! `81 * 9` booleans; the entry at `p * 9 + d - 1` says whether digit `d` is
//! still possible for cell `p`.  Every mutation during propagation clears one
//! such entry and logs its index on the trail, so rolling back is setting the
//! logged entries back, newest first.

use vstd::prelude::*;

verus! {

/// Digit `d` is still a candidate for cell `p` on board `c`.
pub open spec fn dom_has(c: Seq<bool>, p: int, d: int) -> bool {
    &&& 0 <= p < 81
    &&& 1 <= d <= 9
    &&& c[p * 9 + d - 1]
}

/// Digit `d` is the only candidate left for cell `p`.
pub open spec fn dom_singleton(c: Seq<bool>, p: int, d: int) -> bool {
    &&& dom_has(c, p, d)
    &&& forall|e: int| 1 <= e <= 9 && e != d ==> !dom_has(c, p, e)
}

/// No digit other than `d` is a candidate for cell `p`.
pub open spec fn dom_sub(c: Seq<bool>, p: int, d: int) -> bool {
    forall|e: int| dom_has(c, p, e) ==> e == d
}

/// Every candidate on board `a` is also a candidate on board `b`.
pub open spec fn shrinks(a: Seq<bool>, b: Seq<bool>) -> bool {
    &&& a.len() == 729
    &&& b.len() == 729
    &&& forall|i: int| 0 <= i < 729 && #[trigger] a[i] ==> b[i]
}

/// How many digits below `d` are still candidates for cell `p`.
pub open spec fn pcount(c: Seq<bool>, p: int, d: int) -> nat
    decreases d,
{
    if d <= 1 {
        0
    } else {
        pcount(c, p, d - 1) + if dom_has(c, p, (d - 1) as int) {
            1nat
        } else {
            0nat
        }
    }
}

/// How many digits are still candidates for cell `p`.
pub open spec fn cell_count(c: Seq<bool>, p: int) -> nat {
    pcount(c, p, 10)
}

/// A cell confined to one digit has candidate count one.
pub proof fn lemma_singleton_count(c: Seq<bool>, p: int, d: int, e: int)
    requires
        dom_singleton(c, p, d),
        1 <= e <= 10,
    ensures
        pcount(c, p, e) == if e > d {
            1nat
        } else {
            0nat
        },
    decreases e,
{
    if e > 1 {
        lemma_singleton_count(c, p, d, e - 1);
        if e - 1 != d {
            assert(!dom_has(c, p, e - 1));
        }
    }
}

/// The board with every digit still possible for every cell.
pub open spec fn full_board() -> Seq<bool> {
    Seq::new(729, |i: int| true)
}

/// How many candidates are left on the whole board.
pub open spec fn cnt(c: Seq<bool>) -> nat
    decreases c.len(),
{
    if c.len() == 0 {
        0
    } else {
        cnt(c.drop_last()) + if c.last() {
            1nat
        } else {
            0nat
        }
    }
}

/// Clearing a set entry lowers the candidate count by exactly one.
pub proof fn lemma_cnt_update_false(c: Seq<bool>, i: int)
    requires
        0 <= i < c.len(),
        c[i],
    ensures
        cnt(c.update(i, false)) + 1 == cnt(c),
    decreases c.len(),
{
    if i == c.len() - 1 {
        assert(c.update(i, false).drop_last() =~= c.drop_last());
    } else {
        assert(c.update(i, false).drop_last() =~= c.drop_last().update(i, false));
        lemma_cnt_update_false(c.drop_last(), i);
    }
}

/// A board with pointwise fewer candidates has a count no larger.
pub proof fn lemma_cnt_le(a: Seq<bool>, b: Seq<bool>)
    requires
        a.len() == b.len(),
        forall|i: int| 0 <= i < a.len() && #[trigger] a[i] ==> b[i],
    ensures
        cnt(a) <= cnt(b),
    decreases a.len(),
{
    if a.len() > 0 {
        assert(forall|i: int|
            0 <= i < a.len() - 1 && #[trigger] a.drop_last()[i] ==> b.drop_last()[i]);
        lemma_cnt_le(a.drop_last(), b.drop_last());
    }
}

/// A board with pointwise fewer candidates, one of them strictly missing, has
/// a strictly smaller count.
pub proof fn lemma_cnt_lt(a: Seq<bool>, b: Seq<bool>, w: int)
    requires
        a.len() == b.len(),
        forall|i: int| 0 <= i < a.len() && #[trigger] a[i] ==> b[i],
        0 <= w < a.len(),
        !a[w],
        b[w],
    ensures
        cnt(a) < cnt(b),
{
    let b2 = b.update(w, false);
    assert(forall|i: int| 0 <= i < a.len() && #[trigger] a[i] ==> b2[i]);
    lemma_cnt_le(a, b2);
    lemma_cnt_update_false(b, w);
}

/// The board obtained from `c` by undoing every trail entry recorded after
/// the first `k`, newest first: each undone entry sets its board slot back.
pub open spec fn undo_to(c: Seq<bool>, t: Seq<usize>, k: int) -> Seq<bool>
    decreases t.len() - k,
{
    if k < 0 || t.len() <= k {
        c
    } else {
        undo_to(c.update(t.last() as int, true), t.drop_last(), k)
    }
}

/// Logging the clearing of a set entry leaves every earlier undo point
/// unchanged.
pub proof fn lemma_undo_push(c: Seq<bool>, t: Seq<usize>, i: usize, k: int)
    requires
        0 <= k <= t.len(),
        i < c.len(),
        c[i as int],
    ensures
        undo_to(c.update(i as int, false), t.push(i), k) == undo_to(c, t, k),
{
    let t2 = t.push(i);
    assert(t2.drop_last() =~= t);
    assert(c.update(i as int, false).update(i as int, true) =~= c);
}

/// The candidate store together with its rollback trail.
pub struct SolverState {
    /// The flat candidate board; entry `p * 9 + d - 1` says whether digit `d`
    /// remains possible for cell `p`.
    pub cands: Vec<bool>,
    /// Indices of cleared board entries, oldest first.
    pub trail: Vec<usize>,
}

impl SolverState {
    /// The board has its full size and every trail entry points into it.
    pub open spec fn wf(self) -> bool {
        &&& self.cands@.len() == 729
        &&& forall|j: int| 0 <= j < self.trail@.len() ==> #[trigger] self.trail@[j] < 729
    }

    /// A fresh state: every digit possible everywhere, nothing to undo.
    #[verifier::loop_isolation(false)]
    pub fn new() -> (r: SolverState)
        ensures
            r.wf(),
            r.cands@ == full_board(),
            r.trail@.len() == 0,
    {
        let mut cands: Vec<bool> = Vec::new();
        for i in 0..729usize
            invariant
                cands@.len() == i,
                forall|j: int| 0 <= j < i ==> #[trigger] cands@[j],
        {
            cands.push(true);
        }
        let r = SolverState { cands, trail: Vec::new() };
        proof {
            assert(r.cands@ =~= full_board());
        }
        r
    }

    /// Whether digit `d` is still possible for cell `p`.
    pub fn has(&self, p: usize, d: u8) -> (r: bool)
        requires
            self.wf(),
            p < 81,
            1 <= d <= 9,
        ensures
            r == dom_has(self.cands@, p as int, d as int),
    {
        self.cands[p * 9 + (d as usize) - 1]
    }

    /// Marks the current trail length so that `rollback` can restore the
    /// state exactly as it is now.
    pub fn checkpoint(&self) -> (m: usize)
        ensures
            m == self.trail@.len(),
    {
        self.trail.len()
    }

    /// Removes digit `d` as a candidate for cell `p`, logging the removal.
    pub fn eliminate(&mut self, p: usize, d: u8)
        requires
            old(self).wf(),
            p < 81,
            1 <= d <= 9,
            dom_has(old(self).cands@, p as int, d as int),
        ensures
            final(self).wf(),
            final(self).cands@ == old(self).cands@.update(p * 9 + d - 1, false),
            final(self).trail@ == old(self).trail@.push((p * 9 + (d as usize) - 1) as usize),
            cnt(final(self).cands@) + 1 == cnt(old(self).cands@),
            forall|k: int|
                0 <= k <= old(self).trail@.len() ==> undo_to(
                    final(self).cands@,
                    final(self).trail@,
                    k,
                ) == undo_to(old(self).cands@, old(self).trail@, k),
    {
        let i = p * 9 + (d as usize) - 1;
        proof {
            lemma_cnt_update_false(self.cands@, i as int);
            assert forall|k: int| 0 <= k <= self.trail@.len() implies undo_to(
                self.cands@.update(i as int, false),
                self.trail@.push(i),
                k,
            ) == undo_to(self.cands@, self.trail@, k) by {
                lemma_undo_push(self.cands@, self.trail@, i, k);
            }
        }
        self.trail.push(i);
        self.cands.set(i, false);
    }

    /// Undoes every elimination logged after the marker `m`, restoring the
    /// candidate board exactly as it was when `m` was taken.
    #[verifier::loop_isolation(false)]
    pub fn rollback(&mut self, m: usize)
        requires
            old(self).wf(),
            m <= old(self).trail@.len(),
        ensures
            final(self).wf(),
            final(self).cands@ == undo_to(old(self).cands@, old(self).trail@, m as int),
            final(self).trail@ == old(self).trail@.take(m as int),
    {
        while self.trail.len() > m
            invariant
                self.wf(),
                m <= self.trail@.len(),
                self.trail@.len() <= old(self).trail@.len(),
                undo_to(self.cands@, self.trail@, m as int) == undo_to(
                    old(self).cands@,
                    old(self).trail@,
                    m as int,
                ),
                self.trail@ == old(self).trail@.take(self.trail@.len() as int),
            decreases self.trail@.len() - m,
        {
            let ghost t0 = self.trail@;
            let i = self.trail.pop().unwrap();
            self.cands.set(i, true);
            proof {
                assert(self.trail@ =~= t0.drop_last());
                assert(t0 == old(self).trail@.take(t0.len() as int));
                assert forall|j: int| 0 <= j < t0.len() - 1 implies t0.drop_last()[j] == old(
                    self,
                ).trail@[j] by {
                    assert(t0[j] == old(self).trail@.take(t0.len() as int)[j]);
                }
                assert(self.trail@ =~= old(self).trail@.take(self.trail@.len() as int));
            }
        }
        proof {
            assert(self.trail@ =~= old(self).trail@.take(m as int));
        }
    }

    /// Restricts cell `p` to the single digit `d` by eliminating every other
    /// candidate of the cell, or reports failure if `d` itself is no longer
    /// possible there.  Nothing is changed on failure.
    #[verifier::loop_isolation(false)]
    pub fn restrict_cell(&mut self, p: usize, d: u8) -> (ok: bool)
        requires
            old(self).wf(),
            p < 81,
            1 <= d <= 9,
        ensures
            final(self).wf(),
            ok <==> dom_has(old(self).cands@, p as int, d as int),
            !ok ==> final(self).cands@ == old(self).cands@ && final(self).trail@ == old(
                self,
            ).trail@,
            ok ==> forall|i: int|
                0 <= i < 729 ==> #[trigger] final(self).cands@[i] == (old(self).cands@[i] && !(p
                    * 9 <= i < p * 9 + 9 && i != p * 9 + d - 1)),
            ok ==> forall|q: int, e: int|
                dom_has(final(self).cands@, q, e) == (dom_has(old(self).cands@, q, e) && (q != p
                    || e == d)),
            ok ==> dom_singleton(final(self).cands@, p as int, d as int),
            shrinks(final(self).cands@, old(self).cands@),
            cnt(final(self).cands@) <= cnt(old(self).cands@),
            forall|e: int|
                ok && 1 <= e <= 9 && e != d && dom_has(old(self).cands@, p as int, e) ==> cnt(
                    final(self).cands@,
                ) < cnt(old(self).cands@),
            final(self).trail@.len() >= old(self).trail@.len(),
            final(self).trail@.take(old(self).trail@.len() as int) == old(self).trail@,
            forall|k: int|
                0 <= k <= old(self).trail@.len() ==> undo_to(
                    final(self).cands@,
                    final(self).trail@,
                    k,
                ) == undo_to(old(self).cands@, old(self).trail@, k),
    {
        if !self.has(p, d) {
            return false;
        }
        let ghost c0 = self.cands@;
        let ghost t0 = self.trail@;
        for e in 1..10u8
            invariant
                self.wf(),
                p < 81,
                1 <= d <= 9,
                1 <= e <= 10,
                dom_has(c0, p as int, d as int),
                forall|i: int|
                    0 <= i < 729 ==> #[trigger] self.cands@[i] == (c0[i] && !(p * 9 <= i < p * 9
                        + e - 1 && i != p * 9 + d - 1)),
                cnt(self.cands@) <= cnt(c0),
                self.trail@.len() >= t0.len(),
                self.trail@.take(t0.len() as int) == t0,
                forall|k: int|
                    0 <= k <= t0.len() ==> undo_to(self.cands@, self.trail@, k) == undo_to(
                        c0,
                        t0,
                        k,
                    ),
        {
            if e != d && self.has(p, e) {
                let ghost tmid = self.trail@;
                self.eliminate(p, e);
                proof {
                    assert(self.trail@.take(t0.len() as int) =~= tmid.take(t0.len() as int));
                }
            }
            proof {
                assert forall|i: int|
                    0 <= i < 729 implies #[trigger] self.cands@[i] == (c0[i] && !(p * 9 <= i < p
                        * 9 + e && i != p * 9 + d - 1)) by {}
            }
        }
        proof {
            assert forall|q: int, e: int| #[trigger] dom_has(self.cands@, q, e) == (dom_has(
                c0,
                q,
                e,
            ) && (q != p || e == d)) by {
                if 0 <= q < 81 && 1 <= e <= 9 {
                    assert(p * 9 <= q * 9 + e - 1 < p * 9 + 9 <==> q == p);
                }
            }
            assert forall|e: int|
                1 <= e <= 9 && e != d && dom_has(c0, p as int, e) implies cnt(self.cands@) < cnt(
                c0,
            ) by {
                lemma_cnt_lt(self.cands@, c0, p * 9 + e - 1);
            }
        }
        true
    }
}

} // verus!
