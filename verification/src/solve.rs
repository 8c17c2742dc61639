//! Constraint propagation and backtracking search.
//!
//! The solver keeps, for every cell, the set of digits still possible.
//! Assigning a digit eliminates it from every cell sharing a group with the
//! assigned one; a cell whose candidate set collapses to one digit is itself
//! assigned, until no forced assignment remains or some cell runs out of
//! digits.  Search branches on a cell with the fewest candidates, trying its
//! digits in ascending order and rolling the state back after each failed
//! attempt.  The result is proved sound — a returned grid fills every group
//! with nine distinct digits and preserves the clues — and complete — an
//! unsatisfiable verdict means no such grid exists.

use vstd::prelude::*;

use crate::state::{
    cell_count, cnt, dom_has, dom_singleton, dom_sub, full_board, lemma_cnt_le,
    lemma_singleton_count, pcount, shrinks, undo_to, SolverState,
};
use crate::typedefs::{group_conflict, has_conflict, Puzzle, Solution, SolveOutcome};

verus! {

/// The cell indices of group `k` of the puzzle.
pub open spec fn group_at(pz: Puzzle, k: int) -> Seq<int> {
    pz.groups@[k].idxs()
}

/// Cells `p` and `q` both belong to group `k` of the puzzle.
pub open spec fn in_same_group(pz: Puzzle, k: int, p: int, q: int) -> bool {
    &&& 0 <= k < pz.groups@.len()
    &&& exists|a: int, b: int|
        0 <= a < 9 && 0 <= b < 9 && group_at(pz, k)[a] == p && group_at(pz, k)[b] == q
}

/// Some group of the puzzle contains both cells `p` and `q`.
pub open spec fn share_group(pz: Puzzle, p: int, q: int) -> bool {
    exists|k: int| #[trigger] in_same_group(pz, k, p, q)
}

/// Grid `g` solves the puzzle: a digit in every cell, no digit repeated
/// within any group, and every clue preserved unchanged.
pub open spec fn is_solution(pz: Puzzle, g: Seq<u8>) -> bool {
    &&& g.len() == 81
    &&& forall|p: int| 0 <= p < 81 ==> 1 <= #[trigger] g[p] <= 9
    &&& forall|k: int, a: int, b: int|
        0 <= k < pz.groups@.len() && 0 <= a < 9 && 0 <= b < 9 && a != b ==> #[trigger] g[group_at(
            pz,
            k,
        )[a]] != #[trigger] g[group_at(pz, k)[b]]
    &&& forall|p: int| 0 <= p < 81 && #[trigger] pz.clues@[p] != 0 ==> g[p] == pz.clues@[p]
}

/// Grid `g` only uses digits that board `c` still allows.
pub open spec fn consistent(g: Seq<u8>, c: Seq<bool>) -> bool {
    forall|p: int| 0 <= p < 81 ==> #[trigger] dom_has(c, p, g[p] as int)
}

/// No solution of the puzzle is consistent with board `c`.
pub open spec fn no_solution_under(pz: Puzzle, c: Seq<bool>) -> bool {
    forall|g: Seq<u8>| !(is_solution(pz, g) && #[trigger] consistent(g, c))
}

/// Digit `d`, the sole candidate of cell `p`, has been eliminated from every
/// cell sharing a group with `p`.
pub open spec fn propagated_all(pz: Puzzle, c: Seq<bool>, p: int, d: int) -> bool {
    forall|q: int| #[trigger] share_group(pz, p, q) && q != p ==> !dom_has(c, q, d)
}

/// Every cell reduced to a single digit has had that digit eliminated from
/// all its peers: propagation has reached a fixpoint.
pub open spec fn fixpoint(pz: Puzzle, c: Seq<bool>) -> bool {
    forall|p: int, d: int| #[trigger] dom_singleton(c, p, d) ==> propagated_all(pz, c, p, d)
}

/// Every clue cell admits no digit but its clue.
pub open spec fn clue_consistent(pz: Puzzle, c: Seq<bool>) -> bool {
    forall|p: int|
        0 <= p < 81 && #[trigger] pz.clues@[p] != 0 ==> dom_sub(c, p, pz.clues@[p] as int)
}

/// Cell `p` is down to exactly one candidate digit.
pub open spec fn cell_solved(c: Seq<bool>, p: int) -> bool {
    exists|d: int| #[trigger] dom_singleton(c, p, d)
}

/// The pair `(p, d)` appears in the pending-assignment queue.
pub open spec fn in_queue(q: Seq<(usize, u8)>, p: int, d: int) -> bool {
    exists|j: int| 0 <= j < q.len() && (#[trigger] q[j]).0 == p && q[j].1 == d
}

/// Every queued pair names a cell whose candidates are contained in its
/// digit: the assignment is forced.
pub open spec fn queue_ok(q: Seq<(usize, u8)>, c: Seq<bool>) -> bool {
    forall|j: int|
        0 <= j < q.len() ==> (#[trigger] q[j]).0 < 81 && 1 <= q[j].1 <= 9 && dom_sub(
            c,
            q[j].0 as int,
            q[j].1 as int,
        )
}

/// Every cell reduced to a single digit is either queued for propagation or
/// already fully propagated.
pub open spec fn pending_ok(pz: Puzzle, c: Seq<bool>, q: Seq<(usize, u8)>) -> bool {
    forall|p: int, d: int|
        #[trigger] dom_singleton(c, p, d) ==> in_queue(q, p, d) || propagated_all(pz, c, p, d)
}

/// What a scan of one cell's candidates found.
pub(crate) enum CellStatus {
    /// No candidate left.
    NoneLeft,
    /// Exactly this one candidate left.
    Single(u8),
    /// At least two candidates left.
    Multi,
}

/// Scans the nine candidate slots of cell `p`.
#[verifier::loop_isolation(false)]
pub(crate) fn cell_status(c: &Vec<bool>, p: usize) -> (st: CellStatus)
    requires
        c@.len() == 729,
        p < 81,
    ensures
        st is NoneLeft ==> forall|e: int| !dom_has(c@, p as int, e),
        st matches CellStatus::Single(d) ==> 1 <= d <= 9 && dom_singleton(
            c@,
            p as int,
            d as int,
        ),
        st is Multi ==> exists|e1: int, e2: int|
            e1 != e2 && #[trigger] dom_has(c@, p as int, e1) && #[trigger] dom_has(
                c@,
                p as int,
                e2,
            ),
{
    let mut found: u8 = 0;
    let mut count: u8 = 0;
    for e in 1..10u8
        invariant
            count <= 2,
            count == 0 ==> found == 0 && forall|e2: int| e2 < e ==> !dom_has(c@, p as int, e2),
            count == 1 ==> 1 <= found < e && dom_has(c@, p as int, found as int) && forall|
                e2: int,
            |
                e2 < e && e2 != found ==> !dom_has(c@, p as int, e2),
            count == 2 ==> exists|e1: int, e2: int|
                e1 != e2 && #[trigger] dom_has(c@, p as int, e1) && #[trigger] dom_has(
                    c@,
                    p as int,
                    e2,
                ),
    {
        if c[p * 9 + (e as usize) - 1] {
            if count == 0 {
                found = e;
                count = 1;
            } else if count == 1 {
                proof {
                    assert(dom_has(c@, p as int, found as int) && dom_has(c@, p as int, e as int)
                        && found != e);
                }
                count = 2;
            }
        }
    }
    if count == 0 {
        CellStatus::NoneLeft
    } else if count == 1 {
        CellStatus::Single(found)
    } else {
        CellStatus::Multi
    }
}

/// Counts the candidates left for cell `p`.
#[verifier::loop_isolation(false)]
pub(crate) fn count_cell(c: &Vec<bool>, p: usize) -> (n: u8)
    requires
        c@.len() == 729,
        p < 81,
    ensures
        n == cell_count(c@, p as int),
        n <= 9,
{
    let mut n: u8 = 0;
    for e in 1..10u8
        invariant
            n < e,
            n == pcount(c@, p as int, e as int),
    {
        if c[p * 9 + (e as usize) - 1] {
            proof {
                assert(dom_has(c@, p as int, e as int));
            }
            n = n + 1;
        }
    }
    n
}

/// Picks the branching cell: among the cells not reduced to a single digit,
/// one with the fewest candidates, ties broken in row-major order.  Returns
/// nothing when every cell is down to a single digit.
#[verifier::loop_isolation(false)]
pub(crate) fn pick_cell(c: &Vec<bool>) -> (r: Option<usize>)
    requires
        c@.len() == 729,
    ensures
        r matches Some(cm) ==> {
            &&& cm < 81
            &&& forall|d: int| !dom_singleton(c@, cm as int, d)
            &&& forall|q: int|
                0 <= q < 81 && #[trigger] cell_count(c@, q) != 1 ==> cell_count(c@, cm as int)
                    <= cell_count(c@, q)
            &&& forall|q: int|
                0 <= q < cm && #[trigger] cell_count(c@, q) != 1 ==> cell_count(c@, cm as int)
                    < cell_count(c@, q)
        },
        r is None ==> forall|p: int| 0 <= p < 81 ==> #[trigger] cell_solved(c@, p),
{
    let mut best: usize = 81;
    let mut best_n: u8 = 10;
    for p in 0..81usize
        invariant
            best <= 81,
            best == 81 ==> forall|q: int| 0 <= q < p ==> #[trigger] cell_solved(c@, q),
            best == 81 ==> forall|q: int| 0 <= q < p ==> #[trigger] cell_count(c@, q) == 1,
            best < 81 ==> {
                &&& best < p
                &&& (forall|d: int| !dom_singleton(c@, best as int, d))
                &&& best_n == cell_count(c@, best as int)
                &&& forall|q: int|
                    0 <= q < p && #[trigger] cell_count(c@, q) != 1 ==> best_n <= cell_count(
                        c@,
                        q,
                    )
                &&& forall|q: int|
                    0 <= q < best && #[trigger] cell_count(c@, q) != 1 ==> best_n < cell_count(
                        c@,
                        q,
                    )
            },
    {
        let st = cell_status(c, p);
        match st {
            CellStatus::Single(dsk) => {
                proof {
                    assert(cell_solved(c@, p as int));
                    lemma_singleton_count(c@, p as int, dsk as int, 10);
                    assert(cell_count(c@, p as int) == 1);
                }
            },
            _ => {
                proof {
                    assert forall|d: int| !dom_singleton(c@, p as int, d) by {
                        if dom_singleton(c@, p as int, d) {
                            if st is NoneLeft {
                                assert(!dom_has(c@, p as int, d));
                            } else {
                                let (e1, e2) = choose|e1: int, e2: int|
                                    e1 != e2 && #[trigger] dom_has(c@, p as int, e1)
                                        && #[trigger] dom_has(c@, p as int, e2);
                                assert(e1 == d && e2 == d);
                            }
                        }
                    }
                }
                let n = count_cell(c, p);
                if best == 81 || n < best_n {
                    best = p;
                    best_n = n;
                }
            },
        }
    }
    if best == 81 {
        None
    } else {
        Some(best)
    }
}

/// For every cell of group `k` other than `p`, digit `d` is gone, provided
/// `p` itself lies in the group.
pub open spec fn group_cleaned(pz: Puzzle, c: Seq<bool>, k: int, p: int, d: int) -> bool {
    forall|a: int, b: int|
        0 <= a < 9 && 0 <= b < 9 && #[trigger] group_at(pz, k)[a] == p && #[trigger] group_at(
            pz,
            k,
        )[b] != p ==> !dom_has(c, group_at(pz, k)[b], d)
}

/// Candidates only disappear, so an absent digit stays absent.
proof fn lemma_dom_has_shrink(a: Seq<bool>, b: Seq<bool>, p: int, d: int)
    requires
        shrinks(a, b),
        dom_has(a, p, d),
    ensures
        dom_has(b, p, d),
{
    assert(a[p * 9 + d - 1]);
}

/// A cell already confined to one digit stays confined when candidates
/// disappear.
proof fn lemma_dom_sub_shrink(a: Seq<bool>, b: Seq<bool>, p: int, d: int)
    requires
        shrinks(a, b),
        dom_sub(b, p, d),
    ensures
        dom_sub(a, p, d),
{
    assert forall|e: int| dom_has(a, p, e) implies e == d by {
        lemma_dom_has_shrink(a, b, p, e);
    }
}

/// Queued assignments stay forced when candidates disappear.
proof fn lemma_queue_ok_shrink(q: Seq<(usize, u8)>, a: Seq<bool>, b: Seq<bool>)
    requires
        shrinks(a, b),
        queue_ok(q, b),
    ensures
        queue_ok(q, a),
{
    assert forall|j: int| 0 <= j < q.len() implies (#[trigger] q[j]).0 < 81 && 1 <= q[j].1 <= 9
        && dom_sub(a, q[j].0 as int, q[j].1 as int) by {
        lemma_dom_sub_shrink(a, b, q[j].0 as int, q[j].1 as int);
    }
}

/// A cleaned group stays cleaned when candidates disappear.
proof fn lemma_cleaned_shrink(pz: Puzzle, a: Seq<bool>, b: Seq<bool>, k: int, p: int, d: int)
    requires
        shrinks(a, b),
        group_cleaned(pz, b, k, p, d),
    ensures
        group_cleaned(pz, a, k, p, d),
{
    assert forall|x: int, y: int|
        0 <= x < 9 && 0 <= y < 9 && #[trigger] group_at(pz, k)[x] == p && #[trigger] group_at(
            pz,
            k,
        )[y] != p implies !dom_has(a, group_at(pz, k)[y], d) by {
        if dom_has(a, group_at(pz, k)[y], d) {
            lemma_dom_has_shrink(a, b, group_at(pz, k)[y], d);
        }
    }
}

/// Eliminates digit `d` from every peer of cell `p` — every other cell of a
/// group containing `p` — queueing any peer thereby forced to a single digit,
/// and failing if a peer runs out of digits.
#[verifier::loop_isolation(false)]
fn propagate_one(
    pz: &Puzzle,
    st: &mut SolverState,
    queue: &mut Vec<(usize, u8)>,
    p: usize,
    d: u8,
) -> (ok: bool)
    requires
        pz.wf(),
        old(st).wf(),
        p < 81,
        1 <= d <= 9,
        dom_singleton(old(st).cands@, p as int, d as int),
        queue_ok(old(queue)@, old(st).cands@),
    ensures
        final(st).wf(),
        shrinks(final(st).cands@, old(st).cands@),
        final(st).trail@.len() >= old(st).trail@.len(),
        final(st).trail@.take(old(st).trail@.len() as int) == old(st).trail@,
        forall|kk: int|
            0 <= kk <= old(st).trail@.len() ==> undo_to(final(st).cands@, final(st).trail@, kk)
                == undo_to(old(st).cands@, old(st).trail@, kk),
        forall|g: Seq<u8>|
            is_solution(*pz, g) && #[trigger] consistent(g, old(st).cands@) ==> ok && consistent(
                g,
                final(st).cands@,
            ),
        ok ==> {
            &&& final(queue)@.len() >= old(queue)@.len()
            &&& final(queue)@.take(old(queue)@.len() as int) == old(queue)@
            &&& queue_ok(final(queue)@, final(st).cands@)
            &&& 2 * cnt(final(st).cands@) + final(queue)@.len() <= 2 * cnt(old(st).cands@) + old(
                queue,
            )@.len()
            &&& forall|p2: int, d2: int|
                #[trigger] dom_singleton(final(st).cands@, p2, d2) ==> dom_singleton(
                    old(st).cands@,
                    p2,
                    d2,
                ) || in_queue(final(queue)@, p2, d2)
            &&& propagated_all(*pz, final(st).cands@, p as int, d as int)
            &&& dom_singleton(final(st).cands@, p as int, d as int)
        },
{
    let ghost c0 = st.cands@;
    let ghost t0 = st.trail@;
    let ghost q0 = queue@;
    let ng = pz.groups.len();
    for k in 0..ng
        invariant
            st.wf(),
            ng == pz.groups@.len(),
            dom_singleton(st.cands@, p as int, d as int),
            shrinks(st.cands@, c0),
            st.trail@.len() >= t0.len(),
            st.trail@.take(t0.len() as int) == t0,
            forall|kk: int|
                0 <= kk <= t0.len() ==> undo_to(st.cands@, st.trail@, kk) == undo_to(c0, t0, kk),
            queue@.len() >= q0.len(),
            queue@.take(q0.len() as int) == q0,
            queue_ok(queue@, st.cands@),
            2 * cnt(st.cands@) + queue@.len() <= 2 * cnt(c0) + q0.len(),
            forall|p2: int, d2: int|
                #[trigger] dom_singleton(st.cands@, p2, d2) ==> dom_singleton(c0, p2, d2)
                    || in_queue(queue@, p2, d2),
            forall|g: Seq<u8>|
                is_solution(*pz, g) && #[trigger] consistent(g, c0) ==> consistent(g, st.cands@),
            forall|k2: int|
                0 <= k2 < k ==> #[trigger] group_cleaned(*pz, st.cands@, k2, p as int, d as int),
    {
        let mut contains = false;
        let ghost mut wa: int = 0;
        for a in 0..9usize
            invariant
                contains ==> 0 <= wa < 9 && group_at(*pz, k as int)[wa] == p,
                !contains ==> forall|a2: int|
                    0 <= a2 < a ==> #[trigger] group_at(*pz, k as int)[a2] != p,
        {
            let pos = &pz.groups[k].positions[a];
            let qi = (pos.row as usize) * 9 + (pos.col as usize);
            proof {
                assert(qi == group_at(*pz, k as int)[a as int]);
            }
            if qi == p {
                contains = true;
                proof {
                    wa = a as int;
                }
            }
        }
        if contains {
            for b in 0..9usize
                invariant
                    st.wf(),
                    ng == pz.groups@.len(),
                    k < ng,
                    0 <= wa < 9 && group_at(*pz, k as int)[wa] == p,
                    dom_singleton(st.cands@, p as int, d as int),
                    shrinks(st.cands@, c0),
                    st.trail@.len() >= t0.len(),
                    st.trail@.take(t0.len() as int) == t0,
                    forall|kk: int|
                        0 <= kk <= t0.len() ==> undo_to(st.cands@, st.trail@, kk) == undo_to(
                            c0,
                            t0,
                            kk,
                        ),
                    queue@.len() >= q0.len(),
                    queue@.take(q0.len() as int) == q0,
                    queue_ok(queue@, st.cands@),
                    2 * cnt(st.cands@) + queue@.len() <= 2 * cnt(c0) + q0.len(),
                    forall|p2: int, d2: int|
                        #[trigger] dom_singleton(st.cands@, p2, d2) ==> dom_singleton(c0, p2, d2)
                            || in_queue(queue@, p2, d2),
                    forall|g: Seq<u8>|
                        is_solution(*pz, g) && #[trigger] consistent(g, c0) ==> consistent(
                            g,
                            st.cands@,
                        ),
                    forall|k2: int|
                        0 <= k2 < k ==> #[trigger] group_cleaned(
                            *pz,
                            st.cands@,
                            k2,
                            p as int,
                            d as int,
                        ),
                    forall|b2: int|
                        0 <= b2 < b && #[trigger] group_at(*pz, k as int)[b2] != p ==> !dom_has(
                            st.cands@,
                            group_at(*pz, k as int)[b2],
                            d as int,
                        ),
            {
                let pos = &pz.groups[k].positions[b];
                let q = (pos.row as usize) * 9 + (pos.col as usize);
                proof {
                    assert(q == group_at(*pz, k as int)[b as int]);
                    assert(q < 81);
                }
                if q != p && st.has(q, d) {
                    let ghost cpre = st.cands@;
                    let ghost tpre = st.trail@;
                    let ghost qpre = queue@;
                    st.eliminate(q, d);
                    proof {
                        let cnew = st.cands@;
                        assert(cnew == cpre.update(q * 9 + d - 1, false));
                        assert(shrinks(cnew, cpre));
                        assert(shrinks(cnew, c0));
                        // the assigned cell keeps its lone digit: its slots are untouched
                        assert forall|e: int| 1 <= e <= 9 implies dom_has(cnew, p as int, e)
                            == dom_has(cpre, p as int, e) by {
                            assert(p * 9 + e - 1 != q * 9 + d - 1);
                        }
                        assert(dom_singleton(cnew, p as int, d as int));
                        // trail bookkeeping
                        assert(st.trail@.take(t0.len() as int) =~= tpre.take(t0.len() as int));
                        // any surviving solution avoids the eliminated digit
                        assert forall|g: Seq<u8>|
                            is_solution(*pz, g) && #[trigger] consistent(g, c0) implies consistent(
                            g,
                            cnew,
                        ) by {
                            assert(consistent(g, cpre));
                            assert(dom_has(cpre, p as int, g[p as int] as int));
                            assert(g[p as int] == d);
                            assert(g[group_at(*pz, k as int)[wa]] != g[group_at(
                                *pz,
                                k as int,
                            )[b as int]]);
                            assert(g[q as int] != d);
                            assert forall|p2: int| 0 <= p2 < 81 implies dom_has(
                                cnew,
                                p2,
                                g[p2] as int,
                            ) by {
                                assert(dom_has(cpre, p2, g[p2] as int));
                                if p2 * 9 + g[p2] - 1 == q * 9 + d - 1 {
                                    assert(p2 == q && g[p2] == d);
                                    assert(false);
                                }
                            }
                        }
                        // queued assignments stay forced
                        lemma_queue_ok_shrink(queue@, cnew, cpre);
                        // cleaned groups stay cleaned
                        assert forall|k2: int| 0 <= k2 < k implies #[trigger] group_cleaned(
                            *pz,
                            cnew,
                            k2,
                            p as int,
                            d as int,
                        ) by {
                            lemma_cleaned_shrink(*pz, cnew, cpre, k2, p as int, d as int);
                        }
                    }
                    let stq = cell_status(&st.cands, q);
                    match stq {
                        CellStatus::NoneLeft => {
                            proof {
                                assert forall|g: Seq<u8>|
                                    is_solution(*pz, g) && #[trigger] consistent(
                                        g,
                                        c0,
                                    ) implies false by {
                                    assert(consistent(g, st.cands@));
                                    assert(dom_has(st.cands@, q as int, g[q as int] as int));
                                }
                            }
                            return false;
                        },
                        CellStatus::Single(e) => {
                            let ghost qmid = queue@;
                            queue.push((q, e));
                            proof {
                                assert(queue@.take(q0.len() as int) =~= qmid.take(q0.len() as int));
                                assert(queue@[queue@.len() - 1].0 == q && queue@[queue@.len()
                                    - 1].1 == e);
                                assert(in_queue(queue@, q as int, e as int));
                                assert forall|p2: int, d2: int|
                                    #[trigger] dom_singleton(st.cands@, p2, d2) implies
                                    dom_singleton(c0, p2, d2) || in_queue(queue@, p2, d2) by {
                                    if p2 == q as int {
                                        assert(dom_has(st.cands@, p2, d2));
                                        assert(d2 == e);
                                    } else {
                                        assert forall|e2: int| 1 <= e2 <= 9 implies dom_has(
                                            cpre,
                                            p2,
                                            e2,
                                        ) == dom_has(st.cands@, p2, e2) by {
                                            assert(p2 * 9 + e2 - 1 != q * 9 + d - 1);
                                        }
                                        assert(dom_singleton(cpre, p2, d2));
                                        if in_queue(qpre, p2, d2) {
                                            let j = choose|j: int|
                                                0 <= j < qpre.len() && (#[trigger] qpre[j]).0 == p2
                                                    && qpre[j].1 == d2;
                                            assert(queue@[j] == qpre[j]);
                                        }
                                    }
                                }
                                assert(queue_ok(queue@, st.cands@));
                            }
                        },
                        CellStatus::Multi => {
                            proof {
                                assert forall|p2: int, d2: int|
                                    #[trigger] dom_singleton(st.cands@, p2, d2) implies
                                    dom_singleton(c0, p2, d2) || in_queue(queue@, p2, d2) by {
                                    if p2 == q as int {
                                        let (e1, e2) = choose|e1: int, e2: int|
                                            e1 != e2 && #[trigger] dom_has(st.cands@, q as int, e1)
                                                && #[trigger] dom_has(st.cands@, q as int, e2);
                                        assert(e1 == d2 && e2 == d2);
                                    } else {
                                        assert forall|e2: int| 1 <= e2 <= 9 implies dom_has(
                                            cpre,
                                            p2,
                                            e2,
                                        ) == dom_has(st.cands@, p2, e2) by {
                                            assert(p2 * 9 + e2 - 1 != q * 9 + d - 1);
                                        }
                                        assert(dom_singleton(cpre, p2, d2));
                                    }
                                }
                            }
                        },
                    }
                }
                proof {
                    assert forall|b2: int|
                        0 <= b2 < b + 1 && #[trigger] group_at(*pz, k as int)[b2]
                            != p implies !dom_has(
                        st.cands@,
                        group_at(*pz, k as int)[b2],
                        d as int,
                    ) by {}
                }
            }
        }
        proof {
            assert(group_cleaned(*pz, st.cands@, k as int, p as int, d as int)) by {
                if contains {
                } else {
                    assert forall|x: int, y: int|
                        0 <= x < 9 && 0 <= y < 9 && #[trigger] group_at(*pz, k as int)[x] == p
                            && #[trigger] group_at(*pz, k as int)[y] != p implies !dom_has(
                        st.cands@,
                        group_at(*pz, k as int)[y],
                        d as int,
                    ) by {}
                }
            }
        }
    }
    proof {
        assert forall|q2: int|
            #[trigger] share_group(*pz, p as int, q2) && q2 != p implies !dom_has(
            st.cands@,
            q2,
            d as int,
        ) by {
            let kk = choose|kk: int| #[trigger] in_same_group(*pz, kk, p as int, q2);
            let (a2, b2) = choose|a2: int, b2: int|
                0 <= a2 < 9 && 0 <= b2 < 9 && group_at(*pz, kk)[a2] == p as int && group_at(
                    *pz,
                    kk,
                )[b2] == q2;
            assert(group_cleaned(*pz, st.cands@, kk, p as int, d as int));
            assert(group_at(*pz, kk)[b2] != p as int);
        }
    }
    true
}

/// Peers already rid of a digit stay rid of it when candidates disappear.
proof fn lemma_propagated_shrink(pz: Puzzle, a: Seq<bool>, b: Seq<bool>, p: int, d: int)
    requires
        shrinks(a, b),
        propagated_all(pz, b, p, d),
    ensures
        propagated_all(pz, a, p, d),
{
    assert forall|q: int| #[trigger] share_group(pz, p, q) && q != p implies !dom_has(
        a,
        q,
        d,
    ) by {
        if dom_has(a, q, d) {
            lemma_dom_has_shrink(a, b, q, d);
        }
    }
}

/// Runs forced assignments to a fixpoint: repeatedly takes a queued cell
/// whose candidates have collapsed to one digit and eliminates that digit
/// from all its peers, queueing newly forced cells, until the queue is empty
/// or some cell has no digit left.
#[verifier::loop_isolation(false)]
fn propagate(pz: &Puzzle, st: &mut SolverState, queue: &mut Vec<(usize, u8)>) -> (ok: bool)
    requires
        pz.wf(),
        old(st).wf(),
        queue_ok(old(queue)@, old(st).cands@),
        pending_ok(*pz, old(st).cands@, old(queue)@),
    ensures
        final(st).wf(),
        shrinks(final(st).cands@, old(st).cands@),
        final(st).trail@.len() >= old(st).trail@.len(),
        final(st).trail@.take(old(st).trail@.len() as int) == old(st).trail@,
        forall|kk: int|
            0 <= kk <= old(st).trail@.len() ==> undo_to(final(st).cands@, final(st).trail@, kk)
                == undo_to(old(st).cands@, old(st).trail@, kk),
        forall|g: Seq<u8>|
            is_solution(*pz, g) && #[trigger] consistent(g, old(st).cands@) ==> ok && consistent(
                g,
                final(st).cands@,
            ),
        ok ==> fixpoint(*pz, final(st).cands@),
{
    let ghost c0 = st.cands@;
    let ghost t0 = st.trail@;
    while queue.len() > 0
        invariant
            st.wf(),
            shrinks(st.cands@, c0),
            st.trail@.len() >= t0.len(),
            st.trail@.take(t0.len() as int) == t0,
            forall|kk: int|
                0 <= kk <= t0.len() ==> undo_to(st.cands@, st.trail@, kk) == undo_to(c0, t0, kk),
            queue_ok(queue@, st.cands@),
            pending_ok(*pz, st.cands@, queue@),
            forall|g: Seq<u8>|
                is_solution(*pz, g) && #[trigger] consistent(g, c0) ==> consistent(g, st.cands@),
        decreases 2 * cnt(st.cands@) + queue@.len(),
    {
        let ghost qfull = queue@;
        let pr = queue.pop().unwrap();
        let p = pr.0;
        let dg = pr.1;
        proof {
            assert(qfull[qfull.len() - 1] == pr);
            assert(p < 81 && 1 <= dg <= 9 && dom_sub(st.cands@, p as int, dg as int));
            assert forall|j: int| 0 <= j < queue@.len() implies (#[trigger] queue@[j]).0 < 81 && 1
                <= queue@[j].1 <= 9 && dom_sub(
                st.cands@,
                queue@[j].0 as int,
                queue@[j].1 as int,
            ) by {
                assert(queue@[j] == qfull[j]);
            }
        }
        if !st.has(p, dg) {
            proof {
                assert forall|g: Seq<u8>|
                    is_solution(*pz, g) && #[trigger] consistent(g, c0) implies false by {
                    assert(consistent(g, st.cands@));
                    assert(dom_has(st.cands@, p as int, g[p as int] as int));
                    assert(g[p as int] == dg);
                }
            }
            return false;
        }
        let ghost cpre = st.cands@;
        let ghost tpre = st.trail@;
        let ghost qpre = queue@;
        proof {
            assert(dom_singleton(cpre, p as int, dg as int));
        }
        let ok1 = propagate_one(pz, st, queue, p, dg);
        if !ok1 {
            proof {
                assert forall|g: Seq<u8>|
                    is_solution(*pz, g) && #[trigger] consistent(g, c0) implies false by {
                    assert(consistent(g, cpre));
                }
            }
            return false;
        }
        proof {
            // trail bookkeeping across the call
            assert forall|j: int| 0 <= j < t0.len() implies st.trail@[j] == t0[j] by {
                assert(st.trail@.take(tpre.len() as int)[j] == tpre[j]);
                assert(tpre.take(t0.len() as int)[j] == t0[j]);
            }
            assert(st.trail@.take(t0.len() as int) =~= t0);
            // every forced cell is queued or fully propagated
            assert forall|p2: int, d2: int|
                #[trigger] dom_singleton(st.cands@, p2, d2) implies in_queue(queue@, p2, d2)
                    || propagated_all(*pz, st.cands@, p2, d2) by {
                if dom_singleton(cpre, p2, d2) {
                    if in_queue(qfull, p2, d2) {
                        let j = choose|j: int|
                            0 <= j < qfull.len() && (#[trigger] qfull[j]).0 == p2 && qfull[j].1
                                == d2;
                        if j < qfull.len() - 1 {
                            assert(qpre[j] == qfull[j]);
                            assert(queue@.take(qpre.len() as int)[j] == qpre[j]);
                            assert(queue@[j] == qfull[j]);
                            assert(in_queue(queue@, p2, d2));
                        } else {
                            assert(p2 == p as int && d2 == dg as int);
                            assert(propagated_all(*pz, st.cands@, p2, d2));
                        }
                    } else {
                        assert(propagated_all(*pz, cpre, p2, d2));
                        lemma_propagated_shrink(*pz, st.cands@, cpre, p2, d2);
                    }
                } else {
                    assert(in_queue(queue@, p2, d2));
                }
            }
        }
    }
    proof {
        assert forall|p2: int, d2: int|
            #[trigger] dom_singleton(st.cands@, p2, d2) implies propagated_all(
            *pz,
            st.cands@,
            p2,
            d2,
        ) by {
            if in_queue(queue@, p2, d2) {
                let j = choose|j: int|
                    0 <= j < queue@.len() && (#[trigger] queue@[j]).0 == p2 && queue@[j].1 == d2;
                assert(false);
            }
        }
    }
    true
}

/// Assigns digit `d` to cell `p`: fails if `d` is no longer possible
/// there, otherwise narrows the cell to `d`, recording the prior domain on
/// the trail, and propagates the consequences to a fixpoint.  Failure means
/// no solution of the puzzle consistent with the incoming candidates places
/// `d` at `p`; the trail still permits an exact rollback.
#[verifier::loop_isolation(false)]
pub fn assign(pz: &Puzzle, st: &mut SolverState, p: usize, d: u8) -> (ok: bool)
    requires
        pz.wf(),
        old(st).wf(),
        p < 81,
        1 <= d <= 9,
        fixpoint(*pz, old(st).cands@),
    ensures
        final(st).wf(),
        shrinks(final(st).cands@, old(st).cands@),
        final(st).trail@.len() >= old(st).trail@.len(),
        final(st).trail@.take(old(st).trail@.len() as int) == old(st).trail@,
        forall|kk: int|
            0 <= kk <= old(st).trail@.len() ==> undo_to(final(st).cands@, final(st).trail@, kk)
                == undo_to(old(st).cands@, old(st).trail@, kk),
        forall|g: Seq<u8>|
            is_solution(*pz, g) && #[trigger] consistent(g, old(st).cands@) && g[p as int] == d
                ==> ok && consistent(g, final(st).cands@),
        ok ==> fixpoint(*pz, final(st).cands@),
        ok ==> dom_has(old(st).cands@, p as int, d as int),
        ok ==> dom_sub(final(st).cands@, p as int, d as int),
        ok ==> cnt(final(st).cands@) <= cnt(old(st).cands@),
        ok && (exists|e: int|
            1 <= e <= 9 && e != d && #[trigger] dom_has(old(st).cands@, p as int, e)) ==> cnt(
            final(st).cands@,
        ) < cnt(old(st).cands@),
{
    let ghost c0 = st.cands@;
    let ghost t0 = st.trail@;
    let ok1 = st.restrict_cell(p, d);
    if !ok1 {
        proof {
            assert forall|g: Seq<u8>|
                is_solution(*pz, g) && #[trigger] consistent(g, c0) && g[p as int]
                    == d implies false by {
                assert(dom_has(c0, p as int, g[p as int] as int));
            }
        }
        return false;
    }
    let ghost c1 = st.cands@;
    let ghost t1 = st.trail@;
    let mut queue: Vec<(usize, u8)> = Vec::new();
    queue.push((p, d));
    proof {
        assert(queue@[0] == (p, d));
        assert(queue_ok(queue@, c1));
        // every forced cell is the assigned one or was forced and handled before
        assert forall|p2: int, d2: int|
            #[trigger] dom_singleton(c1, p2, d2) implies in_queue(queue@, p2, d2)
                || propagated_all(*pz, c1, p2, d2) by {
            if p2 == p as int {
                assert(dom_has(c1, p2, d2));
                assert(d2 == d);
                assert(in_queue(queue@, p2, d2));
            } else {
                assert forall|e2: int| 1 <= e2 <= 9 implies dom_has(c0, p2, e2) == dom_has(
                    c1,
                    p2,
                    e2,
                ) by {}
                assert(dom_singleton(c0, p2, d2));
                assert(propagated_all(*pz, c0, p2, d2));
                lemma_propagated_shrink(*pz, c1, c0, p2, d2);
            }
        }
    }
    let ok2 = propagate(pz, st, &mut queue);
    proof {
        // a solution placing `d` at `p` survives the narrowing of cell `p`
        assert forall|g: Seq<u8>|
            is_solution(*pz, g) && #[trigger] consistent(g, c0) && g[p as int]
                == d implies consistent(g, c1) by {
            assert forall|p2: int| 0 <= p2 < 81 implies dom_has(c1, p2, g[p2] as int) by {
                assert(dom_has(c0, p2, g[p2] as int));
            }
        }
    }
    if !ok2 {
        return false;
    }
    proof {
        let c2 = st.cands@;
        let t2 = st.trail@;
        assert forall|j: int| 0 <= j < t0.len() implies t2[j] == t0[j] by {
            assert(t2.take(t1.len() as int)[j] == t1[j]);
            assert(t1.take(t0.len() as int)[j] == t0[j]);
        }
        assert(t2.take(t0.len() as int) =~= t0);
        lemma_dom_sub_shrink(c2, c1, p as int, d as int);
        lemma_cnt_le(c2, c1);
        if exists|e: int| 1 <= e <= 9 && e != d && #[trigger] dom_has(c0, p as int, e) {
            let e = choose|e: int|
                1 <= e <= 9 && e != d && #[trigger] dom_has(c0, p as int, e);
            assert(cnt(c1) < cnt(c0));
        }
    }
    true
}

/// What one search attempt produced.
pub(crate) enum SearchStep {
    /// A full grid consistent with every group and clue.
    Solved(Vec<u8>),
    /// No grid consistent with the candidates at entry exists.
    Exhausted,
}

/// Backtracking search from a propagated state: if every cell is down to one
/// digit the grid is read off; otherwise a cell with the fewest candidates is
/// tried digit by digit in ascending order, propagating after each choice and
/// rolling back after each failure.
#[verifier::loop_isolation(false)]
fn search(pz: &Puzzle, st: &mut SolverState) -> (r: SearchStep)
    requires
        pz.wf(),
        old(st).wf(),
        fixpoint(*pz, old(st).cands@),
        clue_consistent(*pz, old(st).cands@),
    ensures
        final(st).wf(),
        r matches SearchStep::Solved(g) ==> is_solution(*pz, g@),
        r is Exhausted ==> final(st).cands@ == old(st).cands@ && final(st).trail@ == old(
            st,
        ).trail@ && no_solution_under(*pz, old(st).cands@),
    decreases cnt(old(st).cands@),
{
    let ghost c0 = st.cands@;
    let ghost t0 = st.trail@;
    let pick = pick_cell(&st.cands);
    match pick {
        None => {
            let mut grid: Vec<u8> = Vec::new();
            for p in 0..81usize
                invariant
                    grid@.len() == p,
                    st.cands@ == c0,
                    st.trail@ == t0,
                    forall|p2: int|
                        0 <= p2 < p ==> 1 <= #[trigger] grid@[p2] <= 9 && dom_singleton(
                            c0,
                            p2,
                            grid@[p2] as int,
                        ),
            {
                let stc = cell_status(&st.cands, p);
                match stc {
                    CellStatus::Single(e) => {
                        grid.push(e);
                    },
                    CellStatus::NoneLeft => {
                        proof {
                            assert(cell_solved(c0, p as int));
                            let dd = choose|dd: int| dom_singleton(c0, p as int, dd);
                            assert(dom_has(c0, p as int, dd));
                            assert(false);
                        }
                        grid.push(1);  // never reached: the cell is known to hold one digit
                    },
                    CellStatus::Multi => {
                        proof {
                            assert(cell_solved(c0, p as int));
                            let dd = choose|dd: int| dom_singleton(c0, p as int, dd);
                            let (e1, e2) = choose|e1: int, e2: int|
                                e1 != e2 && #[trigger] dom_has(c0, p as int, e1)
                                    && #[trigger] dom_has(c0, p as int, e2);
                            assert(e1 == dd && e2 == dd);
                            assert(false);
                        }
                        grid.push(1);  // never reached: the cell is known to hold one digit
                    },
                }
            }
            proof {
                assert forall|k: int, a: int, b: int|
                    0 <= k < pz.groups@.len() && 0 <= a < 9 && 0 <= b < 9 && a
                        != b implies #[trigger] grid@[group_at(*pz, k)[a]] != #[trigger] grid@[
                    group_at(*pz, k)[b]] by {
                    let pa = group_at(*pz, k)[a];
                    let pb = group_at(*pz, k)[b];
                    assert(pz.groups@[k].wf());
                    assert(pz.groups@[k].positions@[a].wf());
                    assert(pz.groups@[k].positions@[b].wf());
                    assert(0 <= pa < 81 && 0 <= pb < 81);
                    assert(pa != pb);
                    assert(dom_singleton(c0, pa, grid@[pa] as int));
                    assert(dom_singleton(c0, pb, grid@[pb] as int));
                    assert(in_same_group(*pz, k, pa, pb));
                    assert(share_group(*pz, pa, pb));
                    assert(!dom_has(c0, pb, grid@[pa] as int));
                    assert(dom_has(c0, pb, grid@[pb] as int));
                }
                assert forall|p: int|
                    0 <= p < 81 && #[trigger] pz.clues@[p] != 0 implies grid@[p]
                    == pz.clues@[p] by {
                    assert(dom_sub(c0, p, pz.clues@[p] as int));
                    assert(dom_has(c0, p, grid@[p] as int));
                }
                assert(is_solution(*pz, grid@));
            }
            SearchStep::Solved(grid)
        },
        Some(cell) => {
            for dd in 1..10u8
                invariant
                    st.wf(),
                    st.cands@ == c0,
                    st.trail@ == t0,
                    cell < 81,
                    forall|d2: int| !dom_singleton(c0, cell as int, d2),
                    forall|g: Seq<u8>|
                        is_solution(*pz, g) && #[trigger] consistent(g, c0) && g[cell as int] < dd
                            ==> false,
            {
                if st.has(cell, dd) {
                    let m = st.checkpoint();
                    let ok2 = assign(pz, st, cell, dd);
                    let ghost c2 = st.cands@;
                    if ok2 {
                        proof {
                            // the branching cell held a second digit, so the
                            // board strictly shrank
                            assert(!dom_singleton(c0, cell as int, dd as int));
                            assert(exists|e: int|
                                1 <= e <= 9 && e != dd && #[trigger] dom_has(c0, cell as int, e));
                            assert(cnt(c2) < cnt(c0));
                            // clue cells stay confined after shrinking
                            assert forall|p2: int|
                                0 <= p2 < 81 && #[trigger] pz.clues@[p2] != 0 implies dom_sub(
                                c2,
                                p2,
                                pz.clues@[p2] as int,
                            ) by {
                                lemma_dom_sub_shrink(c2, c0, p2, pz.clues@[p2] as int);
                            }
                        }
                        let r = search(pz, st);
                        match r {
                            SearchStep::Solved(g) => {
                                return SearchStep::Solved(g);
                            },
                            SearchStep::Exhausted => {},
                        }
                    }
                    proof {
                        // either the assignment failed outright or its
                        // subtree is exhausted: no solution puts `dd` here
                        assert forall|g: Seq<u8>|
                            is_solution(*pz, g) && #[trigger] consistent(g, c0) && g[cell as int]
                                == dd implies false by {}
                        // the trail above the checkpoint still undoes to the
                        // entry board
                        assert(m == t0.len());
                        assert(undo_to(st.cands@, st.trail@, t0.len() as int) == undo_to(
                            c0,
                            t0,
                            t0.len() as int,
                        ));
                        assert(undo_to(c0, t0, t0.len() as int) == c0);
                    }
                    st.rollback(m);
                    proof {
                        assert(st.cands@ == c0);
                        assert(st.trail@ == t0);
                    }
                }
            }
            proof {
                assert forall|g: Seq<u8>|
                    !(is_solution(*pz, g) && #[trigger] consistent(g, c0)) by {
                    if is_solution(*pz, g) && consistent(g, c0) {
                        assert(dom_has(c0, cell as int, g[cell as int] as int));
                        assert(g[cell as int] < 10);
                    }
                }
            }
            SearchStep::Exhausted
        },
    }
}

/// Solves the puzzle: seeds the candidate store by assigning every clue and
/// propagating it to a fixpoint, then searches.  Returns a completed grid
/// exactly when one exists; `Unsatisfiable` means no grid satisfies the
/// puzzle.
#[verifier::loop_isolation(false)]
pub fn solve(puzzle: Puzzle) -> (r: SolveOutcome)
    requires
        puzzle.wf(),
    ensures
        r matches SolveOutcome::Solved(sol) ==> sol.puzzle == puzzle && is_solution(
            puzzle,
            sol.elements@,
        ) && sol.elements@.len() == 81,
        r is Unsatisfiable <==> (forall|g: Seq<u8>| !is_solution(puzzle, g)),
{
    let mut st = SolverState::new();
    proof {
        // every solution is consistent with the full board
        assert forall|g: Seq<u8>| is_solution(puzzle, g) implies consistent(g, st.cands@) by {
            assert forall|p: int| 0 <= p < 81 implies dom_has(st.cands@, p, g[p] as int) by {
                assert(full_board()[p * 9 + g[p] - 1]);
            }
        }
        // no cell of the full board is down to one digit
        assert forall|q2: int, e: int|
            #[trigger] dom_singleton(st.cands@, q2, e) implies propagated_all(
            puzzle,
            st.cands@,
            q2,
            e,
        ) by {
            let e2: int = if e == 1 {
                2
            } else {
                1
            };
            assert(full_board()[q2 * 9 + e2 - 1]);
            assert(dom_has(st.cands@, q2, e2));
        }
    }
    for p in 0..81usize
        invariant
            st.wf(),
            fixpoint(puzzle, st.cands@),
            forall|q2: int|
                0 <= q2 < p && #[trigger] puzzle.clues@[q2] != 0 ==> dom_sub(
                    st.cands@,
                    q2,
                    puzzle.clues@[q2] as int,
                ),
            forall|g: Seq<u8>|
                is_solution(puzzle, g) ==> #[trigger] consistent(g, st.cands@),
    {
        let cl = puzzle.clues[p];
        if cl != 0 {
            proof {
                assert(puzzle.clues@[p as int] <= 9);
            }
            let ghost cpre = st.cands@;
            let ok = assign(&puzzle, &mut st, p, cl);
            if !ok {
                proof {
                    // a clue could not be placed: the puzzle has no solution
                    assert forall|g: Seq<u8>| !is_solution(puzzle, g) by {
                        if is_solution(puzzle, g) {
                            assert(consistent(g, cpre));
                            assert(g[p as int] == cl);
                        }
                    }
                }
                return SolveOutcome::Unsatisfiable;
            }
            proof {
                // earlier clue cells stay confined after shrinking
                assert forall|q2: int|
                    0 <= q2 < p + 1 && #[trigger] puzzle.clues@[q2] != 0 implies dom_sub(
                    st.cands@,
                    q2,
                    puzzle.clues@[q2] as int,
                ) by {
                    if q2 < p {
                        lemma_dom_sub_shrink(st.cands@, cpre, q2, puzzle.clues@[q2] as int);
                    }
                }
                assert forall|g: Seq<u8>|
                    is_solution(puzzle, g) implies #[trigger] consistent(g, st.cands@) by {
                    assert(consistent(g, cpre));
                    assert(g[p as int] == cl);
                }
            }
        }
    }
    let ghost cfix = st.cands@;
    let r = search(&puzzle, &mut st);
    match r {
        SearchStep::Solved(g) => {
            proof {
                assert(is_solution(puzzle, g@));
            }
            SolveOutcome::Solved(Solution { puzzle, elements: g })
        },
        SearchStep::Exhausted => {
            proof {
                assert forall|g: Seq<u8>| !is_solution(puzzle, g) by {
                    if is_solution(puzzle, g) {
                        assert(consistent(g, cfix));
                    }
                }
            }
            SolveOutcome::Unsatisfiable
        },
    }
}

/// The digits a solved grid places on group `k`, in group order.
pub open spec fn group_digits(pz: Puzzle, g: Seq<u8>, k: int) -> Seq<int> {
    Seq::new(9, |a: int| g[group_at(pz, k)[a]] as int)
}

/// Group `k` of grid `g` holds digit `d` somewhere.
pub open spec fn group_contains_digit(pz: Puzzle, g: Seq<u8>, k: int, d: int) -> bool {
    exists|a: int| 0 <= a < 9 && group_digits(pz, g, k)[a] == d
}

/// Law: every group of a solved grid holds exactly the digits one through
/// nine — no digit repeats and each digit appears once.
pub proof fn lemma_solution_group_digits(pz: Puzzle, g: Seq<u8>, k: int)
    requires
        pz.wf(),
        is_solution(pz, g),
        0 <= k < pz.groups@.len(),
    ensures
        group_digits(pz, g, k).to_set() == vstd::set_lib::set_int_range(1, 10),
        forall|a: int, b: int|
            0 <= a < 9 && 0 <= b < 9 && a != b ==> group_digits(pz, g, k)[a] != group_digits(
                pz,
                g,
                k,
            )[b],
        forall|d: int| 1 <= d <= 9 ==> #[trigger] group_contains_digit(pz, g, k, d),
{
    let digs = group_digits(pz, g, k);
    assert(pz.groups@[k].wf());
    assert forall|a: int| 0 <= a < 9 implies 1 <= #[trigger] digs[a] <= 9 by {
        assert(pz.groups@[k].positions@[a].wf());
        assert(0 <= group_at(pz, k)[a] < 81);
        assert(1 <= g[group_at(pz, k)[a]] <= 9);
    }
    assert forall|a: int, b: int| 0 <= a < 9 && 0 <= b < 9 && a != b implies #[trigger] digs[a] != #[trigger] digs[b] by {
        assert(g[group_at(pz, k)[a]] != g[group_at(pz, k)[b]]);
    }
    assert(digs.no_duplicates());
    digs.unique_seq_to_set();
    vstd::set_lib::lemma_int_range(1, 10);
    assert(digs.to_set().subset_of(vstd::set_lib::set_int_range(1, 10))) by {
        assert forall|d: int| digs.to_set().contains(d) implies vstd::set_lib::set_int_range(
            1,
            10,
        ).contains(d) by {
            let a = choose|a: int| 0 <= a < digs.len() && digs[a] == d;
        }
    }
    vstd::set_lib::lemma_subset_equality(digs.to_set(), vstd::set_lib::set_int_range(1, 10));
    assert forall|d: int| 1 <= d <= 9 implies #[trigger] group_contains_digit(pz, g, k, d) by {
        assert(vstd::set_lib::set_int_range(1, 10).contains(d));
        assert(digs.to_set().contains(d));
        let a = choose|a: int| 0 <= a < digs.len() && digs[a] == d;
        assert(0 <= a < 9 && group_digits(pz, g, k)[a] == d);
    }
}

/// Law: every solved grid carries every supplied clue through unchanged.
pub proof fn lemma_solution_preserves_clues(pz: Puzzle, g: Seq<u8>)
    requires
        is_solution(pz, g),
    ensures
        forall|p: int| 0 <= p < 81 && #[trigger] pz.clues@[p] != 0 ==> g[p] == pz.clues@[p],
{
}

/// Law: a puzzle whose clues already fill every cell without violating any
/// group has exactly one solution, the clue grid itself — so solving such a
/// puzzle returns it unchanged.
pub proof fn lemma_complete_puzzle_unique(pz: Puzzle)
    requires
        pz.wf(),
        forall|p: int| 0 <= p < 81 ==> #[trigger] pz.clues@[p] != 0,
        !has_conflict(pz.groups@, pz.clues@),
    ensures
        is_solution(pz, pz.clues@),
        forall|g: Seq<u8>| is_solution(pz, g) ==> g == pz.clues@,
{
    assert forall|k: int, a: int, b: int|
        0 <= k < pz.groups@.len() && 0 <= a < 9 && 0 <= b < 9 && a
            != b implies #[trigger] pz.clues@[group_at(pz, k)[a]] != #[trigger] pz.clues@[group_at(
        pz,
        k,
    )[b]] by {
        assert(pz.groups@[k].wf());
        assert(pz.groups@[k].positions@[a].wf());
        assert(0 <= group_at(pz, k)[a] < 81);
        assert(pz.clues@[group_at(pz, k)[a]] != 0);
        if pz.clues@[group_at(pz, k)[a]] == pz.clues@[group_at(pz, k)[b]] {
            assert(pz.groups@[k].idxs() == group_at(pz, k));
            assert(group_conflict(pz.groups@, pz.clues@, k, a, b));
            assert(has_conflict(pz.groups@, pz.clues@));
        }
    }
    assert(is_solution(pz, pz.clues@));
    assert forall|g: Seq<u8>| is_solution(pz, g) implies g == pz.clues@ by {
        assert forall|p: int| 0 <= p < 81 implies g[p] == pz.clues@[p] by {
            assert(pz.clues@[p] != 0);
        }
        assert(g =~= pz.clues@);
    }
}

} // verus!
