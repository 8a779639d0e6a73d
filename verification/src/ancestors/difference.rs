//! What `missing_ancestors` returns and what `remove_ancestors_from` leaves,
//! stated over the graph: where parents have smaller numbers than their
//! children, the revisions that are in the history of the given revisions and
//! not in the history of the bases.

use crate::ancestors::reach::{is_ancestor, is_parent, lemma_reaches_le, reaches, well_numbered};
use crate::ancestors::{
    is_max_of, max_of, max_or_null, missing_ancestors_of, missing_step, missing_walk,
    MissingState, remove_ancestors, remove_walk, with_parents,
};
use crate::{Graph, NULL_REVISION, Revision};
use vstd::prelude::*;

verus! {

/// `x` is one of `s` or an ancestor of one, by a way over revisions from 0
/// up.
pub open spec fn hist<G: Graph>(graph: &G, s: Set<Revision>, x: Revision) -> bool {
    is_ancestor(graph, 0, s, true, x)
}

/// The revisions of `s` up to `curr`.
pub open spec fn upto(s: Set<Revision>, curr: int) -> Set<Revision> {
    Set::new(|r: Revision| s.contains(r) && r <= curr)
}

/// Of the revisions up to `curr`, only `curr` itself has `curr` in its
/// history.
pub proof fn lemma_hist_of_top<G: Graph>(graph: &G, s: Set<Revision>, curr: Revision)
    requires
        well_numbered(graph),
        0 <= curr,
    ensures
        hist(graph, upto(s, curr as int), curr) <==> s.contains(curr),
{
    let below = upto(s, curr as int);
    if s.contains(curr) {
        assert(below.contains(curr));
        assert(reaches(graph, 0, curr, curr, 0));
    }
    if hist(graph, below, curr) {
        let (d, n) = choose|d: Revision, n: nat|
            below.contains(d) && (true || n > 0) && #[trigger] reaches(graph, 0, d, curr, n);
        lemma_reaches_le(graph, 0, d, curr, n);
    }
}

/// A step down: once `curr` is visited and its parents have joined the
/// set, the revisions below `curr` have the same history in the set up to
/// `curr` and in the new set below `curr`.
pub proof fn lemma_frontier_down<G: Graph>(
    graph: &G,
    s: Set<Revision>,
    t: Set<Revision>,
    curr: Revision,
    x: Revision,
)
    requires
        well_numbered(graph),
        0 <= x < curr,
        forall|r: Revision| s.contains(r) && r != curr ==> t.contains(r),
        s.contains(curr) ==> forall|p: Revision|
            is_parent(graph, curr, p) && p >= 0 ==> t.contains(p),
        forall|r: Revision|
            t.contains(r) && r < curr ==> s.contains(r) || (s.contains(curr) && is_parent(
                graph,
                curr,
                r,
            )),
    ensures
        hist(graph, upto(s, curr as int), x) <==> hist(graph, upto(t, curr - 1), x),
{
    let before = upto(s, curr as int);
    let after = upto(t, curr - 1);
    if hist(graph, before, x) {
        let (d, n) = choose|d: Revision, n: nat|
            before.contains(d) && (true || n > 0) && #[trigger] reaches(graph, 0, d, x, n);
        if d == curr {
            let ps = graph.spec_parents(curr)->Ok_0;
            let p = if reaches(graph, 0, ps[0], x, (n - 1) as nat) {
                ps[0]
            } else {
                ps[1]
            };
            assert(is_parent(graph, curr, p));
            assert(reaches(graph, 0, p, x, (n - 1) as nat));
            assert(after.contains(p));
        } else {
            assert(after.contains(d));
        }
    }
    if hist(graph, after, x) {
        let (d, n) = choose|d: Revision, n: nat|
            after.contains(d) && (true || n > 0) && #[trigger] reaches(graph, 0, d, x, n);
        if s.contains(d) {
            assert(before.contains(d));
        } else {
            assert(is_parent(graph, curr, d));
            assert(reaches(graph, 0, curr, x, n + 1));
            assert(before.contains(curr));
        }
    }
}

/// What holds of the walk of `missing_ancestors` when the revisions above
/// `curr` are visited: no revision is on both sides alone; the histories of
/// the bases and of the revisions are, from `curr` down, those of what the
/// two sides hold; and the missing ancestors found are those above `curr`.
pub open spec fn exact_inv<G: Graph>(
    graph: &G,
    bases: Set<Revision>,
    revs: Set<Revision>,
    st: MissingState,
    curr: int,
) -> bool {
    &&& forall|r: Revision| st.revs.contains(r) ==> !st.bases.contains(r)
    &&& forall|r: Revision| st.both.contains(r) ==> st.bases.contains(r)
    &&& forall|x: Revision|
        0 <= x <= curr ==> (#[trigger] hist(graph, bases, x) <==> hist(
            graph,
            upto(st.bases, curr),
            x,
        ))
    &&& forall|x: Revision|
        0 <= x <= curr ==> (#[trigger] hist(graph, revs, x) <==> hist(
            graph,
            upto(st.revs + st.both, curr),
            x,
        ))
    &&& forall|x: Revision|
        st.missing.contains(x) <==> x > curr && x >= 0 && hist(graph, revs, x) && !hist(
            graph,
            bases,
            x,
        )
}

/// A visit keeps what holds of the walk.
pub proof fn lemma_missing_step_exact<G: Graph>(
    graph: &G,
    bases: Set<Revision>,
    revs: Set<Revision>,
    st: MissingState,
    curr: Revision,
)
    requires
        well_numbered(graph),
        0 <= curr,
        exact_inv(graph, bases, revs, st, curr as int),
        missing_step(graph, st, curr) is Ok,
    ensures
        exact_inv(graph, bases, revs, missing_step(graph, st, curr)->Ok_0, curr - 1),
{
    let next = missing_step(graph, st, curr)->Ok_0;
    let s_b = st.bases;
    let t_b = next.bases;
    let s_r = st.revs + st.both;
    let t_r = next.revs + next.both;
    lemma_hist_of_top(graph, s_b, curr);
    lemma_hist_of_top(graph, s_r, curr);
    assert(hist(graph, bases, curr) <==> s_b.contains(curr));
    assert(hist(graph, revs, curr) <==> s_r.contains(curr));
    assert forall|x: Revision| 0 <= x <= curr - 1 implies (#[trigger] hist(graph, bases, x)
        <==> hist(graph, upto(t_b, curr - 1), x)) by {
        lemma_frontier_down(graph, s_b, t_b, curr, x);
    }
    assert forall|x: Revision| 0 <= x <= curr - 1 implies (#[trigger] hist(graph, revs, x)
        <==> hist(graph, upto(t_r, curr - 1), x)) by {
        lemma_frontier_down(graph, s_r, t_r, curr, x);
    }
    assert forall|x: Revision|
        next.missing.contains(x) <==> x > curr - 1 && x >= 0 && hist(graph, revs, x) && !hist(
            graph,
            bases,
            x,
        ) by {
        if !st.both.contains(curr) && st.revs.contains(curr) {
            let m = st.missing.push(curr);
            assert(next.missing == m);
            assert(m[st.missing.len() as int] == curr);
            if st.missing.contains(x) {
                let i = choose|i: int| 0 <= i < st.missing.len() && st.missing[i] == x;
                assert(m[i] == x);
            }
            if m.contains(x) && x != curr {
                let i = choose|i: int| 0 <= i < m.len() && m[i] == x;
                assert(st.missing[i] == x);
            }
        } else {
            assert(next.missing == st.missing);
        }
    }
}

/// The walk finds the revisions that are in the history of the revisions
/// and not in that of the bases.
pub proof fn lemma_missing_walk_exact<G: Graph>(
    graph: &G,
    bases: Set<Revision>,
    revs: Set<Revision>,
    st: MissingState,
    curr: int,
)
    requires
        well_numbered(graph),
        curr <= i32::MAX,
        exact_inv(graph, bases, revs, st, curr),
    ensures
        missing_walk(graph, st, curr) matches Ok(end) ==> forall|x: Revision|
            end.missing.contains(x) <==> x >= 0 && hist(graph, revs, x) && !hist(graph, bases, x),
    decreases curr + 1,
{
    if curr < 0 {
    } else if st.revs.is_empty() {
        assert forall|x: Revision| 0 <= x <= curr && hist(graph, revs, x) implies hist(
            graph,
            bases,
            x,
        ) by {
            let from = upto(st.revs + st.both, curr);
            assert(hist(graph, from, x));
            let (d, n) = choose|d: Revision, n: nat|
                from.contains(d) && (true || n > 0) && #[trigger] reaches(graph, 0, d, x, n);
            assert(!st.revs.contains(d));
            assert(upto(st.bases, curr).contains(d));
        }
    } else {
        match missing_step(graph, st, curr as Revision) {
            Err(e) => {},
            Ok(next) => {
                lemma_missing_step_exact(graph, bases, revs, st, curr as Revision);
                lemma_missing_walk_exact(graph, bases, revs, next, curr - 1);
            },
        }
    }
}

/// A set of revisions that is not empty has a largest element.
pub proof fn lemma_max_exists(s: Set<Revision>, w: Revision, k: Revision)
    requires
        s.contains(w),
        w <= k,
        forall|x: Revision| s.contains(x) ==> x <= k,
    ensures
        is_max_of(s, max_of(s)),
    decreases k - w,
{
    if s.contains(k) {
        assert(is_max_of(s, k));
    } else {
        lemma_max_exists(s, w, (k - 1) as Revision);
    }
}

/// No revision of a set is above `max_or_null` of the set.
pub proof fn lemma_max_or_null(s: Set<Revision>)
    ensures
        forall|x: Revision| s.contains(x) ==> x <= max_or_null(s),
{
    if !s.is_empty() {
        let w = choose|w: Revision| s.contains(w);
        assert(s.contains(w)) by {
            if forall|x: Revision| !s.contains(x) {
                assert(s =~= Set::<Revision>::empty());
            }
        }
        lemma_max_exists(s, w, i32::MAX);
    } else {
        assert(s =~= Set::<Revision>::empty());
    }
}

/// In a graph whose parents have smaller numbers than their children,
/// `missing_ancestors` returns the revisions from 0 up that are among the
/// given revisions or their ancestors, and not among the bases or their
/// ancestors.
pub proof fn lemma_missing_ancestors_exact<G: Graph>(
    graph: &G,
    bases: Set<Revision>,
    revs: Seq<Revision>,
)
    requires
        well_numbered(graph),
    ensures
        missing_ancestors_of(graph, bases, revs).0 matches Ok(missing) ==> forall|x: Revision|
            missing.contains(x) <==> x >= 0 && hist(graph, revs.to_set(), x) && !hist(
                graph,
                bases,
                x,
            ),
{
    let roots = revs.to_set().difference(bases);
    assert forall|x: Revision| !hist(graph, bases, x) implies (hist(graph, revs.to_set(), x)
        <==> hist(graph, roots, x)) by {
        if hist(graph, revs.to_set(), x) {
            let (d, n) = choose|d: Revision, n: nat|
                revs.to_set().contains(d) && (true || n > 0) && #[trigger] reaches(
                    graph,
                    0,
                    d,
                    x,
                    n,
                );
            assert(roots.contains(d));
        }
        if hist(graph, roots, x) {
            let (d, n) = choose|d: Revision, n: nat|
                roots.contains(d) && (true || n > 0) && #[trigger] reaches(graph, 0, d, x, n);
            assert(revs.to_set().contains(d));
        }
    }
    if roots.is_empty() {
        assert forall|x: Revision| !hist(graph, roots, x) by {
            if hist(graph, roots, x) {
                let (d, n) = choose|d: Revision, n: nat|
                    roots.contains(d) && (true || n > 0) && #[trigger] reaches(
                        graph,
                        0,
                        d,
                        x,
                        n,
                    );
            }
        }
        assert forall|x: Revision| !Seq::<Revision>::empty().contains(x) by {}
    } else {
        let max_bases = max_or_null(bases);
        let max_revs = max_or_null(roots);
        let start = if max_bases >= max_revs {
            max_bases
        } else {
            max_revs
        };
        let st = MissingState { revs: roots, bases, both: Set::empty(), missing: Seq::empty() };
        lemma_max_or_null(bases);
        lemma_max_or_null(roots);
        assert(upto(st.bases, start as int) =~= bases);
        assert(upto(st.revs + st.both, start as int) =~= roots);
        assert forall|x: Revision| hist(graph, roots, x) implies x <= start by {
            let (d, n) = choose|d: Revision, n: nat|
                roots.contains(d) && (true || n > 0) && #[trigger] reaches(graph, 0, d, x, n);
            lemma_reaches_le(graph, 0, d, x, n);
        }
        assert(exact_inv(graph, bases, roots, st, start as int));
        lemma_missing_walk_exact(graph, bases, roots, st, start as int);
        match missing_walk(graph, st, start as int) {
            Ok(end) => {
                let missing = end.missing.reverse();
                assert forall|x: Revision| missing.contains(x) <==> end.missing.contains(x) by {
                    if missing.contains(x) {
                        let i = choose|i: int| 0 <= i < missing.len() && missing[i] == x;
                        assert(end.missing[end.missing.len() - 1 - i] == x);
                    }
                    if end.missing.contains(x) {
                        let i = choose|i: int| 0 <= i < end.missing.len() && end.missing[i] == x;
                        assert(missing[end.missing.len() - 1 - i] == x);
                    }
                }
            },
            Err(e) => {},
        }
    }
}

/// What holds of the walk of `remove_ancestors_from` when the revisions
/// above `curr` are visited: the history of the bases is, from `curr` down,
/// that of the bases at hand, and of the revisions `left` those above `curr`
/// that are in the history of the bases are gone.
pub open spec fn remove_inv<G: Graph>(
    graph: &G,
    bases: Set<Revision>,
    left: Set<Revision>,
    now_bases: Set<Revision>,
    now_revs: Set<Revision>,
    curr: int,
) -> bool {
    &&& now_revs.finite()
    &&& forall|x: Revision|
        0 <= x <= curr ==> (#[trigger] hist(graph, bases, x) <==> hist(
            graph,
            upto(now_bases, curr),
            x,
        ))
    &&& forall|r: Revision|
        now_revs.contains(r) <==> left.contains(r) && (r <= curr || !hist(graph, bases, r))
}

/// The walk of `remove_ancestors_from` leaves the revisions that are not in
/// the history of the bases. `kept` are revisions that are known not to be
/// there: the walk ends when no more than these are left.
pub proof fn lemma_remove_walk_exact<G: Graph>(
    graph: &G,
    bases: Set<Revision>,
    left: Set<Revision>,
    kept: Set<Revision>,
    now_bases: Set<Revision>,
    now_revs: Set<Revision>,
    curr: Revision,
)
    requires
        well_numbered(graph),
        remove_inv(graph, bases, left, now_bases, now_revs, curr as int),
        kept.subset_of(left),
        forall|r: Revision| kept.contains(r) ==> !hist(graph, bases, r),
    ensures
        remove_walk(graph, now_bases, now_revs, curr, kept.len()).0 is Ok ==> forall|r: Revision|
            remove_walk(graph, now_bases, now_revs, curr, kept.len()).2.contains(r)
                <==> left.contains(r) && !hist(graph, bases, r),
    decreases curr + 1,
{
    let keepcount = kept.len();
    if curr <= NULL_REVISION {
        assert forall|r: Revision| hist(graph, bases, r) implies r >= 0 by {
            let (d, n) = choose|d: Revision, n: nat|
                bases.contains(d) && (true || n > 0) && #[trigger] reaches(graph, 0, d, r, n);
            lemma_reaches_le(graph, 0, d, r, n);
        }
    } else if now_revs.len() <= keepcount {
        assert(kept.subset_of(now_revs));
        vstd::set_lib::lemma_len_subset(kept, now_revs);
        vstd::set_lib::lemma_subset_equality(kept, now_revs);
        assert(kept =~= now_revs);
    } else if now_bases.contains(curr) {
        lemma_hist_of_top(graph, now_bases, curr);
        match graph.spec_parents(curr) {
            Err(e) => {},
            Ok(ps) => {
                let more = with_parents(now_bases, ps);
                let fewer = now_revs.remove(curr);
                assert forall|x: Revision| 0 <= x <= curr - 1 implies (#[trigger] hist(
                    graph,
                    bases,
                    x,
                ) <==> hist(graph, upto(more, curr - 1), x)) by {
                    lemma_frontier_down(graph, now_bases, more, curr, x);
                }
                lemma_remove_walk_exact(
                    graph,
                    bases,
                    left,
                    kept,
                    more,
                    fewer,
                    (curr - 1) as Revision,
                );
            },
        }
    } else {
        lemma_hist_of_top(graph, now_bases, curr);
        assert forall|x: Revision| 0 <= x <= curr - 1 implies (#[trigger] hist(graph, bases, x)
            <==> hist(graph, upto(now_bases, curr - 1), x)) by {
            lemma_frontier_down(graph, now_bases, now_bases, curr, x);
        }
        lemma_remove_walk_exact(
            graph,
            bases,
            left,
            kept,
            now_bases,
            now_revs,
            (curr - 1) as Revision,
        );
    }
}

/// In a graph whose parents have smaller numbers than their children,
/// `remove_ancestors_from` leaves the revisions that are neither the null
/// revision, nor bases, nor ancestors of bases.
pub proof fn lemma_remove_ancestors_exact<G: Graph>(
    graph: &G,
    bases: Set<Revision>,
    revs: Set<Revision>,
)
    requires
        well_numbered(graph),
        revs.finite(),
    ensures
        remove_ancestors(graph, bases, revs).0 is Ok ==> forall|r: Revision|
            remove_ancestors(graph, bases, revs).2.contains(r) <==> revs.contains(r) && r
                != NULL_REVISION && !bases.contains(r) && !hist(graph, bases, r),
{
    let left = revs.difference(bases).remove(NULL_REVISION);
    let result = remove_ancestors(graph, bases, revs);
    assert(left.subset_of(revs));
    vstd::set_lib::lemma_len_subset(left, revs);
    assert forall|r: Revision| hist(graph, bases, r) implies !bases.is_empty() by {
        let (d, n) = choose|d: Revision, n: nat|
            bases.contains(d) && (true || n > 0) && #[trigger] reaches(graph, 0, d, r, n);
    }
    if left.is_empty() || bases.is_empty() {
        assert(result.2 == left);
        assert forall|r: Revision|
            left.contains(r) <==> revs.contains(r) && r != NULL_REVISION && !bases.contains(r)
                && !hist(graph, bases, r) by {
            if left.is_empty() {
                assert(left =~= Set::<Revision>::empty());
            }
        }
    } else {
        let start = max_of(bases);
        lemma_max_or_null(bases);
        assert(max_or_null(bases) == start);
        let kept = left.filter(|r: Revision| r > start);
        assert(kept.subset_of(left));
        assert forall|r: Revision| hist(graph, bases, r) implies r <= start by {
            let (d, n) = choose|d: Revision, n: nat|
                bases.contains(d) && (true || n > 0) && #[trigger] reaches(graph, 0, d, r, n);
            lemma_reaches_le(graph, 0, d, r, n);
        }
        assert(upto(bases, start as int) =~= bases);
        lemma_remove_walk_exact(graph, bases, left, kept, bases, left, start);
        assert(result == remove_walk(graph, bases, left, start, kept.len()));
        if result.0 is Ok {
            assert forall|r: Revision|
                result.2.contains(r) <==> revs.contains(r) && r != NULL_REVISION
                    && !bases.contains(r) && !hist(graph, bases, r) by {
                assert(result.2.contains(r) <==> left.contains(r) && !hist(graph, bases, r));
            }
        }
    }
}

} // verus!
