//! What an ancestors walk finds, stated over the graph: every revision that
//! the walk comes across is an ancestor of an initial revision, and a walk at
//! its end has come across all of them. Where parents have smaller numbers
//! than their children, the revisions come out from the largest down, and
//! `contains` says whether a revision is an ancestor.

use crate::ancestors::{
    insert_sorted, lemma_step_measure, push_if_new, queue_initial, queue_parents, search_walk,
    sorted, step, walk_measure, WalkState,
};
use crate::{Graph, NULL_REVISION, Revision};
use vstd::prelude::*;

verus! {

/// `n` steps, each from a revision to one of its parents, lead from `d` to
/// `a`, and no revision on the way, `d` and `a` among them, is below
/// `stoprev`.
pub open spec fn reaches<G: Graph>(
    graph: &G,
    stoprev: Revision,
    d: Revision,
    a: Revision,
    n: nat,
) -> bool
    decreases n,
{
    d >= stoprev && if n == 0 {
        a == d
    } else {
        match graph.spec_parents(d) {
            Ok(ps) => reaches(graph, stoprev, ps[0], a, (n - 1) as nat) || reaches(
                graph,
                stoprev,
                ps[1],
                a,
                (n - 1) as nat,
            ),
            Err(_) => false,
        }
    }
}

/// `a` is an ancestor of one of `roots`, by a way that does not go below
/// `stoprev`. With `inclusive` a revision is an ancestor of itself.
pub open spec fn is_ancestor<G: Graph>(
    graph: &G,
    stoprev: Revision,
    roots: Set<Revision>,
    inclusive: bool,
    a: Revision,
) -> bool {
    exists|d: Revision, n: nat|
        roots.contains(d) && (inclusive || n > 0) && #[trigger] reaches(graph, stoprev, d, a, n)
}

/// `p` is a parent of `r`.
pub open spec fn is_parent<G: Graph>(graph: &G, r: Revision, p: Revision) -> bool {
    match graph.spec_parents(r) {
        Ok(ps) => p == ps[0] || p == ps[1],
        Err(_) => false,
    }
}

/// A way to a revision goes on to its parents.
pub proof fn lemma_reaches_parent<G: Graph>(
    graph: &G,
    stoprev: Revision,
    d: Revision,
    a: Revision,
    n: nat,
    p: Revision,
)
    requires
        reaches(graph, stoprev, d, a, n),
        is_parent(graph, a, p),
        p >= stoprev,
    ensures
        reaches(graph, stoprev, d, p, n + 1),
    decreases n,
{
    if n == 0 {
        assert(reaches(graph, stoprev, p, p, 0));
    } else {
        let ps = graph.spec_parents(d)->Ok_0;
        if reaches(graph, stoprev, ps[0], a, (n - 1) as nat) {
            lemma_reaches_parent(graph, stoprev, ps[0], a, (n - 1) as nat, p);
        } else {
            lemma_reaches_parent(graph, stoprev, ps[1], a, (n - 1) as nat, p);
        }
    }
}

/// The parents of an ancestor, and of a root, are ancestors.
pub proof fn lemma_parent_is_ancestor<G: Graph>(
    graph: &G,
    stoprev: Revision,
    roots: Set<Revision>,
    inclusive: bool,
    a: Revision,
    p: Revision,
)
    requires
        is_ancestor(graph, stoprev, roots, inclusive, a) || (roots.contains(a) && a >= stoprev),
        is_parent(graph, a, p),
        p >= stoprev,
    ensures
        is_ancestor(graph, stoprev, roots, inclusive, p),
{
    if is_ancestor(graph, stoprev, roots, inclusive, a) {
        let (d, n) = choose|d: Revision, n: nat|
            roots.contains(d) && (inclusive || n > 0) && #[trigger] reaches(
                graph,
                stoprev,
                d,
                a,
                n,
            );
        lemma_reaches_parent(graph, stoprev, d, a, n, p);
        assert(reaches(graph, stoprev, d, p, n + 1));
    } else {
        assert(reaches(graph, stoprev, a, a, 0));
        lemma_reaches_parent(graph, stoprev, a, a, 0, p);
        assert(reaches(graph, stoprev, a, p, 1));
    }
}

/// The queue with one more revision holds that revision and what it held.
pub proof fn lemma_insert_sorted_contains(s: Seq<Revision>, x: Revision, r: Revision)
    ensures
        insert_sorted(s, x).contains(r) <==> r == x || s.contains(r),
    decreases s.len(),
{
    let t = insert_sorted(s, x);
    if s.len() == 0 {
        assert(t[0] == x);
    } else if s.last() <= x {
        assert(t[s.len() as int] == x);
        if s.contains(r) {
            let i = choose|i: int| 0 <= i < s.len() && s[i] == r;
            assert(t[i] == r);
        }
        if t.contains(r) && r != x {
            let i = choose|i: int| 0 <= i < t.len() && t[i] == r;
            assert(s[i] == r);
        }
    } else {
        let u = s.drop_last();
        let v = insert_sorted(u, x);
        lemma_insert_sorted_contains(u, x, r);
        assert(t[v.len() as int] == s.last());
        if t.contains(r) {
            let i = choose|i: int| 0 <= i < t.len() && t[i] == r;
            if i < v.len() {
                assert(v[i] == r);
                if u.contains(r) {
                    let j = choose|j: int| 0 <= j < u.len() && u[j] == r;
                    assert(s[j] == r);
                }
            } else {
                assert(s[s.len() - 1] == r);
            }
        }
        if r == x {
            let i = choose|i: int| 0 <= i < v.len() && v[i] == r;
            assert(t[i] == r);
        }
        if s.contains(r) {
            let j = choose|j: int| 0 <= j < s.len() && s[j] == r;
            if j < u.len() {
                assert(u[j] == r);
                let i = choose|i: int| 0 <= i < v.len() && v[i] == r;
                assert(t[i] == r);
            }
        }
    }
}

/// Every revision that the walk has come across is an ancestor of a root,
/// or the null revision; every queued revision is one that the walk has
/// come across, and an ancestor.
pub open spec fn found_ancestors<G: Graph>(
    graph: &G,
    stoprev: Revision,
    roots: Set<Revision>,
    inclusive: bool,
    st: WalkState,
) -> bool {
    &&& forall|r: Revision| #[trigger]
        st.seen.contains(r) ==> r == NULL_REVISION || is_ancestor(
            graph,
            stoprev,
            roots,
            inclusive,
            r,
        )
    &&& forall|r: Revision| #[trigger]
        st.visit.contains(r) ==> st.seen.contains(r) && is_ancestor(
            graph,
            stoprev,
            roots,
            inclusive,
            r,
        )
}

/// The parents of `r` that are not below `stoprev` are among `seen`.
pub open spec fn parents_seen<G: Graph>(
    graph: &G,
    stoprev: Revision,
    seen: Set<Revision>,
    r: Revision,
) -> bool {
    match graph.spec_parents(r) {
        Ok(ps) => (ps[0] >= stoprev ==> seen.contains(ps[0])) && (ps[1] >= stoprev
            ==> seen.contains(ps[1])),
        Err(_) => false,
    }
}

/// The walk has come across the parents of every revision that it has
/// visited.
pub open spec fn visited_closed<G: Graph>(graph: &G, stoprev: Revision, st: WalkState) -> bool {
    forall|r: Revision| #[trigger]
        st.seen.contains(r) && r >= stoprev && !st.visit.contains(r) ==> parents_seen(
            graph,
            stoprev,
            st.seen,
            r,
        )
}

/// The walk has begun at the first `k` of `initrevs`: it has come across
/// those not below `stoprev`, or without `inclusive` across their parents.
pub open spec fn begun_at<G: Graph>(
    graph: &G,
    stoprev: Revision,
    initrevs: Seq<Revision>,
    k: int,
    inclusive: bool,
    st: WalkState,
) -> bool {
    forall|i: int|
        0 <= i < k && #[trigger] initrevs[i] >= stoprev ==> if inclusive {
            st.seen.contains(initrevs[i])
        } else {
            parents_seen(graph, stoprev, st.seen, initrevs[i])
        }
}

/// Coming across a revision that is an ancestor keeps what holds of a walk.
pub proof fn lemma_push_if_new_inv<G: Graph>(
    graph: &G,
    stoprev: Revision,
    initrevs: Seq<Revision>,
    k: int,
    inclusive: bool,
    st: WalkState,
    rev: Revision,
)
    requires
        found_ancestors(graph, stoprev, initrevs.to_set(), inclusive, st),
        rev >= stoprev ==> is_ancestor(graph, stoprev, initrevs.to_set(), inclusive, rev),
    ensures
        found_ancestors(
            graph,
            stoprev,
            initrevs.to_set(),
            inclusive,
            push_if_new(st, stoprev, rev),
        ),
        visited_closed(graph, stoprev, st) ==> visited_closed(
            graph,
            stoprev,
            push_if_new(st, stoprev, rev),
        ),
        begun_at(graph, stoprev, initrevs, k, inclusive, st) ==> begun_at(
            graph,
            stoprev,
            initrevs,
            k,
            inclusive,
            push_if_new(st, stoprev, rev),
        ),
        rev >= stoprev ==> push_if_new(st, stoprev, rev).seen.contains(rev),
        forall|r: Revision| st.seen.contains(r) ==> push_if_new(st, stoprev, rev).seen.contains(r),
        forall|r: Revision|
            push_if_new(st, stoprev, rev).visit.contains(r) <==> st.visit.contains(r) || (r == rev
                && rev >= stoprev && !st.seen.contains(rev)),
{
    let next = push_if_new(st, stoprev, rev);
    if stoprev <= rev && !st.seen.contains(rev) {
        assert forall|r: Revision|
            next.visit.contains(r) <==> st.visit.contains(r) || r == rev by {
            lemma_insert_sorted_contains(st.visit, rev, r);
        }
        if visited_closed(graph, stoprev, st) {
            assert forall|r: Revision| #[trigger]
                next.seen.contains(r) && r >= stoprev && !next.visit.contains(r) implies parents_seen(
                graph,
                stoprev,
                next.seen,
                r,
            ) by {
                assert(st.seen.contains(r));
                assert(parents_seen(graph, stoprev, st.seen, r));
            }
        }
        if begun_at(graph, stoprev, initrevs, k, inclusive, st) {
            assert forall|i: int|
                0 <= i < k && #[trigger] initrevs[i] >= stoprev implies if inclusive {
                next.seen.contains(initrevs[i])
            } else {
                parents_seen(graph, stoprev, next.seen, initrevs[i])
            } by {
                if !inclusive {
                    assert(parents_seen(graph, stoprev, st.seen, initrevs[i]));
                }
            }
        }
    }
}

/// What holds of a walk from `initrevs` in each of its states.
pub open spec fn walk_inv<G: Graph>(
    graph: &G,
    stoprev: Revision,
    initrevs: Seq<Revision>,
    inclusive: bool,
    st: WalkState,
) -> bool {
    &&& found_ancestors(graph, stoprev, initrevs.to_set(), inclusive, st)
    &&& visited_closed(graph, stoprev, st)
    &&& begun_at(graph, stoprev, initrevs, initrevs.len() as int, inclusive, st)
}

/// Of a walk that emits its initial revisions, once the first `k` of them
/// are queued: what it has come across is queued, and so are the first `k`
/// that are not below `stoprev`.
pub proof fn lemma_queue_initial_inv<G: Graph>(
    graph: &G,
    stoprev: Revision,
    initrevs: Seq<Revision>,
    k: nat,
)
    requires
        k <= initrevs.len(),
    ensures
        found_ancestors(
            graph,
            stoprev,
            initrevs.to_set(),
            true,
            queue_initial(initrevs, stoprev, k),
        ),
        visited_closed(graph, stoprev, queue_initial(initrevs, stoprev, k)),
        begun_at(graph, stoprev, initrevs, k as int, true, queue_initial(initrevs, stoprev, k)),
        forall|r: Revision|
            queue_initial(initrevs, stoprev, k).seen.contains(r) ==> queue_initial(
                initrevs,
                stoprev,
                k,
            ).visit.contains(r),
    decreases k,
{
    let roots = initrevs.to_set();
    let now = queue_initial(initrevs, stoprev, k);
    if k > 0 {
        let st = queue_initial(initrevs, stoprev, (k - 1) as nat);
        lemma_queue_initial_inv(graph, stoprev, initrevs, (k - 1) as nat);
        let rev = initrevs[k - 1];
        if rev >= stoprev {
            assert(roots.contains(rev));
            assert(reaches(graph, stoprev, rev, rev, 0));
            assert(is_ancestor(graph, stoprev, roots, true, rev));
            assert forall|r: Revision|
                now.visit.contains(r) <==> st.visit.contains(r) || r == rev by {
                lemma_insert_sorted_contains(st.visit, rev, r);
            }
        }
        assert forall|i: int|
            0 <= i < k && #[trigger] initrevs[i] >= stoprev implies now.seen.contains(
            initrevs[i],
        ) by {
            if i < k - 1 {
                assert(st.seen.contains(initrevs[i]));
            }
        }
    }
}

/// Of a walk that does not emit its initial revisions, once the parents of
/// the first `k` of them are queued.
pub proof fn lemma_queue_parents_inv<G: Graph>(
    graph: &G,
    stoprev: Revision,
    initrevs: Seq<Revision>,
    k: nat,
)
    requires
        k <= initrevs.len(),
        queue_parents(graph, initrevs, stoprev, k) is Ok,
    ensures
        found_ancestors(
            graph,
            stoprev,
            initrevs.to_set(),
            false,
            queue_parents(graph, initrevs, stoprev, k)->Ok_0,
        ),
        stoprev > NULL_REVISION ==> visited_closed(
            graph,
            stoprev,
            queue_parents(graph, initrevs, stoprev, k)->Ok_0,
        ),
        begun_at(
            graph,
            stoprev,
            initrevs,
            k as int,
            false,
            queue_parents(graph, initrevs, stoprev, k)->Ok_0,
        ),
    decreases k,
{
    let roots = initrevs.to_set();
    let now = queue_parents(graph, initrevs, stoprev, k)->Ok_0;
    if k > 0 {
        let st = queue_parents(graph, initrevs, stoprev, (k - 1) as nat)->Ok_0;
        lemma_queue_parents_inv(graph, stoprev, initrevs, (k - 1) as nat);
        let rev = initrevs[k - 1];
        if rev >= stoprev {
            let ps = graph.spec_parents(rev)->Ok_0;
            assert(roots.contains(rev));
            if ps[0] >= stoprev {
                lemma_parent_is_ancestor(graph, stoprev, roots, false, rev, ps[0]);
            }
            if ps[1] >= stoprev {
                lemma_parent_is_ancestor(graph, stoprev, roots, false, rev, ps[1]);
            }
            let mid = push_if_new(st, stoprev, ps[0]);
            lemma_push_if_new_inv(graph, stoprev, initrevs, k - 1, false, st, ps[0]);
            lemma_push_if_new_inv(graph, stoprev, initrevs, k - 1, false, mid, ps[1]);
            assert(parents_seen(graph, stoprev, now.seen, rev));
        }
    } else {
        assert(!now.visit.contains(NULL_REVISION));
    }
}

/// A walk begins in a state of which its invariant holds: always where it
/// emits its initial revisions, and else where it stops above the null
/// revision.
pub proof fn lemma_walk_begins<G: Graph>(
    graph: &G,
    stoprev: Revision,
    initrevs: Seq<Revision>,
    inclusive: bool,
    st: WalkState,
)
    requires
        if inclusive {
            st == queue_initial(initrevs, stoprev, initrevs.len())
        } else {
            stoprev > NULL_REVISION && queue_parents(graph, initrevs, stoprev, initrevs.len())
                == Ok::<WalkState, crate::GraphError>(st)
        },
    ensures
        walk_inv(graph, stoprev, initrevs, inclusive, st),
{
    if inclusive {
        lemma_queue_initial_inv(graph, stoprev, initrevs, initrevs.len());
    } else {
        lemma_queue_parents_inv(graph, stoprev, initrevs, initrevs.len());
    }
}

/// A visit keeps the invariant of a walk.
pub proof fn lemma_step_keeps_inv<G: Graph>(
    graph: &G,
    stoprev: Revision,
    initrevs: Seq<Revision>,
    inclusive: bool,
    st: WalkState,
)
    requires
        walk_inv(graph, stoprev, initrevs, inclusive, st),
        st.visit.len() > 0,
        graph.spec_parents(st.visit.last()) is Ok,
    ensures
        is_ancestor(graph, stoprev, initrevs.to_set(), inclusive, st.visit.last()),
        walk_inv(
            graph,
            stoprev,
            initrevs,
            inclusive,
            step(
                st,
                stoprev,
                graph.spec_parents(st.visit.last())->Ok_0[0],
                graph.spec_parents(st.visit.last())->Ok_0[1],
            ),
        ),
{
    let roots = initrevs.to_set();
    let current = st.visit.last();
    let ps = graph.spec_parents(current)->Ok_0;
    let k = initrevs.len() as int;
    let rest = WalkState { visit: st.visit.drop_last(), seen: st.seen };
    let mid = push_if_new(rest, stoprev, ps[0]);
    let next = push_if_new(mid, stoprev, ps[1]);
    assert(st.visit[st.visit.len() - 1] == current);
    assert(st.visit.contains(current));
    assert forall|r: Revision| #[trigger] rest.visit.contains(r) implies st.visit.contains(r) by {
        let i = choose|i: int| 0 <= i < rest.visit.len() && rest.visit[i] == r;
        assert(st.visit[i] == r);
    }
    assert forall|r: Revision| st.visit.contains(r) && r != current implies rest.visit.contains(
        r,
    ) by {
        let i = choose|i: int| 0 <= i < st.visit.len() && st.visit[i] == r;
        assert(rest.visit[i] == r);
    }
    if ps[0] >= stoprev {
        lemma_parent_is_ancestor(graph, stoprev, roots, inclusive, current, ps[0]);
    }
    if ps[1] >= stoprev {
        lemma_parent_is_ancestor(graph, stoprev, roots, inclusive, current, ps[1]);
    }
    lemma_push_if_new_inv(graph, stoprev, initrevs, k, inclusive, rest, ps[0]);
    lemma_push_if_new_inv(graph, stoprev, initrevs, k, inclusive, mid, ps[1]);
    assert forall|r: Revision| #[trigger]
        next.seen.contains(r) && r >= stoprev && !next.visit.contains(r) implies parents_seen(
        graph,
        stoprev,
        next.seen,
        r,
    ) by {
        lemma_push_if_new_contains(rest, stoprev, ps[0], r);
        lemma_push_if_new_contains(mid, stoprev, ps[1], r);
        if r != current {
            assert(st.seen.contains(r));
            assert(!rest.visit.contains(r));
            assert(!st.visit.contains(r));
            assert(parents_seen(graph, stoprev, st.seen, r));
        }
    }
}

/// A way from a revision that a finished walk has come across leads to
/// revisions that it has come across.
pub proof fn lemma_way_is_seen<G: Graph>(
    graph: &G,
    stoprev: Revision,
    st: WalkState,
    d: Revision,
    a: Revision,
    n: nat,
)
    requires
        visited_closed(graph, stoprev, st),
        st.visit.len() == 0,
        st.seen.contains(d),
        reaches(graph, stoprev, d, a, n),
    ensures
        st.seen.contains(a),
    decreases n,
{
    reveal_with_fuel(reaches, 2);
    if n > 0 {
        let ps = graph.spec_parents(d)->Ok_0;
        assert(parents_seen(graph, stoprev, st.seen, d));
        if reaches(graph, stoprev, ps[0], a, (n - 1) as nat) {
            lemma_way_is_seen(graph, stoprev, st, ps[0], a, (n - 1) as nat);
        } else {
            lemma_way_is_seen(graph, stoprev, st, ps[1], a, (n - 1) as nat);
        }
    }
}

/// At its end a walk has come across the ancestors of its initial
/// revisions, and across nothing else but the null revision.
pub proof fn lemma_walk_ends<G: Graph>(
    graph: &G,
    stoprev: Revision,
    initrevs: Seq<Revision>,
    inclusive: bool,
    st: WalkState,
    a: Revision,
)
    requires
        walk_inv(graph, stoprev, initrevs, inclusive, st),
        st.visit.len() == 0,
    ensures
        is_ancestor(graph, stoprev, initrevs.to_set(), inclusive, a) ==> st.seen.contains(a),
        st.seen.contains(a) ==> a == NULL_REVISION || is_ancestor(
            graph,
            stoprev,
            initrevs.to_set(),
            inclusive,
            a,
        ),
{
    let roots = initrevs.to_set();
    if is_ancestor(graph, stoprev, roots, inclusive, a) {
        let (d, n) = choose|d: Revision, n: nat|
            roots.contains(d) && (inclusive || n > 0) && #[trigger] reaches(
                graph,
                stoprev,
                d,
                a,
                n,
            );
        reveal_with_fuel(reaches, 2);
        let i = choose|i: int| 0 <= i < initrevs.len() && initrevs[i] == d;
        assert(initrevs[i] >= stoprev);
        if inclusive {
            lemma_way_is_seen(graph, stoprev, st, d, a, n);
        } else {
            let ps = graph.spec_parents(d)->Ok_0;
            assert(parents_seen(graph, stoprev, st.seen, initrevs[i]));
            if reaches(graph, stoprev, ps[0], a, (n - 1) as nat) {
                lemma_way_is_seen(graph, stoprev, st, ps[0], a, (n - 1) as nat);
            } else {
                lemma_way_is_seen(graph, stoprev, st, ps[1], a, (n - 1) as nat);
            }
        }
    }
}

/// Where the parents of the visited revision have smaller numbers, every
/// revision that is queued after the visit is smaller than the visited
/// one, given that the queue held no revision twice.
pub proof fn lemma_step_goes_down(st: WalkState, stoprev: Revision, p1: Revision, p2: Revision)
    requires
        sorted(st.visit),
        st.visit.no_duplicates(),
        st.visit.len() > 0,
        forall|r: Revision| st.visit.contains(r) ==> st.seen.contains(r),
        p1 < st.visit.last(),
        p2 < st.visit.last(),
    ensures
        sorted(step(st, stoprev, p1, p2).visit),
        step(st, stoprev, p1, p2).visit.no_duplicates(),
        forall|r: Revision|
            step(st, stoprev, p1, p2).visit.contains(r) ==> step(st, stoprev, p1, p2).seen.contains(
                r,
            ) && r < st.visit.last(),
{
    let current = st.visit.last();
    let rest = WalkState { visit: st.visit.drop_last(), seen: st.seen };
    let mid = push_if_new(rest, stoprev, p1);
    let next = push_if_new(mid, stoprev, p2);
    crate::ancestors::lemma_step_measure(st, stoprev, p1, p2);
    assert forall|r: Revision| rest.visit.contains(r) implies st.seen.contains(r) && r
        < current by {
        let i = choose|i: int| 0 <= i < rest.visit.len() && rest.visit[i] == r;
        assert(st.visit[i] == r);
        assert(st.visit[i] <= st.visit[st.visit.len() - 1]);
        assert(st.visit[i] != st.visit[st.visit.len() - 1]);
    }
    assert(rest.visit.no_duplicates());
    lemma_push_if_new_distinct(rest, stoprev, p1);
    lemma_push_if_new_distinct(mid, stoprev, p2);
    assert forall|r: Revision| next.visit.contains(r) implies next.seen.contains(r) && r
        < current by {
        lemma_push_if_new_contains(rest, stoprev, p1, r);
        lemma_push_if_new_contains(mid, stoprev, p2, r);
    }
}

/// What is queued once a revision has been come across.
pub proof fn lemma_push_if_new_contains(
    st: WalkState,
    stoprev: Revision,
    rev: Revision,
    r: Revision,
)
    ensures
        push_if_new(st, stoprev, rev).visit.contains(r) <==> st.visit.contains(r) || (r == rev
            && rev >= stoprev && !st.seen.contains(rev)),
        push_if_new(st, stoprev, rev).seen.contains(r) <==> st.seen.contains(r) || (r == rev
            && rev >= stoprev),
{
    lemma_insert_sorted_contains(st.visit, rev, r);
}

/// A queue that holds no revision twice, and only revisions that the walk
/// has come across, stays so.
pub proof fn lemma_push_if_new_distinct(st: WalkState, stoprev: Revision, rev: Revision)
    requires
        st.visit.no_duplicates(),
        forall|r: Revision| st.visit.contains(r) ==> st.seen.contains(r),
    ensures
        push_if_new(st, stoprev, rev).visit.no_duplicates(),
        forall|r: Revision|
            push_if_new(st, stoprev, rev).visit.contains(r) ==> push_if_new(
                st,
                stoprev,
                rev,
            ).seen.contains(r),
{
    let next = push_if_new(st, stoprev, rev);
    assert forall|r: Revision| next.visit.contains(r) implies next.seen.contains(r) by {
        lemma_push_if_new_contains(st, stoprev, rev, r);
    }
    if stoprev <= rev && !st.seen.contains(rev) {
        assert(!st.visit.contains(rev));
        lemma_insert_sorted_distinct(st.visit, rev);
    }
}

/// A revision put into a queue that does not hold it is there once.
pub proof fn lemma_insert_sorted_distinct(s: Seq<Revision>, x: Revision)
    requires
        s.no_duplicates(),
        !s.contains(x),
    ensures
        insert_sorted(s, x).no_duplicates(),
    decreases s.len(),
{
    let t = insert_sorted(s, x);
    if s.len() == 0 {
    } else if s.last() <= x {
        assert forall|i: int, j: int| 0 <= i < t.len() && 0 <= j < t.len() && i != j implies t[i]
            != t[j] by {
            if i < s.len() {
                assert(s.contains(s[i]));
            }
            if j < s.len() {
                assert(s.contains(s[j]));
            }
        }
    } else {
        let u = s.drop_last();
        let v = insert_sorted(u, x);
        assert(u.no_duplicates());
        assert(!u.contains(x)) by {
            if u.contains(x) {
                let i = choose|i: int| 0 <= i < u.len() && u[i] == x;
                assert(s[i] == x);
            }
        }
        lemma_insert_sorted_distinct(u, x);
        lemma_insert_sorted_contains(u, x, s.last());
        assert(!u.contains(s.last())) by {
            if u.contains(s.last()) {
                let i = choose|i: int| 0 <= i < u.len() && u[i] == s.last();
                assert(s[i] == s[s.len() - 1]);
            }
        }
        assert(!v.contains(s.last()));
        assert forall|i: int, j: int| 0 <= i < t.len() && 0 <= j < t.len() && i != j implies t[i]
            != t[j] by {
            if i < v.len() {
                assert(v.contains(v[i]));
            }
            if j < v.len() {
                assert(v.contains(v[j]));
            }
        }
    }
}

/// A walk that emits its initial revisions, none of them given twice,
/// begins with a queue that holds no revision twice.
pub proof fn lemma_queue_initial_distinct(initrevs: Seq<Revision>, stoprev: Revision, k: nat)
    requires
        k <= initrevs.len(),
        initrevs.no_duplicates(),
    ensures
        queue_initial(initrevs, stoprev, k).visit.no_duplicates(),
        forall|r: Revision|
            queue_initial(initrevs, stoprev, k).visit.contains(r) <==> queue_initial(
                initrevs,
                stoprev,
                k,
            ).seen.contains(r),
        forall|r: Revision|
            queue_initial(initrevs, stoprev, k).seen.contains(r) ==> exists|i: int|
                0 <= i < k && initrevs[i] == r,
    decreases k,
{
    let now = queue_initial(initrevs, stoprev, k);
    if k > 0 {
        let st = queue_initial(initrevs, stoprev, (k - 1) as nat);
        lemma_queue_initial_distinct(initrevs, stoprev, (k - 1) as nat);
        let rev = initrevs[k - 1];
        if rev >= stoprev {
            if st.seen.contains(rev) {
                let i = choose|i: int| 0 <= i < k - 1 && initrevs[i] == rev;
                assert(initrevs[i] == initrevs[k - 1]);
            }
            lemma_insert_sorted_distinct(st.visit, rev);
            assert forall|r: Revision| now.visit.contains(r) <==> now.seen.contains(r) by {
                lemma_insert_sorted_contains(st.visit, rev, r);
            }
        }
        assert forall|r: Revision| now.seen.contains(r) implies exists|i: int|
            0 <= i < k && initrevs[i] == r by {
            if st.seen.contains(r) {
                let i = choose|i: int| 0 <= i < k - 1 && initrevs[i] == r;
                assert(0 <= i < k && initrevs[i] == r);
            } else {
                assert(initrevs[k - 1] == r);
            }
        }
    }
}

/// A walk that does not emit its initial revisions begins with a queue that
/// holds no revision twice.
pub proof fn lemma_queue_parents_distinct<G: Graph>(
    graph: &G,
    initrevs: Seq<Revision>,
    stoprev: Revision,
    k: nat,
)
    requires
        k <= initrevs.len(),
        queue_parents(graph, initrevs, stoprev, k) is Ok,
    ensures
        queue_parents(graph, initrevs, stoprev, k)->Ok_0.visit.no_duplicates(),
        forall|r: Revision|
            queue_parents(graph, initrevs, stoprev, k)->Ok_0.visit.contains(r) ==> queue_parents(
                graph,
                initrevs,
                stoprev,
                k,
            )->Ok_0.seen.contains(r),
    decreases k,
{
    if k > 0 {
        let st = queue_parents(graph, initrevs, stoprev, (k - 1) as nat)->Ok_0;
        lemma_queue_parents_distinct(graph, initrevs, stoprev, (k - 1) as nat);
        let rev = initrevs[k - 1];
        if rev >= stoprev {
            let ps = graph.spec_parents(rev)->Ok_0;
            lemma_push_if_new_distinct(st, stoprev, ps[0]);
            lemma_push_if_new_distinct(push_if_new(st, stoprev, ps[0]), stoprev, ps[1]);
        }
    }
}

/// Every parent has a smaller number than its child.
pub open spec fn well_numbered<G: Graph>(graph: &G) -> bool {
    forall|r: Revision| (#[trigger] graph.spec_parents(r)) matches Ok(ps) ==> ps[0] < r && ps[1] < r
}

/// Where parents have smaller numbers than their children, so have
/// ancestors than their descendants.
pub proof fn lemma_reaches_le<G: Graph>(
    graph: &G,
    stoprev: Revision,
    d: Revision,
    a: Revision,
    n: nat,
)
    requires
        well_numbered(graph),
        reaches(graph, stoprev, d, a, n),
    ensures
        stoprev <= a <= d,
        n > 0 ==> a < d,
    decreases n,
{
    if n > 0 {
        let ps = graph.spec_parents(d)->Ok_0;
        if reaches(graph, stoprev, ps[0], a, (n - 1) as nat) {
            lemma_reaches_le(graph, stoprev, ps[0], a, (n - 1) as nat);
        } else {
            lemma_reaches_le(graph, stoprev, ps[1], a, (n - 1) as nat);
        }
    }
}

/// A way from a revision that the walk has come across to one that it has
/// not passes a queued revision.
pub proof fn lemma_way_meets_queue<G: Graph>(
    graph: &G,
    stoprev: Revision,
    st: WalkState,
    d: Revision,
    a: Revision,
    n: nat,
)
    requires
        well_numbered(graph),
        visited_closed(graph, stoprev, st),
        st.seen.contains(d),
        reaches(graph, stoprev, d, a, n),
        !st.seen.contains(a),
    ensures
        exists|q: Revision| st.visit.contains(q) && a < q,
    decreases n,
{
    reveal_with_fuel(reaches, 2);
    if n > 0 {
        if st.visit.contains(d) {
            lemma_reaches_le(graph, stoprev, d, a, n);
        } else {
            let ps = graph.spec_parents(d)->Ok_0;
            assert(parents_seen(graph, stoprev, st.seen, d));
            if reaches(graph, stoprev, ps[0], a, (n - 1) as nat) {
                lemma_way_meets_queue(graph, stoprev, st, ps[0], a, (n - 1) as nat);
            } else {
                lemma_way_meets_queue(graph, stoprev, st, ps[1], a, (n - 1) as nat);
            }
        }
    }
}

/// An ancestor that the walk has not come across is below a queued
/// revision.
pub proof fn lemma_unseen_ancestor_below_queue<G: Graph>(
    graph: &G,
    stoprev: Revision,
    initrevs: Seq<Revision>,
    inclusive: bool,
    st: WalkState,
    a: Revision,
)
    requires
        well_numbered(graph),
        walk_inv(graph, stoprev, initrevs, inclusive, st),
        is_ancestor(graph, stoprev, initrevs.to_set(), inclusive, a),
        !st.seen.contains(a),
    ensures
        exists|q: Revision| st.visit.contains(q) && a < q,
{
    let roots = initrevs.to_set();
    let (d, n) = choose|d: Revision, n: nat|
        roots.contains(d) && (inclusive || n > 0) && #[trigger] reaches(graph, stoprev, d, a, n);
    reveal_with_fuel(reaches, 2);
    let i = choose|i: int| 0 <= i < initrevs.len() && initrevs[i] == d;
    assert(initrevs[i] >= stoprev);
    if inclusive {
        lemma_way_meets_queue(graph, stoprev, st, d, a, n);
    } else {
        let ps = graph.spec_parents(d)->Ok_0;
        assert(parents_seen(graph, stoprev, st.seen, initrevs[i]));
        if reaches(graph, stoprev, ps[0], a, (n - 1) as nat) {
            lemma_way_meets_queue(graph, stoprev, st, ps[0], a, (n - 1) as nat);
        } else {
            lemma_way_meets_queue(graph, stoprev, st, ps[1], a, (n - 1) as nat);
        }
    }
}

/// The search for `target` finds it where it is an ancestor, given that
/// `target` is queued if the walk has come across it.
pub proof fn lemma_search_walk_exact<G: Graph>(
    graph: &G,
    stoprev: Revision,
    initrevs: Seq<Revision>,
    inclusive: bool,
    st: WalkState,
    target: Revision,
)
    requires
        well_numbered(graph),
        stoprev > NULL_REVISION,
        walk_inv(graph, stoprev, initrevs, inclusive, st),
        sorted(st.visit),
        st.seen.contains(target) && target != NULL_REVISION ==> st.visit.contains(target),
    ensures
        search_walk(graph, st, stoprev, target).0 matches Ok(found) ==> (found <==> is_ancestor(
            graph,
            stoprev,
            initrevs.to_set(),
            inclusive,
            target,
        )),
        search_walk(graph, st, stoprev, target).0 is Ok ==> walk_inv(
            graph,
            stoprev,
            initrevs,
            inclusive,
            search_walk(graph, st, stoprev, target).1,
        ) && sorted(search_walk(graph, st, stoprev, target).1.visit),
    decreases walk_measure(st, stoprev),
{
    let roots = initrevs.to_set();
    let is_anc = is_ancestor(graph, stoprev, roots, inclusive, target);
    if is_anc {
        let (d, n) = choose|d: Revision, n: nat|
            roots.contains(d) && (inclusive || n > 0) && #[trigger] reaches(
                graph,
                stoprev,
                d,
                target,
                n,
            );
        lemma_reaches_le(graph, stoprev, d, target, n);
    }
    if st.visit.len() == 0 {
        if is_anc {
            lemma_walk_ends(graph, stoprev, initrevs, inclusive, st, target);
        }
    } else {
        let current = st.visit.last();
        assert(st.visit[st.visit.len() - 1] == current);
        assert(st.visit.contains(current));
        match graph.spec_parents(current) {
            Err(e) => {},
            Ok(ps) => {
                let next = step(st, stoprev, ps[0], ps[1]);
                lemma_step_keeps_inv(graph, stoprev, initrevs, inclusive, st);
                lemma_step_measure(st, stoprev, ps[0], ps[1]);
                if current == target {
                } else if current < target {
                    if is_anc {
                        if st.seen.contains(target) {
                            let i = choose|i: int| 0 <= i < st.visit.len() && st.visit[i] == target;
                            assert(st.visit[i] <= st.visit[st.visit.len() - 1]);
                        } else {
                            lemma_unseen_ancestor_below_queue(
                                graph,
                                stoprev,
                                initrevs,
                                inclusive,
                                st,
                                target,
                            );
                            let q = choose|q: Revision| st.visit.contains(q) && target < q;
                            let i = choose|i: int| 0 <= i < st.visit.len() && st.visit[i] == q;
                            assert(st.visit[i] <= st.visit[st.visit.len() - 1]);
                        }
                    }
                } else {
                    let rest = WalkState { visit: st.visit.drop_last(), seen: st.seen };
                    let mid = push_if_new(rest, stoprev, ps[0]);
                    lemma_push_if_new_contains(rest, stoprev, ps[0], target);
                    lemma_push_if_new_contains(mid, stoprev, ps[1], target);
                    if st.seen.contains(target) && target != NULL_REVISION {
                        let i = choose|i: int| 0 <= i < st.visit.len() && st.visit[i] == target;
                        assert(rest.visit[i] == target);
                    }
                    lemma_search_walk_exact(graph, stoprev, initrevs, inclusive, next, target);
                }
            },
        }
    }
}

/// In a graph whose parents have smaller numbers than their children,
/// `contains` says whether `target` is an ancestor of the initial
/// revisions, for a walk that stops above the null revision: where the walk
/// has come across `target` or goes on to search for it.
pub proof fn lemma_contains_exact<G: Graph>(
    graph: &G,
    stoprev: Revision,
    initrevs: Seq<Revision>,
    inclusive: bool,
    st: WalkState,
    target: Revision,
)
    requires
        well_numbered(graph),
        stoprev > NULL_REVISION,
        walk_inv(graph, stoprev, initrevs, inclusive, st),
        sorted(st.visit),
    ensures
        st.seen.contains(target) && target != NULL_REVISION ==> is_ancestor(
            graph,
            stoprev,
            initrevs.to_set(),
            inclusive,
            target,
        ),
        !(st.seen.contains(target) && target != NULL_REVISION) ==> (search_walk(
            graph,
            st,
            stoprev,
            target,
        ).0 matches Ok(found) ==> (found <==> is_ancestor(
            graph,
            stoprev,
            initrevs.to_set(),
            inclusive,
            target,
        ))),
        !(st.seen.contains(target) && target != NULL_REVISION) ==> (search_walk(
            graph,
            st,
            stoprev,
            target,
        ).0 is Ok ==> walk_inv(
            graph,
            stoprev,
            initrevs,
            inclusive,
            search_walk(graph, st, stoprev, target).1,
        ) && sorted(search_walk(graph, st, stoprev, target).1.visit)),
{
    if !(st.seen.contains(target) && target != NULL_REVISION) {
        lemma_search_walk_exact(graph, stoprev, initrevs, inclusive, st, target);
    }
}

} // verus!
