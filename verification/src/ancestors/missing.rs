//! What the walks of `MissingAncestors` find, stated over the graph: they
//! touch ancestors alone, and the missing ancestors come out in ascending
//! order.

use crate::ancestors::reach::{is_ancestor, lemma_parent_is_ancestor, reaches};
use crate::ancestors::{
    mark_both, missing_ancestors_of, missing_step, missing_walk, MissingState, remove_ancestors,
    remove_walk, visit_parent, with_parents,
};
use crate::{Graph, NULL_REVISION, Revision};
use vstd::prelude::*;

verus! {

/// `a` is one of `roots` or an ancestor of one.
pub open spec fn in_history<G: Graph>(graph: &G, roots: Set<Revision>, a: Revision) -> bool {
    is_ancestor(graph, i32::MIN, roots, true, a)
}

/// Every revision of `s` is one of `roots` or an ancestor of one.
pub open spec fn all_in_history<G: Graph>(graph: &G, roots: Set<Revision>, s: Set<Revision>) -> bool {
    forall|r: Revision| #[trigger] s.contains(r) ==> in_history(graph, roots, r)
}

/// A root is in the history of the roots.
pub proof fn lemma_root_in_history<G: Graph>(graph: &G, roots: Set<Revision>, d: Revision)
    requires
        roots.contains(d),
    ensures
        in_history(graph, roots, d),
{
    assert(reaches(graph, i32::MIN, d, d, 0));
}

/// The bases with the parents of a revision of the history stay in the
/// history.
pub proof fn lemma_with_parents_in_history<G: Graph>(
    graph: &G,
    roots: Set<Revision>,
    bases: Set<Revision>,
    curr: Revision,
)
    requires
        all_in_history(graph, roots, bases),
        in_history(graph, roots, curr),
        graph.spec_parents(curr) is Ok,
    ensures
        all_in_history(graph, roots, with_parents(bases, graph.spec_parents(curr)->Ok_0)),
{
    let ps = graph.spec_parents(curr)->Ok_0;
    lemma_parent_is_ancestor(graph, i32::MIN, roots, true, curr, ps[0]);
    lemma_parent_is_ancestor(graph, i32::MIN, roots, true, curr, ps[1]);
    assert forall|r: Revision| #[trigger]
        with_parents(bases, ps).contains(r) implies in_history(graph, roots, r) by {
        if !bases.contains(r) {
            assert(r == ps[0] || r == ps[1]);
        }
    }
}

/// The walk of `remove_ancestors_from` takes from the revisions only what
/// is in the history of the bases, and adds to the bases only such
/// revisions.
pub proof fn lemma_remove_walk_in_history<G: Graph>(
    graph: &G,
    roots: Set<Revision>,
    bases: Set<Revision>,
    revs: Set<Revision>,
    curr: Revision,
    keepcount: nat,
)
    requires
        all_in_history(graph, roots, bases),
    ensures
        all_in_history(graph, roots, remove_walk(graph, bases, revs, curr, keepcount).1),
        forall|r: Revision|
            bases.contains(r) ==> remove_walk(graph, bases, revs, curr, keepcount).1.contains(r),
        forall|r: Revision|
            remove_walk(graph, bases, revs, curr, keepcount).2.contains(r) ==> revs.contains(r),
        forall|r: Revision|
            revs.contains(r) && !remove_walk(graph, bases, revs, curr, keepcount).2.contains(r)
                ==> in_history(graph, roots, r),
    decreases curr + 1,
{
    if curr <= NULL_REVISION || revs.len() <= keepcount {
    } else if bases.contains(curr) {
        match graph.spec_parents(curr) {
            Err(e) => {
                assert(remove_walk(graph, bases, revs, curr, keepcount).2 == revs.remove(curr));
            },
            Ok(ps) => {
                let more = with_parents(bases, ps);
                let fewer = revs.remove(curr);
                let below = (curr - 1) as Revision;
                lemma_with_parents_in_history(graph, roots, bases, curr);
                lemma_remove_walk_in_history(graph, roots, more, fewer, below, keepcount);
                let end = remove_walk(graph, more, fewer, below, keepcount);
                assert(remove_walk(graph, bases, revs, curr, keepcount) == end);
                assert forall|r: Revision| bases.contains(r) implies end.1.contains(r) by {
                    assert(more.contains(r));
                }
                assert forall|r: Revision| end.2.contains(r) implies revs.contains(r) by {
                    assert(fewer.contains(r));
                }
                assert forall|r: Revision| revs.contains(r) && !end.2.contains(r) implies in_history(
                    graph,
                    roots,
                    r,
                ) by {
                    if r != curr {
                        assert(fewer.contains(r));
                    }
                }
            },
        }
    } else {
        let below = (curr - 1) as Revision;
        lemma_remove_walk_in_history(graph, roots, bases, revs, below, keepcount);
        assert(remove_walk(graph, bases, revs, curr, keepcount) == remove_walk(
            graph,
            bases,
            revs,
            below,
            keepcount,
        ));
    }
}

/// `remove_ancestors_from` takes from the revisions the null revision and
/// revisions in the history of the bases, nothing else; the bases keep what
/// they held, and take up only revisions of their history.
pub proof fn lemma_remove_ancestors_in_history<G: Graph>(
    graph: &G,
    bases: Set<Revision>,
    revs: Set<Revision>,
)
    ensures
        all_in_history(graph, bases, remove_ancestors(graph, bases, revs).1),
        forall|r: Revision| bases.contains(r) ==> remove_ancestors(graph, bases, revs).1.contains(r),
        forall|r: Revision| remove_ancestors(graph, bases, revs).2.contains(r) ==> revs.contains(r),
        forall|r: Revision|
            revs.contains(r) && !remove_ancestors(graph, bases, revs).2.contains(r) ==> r
                == NULL_REVISION || in_history(graph, bases, r),
{
    let left = revs.difference(bases).remove(NULL_REVISION);
    assert forall|r: Revision| #[trigger] bases.contains(r) implies in_history(graph, bases, r) by {
        lemma_root_in_history(graph, bases, r);
    }
    if !(left.is_empty() || bases.is_empty()) {
        let start = crate::ancestors::max_of(bases);
        let keepcount = left.filter(|r: Revision| r > start).len();
        lemma_remove_walk_in_history(graph, bases, bases, left, start, keepcount);
        let end = remove_walk(graph, bases, left, start, keepcount);
        assert(remove_ancestors(graph, bases, revs) == end);
        assert forall|r: Revision| end.2.contains(r) implies revs.contains(r) by {
            assert(left.contains(r));
        }
        assert forall|r: Revision| revs.contains(r) && !end.2.contains(r) implies r
            == NULL_REVISION || in_history(graph, bases, r) by {
            if r != NULL_REVISION && !bases.contains(r) {
                assert(left.contains(r));
            }
        }
    }
}

/// The revisions from the largest down, each above `bound`.
pub open spec fn descending_above(s: Seq<Revision>, bound: int) -> bool {
    &&& forall|i: int, j: int| 0 <= i < j < s.len() ==> s[i] > s[j]
    &&& forall|i: int| 0 <= i < s.len() ==> s[i] > bound
}

/// What holds of the walk of `missing_ancestors` in each of its states: the
/// revisions yet to visit on the side of the revisions, and the missing
/// ancestors found, are in the history of `roots`.
pub open spec fn missing_inv<G: Graph>(graph: &G, roots: Set<Revision>, st: MissingState) -> bool {
    &&& all_in_history(graph, roots, st.revs)
    &&& forall|i: int| 0 <= i < st.missing.len() ==> in_history(graph, roots, #[trigger] st.missing[i])
}

/// A parent met on the way keeps what holds of the walk.
pub proof fn lemma_visit_parent_inv<G: Graph>(
    graph: &G,
    roots: Set<Revision>,
    st: MissingState,
    p: Revision,
    from_revs: bool,
)
    requires
        missing_inv(graph, roots, st),
        from_revs ==> in_history(graph, roots, p),
    ensures
        missing_inv(graph, roots, visit_parent(st, p, from_revs)),
        visit_parent(st, p, from_revs).missing == st.missing,
        missing_inv(graph, roots, mark_both(st, p)),
        mark_both(st, p).missing == st.missing,
{
}

/// A visit keeps what holds of the walk, and adds to the missing ancestors
/// at most the visited revision, behind the others.
pub proof fn lemma_missing_step_inv<G: Graph>(
    graph: &G,
    roots: Set<Revision>,
    st: MissingState,
    curr: Revision,
)
    requires
        missing_inv(graph, roots, st),
        descending_above(st.missing, curr as int),
    ensures
        match missing_step(graph, st, curr) {
            Ok(next) => missing_inv(graph, roots, next) && descending_above(
                next.missing,
                curr - 1,
            ),
            Err(e) => true,
        },
{
    if st.both.contains(curr) {
        let st1 = MissingState { both: st.both.remove(curr), ..st };
        match graph.spec_parents(curr) {
            Err(e) => {},
            Ok(ps) => {
                lemma_visit_parent_inv(graph, roots, st1, ps[0], false);
                lemma_visit_parent_inv(graph, roots, mark_both(st1, ps[0]), ps[1], false);
            },
        }
    } else if st.revs.contains(curr) {
        let st1 = MissingState {
            revs: st.revs.remove(curr),
            missing: st.missing.push(curr),
            ..st
        };
        match graph.spec_parents(curr) {
            Err(e) => {},
            Ok(ps) => {
                lemma_parent_is_ancestor(graph, i32::MIN, roots, true, curr, ps[0]);
                lemma_parent_is_ancestor(graph, i32::MIN, roots, true, curr, ps[1]);
                lemma_visit_parent_inv(graph, roots, st1, ps[0], true);
                lemma_visit_parent_inv(graph, roots, visit_parent(st1, ps[0], true), ps[1], true);
            },
        }
    } else if st.bases.contains(curr) {
        match graph.spec_parents(curr) {
            Err(e) => {},
            Ok(ps) => {
                lemma_visit_parent_inv(graph, roots, st, ps[0], false);
                lemma_visit_parent_inv(graph, roots, visit_parent(st, ps[0], false), ps[1], false);
            },
        }
    }
}

/// The walk keeps what holds of it, and finds the missing ancestors from
/// the largest down.
pub proof fn lemma_missing_walk_inv<G: Graph>(
    graph: &G,
    roots: Set<Revision>,
    st: MissingState,
    curr: int,
)
    requires
        missing_inv(graph, roots, st),
        descending_above(st.missing, curr),
        curr >= -1 || st.missing.len() == 0,
    ensures
        missing_walk(graph, st, curr) matches Ok(end) ==> missing_inv(graph, roots, end)
            && descending_above(end.missing, -1),
    decreases curr + 1,
{
    if curr < 0 || curr > i32::MAX || st.revs.is_empty() {
    } else {
        lemma_missing_step_inv(graph, roots, st, curr as Revision);
        match missing_step(graph, st, curr as Revision) {
            Err(e) => {},
            Ok(next) => {
                lemma_missing_walk_inv(graph, roots, next, curr - 1);
            },
        }
    }
}

/// The missing ancestors that `missing_ancestors` returns are in ascending
/// order, none twice, and each is one of the revisions that are no bases,
/// or an ancestor of one.
pub proof fn lemma_missing_ancestors_ascending<G: Graph>(
    graph: &G,
    bases: Set<Revision>,
    revs: Seq<Revision>,
)
    ensures
        missing_ancestors_of(graph, bases, revs).0 matches Ok(missing) ==> {
            &&& forall|i: int, j: int| 0 <= i < j < missing.len() ==> missing[i] < missing[j]
            &&& forall|i: int|
                0 <= i < missing.len() ==> in_history(
                    graph,
                    revs.to_set().difference(bases),
                    #[trigger] missing[i],
                )
        },
{
    let roots = revs.to_set().difference(bases);
    if !roots.is_empty() {
        let max_bases = crate::ancestors::max_or_null(bases);
        let max_revs = crate::ancestors::max_or_null(roots);
        let start = if max_bases >= max_revs {
            max_bases
        } else {
            max_revs
        };
        let st = MissingState { revs: roots, bases, both: Set::empty(), missing: Seq::empty() };
        assert forall|r: Revision| #[trigger] roots.contains(r) implies in_history(
            graph,
            roots,
            r,
        ) by {
            lemma_root_in_history(graph, roots, r);
        }
        lemma_missing_walk_inv(graph, roots, st, start as int);
        match missing_walk(graph, st, start as int) {
            Ok(end) => {
                let missing = end.missing.reverse();
                assert forall|i: int, j: int| 0 <= i < j < missing.len() implies missing[i]
                    < missing[j] by {
                    assert(missing[i] == end.missing[end.missing.len() - 1 - i]);
                    assert(missing[j] == end.missing[end.missing.len() - 1 - j]);
                }
                assert forall|i: int| 0 <= i < missing.len() implies in_history(
                    graph,
                    roots,
                    #[trigger] missing[i],
                ) by {
                    assert(missing[i] == end.missing[end.missing.len() - 1 - i]);
                }
            },
            Err(e) => {},
        }
    }
}

} // verus!
