//! Walks over the ancestors of revisions in a revision graph.

use crate::{Graph, GraphError, NULL_REVISION, Revision};
use std::collections::HashSet;
use vstd::prelude::*;

pub mod difference;
pub mod missing;
pub mod reach;

verus! {

broadcast use vstd::std_specs::hash::group_hash_axioms;

/// Revisions in ascending order.
pub open spec fn sorted(s: Seq<Revision>) -> bool {
    forall|i: int, j: int| 0 <= i <= j < s.len() ==> s[i] <= s[j]
}

/// `s` with `x` put behind the last element that is not larger.
pub open spec fn insert_sorted(s: Seq<Revision>, x: Revision) -> Seq<Revision>
    decreases s.len(),
{
    if s.len() == 0 {
        seq![x]
    } else if s.last() <= x {
        s.push(x)
    } else {
        insert_sorted(s.drop_last(), x).push(s.last())
    }
}

/// Putting an element in keeps every element under a bound that held
/// before and holds for the new element.
pub proof fn lemma_insert_sorted_bound(s: Seq<Revision>, x: Revision, bound: Revision)
    requires
        forall|i: int| 0 <= i < s.len() ==> s[i] <= bound,
        x <= bound,
    ensures
        insert_sorted(s, x).len() == s.len() + 1,
        forall|i: int| 0 <= i < insert_sorted(s, x).len() ==> insert_sorted(s, x)[i] <= bound,
    decreases s.len(),
{
    if s.len() > 0 && s.last() > x {
        let t = s.drop_last();
        assert forall|i: int| 0 <= i < t.len() implies t[i] <= bound by {
            assert(t[i] == s[i]);
        }
        lemma_insert_sorted_bound(t, x, bound);
        assert(s[s.len() - 1] <= bound);
    }
}

/// Putting an element into revisions in ascending order leaves them in
/// ascending order.
pub proof fn lemma_insert_sorted(s: Seq<Revision>, x: Revision)
    requires
        sorted(s),
    ensures
        sorted(insert_sorted(s, x)),
        insert_sorted(s, x).len() == s.len() + 1,
    decreases s.len(),
{
    let r = insert_sorted(s, x);
    if s.len() == 0 {
    } else if s.last() <= x {
        assert forall|i: int, j: int| 0 <= i <= j < r.len() implies r[i] <= r[j] by {
            if j == r.len() - 1 && i < j {
                assert(s[i] <= s[s.len() - 1]);
            }
        }
    } else {
        let t = s.drop_last();
        assert forall|i: int, j: int| 0 <= i <= j < t.len() implies t[i] <= t[j] by {
            assert(t[i] == s[i]);
            assert(t[j] == s[j]);
        }
        assert forall|i: int| 0 <= i < t.len() implies t[i] <= s.last() by {
            assert(t[i] == s[i]);
            assert(s[i] <= s[s.len() - 1]);
        }
        lemma_insert_sorted(t, x);
        lemma_insert_sorted_bound(t, x, s.last());
    }
}

/// Puts `x` into a sorted vector, behind the last element that is not
/// larger.
pub fn push_sorted(v: &mut Vec<Revision>, x: Revision)
    requires
        sorted(old(v)@),
    ensures
        final(v)@ == insert_sorted(old(v)@, x),
        sorted(final(v)@),
{
    let mut i: usize = v.len();
    let ghost tail = Seq::<Revision>::empty();
    proof {
        assert(v@.subrange(0, i as int) =~= v@);
        assert(insert_sorted(v@, x) + tail =~= insert_sorted(v@, x));
    }
    while i > 0 && v[i - 1] > x
        invariant
            i <= v.len(),
            v@ == old(v)@,
            sorted(v@),
            tail == v@.subrange(i as int, v@.len() as int),
            insert_sorted(v@, x) == insert_sorted(v@.subrange(0, i as int), x) + tail,
        decreases i,
    {
        proof {
            let s = v@.subrange(0, i as int);
            assert(s.last() == v@[i - 1]);
            assert(s.drop_last() =~= v@.subrange(0, i - 1));
            assert(insert_sorted(s, x) == insert_sorted(s.drop_last(), x).push(s.last()));
            tail = seq![v@[i - 1]] + tail;
            assert(tail =~= v@.subrange(i - 1, v@.len() as int));
            assert(insert_sorted(v@, x) =~= insert_sorted(v@.subrange(0, i - 1), x) + tail);
        }
        i -= 1;
    }
    proof {
        let s = v@.subrange(0, i as int);
        if i == 0 {
            assert(s =~= Seq::<Revision>::empty());
        } else {
            assert(s.last() == v@[i - 1]);
        }
        assert(insert_sorted(s, x) =~= s.push(x));
        assert(v@.insert(i as int, x) =~= s.push(x) + tail);
        lemma_insert_sorted(v@, x);
    }
    v.insert(i, x);
}

/// What an ancestors walk has yet to visit, and what it has come across.
pub struct WalkState {
    /// Revisions to visit, in ascending order: the last is visited next.
    pub visit: Seq<Revision>,
    pub seen: Set<Revision>,
}

/// The state once `rev` has been come across: a revision that is new and
/// not below `stoprev` is marked as seen and queued.
pub open spec fn push_if_new(st: WalkState, stoprev: Revision, rev: Revision) -> WalkState {
    if stoprev <= rev && !st.seen.contains(rev) {
        WalkState { visit: insert_sorted(st.visit, rev), seen: st.seen.insert(rev) }
    } else {
        st
    }
}

/// The state once the largest queued revision has been visited, `p1` and
/// `p2` being its parents.
pub open spec fn step(st: WalkState, stoprev: Revision, p1: Revision, p2: Revision) -> WalkState {
    let rest = WalkState { visit: st.visit.drop_last(), seen: st.seen };
    push_if_new(push_if_new(rest, stoprev, p1), stoprev, p2)
}

/// The state of a walk that does not emit its initial revisions, once the
/// parents of the first `k` of them have been queued; or the error of the
/// first of them that the graph does not know.
pub open spec fn queue_parents<G: Graph>(
    graph: &G,
    initrevs: Seq<Revision>,
    stoprev: Revision,
    k: nat,
) -> Result<WalkState, GraphError>
    decreases k,
{
    if k == 0 || k > initrevs.len() {
        Ok(WalkState { visit: Seq::empty(), seen: Set::empty().insert(NULL_REVISION) })
    } else {
        match queue_parents(graph, initrevs, stoprev, (k - 1) as nat) {
            Err(e) => Err(e),
            Ok(st) => {
                let rev = initrevs[k - 1];
                if rev >= stoprev {
                    match graph.spec_parents(rev) {
                        Err(e) => Err(e),
                        Ok(ps) => Ok(push_if_new(push_if_new(st, stoprev, ps[0]), stoprev, ps[1])),
                    }
                } else {
                    Ok(st)
                }
            },
        }
    }
}

/// The state of a walk that emits its initial revisions, once the first `k`
/// of them have been queued.
pub open spec fn queue_initial(initrevs: Seq<Revision>, stoprev: Revision, k: nat) -> WalkState
    decreases k,
{
    if k == 0 || k > initrevs.len() {
        WalkState { visit: Seq::empty(), seen: Set::empty() }
    } else {
        let st = queue_initial(initrevs, stoprev, (k - 1) as nat);
        let rev = initrevs[k - 1];
        if rev >= stoprev {
            WalkState { visit: insert_sorted(st.visit, rev), seen: st.seen.insert(rev) }
        } else {
            st
        }
    }
}

/// The revisions not below `stoprev` that a walk has not come across.
pub open spec fn unseen(seen: Set<Revision>, stoprev: Revision) -> Set<int> {
    Set::new(|r: int| stoprev <= r <= i32::MAX && !seen.contains(r as i32))
}

/// What bounds the rest of a walk: every visit takes a revision from the
/// queue, and puts there only revisions that it has not come across.
pub open spec fn walk_measure(st: WalkState, stoprev: Revision) -> nat {
    2 * unseen(st.seen, stoprev).len() + st.visit.len()
}

/// There are finitely many revisions that a walk has not come across.
pub proof fn lemma_unseen_finite(seen: Set<Revision>, stoprev: Revision)
    ensures
        unseen(seen, stoprev).finite(),
{
    vstd::set_lib::lemma_int_range(stoprev as int, i32::MAX + 1);
    let all = vstd::set_lib::set_int_range(stoprev as int, i32::MAX + 1);
    assert(unseen(seen, stoprev).subset_of(all));
    vstd::set_lib::lemma_len_subset(unseen(seen, stoprev), all);
}

/// Coming across a revision brings the walk no further from its end, and
/// keeps the queue in order.
pub proof fn lemma_push_if_new_measure(st: WalkState, stoprev: Revision, rev: Revision)
    requires
        sorted(st.visit),
    ensures
        walk_measure(push_if_new(st, stoprev, rev), stoprev) <= walk_measure(st, stoprev),
        sorted(push_if_new(st, stoprev, rev).visit),
{
    lemma_unseen_finite(st.seen, stoprev);
    if stoprev <= rev && !st.seen.contains(rev) {
        lemma_insert_sorted(st.visit, rev);
        assert(unseen(st.seen.insert(rev), stoprev) =~= unseen(st.seen, stoprev).remove(
            rev as int,
        ));
        assert(unseen(st.seen, stoprev).contains(rev as int));
    }
}

/// Every visit brings the walk closer to its end.
pub proof fn lemma_step_measure(st: WalkState, stoprev: Revision, p1: Revision, p2: Revision)
    requires
        sorted(st.visit),
        st.visit.len() > 0,
    ensures
        walk_measure(step(st, stoprev, p1, p2), stoprev) < walk_measure(st, stoprev),
        sorted(step(st, stoprev, p1, p2).visit),
{
    let rest = WalkState { visit: st.visit.drop_last(), seen: st.seen };
    assert forall|i: int, j: int| 0 <= i <= j < rest.visit.len() implies rest.visit[i]
        <= rest.visit[j] by {
        assert(rest.visit[i] == st.visit[i]);
        assert(rest.visit[j] == st.visit[j]);
    }
    lemma_push_if_new_measure(rest, stoprev, p1);
    lemma_push_if_new_measure(push_if_new(rest, stoprev, p1), stoprev, p2);
}

/// What `contains` finds, and the state in which it leaves the walk: it
/// visits revisions until it has visited `target`, or one below `target`,
/// or all, or until the graph fails.
pub open spec fn search_walk<G: Graph>(
    graph: &G,
    st: WalkState,
    stoprev: Revision,
    target: Revision,
) -> (Result<bool, GraphError>, WalkState)
    decreases walk_measure(st, stoprev),
    when sorted(st.visit)
    via search_walk_decreases::<G>
{
    if st.visit.len() == 0 {
        (Ok(false), st)
    } else {
        let current = st.visit.last();
        match graph.spec_parents(current) {
            Err(e) => (Err(e), st),
            Ok(ps) => {
                let next = step(st, stoprev, ps[0], ps[1]);
                if current == target {
                    (Ok(true), next)
                } else if current < target {
                    (Ok(false), next)
                } else {
                    search_walk(graph, next, stoprev, target)
                }
            },
        }
    }
}

#[via_fn]
proof fn search_walk_decreases<G: Graph>(
    graph: &G,
    st: WalkState,
    stoprev: Revision,
    target: Revision,
) {
    if st.visit.len() > 0 {
        let current = st.visit.last();
        match graph.spec_parents(current) {
            Err(e) => {},
            Ok(ps) => {
                lemma_step_measure(st, stoprev, ps[0], ps[1]);
            },
        }
    }
}

/// Iterator over the ancestors of a given list of revisions, from the
/// largest revision number down.
pub struct AncestorsIterator<G: Graph> {
    pub graph: G,
    /// Revisions to visit, in ascending order.
    pub visit: Vec<Revision>,
    pub seen: HashSet<Revision>,
    pub stoprev: Revision,
}

impl<G: Graph> AncestorsIterator<G> {
    /// What the walk has yet to visit, and what it has come across.
    pub open spec fn state(&self) -> WalkState {
        WalkState { visit: self.visit@, seen: self.seen@ }
    }

    /// The queue is in ascending order.
    pub open spec fn wf(&self) -> bool {
        sorted(self.visit@)
    }

    /// A walk over the ancestors of `initrevs` that does not go below
    /// `stoprev`. With `inclusive` the initial revisions are emitted too;
    /// without it the walk begins at their parents, and fails where the
    /// graph does not know one of the initial revisions.
    pub fn new(graph: G, initrevs: Vec<Revision>, stoprev: Revision, inclusive: bool) -> (r: Result<
        Self,
        GraphError,
    >)
        ensures
            inclusive ==> r is Ok && r.unwrap().state() == queue_initial(
                initrevs@,
                stoprev,
                initrevs@.len(),
            ),
            !inclusive ==> match queue_parents(&graph, initrevs@, stoprev, initrevs@.len()) {
                Ok(st) => r is Ok && r.unwrap().state() == st,
                Err(e) => r == Err::<Self, GraphError>(e),
            },
            r matches Ok(it) ==> it.wf() && it.graph == graph && it.stoprev == stoprev,
    {
        let mut this = AncestorsIterator {
            visit: Vec::new(),
            seen: HashSet::new(),
            stoprev: stoprev,
            graph: graph,
        };
        if inclusive {
            let mut i: usize = 0;
            while i < initrevs.len()
                invariant
                    i <= initrevs.len(),
                    inclusive,
                    this.wf(),
                    this.stoprev == stoprev,
                    this.graph == graph,
                    this.state() == queue_initial(initrevs@, stoprev, i as nat),
                decreases initrevs.len() - i,
            {
                let rev = initrevs[i];
                if rev >= stoprev {
                    push_sorted(&mut this.visit, rev);
                    this.seen.insert(rev);
                }
                i += 1;
            }
            return Ok(this);
        }
        this.seen.insert(NULL_REVISION);
        let mut i: usize = 0;
        while i < initrevs.len()
            invariant
                i <= initrevs.len(),
                !inclusive,
                this.wf(),
                this.stoprev == stoprev,
                this.graph == graph,
                Ok::<WalkState, GraphError>(this.state()) == queue_parents(
                    &graph,
                    initrevs@,
                    stoprev,
                    i as nat,
                ),
            decreases initrevs.len() - i,
        {
            let rev = initrevs[i];
            if rev >= stoprev {
                match this.graph.parents(rev) {
                    Ok(ps) => {
                        this.conditionally_push_rev(ps[0]);
                        this.conditionally_push_rev(ps[1]);
                    },
                    Err(e) => {
                        proof {
                            lemma_queue_parents_error(&graph, initrevs@, stoprev, i as nat + 1);
                        }
                        return Err(e);
                    },
                }
            }
            i += 1;
        }
        Ok(this)
    }

    /// Queues `rev` unless it lies below the stop revision or the walk has
    /// come across it before.
    pub fn conditionally_push_rev(&mut self, rev: Revision)
        requires
            old(self).wf(),
        ensures
            final(self).wf(),
            final(self).state() == push_if_new(old(self).state(), old(self).stoprev, rev),
            final(self).stoprev == old(self).stoprev,
            final(self).graph == old(self).graph,
    {
        if self.stoprev <= rev && !self.seen.contains(&rev) {
            self.seen.insert(rev);
            push_sorted(&mut self.visit, rev);
        }
    }

    /// Visits revisions until it is known whether the walk emits `target`,
    /// and says so. A revision that the walk has come across already is
    /// known to be emitted.
    pub fn contains(&mut self, target: Revision) -> (r: Result<bool, GraphError>)
        requires
            old(self).wf(),
        ensures
            final(self).wf(),
            final(self).stoprev == old(self).stoprev,
            final(self).graph == old(self).graph,
            old(self).seen@.contains(target) && target != NULL_REVISION ==> r == Ok::<
                bool,
                GraphError,
            >(true) && final(self).state() == old(self).state(),
            !(old(self).seen@.contains(target) && target != NULL_REVISION) ==> (
            r,
            final(self).state(),
        ) == search_walk(&old(self).graph, old(self).state(), old(self).stoprev, target),
    {
        if self.seen.contains(&target) && target != NULL_REVISION {
            return Ok(true);
        }
        loop
            invariant
                old(self).wf(),
                !(old(self).seen@.contains(target) && target != NULL_REVISION),
                self.wf(),
                self.stoprev == old(self).stoprev,
                self.graph == old(self).graph,
                search_walk(&old(self).graph, old(self).state(), old(self).stoprev, target)
                    == search_walk(&self.graph, self.state(), self.stoprev, target),
            decreases walk_measure(self.state(), self.stoprev),
        {
            let ghost before = self.state();
            match self.next() {
                None => {
                    return Ok(false);
                },
                Some(Err(e)) => {
                    return Err(e);
                },
                Some(Ok(rev)) => {
                    proof {
                        let ps = self.graph.spec_parents(rev).unwrap();
                        lemma_step_measure(before, self.stoprev, ps[0], ps[1]);
                    }
                    if rev == target {
                        return Ok(true);
                    }
                    if rev < target {
                        return Ok(false);
                    }
                },
            }
        }
    }

    /// The revision that the walk emits next, if any.
    pub fn peek(&self) -> (r: Option<Revision>)
        ensures
            r == (if self.visit@.len() == 0 {
                None
            } else {
                Some(self.visit@.last())
            }),
    {
        if self.visit.len() == 0 {
            None
        } else {
            Some(self.visit[self.visit.len() - 1])
        }
    }

    /// Whether the walk is over an empty set: it has nothing to visit and
    /// has come across nothing but, at most, the null revision.
    pub fn is_empty(&self) -> (r: bool)
        ensures
            r == (self.visit@.len() == 0 && self.seen@.len() <= 1 && (self.seen@.is_empty()
                || self.seen@.contains(NULL_REVISION))),
    {
        if self.visit.len() > 0 {
            return false;
        }
        if self.seen.len() > 1 {
            return false;
        }
        self.seen.is_empty() || self.seen.contains(&NULL_REVISION)
    }

    /// Emits the largest queued revision and queues its parents; or the
    /// error of the graph, and nothing changes; or nothing, where the walk
    /// is at its end.
    pub fn next(&mut self) -> (r: Option<Result<Revision, GraphError>>)
        requires
            old(self).wf(),
        ensures
            final(self).wf(),
            final(self).stoprev == old(self).stoprev,
            final(self).graph == old(self).graph,
            old(self).visit@.len() == 0 ==> r is None && final(self).state() == old(self).state(),
            old(self).visit@.len() > 0 ==> match old(self).graph.spec_parents(
                old(self).visit@.last(),
            ) {
                Err(e) => r == Some(Err::<Revision, GraphError>(e)) && final(self).state() == old(self).state(),
                Ok(ps) => r == Some(Ok::<Revision, GraphError>(old(self).visit@.last())) && final(self).state() == step(old(self).state(), old(self).stoprev, ps[0], ps[1]),
            },
    {
        if self.visit.len() == 0 {
            return None;
        }
        let current = self.visit[self.visit.len() - 1];
        let ps = match self.graph.parents(current) {
            Ok(ps) => ps,
            Err(e) => {
                return Some(Err(e));
            },
        };
        let p1 = ps[0];
        let p2 = ps[1];
        proof {
            lemma_step_measure(self.state(), self.stoprev, p1, p2);
        }
        self.visit.pop();
        proof {
            assert(self.visit@ =~= old(self).visit@.drop_last());
            assert forall|i: int, j: int| 0 <= i <= j < self.visit@.len() implies self.visit@[i]
                <= self.visit@[j] by {
                assert(self.visit@[i] == old(self).visit@[i]);
                assert(self.visit@[j] == old(self).visit@[j]);
            }
        }
        self.conditionally_push_rev(p1);
        self.conditionally_push_rev(p2);
        Some(Ok(current))
    }
}

/// An error met while queueing is the result, whatever follows.
pub proof fn lemma_queue_parents_error<G: Graph>(
    graph: &G,
    initrevs: Seq<Revision>,
    stoprev: Revision,
    k: nat,
)
    requires
        k <= initrevs.len(),
        queue_parents(graph, initrevs, stoprev, k) is Err,
    ensures
        queue_parents(graph, initrevs, stoprev, initrevs.len()) == queue_parents(
            graph,
            initrevs,
            stoprev,
            k,
        ),
    decreases initrevs.len() - k,
{
    if k < initrevs.len() {
        lemma_queue_parents_error(graph, initrevs, stoprev, k + 1);
    }
}

/// The revisions of a set, each once, in no order in particular.
pub fn revisions_of(s: &HashSet<Revision>) -> (v: Vec<Revision>)
    ensures
        v@.to_set() == s@,
        v@.no_duplicates(),
        v@.len() == s@.len(),
{
    let mut v: Vec<Revision> = Vec::new();
    for x in it: s.iter()
        invariant
            v@.len() == it.index(),
            forall|j: int| 0 <= j < v@.len() ==> v@[j] == *it.seq()[j],
            it.seq().unref().to_set() == s@,
            it.seq().len() == s@.len(),
            it.seq().no_duplicates(),
            it.index() == it.seq().len() ==> v@ =~= it.seq().unref(),
    {
        v.push(*x);
    }
    v
}

/// Walks of a graph and of a reference to it begin alike.
pub proof fn lemma_queue_parents_of_reference<G: Graph>(
    graph: &G,
    initrevs: Seq<Revision>,
    stoprev: Revision,
    k: nat,
)
    ensures
        queue_parents(&graph, initrevs, stoprev, k) == queue_parents(graph, initrevs, stoprev, k),
    decreases k,
{
    if !(k == 0 || k > initrevs.len()) {
        lemma_queue_parents_of_reference(graph, initrevs, stoprev, (k - 1) as nat);
    }
}

/// Lazy ancestors set, backed by an ancestors walk that is advanced only as
/// far as the questions asked of the set require.
pub struct LazyAncestors<G: Graph> {
    pub containsiter: AncestorsIterator<G>,
    pub initrevs: Vec<Revision>,
    pub stoprev: Revision,
    pub inclusive: bool,
}

impl<G: Graph> LazyAncestors<G> {
    /// The graph of the set.
    pub open spec fn graph(&self) -> G {
        self.containsiter.graph
    }

    /// The walk inside is well formed and was made with the arguments kept
    /// beside it, and a walk with these arguments can be set up.
    pub open spec fn wf(&self) -> bool {
        &&& self.containsiter.wf()
        &&& self.containsiter.stoprev == self.stoprev
        &&& !self.inclusive ==> queue_parents(
            &self.containsiter.graph,
            self.initrevs@,
            self.stoprev,
            self.initrevs@.len(),
        ) is Ok
    }

    /// The state in which every walk over the set begins.
    pub open spec fn first_state(&self) -> WalkState {
        if self.inclusive {
            queue_initial(self.initrevs@, self.stoprev, self.initrevs@.len())
        } else {
            queue_parents(
                &self.containsiter.graph,
                self.initrevs@,
                self.stoprev,
                self.initrevs@.len(),
            )->Ok_0
        }
    }

    /// The set of the ancestors of `initrevs` that are not below `stoprev`,
    /// with the initial revisions themselves where `inclusive` is set.
    /// Fails where the walk over them cannot be set up.
    pub fn new(graph: G, initrevs: Vec<Revision>, stoprev: Revision, inclusive: bool) -> (r: Result<
        Self,
        GraphError,
    >)
        ensures
            inclusive ==> r is Ok,
            !inclusive ==> (r is Ok <==> queue_parents(&graph, initrevs@, stoprev, initrevs@.len())
                is Ok),
            !inclusive ==> (r matches Err(e) ==> queue_parents(
                &graph,
                initrevs@,
                stoprev,
                initrevs@.len(),
            ) == Err::<WalkState, GraphError>(e)),
            r matches Ok(lazy) ==> {
                &&& lazy.wf()
                &&& lazy.initrevs@ == initrevs@
                &&& lazy.stoprev == stoprev
                &&& lazy.inclusive == inclusive
                &&& lazy.containsiter.graph == graph
                &&& lazy.containsiter.state() == lazy.first_state()
            },
    {
        let revs = copy_revisions(&initrevs);
        match AncestorsIterator::new(graph, revs, stoprev, inclusive) {
            Ok(containsiter) => Ok(LazyAncestors { containsiter, initrevs, stoprev, inclusive }),
            Err(e) => Err(e),
        }
    }

    /// Whether `rev` is in the set. Advances the walk inside as far as it
    /// takes to know.
    pub fn contains(&mut self, rev: Revision) -> (r: Result<bool, GraphError>)
        requires
            old(self).wf(),
        ensures
            final(self).wf(),
            final(self).initrevs == old(self).initrevs,
            final(self).stoprev == old(self).stoprev,
            final(self).inclusive == old(self).inclusive,
            final(self).containsiter.graph == old(self).containsiter.graph,
            old(self).containsiter.seen@.contains(rev) && rev != NULL_REVISION ==> r == Ok::<
                bool,
                GraphError,
            >(true) && final(self).containsiter.state() == old(self).containsiter.state(),
            !(old(self).containsiter.seen@.contains(rev) && rev != NULL_REVISION) ==> (
            r,
            final(self).containsiter.state(),
        ) == search_walk(
                &old(self).containsiter.graph,
                old(self).containsiter.state(),
                old(self).stoprev,
                rev,
            ),
    {
        self.containsiter.contains(rev)
    }

    /// Whether the set is empty.
    pub fn is_empty(&self) -> (r: bool)
        ensures
            r == (self.containsiter.visit@.len() == 0 && self.containsiter.seen@.len() <= 1 && (
            self.containsiter.seen@.is_empty() || self.containsiter.seen@.contains(NULL_REVISION))),
    {
        self.containsiter.is_empty()
    }

    /// A fresh walk over the set, on the graph of the set: it begins where
    /// the walk inside began, whatever has been asked of the set since.
    pub fn iter(&self) -> (it: AncestorsIterator<&G>)
        requires
            self.wf(),
        ensures
            it.wf(),
            it.graph == &self.containsiter.graph,
            it.stoprev == self.stoprev,
            it.state() == self.first_state(),
    {
        proof {
            lemma_queue_parents_of_reference(
                &self.containsiter.graph,
                self.initrevs@,
                self.stoprev,
                self.initrevs@.len(),
            );
        }
        match AncestorsIterator::new(
            &self.containsiter.graph,
            copy_revisions(&self.initrevs),
            self.stoprev,
            self.inclusive,
        ) {
            Ok(it) => it,
            Err(_) => vstd::pervasive::unreached(),
        }
    }
}

/// A copy of a list of revisions.
pub fn copy_revisions(v: &Vec<Revision>) -> (r: Vec<Revision>)
    ensures
        r@ == v@,
{
    let mut out: Vec<Revision> = Vec::new();
    let mut i: usize = 0;
    while i < v.len()
        invariant
            i <= v.len(),
            out@ == v@.subrange(0, i as int),
        decreases v.len() - i,
    {
        out.push(v[i]);
        proof {
            assert(v@.subrange(0, i + 1) =~= v@.subrange(0, i as int).push(v@[i as int]));
        }
        i += 1;
    }
    proof {
        assert(v@.subrange(0, i as int) =~= v@);
    }
    out
}

/// `m` is the largest element of `s`.
pub open spec fn is_max_of(s: Set<Revision>, m: Revision) -> bool {
    s.contains(m) && forall|x: Revision| s.contains(x) ==> x <= m
}

/// The largest element of a set that has one.
pub open spec fn max_of(s: Set<Revision>) -> Revision {
    choose|m: Revision| is_max_of(s, m)
}

/// The largest revision of a set, or nothing where the set is empty.
pub fn largest(s: &HashSet<Revision>) -> (r: Option<Revision>)
    ensures
        r is None <==> s@.is_empty(),
        r matches Some(m) ==> is_max_of(s@, m) && m == max_of(s@),
{
    let v = revisions_of(s);
    if v.len() == 0 {
        proof {
            assert forall|x: Revision| !s@.contains(x) by {
                if s@.contains(x) {
                    assert(v@.to_set().contains(x));
                    assert(v@.contains(x));
                }
            }
            assert(s@ =~= Set::<Revision>::empty());
        }
        return None;
    }
    let mut m = v[0];
    let mut i: usize = 1;
    while i < v.len()
        invariant
            1 <= i <= v.len(),
            exists|k: int| 0 <= k < i && v@[k] == m,
            forall|k: int| 0 <= k < i ==> v@[k] <= m,
        decreases v.len() - i,
    {
        if v[i] > m {
            m = v[i];
        }
        i += 1;
    }
    proof {
        let k = choose|k: int| 0 <= k < i && v@[k] == m;
        assert(v@.contains(m));
        assert(v@.to_set().contains(m));
        assert forall|x: Revision| s@.contains(x) implies x <= m by {
            assert(v@.to_set().contains(x));
            assert(v@.contains(x));
            let j = choose|j: int| 0 <= j < v@.len() && v@[j] == x;
            assert(v@[j] <= m);
        }
        assert(is_max_of(s@, m));
        let c = max_of(s@);
        assert(is_max_of(s@, c));
    }
    Some(m)
}

/// What is known of the ancestors of a set of bases.
pub struct MissingAncestors<G: Graph> {
    pub graph: G,
    pub bases: HashSet<Revision>,
}

/// The bases with those of the two parents that are revisions.
pub open spec fn with_parents(bases: Set<Revision>, ps: [Revision; 2]) -> Set<Revision> {
    let one = if ps[0] != NULL_REVISION {
        bases.insert(ps[0])
    } else {
        bases
    };
    if ps[1] != NULL_REVISION {
        one.insert(ps[1])
    } else {
        one
    }
}

/// What `remove_ancestors_from` does from `curr` downwards: every base met
/// leaves `revs` and hands its parents to the bases, until the null
/// revision is reached or no more than `keepcount` revisions are left.
pub open spec fn remove_walk<G: Graph>(
    graph: &G,
    bases: Set<Revision>,
    revs: Set<Revision>,
    curr: Revision,
    keepcount: nat,
) -> (Result<(), GraphError>, Set<Revision>, Set<Revision>)
    decreases curr + 1,
{
    if curr <= NULL_REVISION || revs.len() <= keepcount {
        (Ok(()), bases, revs)
    } else if bases.contains(curr) {
        match graph.spec_parents(curr) {
            Err(e) => (Err(e), bases, revs.remove(curr)),
            Ok(ps) => remove_walk(
                graph,
                with_parents(bases, ps),
                revs.remove(curr),
                (curr - 1) as Revision,
                keepcount,
            ),
        }
    } else {
        remove_walk(graph, bases, revs, (curr - 1) as Revision, keepcount)
    }
}

/// What `remove_ancestors_from` leaves: the result, the bases and the
/// revisions.
pub open spec fn remove_ancestors<G: Graph>(graph: &G, bases: Set<Revision>, revs: Set<Revision>) -> (
    Result<(), GraphError>,
    Set<Revision>,
    Set<Revision>,
) {
    let left = revs.difference(bases).remove(NULL_REVISION);
    if left.is_empty() || bases.is_empty() {
        (Ok(()), bases, left)
    } else {
        let start = max_of(bases);
        let keepcount = left.filter(|r: Revision| r > start).len();
        remove_walk(graph, bases, left, start, keepcount)
    }
}

impl<G: Graph> MissingAncestors<G> {
    /// No base lies below the null revision.
    pub open spec fn wf(&self) -> bool {
        forall|b: Revision| self.bases@.contains(b) ==> b >= NULL_REVISION
    }

    /// The ancestors of `bases` are taken as known. Without bases the null
    /// revision is the one base.
    pub fn new(graph: G, bases: Vec<Revision>) -> (r: Self)
        requires
            forall|i: int| 0 <= i < bases@.len() ==> bases@[i] >= NULL_REVISION,
        ensures
            r.wf(),
            r.graph == graph,
            r.bases@ == (if bases@.len() == 0 {
                Set::<Revision>::empty().insert(NULL_REVISION)
            } else {
                bases@.to_set()
            }),
    {
        let mut set: HashSet<Revision> = HashSet::new();
        let mut i: usize = 0;
        while i < bases.len()
            invariant
                i <= bases.len(),
                set@ == bases@.subrange(0, i as int).to_set(),
            decreases bases.len() - i,
        {
            set.insert(bases[i]);
            proof {
                let a = bases@.subrange(0, i as int);
                let b = bases@.subrange(0, i + 1);
                assert(b =~= a.push(bases@[i as int]));
                assert forall|x: Revision| b.to_set().contains(x) <==> a.to_set().insert(
                    bases@[i as int],
                ).contains(x) by {
                    if b.contains(x) {
                        let k = choose|k: int| 0 <= k < b.len() && b[k] == x;
                        if k < a.len() {
                            assert(a[k] == x);
                            assert(a.contains(x));
                        }
                    }
                    if a.contains(x) {
                        let k = choose|k: int| 0 <= k < a.len() && a[k] == x;
                        assert(b[k] == x);
                    }
                    if x == bases@[i as int] {
                        assert(b[i as int] == x);
                    }
                }
                assert(set@ =~= b.to_set());
            }
            i += 1;
        }
        proof {
            assert(bases@.subrange(0, i as int) =~= bases@);
        }
        if bases.len() == 0 {
            proof {
                assert(bases@.to_set() =~= Set::<Revision>::empty());
            }
            set.insert(NULL_REVISION);
        }
        let r = MissingAncestors { graph, bases: set };
        proof {
            assert forall|b: Revision| r.bases@.contains(b) implies b >= NULL_REVISION by {
                if bases@.len() > 0 {
                    assert(bases@.contains(b));
                }
            }
        }
        r
    }

    /// Whether any base is a revision, not the null revision.
    pub fn has_bases(&self) -> (r: bool)
        ensures
            r == exists|b: Revision| self.bases@.contains(b) && b != NULL_REVISION,
    {
        let v = revisions_of(&self.bases);
        let mut i: usize = 0;
        while i < v.len()
            invariant
                i <= v.len(),
                v@.to_set() == self.bases@,
                forall|k: int| 0 <= k < i ==> v@[k] == NULL_REVISION,
            decreases v.len() - i,
        {
            if v[i] != NULL_REVISION {
                proof {
                    assert(v@.contains(v@[i as int]));
                    assert(v@.to_set().contains(v@[i as int]));
                }
                return true;
            }
            i += 1;
        }
        proof {
            assert forall|b: Revision| self.bases@.contains(b) implies b == NULL_REVISION by {
                assert(v@.to_set().contains(b));
                assert(v@.contains(b));
            }
        }
        false
    }

    /// The bases as they are now.
    pub fn get_bases(&self) -> (r: &HashSet<Revision>)
        ensures
            r@ == self.bases@,
    {
        &self.bases
    }

    /// Takes the ancestors of `new_bases` as known too.
    pub fn add_bases(&mut self, new_bases: Vec<Revision>)
        requires
            old(self).wf(),
            forall|i: int| 0 <= i < new_bases@.len() ==> new_bases@[i] >= NULL_REVISION,
        ensures
            final(self).wf(),
            final(self).graph == old(self).graph,
            final(self).bases@ == old(self).bases@.union(new_bases@.to_set()),
    {
        let mut i: usize = 0;
        while i < new_bases.len()
            invariant
                i <= new_bases.len(),
                self.graph == old(self).graph,
                self.bases@ == old(self).bases@.union(new_bases@.subrange(0, i as int).to_set()),
            decreases new_bases.len() - i,
        {
            self.bases.insert(new_bases[i]);
            proof {
                let a = new_bases@.subrange(0, i as int);
                let b = new_bases@.subrange(0, i + 1);
                assert(b =~= a.push(new_bases@[i as int]));
                assert forall|x: Revision| b.to_set().contains(x) <==> a.to_set().insert(
                    new_bases@[i as int],
                ).contains(x) by {
                    if b.contains(x) {
                        let k = choose|k: int| 0 <= k < b.len() && b[k] == x;
                        if k < a.len() {
                            assert(a[k] == x);
                            assert(a.contains(x));
                        }
                    }
                    if a.contains(x) {
                        let k = choose|k: int| 0 <= k < a.len() && a[k] == x;
                        assert(b[k] == x);
                    }
                    if x == new_bases@[i as int] {
                        assert(b[i as int] == x);
                    }
                }
                assert(self.bases@ =~= old(self).bases@.union(b.to_set()));
            }
            i += 1;
        }
        proof {
            assert(new_bases@.subrange(0, i as int) =~= new_bases@);
            assert forall|b: Revision| self.bases@.contains(b) implies b >= NULL_REVISION by {
                if new_bases@.to_set().contains(b) {
                    assert(new_bases@.contains(b));
                }
            }
        }
    }

    /// Adds the parents of `rev` to the bases.
    pub fn add_parents(&mut self, rev: Revision) -> (r: Result<(), GraphError>)
        requires
            old(self).wf(),
        ensures
            final(self).wf(),
            final(self).graph == old(self).graph,
            match old(self).graph.spec_parents(rev) {
                Ok(ps) => r is Ok && final(self).bases@ == with_parents(old(self).bases@, ps),
                Err(e) => r == Err::<(), GraphError>(e) && final(self).bases@ == old(self).bases@,
            },
    {
        let ps = match self.graph.parents(rev) {
            Ok(ps) => ps,
            Err(e) => {
                return Err(e);
            },
        };
        if ps[0] != NULL_REVISION {
            self.bases.insert(ps[0]);
        }
        if ps[1] != NULL_REVISION {
            self.bases.insert(ps[1]);
        }
        Ok(())
    }

    /// Removes from `revs` the ancestors of the bases, the bases themselves
    /// and the null revision among them. The bases take up the parents of
    /// the bases that are met on the way.
    pub fn remove_ancestors_from(&mut self, revs: &mut HashSet<Revision>) -> (r: Result<
        (),
        GraphError,
    >)
        requires
            old(self).wf(),
        ensures
            final(self).wf(),
            final(self).graph == old(self).graph,
            (r, final(self).bases@, final(revs)@) == remove_ancestors(
                &old(self).graph,
                old(self).bases@,
                old(revs)@,
            ),
    {
        let all = revisions_of(revs);
        let mut i: usize = 0;
        while i < all.len()
            invariant
                i <= all.len(),
                all@.to_set() == old(revs)@,
                *self == *old(self),
                forall|x: Revision|
                    revs@.contains(x) <==> (old(revs)@.contains(x) && !(self.bases@.contains(x)
                        && exists|k: int| 0 <= k < i && all@[k] == x)),
            decreases all.len() - i,
        {
            if self.bases.contains(&all[i]) {
                revs.remove(&all[i]);
            }
            i += 1;
        }
        revs.remove(&NULL_REVISION);
        let ghost left = old(revs)@.difference(self.bases@).remove(NULL_REVISION);
        proof {
            assert forall|x: Revision| revs@.contains(x) <==> left.contains(x) by {
                if old(revs)@.contains(x) {
                    assert(all@.to_set().contains(x));
                    assert(all@.contains(x));
                }
            }
            assert(revs@ =~= left);
        }
        if revs.is_empty() {
            return Ok(());
        }
        let start = match largest(&self.bases) {
            Some(m) => m,
            None => {
                return Ok(());
            },
        };
        let rest = revisions_of(revs);
        let mut above: HashSet<Revision> = HashSet::new();
        let mut j: usize = 0;
        while j < rest.len()
            invariant
                j <= rest.len(),
                rest@.to_set() == left,
                forall|x: Revision|
                    above@.contains(x) <==> (x > start && exists|k: int|
                        0 <= k < j && rest@[k] == x),
            decreases rest.len() - j,
        {
            if rest[j] > start {
                above.insert(rest[j]);
            }
            j += 1;
        }
        let keepcount = above.len();
        proof {
            let kept = left.filter(|r: Revision| r > start);
            assert forall|x: Revision| above@.contains(x) <==> kept.contains(x) by {
                if left.contains(x) {
                    assert(rest@.to_set().contains(x));
                    assert(rest@.contains(x));
                }
                if above@.contains(x) {
                    let k = choose|k: int| 0 <= k < j && rest@[k] == x;
                    assert(rest@.contains(x));
                    assert(rest@.to_set().contains(x));
                }
            }
            assert(above@ =~= kept);
        }
        let mut curr = start;
        while curr != NULL_REVISION && revs.len() > keepcount
            invariant
                curr >= NULL_REVISION,
                self.wf(),
                self.graph == old(self).graph,
                remove_ancestors(&old(self).graph, old(self).bases@, old(revs)@) == remove_walk(
                    &self.graph,
                    self.bases@,
                    revs@,
                    curr,
                    keepcount as nat,
                ),
            decreases curr + 1,
        {
            if self.bases.contains(&curr) {
                revs.remove(&curr);
                match self.add_parents(curr) {
                    Ok(()) => {},
                    Err(e) => {
                        return Err(e);
                    },
                }
            }
            curr -= 1;
        }
        Ok(())
    }
}

/// The sets that `missing_ancestors` walks with, and what it has found.
pub struct MissingState {
    /// Ancestors of the revisions alone, yet to be visited.
    pub revs: Set<Revision>,
    /// Ancestors of the bases, yet to be visited.
    pub bases: Set<Revision>,
    /// Ancestors of both.
    pub both: Set<Revision>,
    /// The missing ancestors found, largest first.
    pub missing: Seq<Revision>,
}

/// `p` is an ancestor of both the revisions and the bases.
pub open spec fn mark_both(st: MissingState, p: Revision) -> MissingState {
    if p == NULL_REVISION {
        st
    } else {
        MissingState {
            revs: st.revs.remove(p),
            bases: st.bases.insert(p),
            both: st.both.insert(p),
            missing: st.missing,
        }
    }
}

/// `p` is a parent of a revision visited on the side of the revisions
/// (`from_revs`) or of the bases: it joins that side, or both where the
/// other side knows it already.
pub open spec fn visit_parent(st: MissingState, p: Revision, from_revs: bool) -> MissingState {
    if p == NULL_REVISION {
        st
    } else {
        let in_other = if from_revs {
            st.bases.contains(p)
        } else {
            st.revs.contains(p)
        };
        if in_other || st.both.contains(p) {
            mark_both(st, p)
        } else if from_revs {
            MissingState { revs: st.revs.insert(p), ..st }
        } else {
            MissingState { bases: st.bases.insert(p), ..st }
        }
    }
}

/// The visit of `curr`: the state afterwards, or the error of the graph and
/// the state in which it was met.
pub open spec fn missing_step<G: Graph>(graph: &G, st: MissingState, curr: Revision) -> Result<
    MissingState,
    (GraphError, MissingState),
> {
    if st.both.contains(curr) {
        let st1 = MissingState { both: st.both.remove(curr), ..st };
        match graph.spec_parents(curr) {
            Err(e) => Err((e, st1)),
            Ok(ps) => Ok(mark_both(mark_both(st1, ps[0]), ps[1])),
        }
    } else if st.revs.contains(curr) {
        let st1 = MissingState {
            revs: st.revs.remove(curr),
            missing: st.missing.push(curr),
            ..st
        };
        match graph.spec_parents(curr) {
            Err(e) => Err((e, st1)),
            Ok(ps) => Ok(visit_parent(visit_parent(st1, ps[0], true), ps[1], true)),
        }
    } else if st.bases.contains(curr) {
        match graph.spec_parents(curr) {
            Err(e) => Err((e, st)),
            Ok(ps) => Ok(visit_parent(visit_parent(st, ps[0], false), ps[1], false)),
        }
    } else {
        Ok(st)
    }
}

/// The walk from `curr` down to revision 0, which ends early once no
/// revision is left to visit on the side of the revisions alone.
pub open spec fn missing_walk<G: Graph>(graph: &G, st: MissingState, curr: int) -> Result<
    MissingState,
    (GraphError, MissingState),
>
    decreases curr + 1,
{
    if curr < 0 || curr > i32::MAX || st.revs.is_empty() {
        Ok(st)
    } else {
        match missing_step(graph, st, curr as Revision) {
            Err(e) => Err(e),
            Ok(next) => missing_walk(graph, next, curr - 1),
        }
    }
}

/// The largest of a set, or the null revision for the empty set.
pub open spec fn max_or_null(s: Set<Revision>) -> Revision {
    if s.is_empty() {
        NULL_REVISION
    } else {
        max_of(s)
    }
}

/// What `missing_ancestors` returns and the bases that it leaves.
pub open spec fn missing_ancestors_of<G: Graph>(
    graph: &G,
    bases: Set<Revision>,
    revs: Seq<Revision>,
) -> (Result<Seq<Revision>, GraphError>, Set<Revision>) {
    let revs_visit = revs.to_set().difference(bases);
    if revs_visit.is_empty() {
        (Ok(Seq::empty()), bases)
    } else {
        let max_bases = max_or_null(bases);
        let max_revs = max_or_null(revs_visit);
        let start = if max_bases >= max_revs {
            max_bases
        } else {
            max_revs
        };
        let st = MissingState { revs: revs_visit, bases, both: Set::empty(), missing: Seq::empty() };
        match missing_walk(graph, st, start as int) {
            Ok(end) => (Ok(end.missing.reverse()), end.bases),
            Err(e) => (Err(e.0), e.1.bases),
        }
    }
}

/// The revisions in the opposite order.
pub fn reversed(v: &Vec<Revision>) -> (r: Vec<Revision>)
    ensures
        r@ == v@.reverse(),
{
    let mut out: Vec<Revision> = Vec::new();
    let mut i: usize = v.len();
    while i > 0
        invariant
            i <= v.len(),
            out@.len() == v.len() - i,
            forall|k: int| 0 <= k < out@.len() ==> out@[k] == v@[v@.len() - 1 - k],
        decreases i,
    {
        i -= 1;
        out.push(v[i]);
    }
    proof {
        assert(out@ =~= v@.reverse());
    }
    out
}

fn do_mark_both(
    revs: &mut HashSet<Revision>,
    bases: &mut HashSet<Revision>,
    both: &mut HashSet<Revision>,
    p: Revision,
    Ghost(missing): Ghost<Seq<Revision>>,
)
    ensures
        (MissingState { revs: final(revs)@, bases: final(bases)@, both: final(both)@, missing })
            == mark_both(
            MissingState { revs: old(revs)@, bases: old(bases)@, both: old(both)@, missing },
            p,
        ),
{
    if p != NULL_REVISION {
        revs.remove(&p);
        bases.insert(p);
        both.insert(p);
    }
}

fn do_visit_parent(
    revs: &mut HashSet<Revision>,
    bases: &mut HashSet<Revision>,
    both: &mut HashSet<Revision>,
    p: Revision,
    from_revs: bool,
    Ghost(missing): Ghost<Seq<Revision>>,
)
    ensures
        (MissingState { revs: final(revs)@, bases: final(bases)@, both: final(both)@, missing })
            == visit_parent(
            MissingState { revs: old(revs)@, bases: old(bases)@, both: old(both)@, missing },
            p,
            from_revs,
        ),
{
    if p == NULL_REVISION {
        return ;
    }
    let in_other = if from_revs {
        bases.contains(&p)
    } else {
        revs.contains(&p)
    };
    if in_other || both.contains(&p) {
        revs.remove(&p);
        bases.insert(p);
        both.insert(p);
    } else if from_revs {
        revs.insert(p);
    } else {
        bases.insert(p);
    }
}

impl<G: Graph> MissingAncestors<G> {
    /// The ancestors of `revs` that are not ancestors of the bases, in
    /// ascending order. The bases take up the ancestors of the bases that
    /// are met on the way.
    pub fn missing_ancestors(&mut self, revs: Vec<Revision>) -> (r: Result<Vec<Revision>, GraphError>)
        requires
            old(self).wf(),
        ensures
            final(self).wf(),
            final(self).graph == old(self).graph,
            match missing_ancestors_of(&old(self).graph, old(self).bases@, revs@) {
                (Ok(missing), bases) => r is Ok && r.unwrap()@ == missing && final(self).bases@
                    == bases,
                (Err(e), bases) => r == Err::<Vec<Revision>, GraphError>(e) && final(self).bases@
                    == bases,
            },
    {
        let mut revs_visit: HashSet<Revision> = HashSet::new();
        let mut i: usize = 0;
        while i < revs.len()
            invariant
                i <= revs.len(),
                *self == *old(self),
                forall|x: Revision|
                    revs_visit@.contains(x) <==> (!self.bases@.contains(x) && exists|k: int|
                        0 <= k < i && revs@[k] == x),
            decreases revs.len() - i,
        {
            if !self.bases.contains(&revs[i]) {
                revs_visit.insert(revs[i]);
            }
            i += 1;
        }
        proof {
            let expected = revs@.to_set().difference(self.bases@);
            assert forall|x: Revision| revs_visit@.contains(x) <==> expected.contains(x) by {
                if revs@.to_set().contains(x) {
                    assert(revs@.contains(x));
                }
                if revs_visit@.contains(x) {
                    let k = choose|k: int| 0 <= k < i && revs@[k] == x;
                    assert(revs@.contains(x));
                }
            }
            assert(revs_visit@ =~= expected);
        }
        let mut both_visit: HashSet<Revision> = HashSet::new();
        if revs_visit.is_empty() {
            return Ok(Vec::new());
        }
        let max_bases = match largest(&self.bases) {
            Some(m) => m,
            None => NULL_REVISION,
        };
        let max_revs = match largest(&revs_visit) {
            Some(m) => m,
            None => NULL_REVISION,
        };
        let start = if max_bases >= max_revs {
            max_bases
        } else {
            max_revs
        };
        let mut missing: Vec<Revision> = Vec::new();
        let ghost first = MissingState {
            revs: revs_visit@,
            bases: self.bases@,
            both: both_visit@,
            missing: missing@,
        };
        let mut curr: Revision = start;
        proof {
            assert(first.both =~= Set::<Revision>::empty());
            assert(first.missing =~= Seq::<Revision>::empty());
        }
        while curr >= 0 && !revs_visit.is_empty()
            invariant
                curr >= -1,
                self.wf(),
                self.graph == old(self).graph,
                !revs@.to_set().difference(old(self).bases@).is_empty(),
                first == (MissingState {
                    revs: revs@.to_set().difference(old(self).bases@),
                    bases: old(self).bases@,
                    both: Set::empty(),
                    missing: Seq::empty(),
                }),
                start == (if max_or_null(old(self).bases@) >= max_or_null(
                    revs@.to_set().difference(old(self).bases@),
                ) {
                    max_or_null(old(self).bases@)
                } else {
                    max_or_null(revs@.to_set().difference(old(self).bases@))
                }),
                missing_walk(&old(self).graph, first, start as int) == missing_walk(
                    &self.graph,
                    MissingState {
                        revs: revs_visit@,
                        bases: self.bases@,
                        both: both_visit@,
                        missing: missing@,
                    },
                    curr as int,
                ),
            decreases curr + 1,
        {
            let ghost st = MissingState {
                revs: revs_visit@,
                bases: self.bases@,
                both: both_visit@,
                missing: missing@,
            };
            if both_visit.contains(&curr) {
                both_visit.remove(&curr);
                let ps = match self.graph.parents(curr) {
                    Ok(ps) => ps,
                    Err(e) => {
                        return Err(e);
                    },
                };
                do_mark_both(
                    &mut revs_visit,
                    &mut self.bases,
                    &mut both_visit,
                    ps[0],
                    Ghost(missing@),
                );
                do_mark_both(
                    &mut revs_visit,
                    &mut self.bases,
                    &mut both_visit,
                    ps[1],
                    Ghost(missing@),
                );
            } else {
                let from_revs = if revs_visit.remove(&curr) {
                    missing.push(curr);
                    Some(true)
                } else {
                    proof {
                        assert(revs_visit@ =~= st.revs);
                    }
                    if self.bases.contains(&curr) {
                        Some(false)
                    } else {
                        None
                    }
                };
                match from_revs {
                    Some(from_revs) => {
                        let ps = match self.graph.parents(curr) {
                            Ok(ps) => ps,
                            Err(e) => {
                                return Err(e);
                            },
                        };
                        do_visit_parent(
                            &mut revs_visit,
                            &mut self.bases,
                            &mut both_visit,
                            ps[0],
                            from_revs,
                            Ghost(missing@),
                        );
                        do_visit_parent(
                            &mut revs_visit,
                            &mut self.bases,
                            &mut both_visit,
                            ps[1],
                            from_revs,
                            Ghost(missing@),
                        );
                    },
                    None => {},
                }
            }
            proof {
                assert(missing_step(&self.graph, st, curr) == Ok::<
                    MissingState,
                    (GraphError, MissingState),
                >(
                    MissingState {
                        revs: revs_visit@,
                        bases: self.bases@,
                        both: both_visit@,
                        missing: missing@,
                    },
                ));
            }
            curr -= 1;
        }
        Ok(reversed(&missing))
    }
}

} // verus!
