//! The mathematical tree: when it is well formed, what it holds at a path,
//! and the sums that the aggregate counters stand for.

use crate::bytes::{
    bytes_lt, first_component, has_rest, lemma_bytes_lt_asymmetric, lemma_split_join,
    rest_of_path, slash_free,
};
use crate::dirstate_tree::node::{NodeData, NodeView};
use crate::dirstate_tree::walk::{walk, walk_node};
use crate::entry::DirstateEntry;
use vstd::prelude::*;

verus! {

/// The names of a level are strictly increasing.
pub open spec fn names_sorted(s: Seq<NodeView>) -> bool {
    forall|i: int, j: int|
        0 <= i < j < s.len() ==> bytes_lt(#[trigger] s[i].name, #[trigger] s[j].name)
}

/// What a node adds to the entry count of its parent: itself, where it has
/// an entry, and the entries below it.
pub open spec fn entry_weight(n: NodeView) -> nat {
    (if n.data is Entry { 1nat } else { 0nat }) + n.entry_count
}

/// What a node adds to the tracked count of its parent.
pub open spec fn tracked_weight(n: NodeView) -> nat {
    (if n.data.is_tracked() { 1nat } else { 0nat }) + n.tracked_count
}

/// The nodes with a copy source in the tree below and including `n`.
pub open spec fn node_copies(n: NodeView) -> nat
    decreases n,
{
    (if n.copy_source is Some { 1nat } else { 0nat }) + level_copies(n.children)
}

/// The nodes with a copy source at and below a level.
pub open spec fn level_copies(s: Seq<NodeView>) -> nat
    decreases s,
{
    if s.len() == 0 {
        0
    } else {
        level_copies(s.drop_last()) + node_copies(s.last())
    }
}

/// The nodes with an entry in the tree below and including `n`, counted
/// afresh: no stored counter is read.
pub open spec fn node_entries_recount(n: NodeView) -> nat
    decreases n,
{
    (if n.data is Entry { 1nat } else { 0nat }) + level_entries_recount(n.children)
}

/// The nodes with an entry at and below a level, counted afresh.
pub open spec fn level_entries_recount(s: Seq<NodeView>) -> nat
    decreases s,
{
    if s.len() == 0 {
        0
    } else {
        level_entries_recount(s.drop_last()) + node_entries_recount(s.last())
    }
}

/// The nodes with a tracked entry in the tree below and including `n`,
/// counted afresh.
pub open spec fn node_tracked_recount(n: NodeView) -> nat
    decreases n,
{
    (if n.data.is_tracked() { 1nat } else { 0nat }) + level_tracked_recount(n.children)
}

/// The nodes with a tracked entry at and below a level, counted afresh.
pub open spec fn level_tracked_recount(s: Seq<NodeView>) -> nat
    decreases s,
{
    if s.len() == 0 {
        0
    } else {
        level_tracked_recount(s.drop_last()) + node_tracked_recount(s.last())
    }
}

/// The sum of `w` over the nodes of a level.
pub open spec fn sum_by(s: Seq<NodeView>, w: spec_fn(NodeView) -> nat) -> nat
    decreases s.len(),
{
    if s.len() == 0 {
        0
    } else {
        sum_by(s.drop_last(), w) + w(s.last())
    }
}

/// `entry_weight` as a function value.
pub open spec fn entry_weight_fn() -> spec_fn(NodeView) -> nat {
    |n: NodeView| entry_weight(n)
}

/// `tracked_weight` as a function value.
pub open spec fn tracked_weight_fn() -> spec_fn(NodeView) -> nat {
    |n: NodeView| tracked_weight(n)
}

/// `node_copies` as a function value.
pub open spec fn copies_fn() -> spec_fn(NodeView) -> nat {
    |n: NodeView| node_copies(n)
}

/// What the entry counter of the parent of a level has to hold.
pub open spec fn level_entries(s: Seq<NodeView>) -> nat {
    sum_by(s, entry_weight_fn())
}

/// What the tracked counter of the parent of a level has to hold.
pub open spec fn level_tracked(s: Seq<NodeView>) -> nat {
    sum_by(s, tracked_weight_fn())
}

/// A node is well formed: its name is one component, its data is in range,
/// its two counters are the sums over its children, and its children are
/// well formed.
pub open spec fn node_wf(n: NodeView) -> bool
    decreases n, 0nat,
{
    &&& slash_free(n.name)
    &&& n.data.wf()
    &&& n.entry_count == level_entries(n.children)
    &&& n.tracked_count == level_tracked(n.children)
    &&& level_wf(n.children)
}

/// A level is well formed: its names increase strictly and its nodes are
/// well formed.
pub open spec fn level_wf(s: Seq<NodeView>) -> bool
    decreases s, 1nat,
{
    &&& names_sorted(s)
    &&& forall|i: int| 0 <= i < s.len() ==> node_wf(#[trigger] s[i])
}

/// Some node of the level has this name.
pub open spec fn has_child(s: Seq<NodeView>, name: Seq<u8>) -> bool {
    exists|i: int| 0 <= i < s.len() && (#[trigger] s[i]).name == name
}

/// The index of a node with this name.
pub open spec fn child_at(s: Seq<NodeView>, name: Seq<u8>) -> int {
    choose|i: int| 0 <= i < s.len() && (#[trigger] s[i]).name == name
}

/// The node at `path`, if the tree has one.
pub open spec fn tree_get(s: Seq<NodeView>, path: Seq<u8>) -> Option<NodeView>
    decreases path.len(),
{
    let first = first_component(path);
    if !has_child(s, first) {
        None
    } else {
        let child = s[child_at(s, first)];
        if has_rest(path) {
            if rest_of_path(path).len() < path.len() {
                tree_get(child.children, rest_of_path(path))
            } else {
                None
            }
        } else {
            Some(child)
        }
    }
}

/// The data of the node at `path`, if the tree has one.
pub open spec fn tree_data(s: Seq<NodeView>, path: Seq<u8>) -> Option<NodeData> {
    match tree_get(s, path) {
        Some(n) => Some(n.data),
        None => None,
    }
}

/// `q` names a directory on the way to `p`: the components of `q` are the
/// first components of `p`, and `p` has more.
pub open spec fn is_ancestor_path(q: Seq<u8>, p: Seq<u8>) -> bool
    decreases p.len(),
{
    &&& has_rest(p)
    &&& first_component(q) == first_component(p)
    &&& has_rest(q) ==> rest_of_path(p).len() < p.len() && is_ancestor_path(
        rest_of_path(q),
        rest_of_path(p),
    )
}

/// The entry recorded for `path`, if any.
pub open spec fn tree_entry(s: Seq<NodeView>, path: Seq<u8>) -> Option<DirstateEntry> {
    match tree_get(s, path) {
        Some(n) => n.data.spec_as_entry(),
        None => None,
    }
}

/// The copy source recorded for `path`, if any.
pub open spec fn tree_copy(s: Seq<NodeView>, path: Seq<u8>) -> Option<Seq<u8>> {
    match tree_get(s, path) {
        Some(n) => n.copy_source,
        None => None,
    }
}

/// In a sorted level a name occurs once: any index that holds it is the one
/// that `child_at` gives.
pub proof fn lemma_child_at(s: Seq<NodeView>, name: Seq<u8>, i: int)
    requires
        names_sorted(s),
        0 <= i < s.len(),
        s[i].name == name,
    ensures
        has_child(s, name),
        child_at(s, name) == i,
{
    let c = child_at(s, name);
    if c < i {
        lemma_bytes_lt_asymmetric(s[c].name, s[i].name);
    } else if i < c {
        lemma_bytes_lt_asymmetric(s[i].name, s[c].name);
    }
}

/// A node added behind a level adds its weight to the sum.
pub proof fn lemma_sum_by_push(s: Seq<NodeView>, x: NodeView, w: spec_fn(NodeView) -> nat)
    ensures
        sum_by(s.push(x), w) == sum_by(s, w) + w(x),
{
    assert(s.push(x).drop_last() =~= s);
}

/// A node put into a level adds its weight to the sum.
pub proof fn lemma_sum_by_insert(s: Seq<NodeView>, i: int, x: NodeView, w: spec_fn(NodeView) -> nat)
    requires
        0 <= i <= s.len(),
    ensures
        sum_by(s.insert(i, x), w) == sum_by(s, w) + w(x),
    decreases s.len(),
{
    if i == s.len() {
        assert(s.insert(i, x) =~= s.push(x));
        lemma_sum_by_push(s, x, w);
    } else {
        assert(s.insert(i, x).drop_last() =~= s.drop_last().insert(i, x));
        assert(s.insert(i, x).last() == s.last());
        lemma_sum_by_insert(s.drop_last(), i, x, w);
    }
}

/// A node taken out of a level takes its weight from the sum.
pub proof fn lemma_sum_by_remove(s: Seq<NodeView>, i: int, w: spec_fn(NodeView) -> nat)
    requires
        0 <= i < s.len(),
    ensures
        sum_by(s.remove(i), w) + w(s[i]) == sum_by(s, w),
    decreases s.len(),
{
    if i == s.len() - 1 {
        assert(s.remove(i) =~= s.drop_last());
    } else {
        assert(s.remove(i).drop_last() =~= s.drop_last().remove(i));
        assert(s.remove(i).last() == s.last());
        lemma_sum_by_remove(s.drop_last(), i, w);
    }
}

/// A node put in the place of another trades the weights in the sum.
pub proof fn lemma_sum_by_update(s: Seq<NodeView>, i: int, x: NodeView, w: spec_fn(NodeView) -> nat)
    requires
        0 <= i < s.len(),
    ensures
        sum_by(s.update(i, x), w) + w(s[i]) == sum_by(s, w) + w(x),
    decreases s.len(),
{
    if i == s.len() - 1 {
        assert(s.update(i, x).drop_last() =~= s.drop_last());
    } else {
        assert(s.update(i, x).drop_last() =~= s.drop_last().update(i, x));
        assert(s.update(i, x).last() == s.last());
        lemma_sum_by_update(s.drop_last(), i, x, w);
    }
}

/// No node weighs more than its level.
pub proof fn lemma_sum_by_bound(s: Seq<NodeView>, i: int, w: spec_fn(NodeView) -> nat)
    requires
        0 <= i < s.len(),
    ensures
        w(s[i]) <= sum_by(s, w),
    decreases s.len(),
{
    if i < s.len() - 1 {
        lemma_sum_by_bound(s.drop_last(), i, w);
    }
}

/// The sum over a prefix grows with the prefix.
pub proof fn lemma_sum_by_take(s: Seq<NodeView>, k: int, w: spec_fn(NodeView) -> nat)
    requires
        0 <= k < s.len(),
    ensures
        sum_by(s.take(k + 1), w) == sum_by(s.take(k), w) + w(s[k]),
{
    assert(s.take(k + 1).drop_last() =~= s.take(k));
}

/// The copy sources at and below a level are the sum of those of its nodes.
pub proof fn lemma_level_copies_is_sum(s: Seq<NodeView>)
    ensures
        level_copies(s) == sum_by(s, copies_fn()),
    decreases s.len(),
{
    if s.len() > 0 {
        lemma_level_copies_is_sum(s.drop_last());
    }
}

/// In a well-formed tree every stored counter is the number of entries, or
/// of tracked entries, that a fresh count of the subtree finds.
pub proof fn lemma_counters_are_recounts(n: NodeView)
    requires
        node_wf(n),
    ensures
        n.entry_count == level_entries_recount(n.children),
        n.tracked_count == level_tracked_recount(n.children),
    decreases n, 0nat,
{
    lemma_level_sums_are_recounts(n.children, n.children.len() as int);
    assert(n.children.take(n.children.len() as int) =~= n.children);
}

/// In a well-formed level the sums over the first nodes are what a fresh
/// count finds.
pub proof fn lemma_level_sums_are_recounts(s: Seq<NodeView>, k: int)
    requires
        level_wf(s),
        0 <= k <= s.len(),
    ensures
        level_entries(s.take(k)) == level_entries_recount(s.take(k)),
        level_tracked(s.take(k)) == level_tracked_recount(s.take(k)),
    decreases s, 1nat, k,
{
    if k > 0 {
        lemma_level_sums_are_recounts(s, k - 1);
        assert(s.take(k).drop_last() =~= s.take(k - 1));
        assert(s.take(k).last() == s[k - 1]);
        assert(node_wf(s[k - 1]));
        lemma_counters_are_recounts(s[k - 1]);
        lemma_sum_by_take(s, k - 1, entry_weight_fn());
        lemma_sum_by_take(s, k - 1, tracked_weight_fn());
        assert(entry_weight_fn()(s[k - 1]) == entry_weight(s[k - 1]));
        assert(tracked_weight_fn()(s[k - 1]) == tracked_weight(s[k - 1]));
        assert(node_entries_recount(s[k - 1]) == entry_weight(s[k - 1]));
        assert(node_tracked_recount(s[k - 1]) == tracked_weight(s[k - 1]));
    } else {
        assert(s.take(0).len() == 0);
    }
}


/// Where a node called `name` stands in a level once it is there: behind
/// the smaller names and before the larger ones.
pub open spec fn is_insert_pos(s: Seq<NodeView>, name: Seq<u8>, i: int) -> bool {
    &&& 0 <= i <= s.len()
    &&& forall|k: int| 0 <= k < i ==> bytes_lt(#[trigger] s[k].name, name)
    &&& forall|k: int| i <= k < s.len() ==> bytes_lt(name, #[trigger] s[k].name)
}

/// The place for a node called `name` in a level that has none.
pub open spec fn insert_pos(s: Seq<NodeView>, name: Seq<u8>) -> int {
    choose|i: int| is_insert_pos(s, name, i)
}

/// A node that holds nothing.
pub open spec fn empty_node(name: Seq<u8>) -> NodeView {
    NodeView {
        name,
        data: NodeData::Empty,
        copy_source: None,
        children: Seq::empty(),
        entry_count: 0,
        tracked_count: 0,
    }
}

/// What a mutation adds to the two counters of every strict ancestor of the
/// path that it changes.
pub struct CountChange {
    pub entries: int,
    pub tracked_entries: int,
}

/// The level with a node called `name`: the level itself where it has one,
/// else with an empty node put in its place.
pub open spec fn with_child(s: Seq<NodeView>, name: Seq<u8>) -> Seq<NodeView> {
    if has_child(s, name) {
        s
    } else {
        s.insert(insert_pos(s, name), empty_node(name))
    }
}

/// The node at `path` as a mutation finds it: the one that is there, or an
/// empty node called by the last component.
pub open spec fn leaf_at(s: Seq<NodeView>, path: Seq<u8>) -> NodeView
    decreases path.len(),
{
    let first = first_component(path);
    let level = with_child(s, first);
    let child = level[child_at(level, first)];
    if has_rest(path) && rest_of_path(path).len() < path.len() {
        leaf_at(child.children, rest_of_path(path))
    } else {
        child
    }
}

/// The tree after a mutation at `path`: missing nodes on the way are
/// created empty, the counters of every strict ancestor take up `change`,
/// and `leaf` stands at `path`.
pub open spec fn put(s: Seq<NodeView>, path: Seq<u8>, change: CountChange, leaf: NodeView) -> Seq<
    NodeView,
>
    decreases path.len(),
{
    let first = first_component(path);
    let level = with_child(s, first);
    let i = child_at(level, first);
    let child = level[i];
    if has_rest(path) && rest_of_path(path).len() < path.len() {
        level.update(
            i,
            NodeView {
                children: put(child.children, rest_of_path(path), change, leaf),
                entry_count: (child.entry_count + change.entries) as nat,
                tracked_count: (child.tracked_count + change.tracked_entries) as nat,
                ..child
            },
        )
    } else {
        level.update(i, leaf)
    }
}

/// In a sorted level there is one place for a name that is not there: any
/// place that fits is the one that `insert_pos` gives.
pub proof fn lemma_insert_pos(s: Seq<NodeView>, name: Seq<u8>, i: int)
    requires
        is_insert_pos(s, name, i),
    ensures
        insert_pos(s, name) == i,
        !has_child(s, name),
        names_sorted(s) ==> names_sorted(s.insert(i, empty_node(name))),
        has_child(s.insert(i, empty_node(name)), name),
        names_sorted(s) ==> child_at(s.insert(i, empty_node(name)), name) == i,
{
    let c = insert_pos(s, name);
    if c < i {
        lemma_bytes_lt_asymmetric(s[c].name, name);
    } else if i < c {
        lemma_bytes_lt_asymmetric(s[i].name, name);
    }
    assert forall|k: int| 0 <= k < s.len() implies (#[trigger] s[k]).name != name by {
        if k < i {
            lemma_bytes_lt_asymmetric(s[k].name, name);
        } else {
            lemma_bytes_lt_asymmetric(name, s[k].name);
        }
    }
    let t = s.insert(i, empty_node(name));
    assert(t[i].name == name);
    if names_sorted(s) {
        assert forall|a: int, b: int| 0 <= a < b < t.len() implies bytes_lt(
            #[trigger] t[a].name,
            #[trigger] t[b].name,
        ) by {
            if a < i && b > i {
                assert(t[a] == s[a]);
                assert(t[b] == s[b - 1]);
            } else if a < i && b < i {
                assert(t[a] == s[a]);
                assert(t[b] == s[b]);
            } else if a > i {
                assert(t[a] == s[a - 1]);
                assert(t[b] == s[b - 1]);
            } else if a == i {
                assert(t[b] == s[b - 1]);
            } else {
                assert(t[a] == s[a]);
            }
        }
        lemma_child_at(t, name, i);
    }
}


/// An empty node put in its place changes no sum.
pub proof fn lemma_with_child_sums(s: Seq<NodeView>, name: Seq<u8>)
    requires
        names_sorted(s),
        has_child(s, name) || is_insert_pos(s, name, insert_pos(s, name)),
    ensures
        level_entries(with_child(s, name)) == level_entries(s),
        level_tracked(with_child(s, name)) == level_tracked(s),
        level_copies(with_child(s, name)) == level_copies(s),
        has_child(with_child(s, name), name),
        names_sorted(with_child(s, name)),
        with_child(s, name)[child_at(with_child(s, name), name)].name == name,
        0 <= child_at(with_child(s, name), name) < with_child(s, name).len(),
{
    if !has_child(s, name) {
        let i = insert_pos(s, name);
        lemma_insert_pos(s, name, i);
        lemma_sum_by_insert(s, i, empty_node(name), entry_weight_fn());
        lemma_sum_by_insert(s, i, empty_node(name), tracked_weight_fn());
        lemma_sum_by_insert(s, i, empty_node(name), copies_fn());
        lemma_level_copies_is_sum(s);
        lemma_level_copies_is_sum(s.insert(i, empty_node(name)));
        assert(empty_node(name).children.len() == 0);
        assert(node_copies(empty_node(name)) == 0);
        assert(entry_weight(empty_node(name)) == 0);
        assert(tracked_weight(empty_node(name)) == 0);
    }
}

/// A tracked entry at `path` is counted on every level above it.
pub proof fn lemma_tracked_leaf_counted(s: Seq<NodeView>, path: Seq<u8>)
    requires
        level_wf(s),
        tree_get(s, path) matches Some(n) && n.data.is_tracked(),
    ensures
        level_tracked(s) >= 1,
        level_entries(s) >= 1,
    decreases path.len(),
{
    let first = first_component(path);
    let i = child_at(s, first);
    let child = s[i];
    assert(node_wf(child));
    lemma_sum_by_bound(s, i, tracked_weight_fn());
    lemma_sum_by_bound(s, i, entry_weight_fn());
    if has_rest(path) {
        lemma_tracked_leaf_counted(child.children, rest_of_path(path));
    }
}

/// An entry at `path` is counted on every level above it.
pub proof fn lemma_entry_leaf_counted(s: Seq<NodeView>, path: Seq<u8>)
    requires
        level_wf(s),
        tree_get(s, path) matches Some(n) && n.data is Entry,
    ensures
        level_entries(s) >= 1,
    decreases path.len(),
{
    let first = first_component(path);
    let i = child_at(s, first);
    let child = s[i];
    assert(node_wf(child));
    lemma_sum_by_bound(s, i, entry_weight_fn());
    if has_rest(path) {
        lemma_entry_leaf_counted(child.children, rest_of_path(path));
    }
}


/// A node replaced by one of the same name is found under the same names.
pub proof fn lemma_update_lookup(s: Seq<NodeView>, i: int, x: NodeView, name: Seq<u8>)
    requires
        names_sorted(s),
        0 <= i < s.len(),
        x.name == s[i].name,
    ensures
        names_sorted(s.update(i, x)),
        has_child(s.update(i, x), name) == has_child(s, name),
        has_child(s, name) ==> child_at(s.update(i, x), name) == child_at(s, name),
{
    let t = s.update(i, x);
    assert forall|a: int, b: int| 0 <= a < b < t.len() implies bytes_lt(
        #[trigger] t[a].name,
        #[trigger] t[b].name,
    ) by {
        assert(t[a].name == s[a].name);
        assert(t[b].name == s[b].name);
    }
    if has_child(s, name) {
        let c = child_at(s, name);
        assert(t[c].name == name);
        lemma_child_at(t, name, c);
    }
    if has_child(t, name) {
        let c = child_at(t, name);
        assert(s[c].name == name);
    }
}

/// An empty node put in its place leaves the other names where they were.
pub proof fn lemma_with_child_lookup(s: Seq<NodeView>, name: Seq<u8>, other: Seq<u8>)
    requires
        names_sorted(s),
        has_child(s, name) || is_insert_pos(s, name, insert_pos(s, name)),
        other != name,
    ensures
        has_child(with_child(s, name), other) == has_child(s, other),
        has_child(s, other) ==> with_child(s, name)[child_at(with_child(s, name), other)]
            == s[child_at(s, other)],
{
    if !has_child(s, name) {
        let i = insert_pos(s, name);
        lemma_insert_pos(s, name, i);
        let t = s.insert(i, empty_node(name));
        if has_child(s, other) {
            let c = child_at(s, other);
            let c2 = if c < i { c } else { c + 1 };
            assert(t[c2] == s[c]);
            lemma_child_at(t, other, c2);
        }
        if has_child(t, other) {
            let c = child_at(t, other);
            assert(c != i);
            let c1 = if c < i { c } else { c - 1 };
            assert(s[c1] == t[c]);
        }
    }
}

/// What `put` needs of the node that it sets at the path: the name, the
/// children and the two counters of the node that was there.
pub open spec fn keeps_place(leaf: NodeView, was: NodeView) -> bool {
    &&& leaf.name == was.name
    &&& leaf.children == was.children
    &&& leaf.entry_count == was.entry_count
    &&& leaf.tracked_count == was.tracked_count
}

/// The weights of the new leaf differ from those of the old one by what the
/// ancestors take up.
pub open spec fn change_fits(leaf: NodeView, was: NodeView, change: CountChange) -> bool {
    &&& entry_weight(leaf) == entry_weight(was) + change.entries
    &&& tracked_weight(leaf) == tracked_weight(was) + change.tracked_entries
}

/// A mutation whose change of counters fits the change of the leaf keeps
/// the tree well formed, and moves the sums of the root by that change.
pub proof fn lemma_put_wf(s: Seq<NodeView>, path: Seq<u8>, change: CountChange, leaf: NodeView)
    requires
        level_wf(s),
        keeps_place(leaf, leaf_at(s, path)),
        leaf.data.wf(),
        change_fits(leaf, leaf_at(s, path), change),
    ensures
        node_wf(leaf_at(s, path)),
        level_wf(put(s, path, change, leaf)),
        level_entries(put(s, path, change, leaf)) == level_entries(s) + change.entries,
        level_tracked(put(s, path, change, leaf)) == level_tracked(s) + change.tracked_entries,
        level_copies(put(s, path, change, leaf)) + (if leaf_at(s, path).copy_source is Some {
            1nat
        } else {
            0nat
        }) == level_copies(s) + (if leaf.copy_source is Some { 1nat } else { 0nat }),
        level_entries(s) >= entry_weight(leaf_at(s, path)),
        level_tracked(s) >= tracked_weight(leaf_at(s, path)),
    decreases path.len(),
{
    let first = first_component(path);
    lemma_split_join(path);
    lemma_with_child_sums_wf(s, first);
    let level = with_child(s, first);
    let i = child_at(level, first);
    let child = level[i];
    assert(node_wf(child));
    lemma_sum_by_bound(level, i, entry_weight_fn());
    lemma_sum_by_bound(level, i, tracked_weight_fn());
    let after = put(s, path, change, leaf);
    let x = after[i];
    if has_rest(path) {
        let rest = rest_of_path(path);
        lemma_put_wf(child.children, rest, change, leaf);
        assert(x.children == put(child.children, rest, change, leaf));
        assert(node_wf(x));
        assert(node_copies(x) + (if leaf_at(s, path).copy_source is Some {
            1nat
        } else {
            0nat
        }) == node_copies(child) + (if leaf.copy_source is Some { 1nat } else { 0nat }));
    } else {
        assert(x == leaf);
        assert(node_wf(x));
        assert(node_copies(x) + (if child.copy_source is Some { 1nat } else { 0nat })
            == node_copies(child) + (if leaf.copy_source is Some { 1nat } else { 0nat }));
    }
    assert(after == level.update(i, x));
    lemma_update_lookup(level, i, x, first);
    assert forall|k: int| 0 <= k < after.len() implies node_wf(#[trigger] after[k]) by {
        if k != i {
            assert(after[k] == level[k]);
        }
    }
    lemma_sum_by_update(level, i, x, entry_weight_fn());
    lemma_sum_by_update(level, i, x, tracked_weight_fn());
    lemma_sum_by_update(level, i, x, copies_fn());
    lemma_level_copies_is_sum(level);
    lemma_level_copies_is_sum(after);
}

/// `lemma_with_child_sums`, and the level stays well formed.
pub proof fn lemma_with_child_sums_wf(s: Seq<NodeView>, name: Seq<u8>)
    requires
        level_wf(s),
        slash_free(name),
    ensures
        has_child(s, name) || is_insert_pos(s, name, insert_pos(s, name)),
        level_wf(with_child(s, name)),
        level_entries(with_child(s, name)) == level_entries(s),
        level_tracked(with_child(s, name)) == level_tracked(s),
        level_copies(with_child(s, name)) == level_copies(s),
        has_child(with_child(s, name), name),
        with_child(s, name)[child_at(with_child(s, name), name)].name == name,
        0 <= child_at(with_child(s, name), name) < with_child(s, name).len(),
{
    lemma_insert_pos_exists(s, name);
    lemma_with_child_sums(s, name);
    if !has_child(s, name) {
        let i = insert_pos(s, name);
        let t = s.insert(i, empty_node(name));
        assert(level_entries(Seq::<NodeView>::empty()) == 0);
        assert(level_tracked(Seq::<NodeView>::empty()) == 0);
        assert(node_wf(empty_node(name)));
        assert forall|k: int| 0 <= k < t.len() implies node_wf(#[trigger] t[k]) by {
            if k < i {
                assert(t[k] == s[k]);
            } else if k > i {
                assert(t[k] == s[k - 1]);
            }
        }
    }
}

/// A sorted level has a place for every name that it does not hold.
pub proof fn lemma_insert_pos_exists(s: Seq<NodeView>, name: Seq<u8>)
    requires
        names_sorted(s),
    ensures
        has_child(s, name) || is_insert_pos(s, name, insert_pos(s, name)),
    decreases s.len(),
{
    if !has_child(s, name) {
        if s.len() == 0 {
            assert(is_insert_pos(s, name, 0));
        } else {
            let t = s.drop_last();
            assert forall|a: int, b: int| 0 <= a < b < t.len() implies bytes_lt(
                #[trigger] t[a].name,
                #[trigger] t[b].name,
            ) by {
                assert(t[a] == s[a]);
                assert(t[b] == s[b]);
            }
            if has_child(t, name) {
                let c = child_at(t, name);
                assert(s[c].name == name);
            }
            lemma_insert_pos_exists(t, name);
            let j = insert_pos(t, name);
            let last = s.last();
            crate::bytes::lemma_bytes_lt_total(last.name, name);
            assert(s[s.len() - 1].name != name);
            if bytes_lt(last.name, name) {
                assert forall|k: int| 0 <= k < s.len() implies bytes_lt(
                    #[trigger] s[k].name,
                    name,
                ) by {
                    if k < s.len() - 1 {
                        crate::bytes::lemma_bytes_lt_transitive(s[k].name, last.name, name);
                    }
                }
                assert(is_insert_pos(s, name, s.len() as int));
            } else {
                assert forall|k: int| 0 <= k < j implies bytes_lt(#[trigger] s[k].name, name) by {
                    assert(s[k] == t[k]);
                }
                assert forall|k: int| j <= k < s.len() implies bytes_lt(
                    name,
                    #[trigger] s[k].name,
                ) by {
                    if k < s.len() - 1 {
                        assert(s[k] == t[k]);
                    }
                }
                assert(is_insert_pos(s, name, j));
            }
        }
    }
}


/// What a mutation at `path` changes at any path `q`: at `path` stands the
/// new leaf; a directory on the way that was missing is there and empty;
/// everything else is as it was.
pub proof fn lemma_put_get(
    s: Seq<NodeView>,
    path: Seq<u8>,
    change: CountChange,
    leaf: NodeView,
    q: Seq<u8>,
)
    requires
        level_wf(s),
        leaf.name == leaf_at(s, path).name,
        leaf.children == leaf_at(s, path).children,
    ensures
        q == path ==> tree_get(put(s, path, change, leaf), q) == Some(leaf),
        q != path ==> tree_data(put(s, path, change, leaf), q) == (if tree_get(s, q) is None
            && is_ancestor_path(q, path) {
            Some(NodeData::Empty)
        } else {
            tree_data(s, q)
        }),
        q != path ==> tree_copy(put(s, path, change, leaf), q) == tree_copy(s, q),
        tree_get(s, path) matches Some(n) ==> leaf_at(s, path) == n,
        tree_get(s, path) is None ==> leaf_at(s, path).data is Empty && leaf_at(
            s,
            path,
        ).copy_source is None && leaf_at(s, path).children.len() == 0 && leaf_at(
            s,
            path,
        ).entry_count == 0 && leaf_at(s, path).tracked_count == 0,
    decreases path.len(),
{
    let first = first_component(path);
    lemma_split_join(path);
    lemma_split_join(q);
    lemma_with_child_sums_wf(s, first);
    let level = with_child(s, first);
    let i = child_at(level, first);
    let child = level[i];
    assert(node_wf(child));
    let after = put(s, path, change, leaf);
    let x = after[i];
    let fq = first_component(q);
    if has_rest(path) {
        lemma_put_get(child.children, rest_of_path(path), change, leaf, rest_of_path(q));
    }
    assert(x.name == child.name);
    assert(after == level.update(i, x));
    lemma_update_lookup(level, i, x, fq);
    if has_child(s, first) {
        assert(level == s);
    } else {
        assert(child == empty_node(first));
        assert(child.children.len() == 0);
        assert(!has_child(child.children, first_component(rest_of_path(path))));
        assert(!has_child(child.children, first_component(rest_of_path(q))));
    }
    if fq != first {
        lemma_with_child_lookup(s, first, fq);
        if has_child(s, fq) {
            let c = child_at(level, fq);
            assert(c != i);
            assert(after[c] == level[c]);
        }
    } else {
        assert(child_at(after, fq) == i);
        if has_rest(q) && has_rest(path) {
            if rest_of_path(q) == rest_of_path(path) {
                assert(q == path);
            }
        }
    }
}


/// What was at a path that has been dropped.
#[derive(Clone, Copy, Debug, PartialEq, Eq)]
pub struct Dropped {
    pub was_tracked: bool,
    pub had_entry: bool,
    pub had_copy_source: bool,
}

/// What dropping a path does to one level.
pub struct DropOutcome {
    /// The level afterwards.
    pub tree: Seq<NodeView>,
    /// The path had a node.
    pub found: bool,
    pub dropped: Dropped,
    /// The node of this level that lies on the path was removed.
    pub removed: bool,
}

/// Nothing keeps the node in the tree: it has no entry, no copy source and no
/// children.
pub open spec fn is_removable(n: NodeView) -> bool {
    !(n.data is Entry) && n.copy_source is None && n.children.len() == 0
}

/// `a` less one where `b` holds and `a` is not zero, else `a`.
pub open spec fn nat_minus(a: nat, b: bool) -> nat {
    if b && a > 0 {
        (a - 1) as nat
    } else {
        a
    }
}

/// The node on the path as it is once the path below it has been dropped:
/// its counters no longer count what was dropped, and a cached directory
/// time is forgotten where a child was removed.
pub open spec fn after_drop_below(node: NodeView, sub: DropOutcome) -> NodeView {
    NodeView {
        children: sub.tree,
        entry_count: nat_minus(node.entry_count, sub.dropped.had_entry),
        tracked_count: nat_minus(node.tracked_count, sub.dropped.was_tracked),
        data: if sub.removed && node.data is CachedDirectory {
            NodeData::Empty
        } else {
            node.data
        },
        ..node
    }
}

/// The node at the dropped path itself: its entry and its copy source are
/// gone.
pub open spec fn after_drop_here(node: NodeView) -> NodeView {
    NodeView {
        data: if node.data is Entry {
            NodeData::Empty
        } else {
            node.data
        },
        copy_source: None,
        ..node
    }
}

/// What the node at the dropped path held.
pub open spec fn dropped_here(node: NodeView) -> Dropped {
    Dropped {
        was_tracked: node.data.is_tracked(),
        had_entry: node.data is Entry,
        had_copy_source: node.copy_source is Some,
    }
}

/// The level with the node at `i` replaced by `node`, or without it where
/// nothing keeps `node` in the tree.
pub open spec fn settle(s: Seq<NodeView>, i: int, node: NodeView, dropped: Dropped) -> DropOutcome {
    if is_removable(node) {
        DropOutcome { tree: s.remove(i), found: true, dropped, removed: true }
    } else {
        DropOutcome { tree: s.update(i, node), found: true, dropped, removed: false }
    }
}

/// The outcome for a path without a node: the level as it is.
pub open spec fn not_found(s: Seq<NodeView>) -> DropOutcome {
    DropOutcome {
        tree: s,
        found: false,
        dropped: Dropped { was_tracked: false, had_entry: false, had_copy_source: false },
        removed: false,
    }
}

/// Dropping the entry and the copy source at `path`: the node loses both,
/// and then every node on the way back to the root that nothing keeps in the
/// tree is removed. A tree without a node at `path` stays as it is.
pub open spec fn drop_spec(s: Seq<NodeView>, path: Seq<u8>) -> DropOutcome
    decreases path.len(),
{
    let first = first_component(path);
    if !has_child(s, first) {
        not_found(s)
    } else {
        let i = child_at(s, first);
        let node = s[i];
        if has_rest(path) {
            if rest_of_path(path).len() < path.len() {
                let sub = drop_spec(node.children, rest_of_path(path));
                if sub.found {
                    settle(s, i, after_drop_below(node, sub), sub.dropped)
                } else {
                    not_found(s)
                }
            } else {
                not_found(s)
            }
        } else {
            settle(s, i, after_drop_here(node), dropped_here(node))
        }
    }
}

/// 1 for true, 0 for false.
pub open spec fn flag(b: bool) -> nat {
    if b {
        1
    } else {
        0
    }
}

/// A node taken out of a sorted level leaves it sorted, and the other names
/// where they were.
pub proof fn lemma_remove_lookup(s: Seq<NodeView>, i: int, name: Seq<u8>)
    requires
        names_sorted(s),
        0 <= i < s.len(),
    ensures
        names_sorted(s.remove(i)),
        has_child(s.remove(i), name) == (has_child(s, name) && name != s[i].name),
        has_child(s.remove(i), name) ==> s.remove(i)[child_at(s.remove(i), name)] == s[child_at(
            s,
            name,
        )],
{
    let t = s.remove(i);
    assert forall|a: int, b: int| 0 <= a < b < t.len() implies bytes_lt(
        #[trigger] t[a].name,
        #[trigger] t[b].name,
    ) by {
        let a1 = if a < i { a } else { a + 1 };
        let b1 = if b < i { b } else { b + 1 };
        assert(t[a] == s[a1]);
        assert(t[b] == s[b1]);
    }
    if has_child(t, name) {
        let c = child_at(t, name);
        let c1 = if c < i { c } else { c + 1 };
        assert(t[c] == s[c1]);
        lemma_child_at(s, name, c1);
        if name == s[i].name {
            lemma_child_at(s, name, i);
        }
    }
    if has_child(s, name) && name != s[i].name {
        let c = child_at(s, name);
        let c1 = if c < i { c } else { c - 1 };
        assert(t[c1] == s[c]);
        lemma_child_at(t, name, c1);
    }
}

/// Dropping a path keeps the tree well formed, and takes from the sums of
/// the root what was at the path.
pub proof fn lemma_drop_wf(s: Seq<NodeView>, path: Seq<u8>)
    requires
        level_wf(s),
    ensures
        level_wf(drop_spec(s, path).tree),
        level_entries(drop_spec(s, path).tree) + flag(drop_spec(s, path).dropped.had_entry)
            == level_entries(s),
        level_tracked(drop_spec(s, path).tree) + flag(drop_spec(s, path).dropped.was_tracked)
            == level_tracked(s),
        level_copies(drop_spec(s, path).tree) + flag(drop_spec(s, path).dropped.had_copy_source)
            == level_copies(s),
        !drop_spec(s, path).found ==> drop_spec(s, path) == not_found(s),
        drop_spec(s, path).found == (tree_get(s, path) is Some),
        drop_spec(s, path).dropped.was_tracked ==> drop_spec(s, path).dropped.had_entry,
    decreases path.len(),
{
    let first = first_component(path);
    lemma_split_join(path);
    let out = drop_spec(s, path);
    if has_child(s, first) {
        let i = child_at(s, first);
        let node = s[i];
        assert(node_wf(node));
        lemma_sum_by_bound(s, i, entry_weight_fn());
        lemma_sum_by_bound(s, i, tracked_weight_fn());
        if has_rest(path) {
            lemma_drop_wf(node.children, rest_of_path(path));
        }
        if out.found {
            let x = if has_rest(path) {
                after_drop_below(node, drop_spec(node.children, rest_of_path(path)))
            } else {
                after_drop_here(node)
            };
            assert(node_wf(x));
            assert(entry_weight(x) + flag(out.dropped.had_entry) == entry_weight(node));
            assert(tracked_weight(x) + flag(out.dropped.was_tracked) == tracked_weight(node));
            assert(node_copies(x) + flag(out.dropped.had_copy_source) == node_copies(node));
            lemma_level_copies_is_sum(s);
            lemma_level_copies_is_sum(out.tree);
            if is_removable(x) {
                assert(level_entries(x.children) == 0);
                assert(level_tracked(x.children) == 0);
                assert(level_copies(x.children) == 0);
                assert(node_copies(x) == 0);
                lemma_remove_lookup(s, i, first);
                lemma_sum_by_remove(s, i, entry_weight_fn());
                lemma_sum_by_remove(s, i, tracked_weight_fn());
                lemma_sum_by_remove(s, i, copies_fn());
                assert forall|k: int| 0 <= k < out.tree.len() implies node_wf(
                    #[trigger] out.tree[k],
                ) by {
                    let k1 = if k < i { k } else { k + 1 };
                    assert(out.tree[k] == s[k1]);
                }
            } else {
                lemma_update_lookup(s, i, x, first);
                lemma_sum_by_update(s, i, x, entry_weight_fn());
                lemma_sum_by_update(s, i, x, tracked_weight_fn());
                lemma_sum_by_update(s, i, x, copies_fn());
                assert forall|k: int| 0 <= k < out.tree.len() implies node_wf(
                    #[trigger] out.tree[k],
                ) by {
                    if k != i {
                        assert(out.tree[k] == s[k]);
                    }
                }
            }
        }
    }
}


/// A sum is no larger than the sum of a weight that is nowhere smaller.
pub proof fn lemma_sum_by_le(
    s: Seq<NodeView>,
    w1: spec_fn(NodeView) -> nat,
    w2: spec_fn(NodeView) -> nat,
)
    requires
        forall|k: int| 0 <= k < s.len() ==> w1(#[trigger] s[k]) <= w2(s[k]),
    ensures
        sum_by(s, w1) <= sum_by(s, w2),
    decreases s.len(),
{
    if s.len() > 0 {
        let t = s.drop_last();
        assert forall|k: int| 0 <= k < t.len() implies w1(#[trigger] t[k]) <= w2(t[k]) by {
            assert(t[k] == s[k]);
        }
        lemma_sum_by_le(t, w1, w2);
        assert(w1(s[s.len() - 1]) <= w2(s[s.len() - 1]));
    }
}

/// A sum is smaller than the sum of a weight that is nowhere smaller and
/// somewhere larger.
pub proof fn lemma_sum_by_lt(
    s: Seq<NodeView>,
    w1: spec_fn(NodeView) -> nat,
    w2: spec_fn(NodeView) -> nat,
    i: int,
)
    requires
        forall|k: int| 0 <= k < s.len() ==> w1(#[trigger] s[k]) <= w2(s[k]),
        0 <= i < s.len(),
        w1(s[i]) < w2(s[i]),
    ensures
        sum_by(s, w1) < sum_by(s, w2),
    decreases s.len(),
{
    let t = s.drop_last();
    assert forall|k: int| 0 <= k < t.len() implies w1(#[trigger] t[k]) <= w2(t[k]) by {
        assert(t[k] == s[k]);
    }
    assert(w1(s[s.len() - 1]) <= w2(s[s.len() - 1]));
    if i == s.len() - 1 {
        lemma_sum_by_le(t, w1, w2);
    } else {
        assert(t[i] == s[i]);
        lemma_sum_by_lt(t, w1, w2, i);
    }
}

/// No more entries are tracked than there are entries.
pub proof fn lemma_tracked_le_entries(s: Seq<NodeView>)
    requires
        level_wf(s),
    ensures
        level_tracked(s) <= level_entries(s),
    decreases s,
{
    assert forall|k: int| 0 <= k < s.len() implies tracked_weight_fn()(#[trigger] s[k])
        <= entry_weight_fn()(s[k]) by {
        assert(node_wf(s[k]));
        lemma_tracked_le_entries(s[k].children);
    }
    lemma_sum_by_le(s, tracked_weight_fn(), entry_weight_fn());
}

/// With an entry at `path` that is not tracked, fewer entries are tracked
/// than there are entries.
pub proof fn lemma_untracked_entry_counted(s: Seq<NodeView>, path: Seq<u8>)
    requires
        level_wf(s),
        tree_get(s, path) matches Some(n) && n.data is Entry && !n.data.is_tracked(),
    ensures
        level_tracked(s) < level_entries(s),
    decreases path.len(),
{
    let first = first_component(path);
    let i = child_at(s, first);
    assert forall|k: int| 0 <= k < s.len() implies tracked_weight_fn()(#[trigger] s[k])
        <= entry_weight_fn()(s[k]) by {
        assert(node_wf(s[k]));
        lemma_tracked_le_entries(s[k].children);
    }
    assert(node_wf(s[i]));
    lemma_tracked_le_entries(s[i].children);
    if has_rest(path) {
        lemma_untracked_entry_counted(s[i].children, rest_of_path(path));
    }
    lemma_sum_by_lt(s, tracked_weight_fn(), entry_weight_fn(), i);
}


/// The node at a path of a well-formed tree is well formed.
pub proof fn lemma_entry_wf(s: Seq<NodeView>, path: Seq<u8>)
    requires
        level_wf(s),
    ensures
        tree_get(s, path) matches Some(n) ==> node_wf(n),
        tree_entry(s, path) matches Some(e) ==> e.wf(),
    decreases path.len(),
{
    let first = first_component(path);
    if has_child(s, first) {
        let i = child_at(s, first);
        assert(node_wf(s[i]));
        if has_rest(path) && rest_of_path(path).len() < path.len() {
            lemma_entry_wf(s[i].children, rest_of_path(path));
        }
    }
}


/// What dropping `path` changes at any path `q`: the entry and the copy
/// source of `path` are gone, those of every other path stay; a node that is
/// neither at `path` nor on the way to it stays as it was; and no node is
/// left at `path` or on the way to it that nothing keeps in the tree.
pub proof fn lemma_drop_get(s: Seq<NodeView>, path: Seq<u8>, q: Seq<u8>)
    requires
        level_wf(s),
    ensures
        tree_entry(drop_spec(s, path).tree, q) == (if q == path {
            None
        } else {
            tree_entry(s, q)
        }),
        tree_copy(drop_spec(s, path).tree, q) == (if q == path {
            None
        } else {
            tree_copy(s, q)
        }),
        q != path && !is_ancestor_path(q, path) ==> tree_get(drop_spec(s, path).tree, q)
            == tree_get(s, q),
        drop_spec(s, path).found && (q == path || is_ancestor_path(q, path)) ==> (tree_get(
            drop_spec(s, path).tree,
            q,
        ) matches Some(n) ==> !is_removable(n)),
    decreases path.len(),
{
    let first = first_component(path);
    let fq = first_component(q);
    lemma_split_join(path);
    lemma_split_join(q);
    lemma_drop_wf(s, path);
    let out = drop_spec(s, path);
    if has_child(s, first) {
        let i = child_at(s, first);
        let node = s[i];
        assert(node_wf(node));
        if has_rest(path) {
            lemma_drop_get(node.children, rest_of_path(path), rest_of_path(q));
            lemma_drop_wf(node.children, rest_of_path(path));
        }
        if out.found {
            let x = if has_rest(path) {
                after_drop_below(node, drop_spec(node.children, rest_of_path(path)))
            } else {
                after_drop_here(node)
            };
            if has_rest(q) && has_rest(path) && fq == first {
                if rest_of_path(q) == rest_of_path(path) {
                    assert(q == path);
                }
            }
            if is_removable(x) {
                lemma_remove_lookup(s, i, fq);
                if fq == first {
                    assert(!has_child(x.children, first_component(rest_of_path(q))));
                }
            } else {
                lemma_update_lookup(s, i, x, fq);
                if fq != first {
                    if has_child(s, fq) {
                        let c = child_at(s, fq);
                        assert(c != i);
                        assert(out.tree[c] == s[c]);
                    }
                } else {
                    assert(child_at(out.tree, fq) == i);
                    assert(out.tree[i] == x);
                }
            }
        }
    }
}

/// The tree is one chain of nodes down to `path`: each level has one node,
/// the directories on the way have no entry and no copy source, and the
/// node at `path` has no children.
pub open spec fn only_chain(s: Seq<NodeView>, path: Seq<u8>) -> bool
    decreases path.len(),
{
    &&& s.len() == 1
    &&& s[0].name == first_component(path)
    &&& if has_rest(path) {
        &&& rest_of_path(path).len() < path.len()
        &&& !(s[0].data is Entry)
        &&& s[0].copy_source is None
        &&& only_chain(s[0].children, rest_of_path(path))
    } else {
        s[0].children.len() == 0
    }
}

/// Dropping the one path of a tree that holds nothing else removes every
/// node: the leaf, then each directory on the way back, and the root is
/// left empty.
pub proof fn lemma_drop_only_path_empties_tree(s: Seq<NodeView>, path: Seq<u8>)
    requires
        only_chain(s, path),
    ensures
        drop_spec(s, path).found,
        drop_spec(s, path).removed,
        drop_spec(s, path).tree.len() == 0,
    decreases path.len(),
{
    let first = first_component(path);
    assert(names_sorted(s));
    lemma_child_at(s, first, 0);
    if has_rest(path) {
        lemma_drop_only_path_empties_tree(s[0].children, rest_of_path(path));
    }
}


/// `lemma_put_get` for all paths at once.
pub proof fn lemma_put_maps(s: Seq<NodeView>, path: Seq<u8>, change: CountChange, leaf: NodeView)
    requires
        level_wf(s),
        leaf.name == leaf_at(s, path).name,
        leaf.children == leaf_at(s, path).children,
    ensures
        forall|q: Seq<u8>| #[trigger]
            tree_entry(put(s, path, change, leaf), q) == if q == path {
                leaf.data.spec_as_entry()
            } else {
                tree_entry(s, q)
            },
        forall|q: Seq<u8>| #[trigger]
            tree_copy(put(s, path, change, leaf), q) == if q == path {
                leaf.copy_source
            } else {
                tree_copy(s, q)
            },
        forall|q: Seq<u8>|
            q != path ==> #[trigger] tree_data(put(s, path, change, leaf), q) == (if tree_get(s, q)
                is None && is_ancestor_path(q, path) {
                Some(NodeData::Empty)
            } else {
                tree_data(s, q)
            }),
        tree_get(put(s, path, change, leaf), path) == Some(leaf),
{
    assert forall|q: Seq<u8>| #[trigger]
        tree_entry(put(s, path, change, leaf), q) == if q == path {
            leaf.data.spec_as_entry()
        } else {
            tree_entry(s, q)
        } by {
        lemma_put_get(s, path, change, leaf, q);
    }
    assert forall|q: Seq<u8>| #[trigger]
        tree_copy(put(s, path, change, leaf), q) == if q == path {
            leaf.copy_source
        } else {
            tree_copy(s, q)
        } by {
        lemma_put_get(s, path, change, leaf, q);
    }
    assert forall|q: Seq<u8>| q != path implies #[trigger] tree_data(
        put(s, path, change, leaf),
        q,
    ) == (if tree_get(s, q) is None && is_ancestor_path(q, path) {
        Some(NodeData::Empty)
    } else {
        tree_data(s, q)
    }) by {
        lemma_put_get(s, path, change, leaf, q);
    }
    lemma_put_get(s, path, change, leaf, path);
}

/// `lemma_drop_get` for all paths at once.
pub proof fn lemma_drop_maps(s: Seq<NodeView>, path: Seq<u8>)
    requires
        level_wf(s),
    ensures
        forall|q: Seq<u8>| #[trigger]
            tree_entry(drop_spec(s, path).tree, q) == if q == path {
                None
            } else {
                tree_entry(s, q)
            },
        forall|q: Seq<u8>| #[trigger]
            tree_copy(drop_spec(s, path).tree, q) == if q == path {
                None
            } else {
                tree_copy(s, q)
            },
        forall|q: Seq<u8>|
            q != path && !is_ancestor_path(q, path) ==> #[trigger] tree_get(
                drop_spec(s, path).tree,
                q,
            ) == tree_get(s, q),
        forall|q: Seq<u8>|
            drop_spec(s, path).found && (q == path || is_ancestor_path(q, path)) ==> (
            #[trigger] tree_get(drop_spec(s, path).tree, q) matches Some(n) ==> !is_removable(n)),
        drop_spec(s, path).dropped.had_entry == (tree_entry(s, path) is Some),
        drop_spec(s, path).dropped.had_copy_source == (tree_copy(s, path) is Some),
        drop_spec(s, path).dropped.was_tracked == (tree_entry(s, path) matches Some(e)
            && e.wc_tracked),
{
    assert forall|q: Seq<u8>| #[trigger]
        tree_entry(drop_spec(s, path).tree, q) == if q == path {
            None
        } else {
            tree_entry(s, q)
        } by {
        lemma_drop_get(s, path, q);
    }
    assert forall|q: Seq<u8>| #[trigger]
        tree_copy(drop_spec(s, path).tree, q) == if q == path {
            None
        } else {
            tree_copy(s, q)
        } by {
        lemma_drop_get(s, path, q);
    }
    assert forall|q: Seq<u8>| q != path && !is_ancestor_path(q, path) implies #[trigger] tree_get(
        drop_spec(s, path).tree,
        q,
    ) == tree_get(s, q) by {
        lemma_drop_get(s, path, q);
    }
    assert forall|q: Seq<u8>|
        drop_spec(s, path).found && (q == path || is_ancestor_path(q, path)) implies (
    #[trigger] tree_get(drop_spec(s, path).tree, q) matches Some(n) ==> !is_removable(n)) by {
        lemma_drop_get(s, path, q);
    }
    lemma_drop_what(s, path);
}

/// What dropping a path reports is what the path held.
pub proof fn lemma_drop_what(s: Seq<NodeView>, path: Seq<u8>)
    requires
        level_wf(s),
    ensures
        drop_spec(s, path).dropped.had_entry == (tree_entry(s, path) is Some),
        drop_spec(s, path).dropped.had_copy_source == (tree_copy(s, path) is Some),
        drop_spec(s, path).dropped.was_tracked == (tree_entry(s, path) matches Some(e)
            && e.wc_tracked),
        drop_spec(s, path).found == (tree_get(s, path) is Some),
    decreases path.len(),
{
    let first = first_component(path);
    lemma_split_join(path);
    if has_child(s, first) {
        let i = child_at(s, first);
        assert(node_wf(s[i]));
        if has_rest(path) {
            lemma_drop_what(s[i].children, rest_of_path(path));
        }
    }
}


/// Where a path has a node, every directory on the way to it has one.
pub proof fn lemma_ancestors_exist(s: Seq<NodeView>, path: Seq<u8>, q: Seq<u8>)
    requires
        tree_get(s, path) is Some,
        is_ancestor_path(q, path),
    ensures
        tree_get(s, q) is Some,
    decreases path.len(),
{
    let first = first_component(path);
    lemma_split_join(path);
    lemma_split_join(q);
    if has_rest(q) {
        lemma_ancestors_exist(s[child_at(s, first)].children, rest_of_path(path), rest_of_path(q));
    }
}

/// The node that a mutation finds at a path of a well-formed tree is well
/// formed.
pub proof fn lemma_leaf_at_wf(s: Seq<NodeView>, path: Seq<u8>)
    requires
        level_wf(s),
    ensures
        node_wf(leaf_at(s, path)),
    decreases path.len(),
{
    let first = first_component(path);
    lemma_split_join(path);
    lemma_with_child_sums_wf(s, first);
    let level = with_child(s, first);
    let i = child_at(level, first);
    assert(node_wf(level[i]));
    if has_rest(path) {
        lemma_leaf_at_wf(level[i].children, rest_of_path(path));
    }
}

/// The node that a mutation finds at a path is the node that is there, or an
/// empty one.
pub proof fn lemma_leaf_at_is_get(s: Seq<NodeView>, path: Seq<u8>)
    requires
        level_wf(s),
    ensures
        tree_get(s, path) matches Some(n) ==> leaf_at(s, path) == n,
        tree_get(s, path) is None ==> leaf_at(s, path).data is Empty && leaf_at(
            s,
            path,
        ).copy_source is None && leaf_at(s, path).children.len() == 0 && leaf_at(
            s,
            path,
        ).entry_count == 0 && leaf_at(s, path).tracked_count == 0,
    decreases path.len(),
{
    let first = first_component(path);
    lemma_split_join(path);
    lemma_with_child_sums_wf(s, first);
    let level = with_child(s, first);
    let i = child_at(level, first);
    let child = level[i];
    assert(node_wf(child));
    if has_rest(path) {
        lemma_leaf_at_is_get(child.children, rest_of_path(path));
    }
    if !has_child(s, first) {
        assert(child == empty_node(first));
        assert(!has_child(child.children, first_component(rest_of_path(path))));
    }
}

/// A mutation at a path that has a node creates none: the data of every
/// other node is as it was.
pub proof fn lemma_put_existing(s: Seq<NodeView>, path: Seq<u8>, change: CountChange, leaf: NodeView)
    requires
        level_wf(s),
        tree_get(s, path) is Some,
        leaf.name == leaf_at(s, path).name,
        leaf.children == leaf_at(s, path).children,
    ensures
        forall|q: Seq<u8>|
            q != path ==> #[trigger] tree_data(put(s, path, change, leaf), q) == tree_data(s, q),
{
    assert forall|q: Seq<u8>| q != path implies #[trigger] tree_data(
        put(s, path, change, leaf),
        q,
    ) == tree_data(s, q) by {
        lemma_put_get(s, path, change, leaf, q);
        if is_ancestor_path(q, path) {
            lemma_ancestors_exist(s, path, q);
        }
    }
}


/// Every node that a walk of a well-formed tree meets is well formed.
pub proof fn lemma_walk_nodes_wf(s: Seq<NodeView>, prefix: Seq<u8>)
    requires
        level_wf(s),
    ensures
        forall|k: int|
            0 <= k < walk(s, prefix).len() ==> node_wf((#[trigger] walk(s, prefix)[k]).node),
    decreases s, 1nat,
{
    if s.len() > 0 {
        let t = s.drop_last();
        let last = s.last();
        assert(node_wf(last));
        assert(level_wf(t)) by {
            assert forall|a: int, b: int| 0 <= a < b < t.len() implies bytes_lt(
                #[trigger] t[a].name,
                #[trigger] t[b].name,
            ) by {
                assert(t[a] == s[a]);
                assert(t[b] == s[b]);
            }
            assert forall|i: int| 0 <= i < t.len() implies node_wf(#[trigger] t[i]) by {
                assert(t[i] == s[i]);
            }
        }
        lemma_walk_nodes_wf(t, prefix);
        let below = (prefix + last.name).push(crate::bytes::SLASH);
        lemma_walk_nodes_wf(last.children, below);
        let a = walk(t, prefix);
        let inner = walk(last.children, below);
        let b = walk_node(last, prefix);
        assert forall|k: int| 0 <= k < walk(s, prefix).len() implies node_wf(
            (#[trigger] walk(s, prefix)[k]).node,
        ) by {
            if k < a.len() {
                assert(walk(s, prefix)[k] == a[k]);
            } else {
                let j = k - a.len();
                assert(walk(s, prefix)[k] == b[j]);
                if j < inner.len() {
                    assert(b[j] == inner[j]);
                }
            }
        }
    }
}

} // verus!
