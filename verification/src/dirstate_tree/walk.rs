//! The nodes of a tree in the order in which they are enumerated, each with
//! its full path, and what that enumeration has to do with lookup by path.

use crate::bytes::{
    first_component, has_rest, join_path, lemma_join_split, lemma_single_component,
    lemma_split_join, rest_of_path, SLASH,
};
use crate::dirstate_tree::node::{NodeData, NodeView};
use crate::dirstate_tree::parsers::{find_record, no_record_twice, V1Record};
use crate::dirstate_tree::tree::{
    child_at, has_child, lemma_child_at, level_entries_recount, level_wf, names_sorted,
    node_entries_recount, node_wf, tree_get,
};
use crate::entry::DirstateEntry;
use vstd::prelude::*;

verus! {

/// A node met on a walk of the tree, with its full path.
pub struct Visited {
    pub path: Seq<u8>,
    pub node: NodeView,
}

/// The nodes of the tree below and including `n`, the nodes below `n` first.
/// `prefix` is what the full paths begin with: empty at the root, the path
/// of the parent and a separator below it.
pub open spec fn walk_node(n: NodeView, prefix: Seq<u8>) -> Seq<Visited>
    decreases n, 0nat,
{
    walk(n.children, (prefix + n.name).push(SLASH)).push(Visited { path: prefix + n.name, node: n })
}

/// The nodes at and below a level, in the order of the names of the level.
pub open spec fn walk(s: Seq<NodeView>, prefix: Seq<u8>) -> Seq<Visited>
    decreases s, 1nat,
{
    if s.len() == 0 {
        Seq::empty()
    } else {
        walk(s.drop_last(), prefix) + walk_node(s.last(), prefix)
    }
}

/// The node that a list of visited nodes holds for `path`: the last one, if
/// there are several.
pub open spec fn find(l: Seq<Visited>, path: Seq<u8>) -> Option<NodeView>
    decreases l.len(),
{
    if l.len() == 0 {
        None
    } else if l.last().path == path {
        Some(l.last().node)
    } else {
        find(l.drop_last(), path)
    }
}

/// No two nodes of the list have the same path.
pub open spec fn no_path_twice(l: Seq<Visited>) -> bool
    decreases l.len(),
{
    l.len() == 0 || (no_path_twice(l.drop_last()) && find(l.drop_last(), l.last().path) is None)
}

/// `p` begins with `prefix`.
pub open spec fn is_prefix(prefix: Seq<u8>, p: Seq<u8>) -> bool {
    prefix.len() <= p.len() && p.subrange(0, prefix.len() as int) == prefix
}

/// What two lists hold for a path is what the second holds, or else what the
/// first holds.
pub proof fn lemma_find_concat(a: Seq<Visited>, b: Seq<Visited>, path: Seq<u8>)
    ensures
        find(a + b, path) == (match find(b, path) {
            Some(n) => Some(n),
            None => find(a, path),
        }),
    decreases b.len(),
{
    if b.len() == 0 {
        assert(a + b =~= a);
    } else {
        assert((a + b).drop_last() =~= a + b.drop_last());
        assert((a + b).last() == b.last());
        lemma_find_concat(a, b.drop_last(), path);
    }
}

/// A list holds a node for the path of each of its nodes.
pub proof fn lemma_find_member(l: Seq<Visited>, i: int)
    requires
        0 <= i < l.len(),
    ensures
        find(l, l[i].path) is Some,
    decreases l.len(),
{
    if i < l.len() - 1 && l.last().path != l[i].path {
        assert(l.drop_last()[i] == l[i]);
        lemma_find_member(l.drop_last(), i);
    }
}

/// Two lists without a path twice, and without a path in both, make a list
/// without a path twice.
pub proof fn lemma_no_path_twice_concat(a: Seq<Visited>, b: Seq<Visited>)
    requires
        no_path_twice(a),
        no_path_twice(b),
        forall|p: Seq<u8>| find(b, p) is Some ==> find(a, p) is None,
    ensures
        no_path_twice(a + b),
    decreases b.len(),
{
    if b.len() == 0 {
        assert(a + b =~= a);
    } else {
        let b0 = b.drop_last();
        assert((a + b).drop_last() =~= a + b0);
        assert((a + b).last() == b.last());
        assert forall|p: Seq<u8>| find(b0, p) is Some implies find(a, p) is None by {
            assert(find(b, p) is Some);
        }
        lemma_no_path_twice_concat(a, b0);
        lemma_find_concat(a, b0, b.last().path);
        lemma_find_member(b, b.len() - 1);
    }
}

/// `p` without the first `n` bytes.
pub open spec fn after(p: Seq<u8>, n: int) -> Seq<u8> {
    p.subrange(n, p.len() as int)
}

/// A node that is not the last of a sorted level is found in the level
/// without its last node, and only there.
pub proof fn lemma_drop_last_lookup(s: Seq<NodeView>, name: Seq<u8>)
    requires
        names_sorted(s),
        s.len() > 0,
    ensures
        names_sorted(s.drop_last()),
        name != s.last().name ==> has_child(s.drop_last(), name) == has_child(s, name),
        name != s.last().name && has_child(s, name) ==> s.drop_last()[child_at(
            s.drop_last(),
            name,
        )] == s[child_at(s, name)],
        has_child(s, s.last().name),
        child_at(s, s.last().name) == s.len() - 1,
        !has_child(s.drop_last(), s.last().name),
{
    let t = s.drop_last();
    assert forall|a: int, b: int| 0 <= a < b < t.len() implies crate::bytes::bytes_lt(
        #[trigger] t[a].name,
        #[trigger] t[b].name,
    ) by {
        assert(t[a] == s[a]);
        assert(t[b] == s[b]);
    }
    lemma_child_at(s, s.last().name, s.len() - 1);
    if has_child(t, s.last().name) {
        let c = child_at(t, s.last().name);
        assert(s[c] == t[c]);
        lemma_child_at(s, s.last().name, c);
    }
    if name != s.last().name {
        if has_child(s, name) {
            let c = child_at(s, name);
            assert(t[c] == s[c]);
            lemma_child_at(t, name, c);
        }
        if has_child(t, name) {
            let c = child_at(t, name);
            assert(s[c] == t[c]);
        }
    }
}

/// What a walk of the tree below and including a node holds for a path:
/// the node for its own path, what lookup finds below the node for a path
/// that leads through it, nothing for any other path.
pub proof fn lemma_walk_node_find(n: NodeView, prefix: Seq<u8>, p: Seq<u8>)
    requires
        node_wf(n),
    ensures
        find(walk_node(n, prefix), p) == (if !is_prefix(prefix, p) {
            None
        } else if first_component(after(p, prefix.len() as int)) != n.name {
            None
        } else if has_rest(after(p, prefix.len() as int)) {
            tree_get(n.children, rest_of_path(after(p, prefix.len() as int)))
        } else {
            Some(n)
        }),
    decreases n, 0nat,
{
    let own = prefix + n.name;
    let below = own.push(SLASH);
    let q = after(p, prefix.len() as int);
    lemma_walk_find(n.children, below, p);
    let inner = walk(n.children, below);
    assert(walk_node(n, prefix).drop_last() =~= inner);
    if is_prefix(prefix, p) {
        assert(p =~= prefix + q);
        lemma_split_join(q);
        if p == own {
            assert(q =~= n.name);
            lemma_single_component(n.name);
        } else {
            if is_prefix(below, p) {
                let r = after(p, below.len() as int);
                assert(p =~= below + r);
                assert(q =~= join_path(n.name, r));
                lemma_join_split(n.name, r);
            } else {
                if first_component(q) == n.name {
                    if has_rest(q) {
                        assert(q == join_path(n.name, rest_of_path(q)));
                        assert(p =~= below + rest_of_path(q));
                        assert(p.subrange(0, below.len() as int) =~= below);
                    } else {
                        assert(q == n.name);
                    }
                }
            }
        }
    } else {
        if is_prefix(below, p) {
            assert(p.subrange(0, prefix.len() as int) =~= below.subrange(0, prefix.len() as int));
            assert(below.subrange(0, prefix.len() as int) =~= prefix);
        }
        if p == own {
            assert(p.subrange(0, prefix.len() as int) =~= prefix);
        }
    }
}

/// What a walk of a level holds for a path: what lookup finds for the path
/// without the prefix, and nothing for a path that does not begin with the
/// prefix.
pub proof fn lemma_walk_find(s: Seq<NodeView>, prefix: Seq<u8>, p: Seq<u8>)
    requires
        level_wf(s),
    ensures
        find(walk(s, prefix), p) == (if is_prefix(prefix, p) {
            tree_get(s, after(p, prefix.len() as int))
        } else {
            None
        }),
    decreases s, 1nat,
{
    let q = after(p, prefix.len() as int);
    if s.len() > 0 {
        let t = s.drop_last();
        let last = s.last();
        lemma_drop_last_lookup(s, first_component(q));
        assert(node_wf(last));
        assert(level_wf(t)) by {
            assert forall|i: int| 0 <= i < t.len() implies node_wf(#[trigger] t[i]) by {
                assert(t[i] == s[i]);
            }
        }
        lemma_walk_find(t, prefix, p);
        lemma_walk_node_find(last, prefix, p);
        lemma_find_concat(walk(t, prefix), walk_node(last, prefix), p);
        lemma_split_join(q);
        lemma_drop_last_lookup(s, last.name);
        if is_prefix(prefix, p) {
            if first_component(q) == last.name {
                assert(s[child_at(s, first_component(q))] == last);
            }
        }
    } else {
        assert(!has_child(s, first_component(q)));
    }
}

/// A walk of a well-formed tree meets no path twice.
pub proof fn lemma_walk_no_path_twice(s: Seq<NodeView>, prefix: Seq<u8>)
    requires
        level_wf(s),
    ensures
        no_path_twice(walk(s, prefix)),
    decreases s, 1nat,
{
    if s.len() > 0 {
        let t = s.drop_last();
        let last = s.last();
        assert(node_wf(last));
        assert(level_wf(t)) by {
            lemma_drop_last_lookup(s, last.name);
            assert forall|i: int| 0 <= i < t.len() implies node_wf(#[trigger] t[i]) by {
                assert(t[i] == s[i]);
            }
        }
        lemma_walk_no_path_twice(t, prefix);
        lemma_walk_node_no_path_twice(last, prefix);
        assert forall|p: Seq<u8>| find(walk_node(last, prefix), p) is Some implies find(
            walk(t, prefix),
            p,
        ) is None by {
            lemma_walk_node_find(last, prefix, p);
            lemma_walk_find(t, prefix, p);
            let q = after(p, prefix.len() as int);
            lemma_drop_last_lookup(s, first_component(q));
            if has_child(t, last.name) {
                let c = child_at(t, last.name);
                assert(s[c] == t[c]);
                lemma_child_at(s, last.name, c);
            }
        }
        lemma_no_path_twice_concat(walk(t, prefix), walk_node(last, prefix));
    }
}

/// A walk of the tree below and including a well-formed node meets no path
/// twice.
pub proof fn lemma_walk_node_no_path_twice(n: NodeView, prefix: Seq<u8>)
    requires
        node_wf(n),
    ensures
        no_path_twice(walk_node(n, prefix)),
    decreases n, 0nat,
{
    let own = prefix + n.name;
    let below = own.push(SLASH);
    lemma_walk_no_path_twice(n.children, below);
    assert(walk_node(n, prefix).drop_last() =~= walk(n.children, below));
    lemma_walk_find(n.children, below, own);
    assert(!is_prefix(below, own));
}


/// What a walk yields where only some nodes count: for each node that `f`
/// accepts what `f` makes of it, in the order of the walk.
pub open spec fn filter_map_visited<T>(l: Seq<Visited>, f: spec_fn(Visited) -> Option<T>) -> Seq<T>
    decreases l.len(),
{
    if l.len() == 0 {
        Seq::empty()
    } else {
        let rest = filter_map_visited(l.drop_last(), f);
        match f(l.last()) {
            Some(x) => rest.push(x),
            None => rest,
        }
    }
}

/// One more node of the list adds what `f` makes of it, if anything.
pub proof fn lemma_filter_map_take<T>(l: Seq<Visited>, f: spec_fn(Visited) -> Option<T>, k: int)
    requires
        0 <= k < l.len(),
    ensures
        filter_map_visited(l.take(k + 1), f) == (match f(l[k]) {
            Some(x) => filter_map_visited(l.take(k), f).push(x),
            None => filter_map_visited(l.take(k), f),
        }),
{
    assert(l.take(k + 1).drop_last() =~= l.take(k));
    assert(l.take(k + 1).last() == l[k]);
}

/// A path with its entry.
pub struct PathEntry {
    pub path: Seq<u8>,
    pub entry: DirstateEntry,
}

/// A path with its copy source.
pub struct PathCopy {
    pub path: Seq<u8>,
    pub source: Seq<u8>,
}

/// A path with the tuple that debugging commands show for it.
pub struct PathDebug {
    pub path: Seq<u8>,
    pub tuple: (u8, i32, i32, i32),
}

/// The entry of a node with its path, if the node has one.
pub open spec fn entry_of(v: Visited) -> Option<PathEntry> {
    match v.node.data {
        NodeData::Entry(e) => Some(PathEntry { path: v.path, entry: e }),
        _ => None,
    }
}

/// The copy source of a node with its path, if the node has one.
pub open spec fn copy_of(v: Visited) -> Option<PathCopy> {
    match v.node.copy_source {
        Some(source) => Some(PathCopy { path: v.path, source }),
        None => None,
    }
}

/// The path of a node that has a tracked file below it.
pub open spec fn tracked_dir_of(v: Visited) -> Option<Seq<u8>> {
    if v.node.tracked_count > 0 {
        Some(v.path)
    } else {
        None
    }
}

/// The tuple shown for a node: that of its entry; or, where all nodes are
/// asked for, a blank one that carries the cached time of a directory.
pub open spec fn debug_of(v: Visited, all: bool) -> Option<PathDebug> {
    match v.node.data {
        NodeData::Entry(e) => Some(
            PathDebug {
                path: v.path,
                tuple: if e.spec_any_tracked() {
                    (
                        e.spec_state().spec_to_byte(),
                        e.spec_v1_mode() as i32,
                        e.spec_v1_size() as i32,
                        e.spec_v1_mtime() as i32,
                    )
                } else {
                    (32u8, 0i32, -1i32, -1i32)
                },
            },
        ),
        NodeData::CachedDirectory { mtime } => if all {
            Some(PathDebug { path: v.path, tuple: (32u8, 0i32, -1i32, mtime.truncated_seconds as i32) })
        } else {
            None
        },
        NodeData::Empty => if all {
            Some(PathDebug { path: v.path, tuple: (32u8, 0i32, -1i32, -1i32) })
        } else {
            None
        },
    }
}

/// `entry_of` as a function value.
pub open spec fn entry_fn() -> spec_fn(Visited) -> Option<PathEntry> {
    |v: Visited| entry_of(v)
}

/// `copy_of` as a function value.
pub open spec fn copy_fn() -> spec_fn(Visited) -> Option<PathCopy> {
    |v: Visited| copy_of(v)
}

/// `tracked_dir_of` as a function value.
pub open spec fn tracked_dir_fn() -> spec_fn(Visited) -> Option<Seq<u8>> {
    |v: Visited| tracked_dir_of(v)
}

/// `debug_of` as a function value.
pub open spec fn debug_fn(all: bool) -> spec_fn(Visited) -> Option<PathDebug> {
    |v: Visited| debug_of(v, all)
}

/// The entries of a tree with their paths, in the order of the walk.
pub open spec fn entries_of(l: Seq<Visited>) -> Seq<PathEntry> {
    filter_map_visited(l, entry_fn())
}

/// The copy sources of a tree with their paths, in the order of the walk.
pub open spec fn copies_of(l: Seq<Visited>) -> Seq<PathCopy> {
    filter_map_visited(l, copy_fn())
}

/// The paths of the directories with a tracked file below them.
pub open spec fn tracked_dirs_of(l: Seq<Visited>) -> Seq<Seq<u8>> {
    filter_map_visited(l, tracked_dir_fn())
}

/// What debugging commands show for a walk.
pub open spec fn debug_tuples_of(l: Seq<Visited>, all: bool) -> Seq<PathDebug> {
    filter_map_visited(l, debug_fn(all))
}

/// The record of the flat format that a node makes: that of its entry, with
/// its copy source. A node without entry makes none.
pub open spec fn record_of_visited(v: Visited) -> Option<V1Record> {
    match v.node.data {
        NodeData::Entry(e) => Some(
            V1Record { path: v.path, entry: e, copy_source: v.node.copy_source },
        ),
        _ => None,
    }
}

/// `record_of_visited` as a function value.
pub open spec fn record_fn() -> spec_fn(Visited) -> Option<V1Record> {
    |v: Visited| record_of_visited(v)
}

/// The records of the flat format that a walk makes.
pub open spec fn records_of(l: Seq<Visited>) -> Seq<V1Record> {
    filter_map_visited(l, record_fn())
}

/// What `f` makes of a node of the list stands in the result, behind what it
/// makes of the nodes before.
pub proof fn lemma_filter_map_index<T>(l: Seq<Visited>, f: spec_fn(Visited) -> Option<T>, k: int)
    requires
        0 <= k < l.len(),
        f(l[k]) is Some,
    ensures
        filter_map_visited(l.take(k), f).len() < filter_map_visited(l, f).len(),
        filter_map_visited(l, f)[filter_map_visited(l.take(k), f).len() as int] == f(
            l[k],
        ).unwrap(),
    decreases l.len(),
{
    let t = l.drop_last();
    if k == l.len() - 1 {
        assert(l.take(k) =~= t);
    } else {
        assert(t.take(k) =~= l.take(k));
        assert(t[k] == l[k]);
        lemma_filter_map_index(t, f, k);
    }
}

/// What is made of two lists is what is made of the first and then what is
/// made of the second.
pub proof fn lemma_filter_map_concat<T>(a: Seq<Visited>, b: Seq<Visited>, f: spec_fn(Visited) -> Option<T>)
    ensures
        filter_map_visited(a + b, f) == filter_map_visited(a, f) + filter_map_visited(b, f),
    decreases b.len(),
{
    if b.len() == 0 {
        assert(a + b =~= a);
        assert(filter_map_visited(a, f) + filter_map_visited(b, f) =~= filter_map_visited(a, f));
    } else {
        assert((a + b).drop_last() =~= a + b.drop_last());
        assert((a + b).last() == b.last());
        lemma_filter_map_concat(a, b.drop_last(), f);
        let x = filter_map_visited(a, f);
        let y = filter_map_visited(b.drop_last(), f);
        match f(b.last()) {
            Some(v) => {
                assert((x + y).push(v) =~= x + y.push(v));
            },
            None => {},
        }
    }
}

/// The record for a path is the record of the node that the walk holds for
/// the path.
pub proof fn lemma_records_find(l: Seq<Visited>, p: Seq<u8>)
    requires
        no_path_twice(l),
    ensures
        find_record(records_of(l), p) == (match find(l, p) {
            Some(n) => record_of_visited(Visited { path: p, node: n }),
            None => None,
        }),
        no_record_twice(records_of(l)),
    decreases l.len(),
{
    if l.len() > 0 {
        let t = l.drop_last();
        let last = l.last();
        lemma_records_find(t, p);
        lemma_records_find(t, last.path);
        let below = records_of(t);
        match record_of_visited(last) {
            Some(r) => {
                assert(records_of(l) == below.push(r));
                assert(records_of(l).drop_last() =~= below);
                assert(records_of(l).last() == r);
            },
            None => {
                assert(records_of(l) == below);
            },
        }
    }
}

/// A walk makes as many records as the tree has entries.
pub proof fn lemma_records_count(s: Seq<NodeView>, prefix: Seq<u8>)
    ensures
        records_of(walk(s, prefix)).len() == level_entries_recount(s),
    decreases s, 1nat,
{
    if s.len() > 0 {
        let t = s.drop_last();
        let last = s.last();
        let below = (prefix + last.name).push(SLASH);
        lemma_records_count(t, prefix);
        lemma_records_count(last.children, below);
        lemma_filter_map_concat(walk(t, prefix), walk_node(last, prefix), record_fn());
        let inner = walk(last.children, below);
        assert(walk_node(last, prefix).drop_last() =~= inner);
        assert(node_entries_recount(last) == (if last.data is Entry {
            1nat
        } else {
            0nat
        }) + level_entries_recount(last.children));
    }
}

} // verus!
