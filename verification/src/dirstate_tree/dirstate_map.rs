//! The dirstate map: the tree, the serialized bytes that its undecoded
//! levels are read from, and the counters kept for the whole tree.

use crate::bytes::{
    be_u32_at, bytes_lt, copy_bytes, first_component, has_rest, lemma_split_join, rest_of_path,
    split_first_component,
};
use crate::dirstate_tree::child_nodes::{
    add_unreachable, lemma_saturating_sum_twice, node_names_sorted, NodeRef, NodeShape,
    saturating_sum, search_nodes,
};
use crate::dirstate_tree::iter::NodesIter;
use crate::dirstate_tree::node::{
    ChildNodes, disk_level, DiskSlice, Node, NodeData, NodeView, TreePath,
};
use crate::dirstate_tree::on_disk::{TreeMetadata, v2_readable, validate_level};
use crate::dirstate_tree::parsers::{
    DirstateParents, find_record, no_record_twice, PARENTS_SIZE, parse_dirstate_entries,
    parsed_view, v1_contents, V1Record,
};
use crate::dirstate_tree::tree::{
    child_at, CountChange, drop_spec, Dropped, empty_node, entry_weight_fn, has_child,
    insert_pos, is_ancestor_path, is_insert_pos, is_removable, leaf_at, level_copies,
    level_entries, level_tracked, level_wf, names_sorted, node_wf, put, tracked_weight_fn,
    tree_copy, tree_data, tree_entry, tree_get, with_child,
};
use crate::dirstate_tree::tree;
use crate::dirstate_tree::walk::walk;
use crate::entry::{
    DirstateEntry, DirstateV2Data, ParentFileData, RANGE_MASK_31BIT, TruncatedTimestamp,
};
use vstd::prelude::*;

verus! {

/// What happens to the tracked counter of every strict ancestor.
#[derive(Clone, Copy, Debug, PartialEq, Eq)]
pub enum TrackedChange {
    Keep,
    Increment,
    Decrement,
}

/// What a mutation does to the counters of every strict ancestor of its
/// path: the difference between the new and the old state of the path.
#[derive(Clone, Copy, Debug)]
pub struct AncestorChange {
    /// The path had no entry and gets one.
    pub new_entry: bool,
    pub tracked_change: TrackedChange,
}

impl AncestorChange {
    /// What the change adds to the two counters.
    pub open spec fn delta(self) -> CountChange {
        CountChange {
            entries: if self.new_entry { 1 } else { 0 },
            tracked_entries: match self.tracked_change {
                TrackedChange::Keep => 0,
                TrackedChange::Increment => 1,
                TrackedChange::Decrement => -1,
            },
        }
    }
}

impl Node {
    /// A node that holds nothing.
    pub fn new_empty(name: TreePath) -> (r: Node)
        ensures
            forall|d: Seq<u8>| #[trigger] r.view_on(d) == empty_node(name@),
            forall|d: Seq<u8>| #[trigger] r.repr_ok(d),
            r.name == name,
            r.children is InMemory,
            r.children.all_decoded(),
    {
        let r = Node {
            name,
            data: NodeData::Empty,
            copy_source: None,
            children: ChildNodes::InMemory(Vec::new()),
            descendants_with_entry_count: 0,
            tracked_descendants_count: 0,
        };
        proof {
            assert forall|d: Seq<u8>| #[trigger] r.view_on(d) == empty_node(name@) by {
                assert(r.children.view_on(d) =~= Seq::<NodeView>::empty());
            }
        }
        r
    }
}

/// The view of a level follows an update of one of its nodes.
pub proof fn lemma_view_update(v: Seq<Node>, w: Seq<Node>, i: int, d: Seq<u8>)
    requires
        0 <= i < v.len(),
        w == v.update(i, w[i]),
    ensures
        nodes_view(w, d) == nodes_view(v, d).update(i, w[i].view_on(d)),
        nodes_ok(v, d) && w[i].repr_ok(d) ==> nodes_ok(w, d),
{
    assert(nodes_view(w, d) =~= nodes_view(v, d).update(i, w[i].view_on(d)));
}

/// The view of a level follows the insertion of a node.
pub proof fn lemma_view_insert(v: Seq<Node>, n: Node, i: int, d: Seq<u8>)
    requires
        0 <= i <= v.len(),
    ensures
        nodes_view(v.insert(i, n), d) == nodes_view(v, d).insert(i, n.view_on(d)),
        nodes_ok(v, d) && n.repr_ok(d) ==> nodes_ok(v.insert(i, n), d),
{
    assert(nodes_view(v.insert(i, n), d) =~= nodes_view(v, d).insert(i, n.view_on(d)));
}

/// The view of a level follows the removal of a node.
pub proof fn lemma_view_remove(v: Seq<Node>, i: int, d: Seq<u8>)
    requires
        0 <= i < v.len(),
    ensures
        nodes_view(v.remove(i), d) == nodes_view(v, d).remove(i),
        nodes_ok(v, d) ==> nodes_ok(v.remove(i), d),
{
    assert(nodes_view(v.remove(i), d) =~= nodes_view(v, d).remove(i));
}

/// The views of decoded nodes.
pub open spec fn nodes_view(v: Seq<Node>, d: Seq<u8>) -> Seq<NodeView> {
    Seq::new(v.len(), |i: int| v[i].view_on(d))
}

/// The serialized parts of decoded nodes can be read from `d`.
pub open spec fn nodes_ok(v: Seq<Node>, d: Seq<u8>) -> bool {
    forall|i: int| 0 <= i < v.len() ==> (#[trigger] v[i]).repr_ok(d)
}

/// The view of a decoded level is the views of its nodes.
pub proof fn lemma_in_memory_view(v: Vec<Node>, d: Seq<u8>)
    ensures
        ChildNodes::InMemory(v).view_on(d) == nodes_view(v@, d),
        ChildNodes::InMemory(v).repr_ok(d) == nodes_ok(v@, d),
        names_sorted(nodes_view(v@, d)) ==> node_names_sorted(v@),
{
    assert(ChildNodes::InMemory(v).view_on(d) =~= nodes_view(v@, d));
    if names_sorted(nodes_view(v@, d)) {
        assert forall|i: int, j: int| 0 <= i < j < v@.len() implies bytes_lt(
            #[trigger] v@[i].name.bytes@,
            #[trigger] v@[j].name.bytes@,
        ) by {
            assert(nodes_view(v@, d)[i].name == v@[i].name.bytes@);
            assert(nodes_view(v@, d)[j].name == v@[j].name.bytes@);
        }
    }
}

/// The nodes of a level beside the one that a walk goes through keep their
/// shape. `decoded` is the level `root0` once decoded, `level` is `decoded`
/// with the node called `first` at `i`, and `fin` is `level` but for that
/// node.
pub proof fn lemma_others_keep_shape(
    root0: ChildNodes,
    decoded: Seq<Node>,
    level: Seq<Node>,
    fin: Vec<Node>,
    i: int,
    first: Seq<u8>,
    d: Seq<u8>,
    name: Seq<u8>,
)
    requires
        names_sorted(root0.view_on(d)),
        root0.view_on(d) == nodes_view(decoded, d),
        forall|k: int| 0 <= k < decoded.len() ==> (#[trigger] decoded[k]).shape() == root0.shape_at(
            d,
            k,
        ),
        has_child(root0.view_on(d), first) ==> level == decoded,
        !has_child(root0.view_on(d), first) ==> 0 <= i <= decoded.len() && level == decoded.insert(
            i,
            level[i],
        ),
        0 <= i < level.len(),
        level[i].name.bytes@ == first,
        names_sorted(nodes_view(level, d)),
        fin@.len() == level.len(),
        forall|k: int| 0 <= k < level.len() && k != i ==> fin@[k] == level[k],
        fin@[i].name.bytes@ == first,
        name != first,
    ensures
        ChildNodes::InMemory(fin).shape_of(d, name) == root0.shape_of(d, name),
{
    let old_view = root0.view_on(d);
    let after = ChildNodes::InMemory(fin);
    let fin_view = after.view_on(d);
    lemma_in_memory_view(fin, d);
    assert forall|k: int| 0 <= k < level.len() implies (#[trigger] fin_view[k]).name == nodes_view(
        level,
        d,
    )[k].name by {
        if k != i {
            assert(fin@[k] == level[k]);
        }
    }
    assert forall|a: int, b: int| 0 <= a < b < fin_view.len() implies bytes_lt(
        #[trigger] fin_view[a].name,
        #[trigger] fin_view[b].name,
    ) by {
        assert(bytes_lt(nodes_view(level, d)[a].name, nodes_view(level, d)[b].name));
    }
    let inserted = !has_child(old_view, first);
    if has_child(old_view, name) {
        let c = child_at(old_view, name);
        let c2 = if inserted && c >= i {
            c + 1
        } else {
            c
        };
        assert(level[c2] == decoded[c]);
        assert(old_view[c].name == decoded[c].name.bytes@);
        assert(c2 != i);
        assert(fin@[c2] == level[c2]);
        assert(fin_view[c2].name == name);
        tree::lemma_child_at(fin_view, name, c2);
        assert(after.shape_at(d, c2) == fin@[c2].shape());
    } else {
        if has_child(fin_view, name) {
            let k = child_at(fin_view, name);
            assert(k != i);
            assert(fin@[k] == level[k]);
            let k0 = if inserted && k > i {
                k - 1
            } else {
                k
            };
            assert(level[k] == decoded[k0]);
            assert(old_view[k0].name == name);
        }
    }
}

/// A walk through the node at `i` of a level leaves alone what
/// `kept_off_path` says, given that it does so below that node.
pub proof fn lemma_level_kept(
    root0: ChildNodes,
    decoded: Seq<Node>,
    level: Seq<Node>,
    fin: Vec<Node>,
    i: int,
    d: Seq<u8>,
    path: Seq<u8>,
)
    requires
        names_sorted(root0.view_on(d)),
        root0.view_on(d) == nodes_view(decoded, d),
        forall|k: int| 0 <= k < decoded.len() ==> (#[trigger] decoded[k]).shape() == root0.shape_at(
            d,
            k,
        ),
        has_child(root0.view_on(d), first_component(path)) ==> level == decoded && child_at(
            root0.view_on(d),
            first_component(path),
        ) == i,
        !has_child(root0.view_on(d), first_component(path)) ==> 0 <= i <= decoded.len() && level
            == decoded.insert(i, level[i]) && !level[i].shape().copy_on_disk
            && level[i].children.view_on(d).len() == 0,
        0 <= i < level.len(),
        level[i].name.bytes@ == first_component(path),
        names_sorted(nodes_view(level, d)),
        fin@.len() == level.len(),
        forall|k: int| 0 <= k < level.len() && k != i ==> fin@[k] == level[k],
        fin@[i].name.bytes@ == first_component(path),
        has_rest(path) && rest_of_path(path).len() < path.len() ==> {
            &&& fin@[i].shape().name_on_disk == level[i].shape().name_on_disk
            &&& fin@[i].shape().copy_on_disk == level[i].shape().copy_on_disk
            &&& ChildNodes::kept_off_path(
                Some(level[i].children),
                fin@[i].children,
                d,
                rest_of_path(path),
            )
        },
    ensures
        ChildNodes::kept_off_path(Some(root0), ChildNodes::InMemory(fin), d, path),
{
    let first = first_component(path);
    let after = ChildNodes::InMemory(fin);
    let old_view = root0.view_on(d);
    assert forall|name: Seq<u8>| name != first implies #[trigger] after.shape_of(d, name)
        == ChildNodes::shape_in(Some(root0), d, name) by {
        lemma_others_keep_shape(root0, decoded, level, fin, i, first, d, name);
    }
    if has_rest(path) && rest_of_path(path).len() < path.len() {
        let rest = rest_of_path(path);
        let fin_view = after.view_on(d);
        lemma_in_memory_view(fin, d);
        assert forall|k: int| 0 <= k < level.len() implies (#[trigger] fin_view[k]).name
            == nodes_view(level, d)[k].name by {
            if k != i {
                assert(fin@[k] == level[k]);
            }
        }
        assert forall|a: int, b: int| 0 <= a < b < fin_view.len() implies bytes_lt(
            #[trigger] fin_view[a].name,
            #[trigger] fin_view[b].name,
        ) by {
            assert(bytes_lt(nodes_view(level, d)[a].name, nodes_view(level, d)[b].name));
        }
        assert(fin_view[i].name == first);
        tree::lemma_child_at(fin_view, first, i);
        assert(after.shape_of(d, first) == Some(fin@[i].shape()));
        if has_child(old_view, first) {
            assert(root0.shape_of(d, first) == Some(decoded[i].shape()));
        } else {
            assert(root0.shape_of(d, first) is None);
            lemma_kept_of_empty(level[i].children, fin@[i].children, d, rest);
        }
    }
}

/// A level that is decoded and not changed holds every node in the shape
/// that it had.
pub proof fn lemma_decoded_keeps_shapes(
    root0: ChildNodes,
    decoded: Vec<Node>,
    d: Seq<u8>,
    name: Seq<u8>,
)
    requires
        root0.view_on(d) == nodes_view(decoded@, d),
        forall|k: int| 0 <= k < decoded@.len() ==> (#[trigger] decoded@[k]).shape()
            == root0.shape_at(d, k),
    ensures
        ChildNodes::InMemory(decoded).shape_of(d, name) == root0.shape_of(d, name),
{
    lemma_in_memory_view(decoded, d);
    if has_child(root0.view_on(d), name) {
        let c = child_at(root0.view_on(d), name);
        assert(ChildNodes::InMemory(decoded).shape_at(d, c) == decoded@[c].shape());
    }
}

/// `q` leaves the way to `path`: at some level the two take different
/// names.
pub open spec fn leaves_way(q: Seq<u8>, path: Seq<u8>) -> bool
    decreases path.len(),
{
    first_component(q) != first_component(path) || (has_rest(q) && has_rest(path)
        && rest_of_path(path).len() < path.len() && rest_of_path(q).len() < q.len() && leaves_way(
        rest_of_path(q),
        rest_of_path(path),
    ))
}

/// The shape of the node at `q` in a level that may be missing.
pub open spec fn leaf_shape_in(level: Option<ChildNodes>, d: Seq<u8>, q: Seq<u8>) -> Option<
    NodeShape,
> {
    match level {
        Some(l) => l.leaf_shape(d, q),
        None => None,
    }
}

/// A node beside the way that a walk took has the shape that it had: the
/// levels below it are in the form in which they were, serialized ones at
/// the same records.
pub proof fn lemma_off_way_shape(
    before: Option<ChildNodes>,
    after: ChildNodes,
    d: Seq<u8>,
    path: Seq<u8>,
    q: Seq<u8>,
)
    requires
        ChildNodes::kept_off_path(before, after, d, path),
        leaves_way(q, path),
    ensures
        after.leaf_shape(d, q) == leaf_shape_in(before, d, q),
    decreases path.len(),
{
    let name = first_component(q);
    if name != first_component(path) {
        assert(after.shape_of(d, name) == ChildNodes::shape_in(before, d, name));
    } else {
        let was = match ChildNodes::shape_in(before, d, name) {
            Some(w) => Some(w.children),
            None => None,
        };
        match after.shape_of(d, name) {
            None => {},
            Some(now) => {
                lemma_off_way_shape(was, now.children, d, rest_of_path(path), rest_of_path(q));
            },
        }
    }
}

/// A level that does not change is left alone.
pub proof fn lemma_kept_off_same(level: ChildNodes, d: Seq<u8>, path: Seq<u8>)
    ensures
        ChildNodes::kept_off_path(Some(level), level, d, path),
    decreases path.len(),
{
    if has_rest(path) && rest_of_path(path).len() < path.len() {
        match level.shape_of(d, first_component(path)) {
            Some(shape) => {
                lemma_kept_off_same(shape.children, d, rest_of_path(path));
            },
            None => {},
        }
    }
}

/// What two walks to the same path leave alone, one after the other, they
/// leave alone together.
pub proof fn lemma_kept_off_path_twice(
    first: Option<ChildNodes>,
    second: ChildNodes,
    third: ChildNodes,
    d: Seq<u8>,
    path: Seq<u8>,
)
    requires
        ChildNodes::kept_off_path(first, second, d, path),
        ChildNodes::kept_off_path(Some(second), third, d, path),
    ensures
        ChildNodes::kept_off_path(first, third, d, path),
    decreases path.len(),
{
    let name = first_component(path);
    assert forall|other: Seq<u8>| other != name implies #[trigger] third.shape_of(d, other)
        == ChildNodes::shape_in(first, d, other) by {
        assert(third.shape_of(d, other) == ChildNodes::shape_in(Some(second), d, other));
        assert(second.shape_of(d, other) == ChildNodes::shape_in(first, d, other));
    }
    if has_rest(path) && rest_of_path(path).len() < path.len() {
        let rest = rest_of_path(path);
        match third.shape_of(d, name) {
            None => {},
            Some(now) => match second.shape_of(d, name) {
                None => {},
                Some(mid) => {
                    let was = match ChildNodes::shape_in(first, d, name) {
                        Some(w) => Some(w.children),
                        None => None,
                    };
                    lemma_kept_off_path_twice(was, mid.children, now.children, d, rest);
                },
            },
        }
    }
}

/// What is kept of a level that the walk creates is what is kept of an
/// empty level.
pub proof fn lemma_kept_of_empty(before: ChildNodes, after: ChildNodes, d: Seq<u8>, path: Seq<u8>)
    requires
        before.view_on(d).len() == 0,
        ChildNodes::kept_off_path(Some(before), after, d, path),
    ensures
        ChildNodes::kept_off_path(None, after, d, path),
{
    assert forall|name: Seq<u8>| before.shape_of(d, name) is None by {
        if has_child(before.view_on(d), name) {
            let k = child_at(before.view_on(d), name);
        }
    }
}

/// Finds the node called `name` among `nodes`, or puts an empty node of
/// that name in its place. Returns where the node is.
fn find_or_insert_child(
    nodes: &mut Vec<Node>,
    name: &[u8],
    names_on_disk: bool,
    Ghost(d): Ghost<Seq<u8>>,
) -> (i: usize)
    requires
        names_sorted(nodes_view(old(nodes)@, d)),
        nodes_ok(old(nodes)@, d),
    ensures
        nodes_view(final(nodes)@, d) == with_child(nodes_view(old(nodes)@, d), name@),
        nodes_ok(final(nodes)@, d),
        i < final(nodes)@.len(),
        i == child_at(nodes_view(final(nodes)@, d), name@),
        has_child(nodes_view(old(nodes)@, d), name@) || is_insert_pos(
            nodes_view(old(nodes)@, d),
            name@,
            insert_pos(nodes_view(old(nodes)@, d), name@),
        ),
        has_child(nodes_view(old(nodes)@, d), name@) ==> final(nodes)@ == old(nodes)@,
        !has_child(nodes_view(old(nodes)@, d), name@) ==> final(nodes)@[i as int].children
            is InMemory,
        !has_child(nodes_view(old(nodes)@, d), name@) ==> final(nodes)@ == old(nodes)@.insert(
            i as int,
            final(nodes)@[i as int],
        ) && final(nodes)@[i as int].shape().is_fresh(d, names_on_disk),
        ChildNodes::nodes_decoded(old(nodes)@) ==> ChildNodes::nodes_decoded(final(nodes)@),
{
    let ghost before = nodes@;
    let ghost old_view = nodes_view(before, d);
    proof {
        lemma_in_memory_view(*nodes, d);
    }
    let (found, i) = search_nodes(nodes, name);
    if !found {
        let node = Node::new_empty(TreePath { bytes: copy_bytes(name), on_disk: names_on_disk });
        proof {
            assert(is_insert_pos(old_view, name@, i as int)) by {
                assert forall|k: int| 0 <= k < old_view.len() implies old_view[k].name
                    == before[k].name.bytes@ by {}
            }
            tree::lemma_insert_pos(old_view, name@, i as int);
            lemma_view_insert(before, node, i as int, d);
        }
        nodes.insert(i, node);
        proof {
            if ChildNodes::nodes_decoded(before) {
                assert forall|k: int| 0 <= k < nodes@.len() implies (
                #[trigger] nodes@[k]).children.all_decoded() by {
                    if k < i {
                        assert(nodes@[k] == before[k]);
                    } else if k > i {
                        assert(nodes@[k] == before[k - 1]);
                    }
                }
            }
        }
    } else {
        proof {
            assert(old_view[i as int].name == name@);
            tree::lemma_child_at(old_view, name@, i as int);
        }
    }
    i
}

/// The counters of a strict ancestor take up `change`.
fn apply_change(node: &mut Node, change: AncestorChange)
    requires
        change.new_entry ==> old(node).descendants_with_entry_count < u32::MAX,
        change.tracked_change is Increment ==> old(node).tracked_descendants_count < u32::MAX,
        change.tracked_change is Decrement ==> old(node).tracked_descendants_count > 0,
    ensures
        final(node).name == old(node).name,
        final(node).data == old(node).data,
        final(node).copy_source == old(node).copy_source,
        final(node).children == old(node).children,
        final(node).descendants_with_entry_count == old(node).descendants_with_entry_count
            + change.delta().entries,
        final(node).tracked_descendants_count == old(node).tracked_descendants_count
            + change.delta().tracked_entries,
{
    if change.new_entry {
        node.descendants_with_entry_count = node.descendants_with_entry_count + 1;
    }
    match change.tracked_change {
        TrackedChange::Keep => {},
        TrackedChange::Increment => {
            node.tracked_descendants_count = node.tracked_descendants_count + 1;
        },
        TrackedChange::Decrement => {
            node.tracked_descendants_count = node.tracked_descendants_count - 1;
        },
    }
}

/// The serialized tree could not be read: a record is cut short, points
/// outside the data or to itself, or holds a value out of range; names are
/// out of order; or a counter is not what the records below it add up to.
#[derive(Clone, Copy, Debug, PartialEq, Eq)]
pub struct DirstateV2ParseError;

/// What an operation on the map can refuse.
#[derive(Debug, PartialEq, Eq)]
pub enum DirstateMapError {
    /// The operation needs an entry at the path, and there is none.
    PathNotFound(Vec<u8>),
    /// The flat format has no record for the entry of this path: nothing
    /// tracks the entry, or path and copy source are too long.
    Unpackable(Vec<u8>),
    /// The serialized tree would pass the largest address that a serialized
    /// node can hold.
    TooLarge,
}

/// What can go wrong with a dirstate map.
#[derive(Debug, PartialEq, Eq)]
pub enum DirstateError {
    MapError(DirstateMapError),
    ParseError(DirstateV2ParseError),
}

/// Bytes of the hash of the ignore patterns.
pub const IGNORE_PATTERNS_HASH_LEN: usize = 20;

/// New data is appended to the serialized tree while the unreachable part
/// of it is less than this fraction of the whole: numerator and
/// denominator.
pub const ACCEPTABLE_UNREACHABLE_BYTES_RATIO: (u32, u32) = (1, 2);

/// The tree together with the serialized bytes that its undecoded levels
/// are read from.
pub struct DirstateMap {
    /// The serialized tree that the map was read from.
    pub on_disk: Vec<u8>,
    pub root: ChildNodes,
    /// Number of nodes anywhere in the tree that have an entry.
    pub nodes_with_entry_count: u32,
    /// Number of nodes anywhere in the tree that have a copy source.
    pub nodes_with_copy_source_count: u32,
    /// Hash of the ignore patterns that the cached directory times were
    /// computed with.
    pub ignore_patterns_hash: [u8; 20],
    /// How many bytes of `on_disk` are not used any more.
    pub unreachable_bytes: u32,
}

/// The file can be read as one in the flat format: its records can be
/// read, no two of them are for the same path, and the counter of entries
/// can count them.
pub open spec fn v1_readable(d: Seq<u8>) -> bool {
    v1_contents(d) matches Some(rs) && no_record_twice(rs) && rs.len() <= u32::MAX
}

/// The first records of records of which none is for the path of another
/// are such records too.
pub proof fn lemma_no_record_twice_take(rs: Seq<V1Record>, k: int)
    requires
        0 <= k <= rs.len(),
        no_record_twice(rs),
    ensures
        no_record_twice(rs.take(k)),
    decreases rs.len() - k,
{
    if k < rs.len() {
        lemma_no_record_twice_take(rs.drop_last(), k);
        assert(rs.drop_last().take(k) =~= rs.take(k));
    } else {
        assert(rs.take(k) =~= rs);
    }
}

/// 1 for true, 0 for false.
pub open spec fn flag_int(b: bool) -> int {
    if b {
        1
    } else {
        0
    }
}

/// Whether an entry, if there is one, is tracked in the working copy.
pub open spec fn is_tracked_entry(e: Option<DirstateEntry>) -> bool {
    e matches Some(entry) && entry.wc_tracked
}

impl DirstateMap {
    /// The tree that the map stands for.
    pub open spec fn tree(&self) -> Seq<NodeView> {
        self.root.view_on(self.on_disk@)
    }

    /// The undecoded levels can be read, the tree is well formed, and the
    /// two counters of the map are the numbers of nodes with an entry and
    /// with a copy source.
    pub open spec fn wf(&self) -> bool {
        &&& self.root.repr_ok(self.on_disk@)
        &&& level_wf(self.tree())
        &&& self.nodes_with_entry_count == level_entries(self.tree())
        &&& self.nodes_with_copy_source_count == level_copies(self.tree())
    }

    /// The node at `path`, if there is one.
    pub open spec fn spec_node(&self, path: Seq<u8>) -> Option<NodeView> {
        tree_get(self.tree(), path)
    }

    /// The entry recorded for `path`, if any.
    pub open spec fn spec_get(&self, path: Seq<u8>) -> Option<DirstateEntry> {
        tree_entry(self.tree(), path)
    }

    /// The copy source recorded for `path`, if any.
    pub open spec fn spec_copy_source(&self, path: Seq<u8>) -> Option<Seq<u8>> {
        tree_copy(self.tree(), path)
    }

    /// A map without nodes, over the given serialized bytes.
    pub fn empty(on_disk: Vec<u8>) -> (r: Self)
        ensures
            r.wf(),
            r.on_disk == on_disk,
            r.tree() == Seq::<NodeView>::empty(),
            r.nodes_with_entry_count == 0,
            r.nodes_with_copy_source_count == 0,
            r.unreachable_bytes == 0,
            r.spec_all_decoded(),
            forall|i: int| 0 <= i < 20 ==> r.ignore_patterns_hash@[i] == 0,
    {
        let r = DirstateMap {
            on_disk,
            root: ChildNodes::InMemory(Vec::new()),
            nodes_with_entry_count: 0,
            nodes_with_copy_source_count: 0,
            ignore_patterns_hash: [0u8; 20],
            unreachable_bytes: 0,
        };
        proof {
            assert(r.tree() =~= Seq::<NodeView>::empty());
        }
        r
    }

    /// The entries and the copy sources of the map are those of the
    /// records, and there are as many entries as records.
    pub open spec fn holds_records(&self, rs: Seq<V1Record>) -> bool {
        &&& forall|q: Seq<u8>| #[trigger]
            self.spec_get(q) == (match find_record(rs, q) {
                Some(r) => Some(r.entry),
                None => None,
            })
        &&& forall|q: Seq<u8>| #[trigger]
            self.spec_copy_source(q) == (match find_record(rs, q) {
                Some(r) => r.copy_source,
                None => None,
            })
        &&& self.nodes_with_entry_count == rs.len()
    }

    /// The map of a file in the flat format, with the two parents that the
    /// file begins with. An empty file gives an empty map and no parents.
    ///
    /// Fails where a record cannot be read, where two records are for the
    /// same path, and where there are more records than the counter of
    /// entries can count.
    pub fn new_v1(on_disk: Vec<u8>) -> (r: Result<(Self, Option<DirstateParents>), DirstateError>)
        ensures
            on_disk@.len() == 0 ==> (r matches Ok(found) && found.1 is None && found.0.wf()
                && found.0.tree() == Seq::<NodeView>::empty() && found.0.on_disk == on_disk),
            on_disk@.len() > 0 ==> (r is Ok <==> v1_readable(on_disk@)),
            on_disk@.len() > 0 ==> (r matches Ok(found) ==> {
                &&& found.0.wf()
                &&& found.0.on_disk == on_disk
                &&& found.0.holds_records(v1_contents(on_disk@).unwrap())
                &&& found.1 matches Some(p) && p.spec_bytes() == on_disk@.subrange(
                    0,
                    PARENTS_SIZE as int,
                )
            }),
            r matches Ok(found) ==> found.0.unreachable_bytes == 0
                && found.0.spec_all_decoded(),
            r matches Err(e) ==> e == DirstateError::ParseError(DirstateV2ParseError),
    {
        let ghost d = on_disk@;
        let mut map = Self::empty(on_disk);
        if map.on_disk.len() == 0 {
            return Ok((map, None));
        }
        let records = match parse_dirstate_entries(map.on_disk.as_slice()) {
            Some(records) => records,
            None => {
                return Err(DirstateError::ParseError(DirstateV2ParseError));
            },
        };
        let parents = DirstateParents::from_bytes(map.on_disk.as_slice());
        let ghost rs = parsed_view(records@);
        let mut i: usize = 0;
        proof {
            assert(rs.take(0) =~= Seq::<V1Record>::empty());
        }
        while i < records.len()
            invariant
                i <= records@.len(),
                rs == parsed_view(records@),
                v1_contents(d) == Some(rs),
                forall|k: int| 0 <= k < records@.len() ==> (#[trigger] records@[k]).entry.wf(),
                map.wf(),
                map.on_disk@ == d,
                map.on_disk == on_disk,
                map.holds_records(rs.take(i as int)),
                no_record_twice(rs.take(i as int)),
                map.nodes_with_copy_source_count <= map.nodes_with_entry_count,
                map.unreachable_bytes == 0,
                map.spec_all_decoded(),
            decreases records@.len() - i,
        {
            let record = &records[i];
            let ghost done = rs.take(i as int);
            proof {
                assert(rs.take(i + 1) =~= done.push(rs[i as int]));
                assert(rs.take(i + 1).drop_last() =~= done);
                assert(rs[i as int] == record@);
            }
            let known = match map.get_node(record.path.as_slice()) {
                Some(node) => node.entry(map.on_disk.as_slice()).is_some(),
                None => false,
            };
            if known || map.nodes_with_entry_count == u32::MAX {
                proof {
                    if known {
                        assert(map.spec_get(record.path@) is Some);
                        assert(find_record(done, record.path@) is Some);
                        assert(rs.take(i + 1).last() == rs[i as int]);
                        assert(!no_record_twice(rs.take(i + 1)));
                        if no_record_twice(rs) {
                            lemma_no_record_twice_take(rs, i as int + 1);
                        }
                    } else {
                        assert(rs.take(i as int).len() == i);
                        assert(rs.len() > u32::MAX);
                    }
                }
                return Err(DirstateError::ParseError(DirstateV2ParseError));
            }
            let change = AncestorChange {
                new_entry: true,
                tracked_change: if record.entry.is_tracked() {
                    TrackedChange::Increment
                } else {
                    TrackedChange::Keep
                },
            };
            proof {
                crate::dirstate_tree::child_nodes::lemma_decoded_walk_is_free(
                    map.root,
                    map.on_disk@,
                    record.path@,
                );
            }
            map.write_entry(record.path.as_slice(), change, record.entry, true);
            proof {
                crate::dirstate_tree::child_nodes::lemma_decoded_walk_is_free(
                    map.root,
                    map.on_disk@,
                    record.path@,
                );
            }
            if let Some(source) = &record.copy_source {
                let _ = map.insert_copy_source(
                    record.path.as_slice(),
                    TreePath { bytes: copy_bytes(source.as_slice()), on_disk: true },
                    true,
                );
            }
            i += 1;
        }
        proof {
            assert(rs.take(i as int) =~= rs);
        }
        Ok((map, Some(parents)))
    }

    /// The map is what `new_v2` makes of the first `data_size` bytes of
    /// `on_disk` and of `metadata`: an empty map where there is no data,
    /// else the tree, the counters and the hash that the metadata names.
    pub open spec fn is_v2_of(&self, on_disk: Seq<u8>, data_size: int, metadata: Seq<u8>) -> bool {
        &&& self.wf()
        &&& self.on_disk@ == on_disk.take(data_size)
        &&& data_size == 0 ==> self.tree() == Seq::<NodeView>::empty() && self.unreachable_bytes
            == 0
        &&& data_size > 0 ==> {
            &&& self.tree() == disk_level(
                on_disk.take(data_size),
                be_u32_at(metadata, 0) as int,
                be_u32_at(metadata, 4) as int,
            )
            &&& self.unreachable_bytes == be_u32_at(metadata, 16)
            &&& self.ignore_patterns_hash@ == metadata.subrange(24, 44)
        }
    }

    /// The map of a serialized tree: the first `data_size` bytes of
    /// `on_disk`, with the metadata kept beside it. The whole tree is
    /// checked, and nothing of it is decoded.
    ///
    /// Fails where `on_disk` is shorter than `data_size`, and where data
    /// and metadata are not those of a serialized tree.
    pub fn new_v2(on_disk: Vec<u8>, data_size: usize, metadata: &[u8]) -> (r: Result<
        Self,
        DirstateError,
    >)
        ensures
            r is Ok <==> data_size <= on_disk@.len() && (data_size == 0 || v2_readable(
                on_disk@.take(data_size as int),
                metadata@,
            )),
            r matches Ok(map) ==> map.is_v2_of(on_disk@, data_size as int, metadata@),
            r matches Err(e) ==> e == DirstateError::ParseError(DirstateV2ParseError),
    {
        let ghost whole = on_disk@;
        let mut on_disk = on_disk;
        if data_size > on_disk.len() {
            return Err(DirstateError::ParseError(DirstateV2ParseError));
        }
        on_disk.truncate(data_size);
        let ghost d = on_disk@;
        proof {
            assert(d =~= whole.take(data_size as int));
        }
        if data_size == 0 {
            return Ok(Self::empty(on_disk));
        }
        let meta = match TreeMetadata::from_bytes(metadata) {
            Some(meta) => meta,
            None => {
                return Err(DirstateError::ParseError(DirstateV2ParseError));
            },
        };
        let start = meta.root_start as usize;
        let count = meta.root_count as usize;
        let sums = match validate_level(on_disk.as_slice(), start, count) {
            Some(sums) => sums,
            None => {
                return Err(DirstateError::ParseError(DirstateV2ParseError));
            },
        };
        if sums.entries != meta.nodes_with_entry_count || sums.copies
            != meta.nodes_with_copy_source_count {
            return Err(DirstateError::ParseError(DirstateV2ParseError));
        }
        Ok(
            DirstateMap {
                on_disk,
                root: ChildNodes::OnDisk(DiskSlice { start, count }),
                nodes_with_entry_count: meta.nodes_with_entry_count,
                nodes_with_copy_source_count: meta.nodes_with_copy_source_count,
                ignore_patterns_hash: meta.ignore_patterns_hash,
                unreachable_bytes: meta.unreachable_bytes,
            },
        )
    }

    /// A walk of all nodes of the tree with their full paths: the nodes
    /// below a node come before the node, and the nodes of a level in the
    /// order of their names.
    pub fn iter_nodes<'tree>(&'tree self) -> (r: NodesIter<'tree>)
        requires
            self.wf(),
        ensures
            r.wf(),
            r.on_disk@ == self.on_disk@,
            r.remaining() == walk(self.tree(), Seq::empty()),
    {
        NodesIter::new(self.root.as_ref(), self.on_disk.as_slice())
    }

    /// Whether the unreachable bytes are less than the acceptable fraction
    /// of the serialized tree.
    pub open spec fn spec_write_should_append(&self) -> bool {
        self.unreachable_bytes * ACCEPTABLE_UNREACHABLE_BYTES_RATIO.1 < self.on_disk@.len()
            * ACCEPTABLE_UNREACHABLE_BYTES_RATIO.0
    }

    /// Whether the next write should append to the serialized tree rather
    /// than write it anew.
    pub fn write_should_append(&self) -> (r: bool)
        ensures
            r == self.spec_write_should_append(),
    {
        let unreachable = self.unreachable_bytes as u128;
        let total = self.on_disk.len() as u128;
        let numerator = ACCEPTABLE_UNREACHABLE_BYTES_RATIO.0 as u128;
        let denominator = ACCEPTABLE_UNREACHABLE_BYTES_RATIO.1 as u128;
        proof {
            assert(unreachable * denominator <= 0xffff_ffff * 0xffff_ffff) by (nonlinear_arith)
                requires
                    unreachable <= 0xffff_ffff,
                    denominator <= 0xffff_ffff,
            ;
            assert(total * numerator <= 0xffff_ffff_ffff_ffff * 0xffff_ffff) by (nonlinear_arith)
                requires
                    total <= 0xffff_ffff_ffff_ffff,
                    numerator <= 0xffff_ffff,
            ;
        }
        unreachable * denominator < total * numerator
    }

    /// The node at `path`, if there is one. Nothing is decoded: a level
    /// that is still serialized is searched where it lies.
    pub fn get_node<'tree>(&'tree self, path: &[u8]) -> (r: Option<NodeRef<'tree>>)
        requires
            self.wf(),
        ensures
            r is Some <==> self.spec_node(path@) is Some,
            r matches Some(node) ==> node.ok(self.on_disk@) && Some(node.view_on(self.on_disk@))
                == self.spec_node(path@),
    {
        let on_disk = self.on_disk.as_slice();
        let mut children = self.root.as_ref();
        let mut remaining = path;
        loop
            invariant
                on_disk@ == self.on_disk@,
                children.ok(on_disk@),
                level_wf(children.view_on(on_disk@)),
                tree_get(self.tree(), path@) == tree_get(children.view_on(on_disk@), remaining@),
            decreases remaining@.len(),
        {
            let (first, rest) = split_first_component(remaining);
            proof {
                lemma_split_join(remaining@);
            }
            match children.get(first, on_disk) {
                Some(child) => match rest {
                    Some(rest) => {
                        proof {
                            assert(node_wf(child.view_on(on_disk@)));
                        }
                        children = child.children(on_disk);
                        remaining = rest;
                    },
                    None => {
                        return Some(child);
                    },
                },
                None => {
                    return None;
                },
            }
        }
    }

    /// The data of the node at `path`, if there is one.
    pub open spec fn spec_data(&self, path: Seq<u8>) -> Option<NodeData> {
        tree_data(self.tree(), path)
    }

    /// The serialized bytes and the hash are those of `old`, and no fewer
    /// bytes are unreachable.
    pub open spec fn same_bytes_as(&self, old: &Self) -> bool {
        &&& self.on_disk == old.on_disk
        &&& self.ignore_patterns_hash == old.ignore_patterns_hash
        &&& self.unreachable_bytes >= old.unreachable_bytes
    }

    /// Bytes of records that a walk to `path` with write access decodes.
    pub open spec fn spec_walk_cost(&self, path: Seq<u8>) -> nat {
        self.root.walk_cost(self.on_disk@, path)
    }

    /// Length of the copy source of `path` where the serialized bytes hold
    /// it, else 0.
    pub open spec fn spec_copy_on_disk_len(&self, path: Seq<u8>) -> nat {
        match self.root.leaf_shape(self.on_disk@, path) {
            Some(shape) => if shape.copy_on_disk {
                match self.spec_copy_source(path) {
                    Some(source) => source.len(),
                    None => 0,
                }
            } else {
                0
            },
            None => 0,
        }
    }

    /// Bytes of names and of the copy source that dropping `path` leaves
    /// without use in the serialized bytes.
    pub open spec fn spec_dropped_bytes(&self, path: Seq<u8>) -> nat {
        self.root.dropped_bytes(self.on_disk@, path)
    }

    /// No level of the tree is still serialized.
    pub open spec fn spec_all_decoded(&self) -> bool {
        self.root.all_decoded()
    }

    /// The unreachable bytes are those of `old`, the records that a walk to
    /// `path` decodes, and `more`; and the way to `path` is decoded.
    pub open spec fn walked(&self, old: &Self, path: Seq<u8>, more: nat) -> bool {
        &&& self.unreachable_bytes == saturating_sum(
            old.unreachable_bytes,
            old.spec_walk_cost(path) + more,
        )
        &&& self.spec_walk_cost(path) == 0
    }

    /// The unreachable bytes are those of `old`, the records that a walk to
    /// `path` decodes, and the names and the copy source that dropping
    /// `path` leaves without use.
    pub open spec fn counted_drop(&self, old: &Self, path: Seq<u8>) -> bool {
        self.unreachable_bytes == saturating_sum(
            old.unreachable_bytes,
            old.spec_walk_cost(path) + old.spec_dropped_bytes(path),
        )
    }

    /// The levels beside the way to `path` are in the form in which `old`
    /// has them: what was serialized and is not on the way is serialized.
    pub open spec fn kept_off(&self, old: &Self, path: Seq<u8>) -> bool {
        ChildNodes::kept_off_path(Some(old.root), self.root, old.on_disk@, path)
    }

    /// The levels beside the way to the dropped `path` are in the form in
    /// which `old` has them.
    pub open spec fn kept_beside(&self, old: &Self, path: Seq<u8>) -> bool {
        old.root.kept_beside(self.root, old.on_disk@, path)
    }

    /// The data of every node but the one at `path` is that of `old`;
    /// directories on the way to `path` that `old` lacked are there and
    /// empty.
    pub open spec fn other_data_kept(&self, old: &Self, path: Seq<u8>) -> bool {
        forall|q: Seq<u8>|
            q != path ==> #[trigger] self.spec_data(q) == (if old.spec_node(q) is None
                && is_ancestor_path(q, path) {
                Some(NodeData::Empty)
            } else {
                old.spec_data(q)
            })
    }

    /// The data of the node at `path` is that of `old`, or none where `old`
    /// had no node there.
    pub open spec fn data_kept_at(&self, old: &Self, path: Seq<u8>) -> bool {
        self.spec_data(path) == (match old.spec_data(path) {
            Some(data) => Some(data),
            None => Some(NodeData::Empty),
        })
    }

    /// The map is `old` with `entry` recorded for `path`: the entries of all
    /// other paths and all copy sources are those of `old`, directories on
    /// the way to `path` that `old` lacked are there and empty, and the
    /// counters count the new entry where `old` had none.
    pub open spec fn holds_entry_after(&self, old: &Self, path: Seq<u8>, entry: DirstateEntry) -> bool {
        &&& self.wf()
        &&& self.same_bytes_as(old)
        &&& self.walked(old, path, 0)
        &&& self.kept_off(old, path)
        &&& old.spec_all_decoded() ==> self.spec_all_decoded()
        &&& forall|q: Seq<u8>| #[trigger]
            self.spec_get(q) == if q == path {
                Some(entry)
            } else {
                old.spec_get(q)
            }
        &&& forall|q: Seq<u8>| #[trigger] self.spec_copy_source(q) == old.spec_copy_source(q)
        &&& forall|q: Seq<u8>|
            q != path ==> #[trigger] self.spec_data(q) == (if old.spec_node(q) is None
                && is_ancestor_path(q, path) {
                Some(NodeData::Empty)
            } else {
                old.spec_data(q)
            })
        &&& self.nodes_with_entry_count == old.nodes_with_entry_count + flag_int(
            old.spec_get(path) is None,
        )
        &&& self.nodes_with_copy_source_count == old.nodes_with_copy_source_count
    }

    /// Records `entry` for `filename`. `change` is what the ancestors have
    /// to take up: the difference between `entry` and the entry that was
    /// there.
    fn write_entry(
        &mut self,
        filename: &[u8],
        change: AncestorChange,
        entry: DirstateEntry,
        names_on_disk: bool,
    )
        requires
            old(self).wf(),
            entry.wf(),
            change.new_entry == (old(self).spec_get(filename@) is None),
            change.delta().tracked_entries == flag_int(entry.wc_tracked) - flag_int(
                is_tracked_entry(old(self).spec_get(filename@)),
            ),
            change.new_entry ==> old(self).nodes_with_entry_count < u32::MAX,
        ensures
            final(self).holds_entry_after(old(self), filename@, entry),
    {
        let ghost d = self.on_disk@;
        let ghost t0 = self.tree();
        proof {
            tree::lemma_tracked_le_entries(t0);
            if change.tracked_change is Increment && !change.new_entry {
                tree::lemma_untracked_entry_counted(t0, filename@);
            }
        }
        let node = Self::get_or_insert_node(
            self.on_disk.as_slice(),
            &mut self.unreachable_bytes,
            &mut self.root,
            filename,
            change,
            names_on_disk,
        );
        let ghost leaf0 = node.view_on(d);
        node.data = NodeData::Entry(entry);
        let ghost leaf1 = NodeView { data: NodeData::Entry(entry), ..leaf0 };
        if change.new_entry {
            self.nodes_with_entry_count = self.nodes_with_entry_count + 1;
        }
        proof {
            assert(self.tree() == put(t0, filename@, change.delta(), leaf1));
            tree::lemma_put_get(t0, filename@, change.delta(), leaf1, filename@);
            tree::lemma_put_wf(t0, filename@, change.delta(), leaf1);
            tree::lemma_put_maps(t0, filename@, change.delta(), leaf1);
        }
    }

    /// Records `entry` for `filename`, whatever was recorded before.
    /// `old_entry_opt` is the entry that is recorded now: the counters take
    /// up the difference between the two.
    pub fn set_entry(
        &mut self,
        filename: &[u8],
        old_entry_opt: Option<DirstateEntry>,
        entry: DirstateEntry,
    )
        requires
            old(self).wf(),
            entry.wf(),
            old_entry_opt == old(self).spec_get(filename@),
            old_entry_opt is None ==> old(self).nodes_with_entry_count < u32::MAX,
        ensures
            final(self).holds_entry_after(old(self), filename@, entry),
    {
        let (had_entry, was_tracked) = match old_entry_opt {
            Some(old_entry) => (true, old_entry.is_tracked()),
            None => (false, false),
        };
        let is_tracked = entry.is_tracked();
        let change = AncestorChange {
            new_entry: !had_entry,
            tracked_change: if was_tracked {
                if !is_tracked {
                    TrackedChange::Decrement
                } else {
                    TrackedChange::Keep
                }
            } else {
                if is_tracked {
                    TrackedChange::Increment
                } else {
                    TrackedChange::Keep
                }
            },
        };
        self.write_entry(filename, change, entry, false);
    }

    /// The entry that `reset_state` records.
    pub open spec fn reset_entry(
        wc_tracked: bool,
        p1_tracked: bool,
        p2_info: bool,
        has_meaningful_mtime: bool,
        parent_file_data_opt: Option<ParentFileData>,
    ) -> DirstateEntry {
        DirstateEntry {
            wc_tracked,
            p1_tracked,
            p2_info,
            mode_size: match parent_file_data_opt {
                Some(data) => data.mode_size,
                None => None,
            },
            mtime: match parent_file_data_opt {
                Some(data) => if has_meaningful_mtime {
                    data.mtime
                } else {
                    None
                },
                None => None,
            },
            fallback_exec: None,
            fallback_symlink: None,
        }
    }

    /// Mode, size and time of the parent file data are in range.
    pub open spec fn parent_data_in_range(parent_file_data_opt: Option<ParentFileData>) -> bool {
        parent_file_data_opt matches Some(data) ==> {
            &&& data.mode_size matches Some(ms) ==> ms.0 <= RANGE_MASK_31BIT && ms.1
                <= RANGE_MASK_31BIT
            &&& data.mtime matches Some(t) ==> t.wf()
        }
    }

    /// Sets the three flags of `filename` and the metadata of its parent
    /// file, whatever was recorded before. `old_entry_opt` is the entry
    /// that is recorded now.
    pub fn reset_state(
        &mut self,
        filename: &[u8],
        old_entry_opt: Option<DirstateEntry>,
        wc_tracked: bool,
        p1_tracked: bool,
        p2_info: bool,
        has_meaningful_mtime: bool,
        parent_file_data_opt: Option<ParentFileData>,
    ) -> (r: Result<(), DirstateError>)
        requires
            old(self).wf(),
            old_entry_opt == old(self).spec_get(filename@),
            Self::parent_data_in_range(parent_file_data_opt),
            old_entry_opt is None ==> old(self).nodes_with_entry_count < u32::MAX,
        ensures
            r is Ok,
            final(self).holds_entry_after(
                old(self),
                filename@,
                Self::reset_entry(
                    wc_tracked,
                    p1_tracked,
                    p2_info,
                    has_meaningful_mtime,
                    parent_file_data_opt,
                ),
            ),
    {
        let (had_entry, was_tracked) = match old_entry_opt {
            Some(old_entry) => (true, old_entry.is_tracked()),
            None => (false, false),
        };
        let change = AncestorChange {
            new_entry: !had_entry,
            tracked_change: if was_tracked {
                if !wc_tracked {
                    TrackedChange::Decrement
                } else {
                    TrackedChange::Keep
                }
            } else {
                if wc_tracked {
                    TrackedChange::Increment
                } else {
                    TrackedChange::Keep
                }
            },
        };
        let v2_data = if let Some(parent_file_data) = parent_file_data_opt {
            DirstateV2Data {
                wc_tracked,
                p1_tracked,
                p2_info,
                mode_size: parent_file_data.mode_size,
                mtime: if has_meaningful_mtime {
                    parent_file_data.mtime
                } else {
                    None
                },
                ..Default::default()
            }
        } else {
            DirstateV2Data { wc_tracked, p1_tracked, p2_info, ..Default::default() }
        };
        self.write_entry(filename, change, DirstateEntry::from_v2_data(v2_data), false);
        Ok(())
    }

    /// The entry that `set_tracked` records: a fresh tracked entry where
    /// there was none, else the old one marked tracked and possibly dirty.
    pub open spec fn tracked_entry(old_entry_opt: Option<DirstateEntry>) -> DirstateEntry {
        match old_entry_opt {
            Some(e) => if e.wc_tracked {
                e.spec_set_possibly_dirty()
            } else {
                e.spec_set_tracked()
            },
            None => DirstateEntry::spec_new_tracked(),
        }
    }

    /// Marks `filename` tracked in the working copy. Returns whether it was
    /// untracked or absent before. `old_entry_opt` is the entry that is
    /// recorded now.
    pub fn set_tracked(&mut self, filename: &[u8], old_entry_opt: Option<DirstateEntry>) -> (r:
        Result<bool, DirstateV2ParseError>)
        requires
            old(self).wf(),
            old_entry_opt == old(self).spec_get(filename@),
            old_entry_opt is None ==> old(self).nodes_with_entry_count < u32::MAX,
        ensures
            r == Ok::<bool, DirstateV2ParseError>(!is_tracked_entry(old_entry_opt)),
            final(self).holds_entry_after(old(self), filename@, Self::tracked_entry(old_entry_opt)),
    {
        let was_tracked = match old_entry_opt {
            Some(e) => e.is_tracked(),
            None => false,
        };
        let had_entry = old_entry_opt.is_some();
        let change = AncestorChange {
            new_entry: !had_entry,
            tracked_change: if was_tracked {
                TrackedChange::Keep
            } else {
                TrackedChange::Increment
            },
        };
        let mut new = false;
        proof {
            tree::lemma_entry_wf(self.tree(), filename@);
        }
        let new_entry = if let Some(old_entry) = old_entry_opt {
            let mut e = old_entry;
            if e.is_tracked() {
                e.set_possibly_dirty();
            } else {
                new = true;
                e.set_tracked();
            }
            e
        } else {
            new = true;
            DirstateEntry::new_tracked()
        };
        self.write_entry(filename, change, new_entry, false);
        Ok(new)
    }

    /// Marks `filename` untracked in the working copy. `old_entry` is the
    /// entry that is recorded now; it is tracked. The copy source is left
    /// alone.
    pub fn set_untracked(&mut self, filename: &[u8], old_entry: DirstateEntry) -> (r: Result<
        (),
        DirstateV2ParseError,
    >)
        requires
            old(self).wf(),
            Some(old_entry) == old(self).spec_get(filename@),
            old_entry.wc_tracked,
        ensures
            r is Ok,
            final(self).holds_entry_after(old(self), filename@, old_entry.spec_set_untracked()),
    {
        let change = AncestorChange { new_entry: false, tracked_change: TrackedChange::Decrement };
        let mut new_entry = old_entry;
        new_entry.set_untracked();
        self.write_entry(filename, change, new_entry, false);
        Ok(())
    }

    /// Records fresh metadata for `filename` and marks it clean.
    /// `old_entry` is the entry that is recorded now.
    pub fn set_clean(
        &mut self,
        filename: &[u8],
        old_entry: DirstateEntry,
        mode: u32,
        size: u32,
        mtime: TruncatedTimestamp,
    ) -> (r: Result<(), DirstateError>)
        requires
            old(self).wf(),
            Some(old_entry) == old(self).spec_get(filename@),
            mtime.wf(),
        ensures
            r is Ok,
            final(self).holds_entry_after(
                old(self),
                filename@,
                old_entry.spec_set_clean(mode, size, mtime),
            ),
    {
        let change = AncestorChange {
            new_entry: false,
            tracked_change: if !old_entry.is_tracked() {
                TrackedChange::Increment
            } else {
                TrackedChange::Keep
            },
        };
        let mut new_entry = old_entry;
        new_entry.set_clean(mode, size, mtime);
        self.write_entry(filename, change, new_entry, false);
        Ok(())
    }

    /// Marks the entry of `filename` possibly dirty. There is an entry.
    pub fn set_possibly_dirty(&mut self, filename: &[u8]) -> (r: Result<(), DirstateError>)
        requires
            old(self).wf(),
            old(self).spec_get(filename@) is Some,
        ensures
            r is Ok,
            final(self).holds_entry_after(
                old(self),
                filename@,
                old(self).spec_get(filename@).unwrap().spec_set_possibly_dirty(),
            ),
    {
        let ghost d = self.on_disk@;
        let ghost t0 = self.tree();
        let ghost old_entry = self.spec_get(filename@).unwrap();
        let ghost zero = CountChange { entries: 0, tracked_entries: 0 };
        let node = Self::get_or_insert_node(
            self.on_disk.as_slice(),
            &mut self.unreachable_bytes,
            &mut self.root,
            filename,
            Self::no_change(),
            false,
        );
        let ghost leaf0 = node.view_on(d);
        proof {
            tree::lemma_put_get(t0, filename@, zero, leaf0, filename@);
            tree::lemma_entry_wf(t0, filename@);
        }
        match node.data.as_entry_mut() {
            Some(entry) => {
                entry.set_possibly_dirty();
            },
            None => {},
        }
        let ghost entry = old_entry.spec_set_possibly_dirty();
        let ghost leaf1 = NodeView { data: NodeData::Entry(entry), ..leaf0 };
        proof {
            assert(self.tree() == put(t0, filename@, zero, leaf1));
            tree::lemma_put_wf(t0, filename@, zero, leaf1);
            tree::lemma_put_maps(t0, filename@, zero, leaf1);
        }
        Ok(())
    }

    /// The map is `old` with `entry` and `copy` recorded for `path`, and
    /// every other path as in `old`. The two counters count what is recorded
    /// now.
    pub open spec fn edited_at(
        &self,
        old: &Self,
        path: Seq<u8>,
        entry: Option<DirstateEntry>,
        copy: Option<Seq<u8>>,
    ) -> bool {
        &&& self.wf()
        &&& self.same_bytes_as(old)
        &&& forall|q: Seq<u8>| #[trigger]
            self.spec_get(q) == if q == path {
                entry
            } else {
                old.spec_get(q)
            }
        &&& forall|q: Seq<u8>| #[trigger]
            self.spec_copy_source(q) == if q == path {
                copy
            } else {
                old.spec_copy_source(q)
            }
        &&& self.nodes_with_entry_count + flag_int(old.spec_get(path) is Some)
            == old.nodes_with_entry_count + flag_int(entry is Some)
        &&& self.nodes_with_copy_source_count + flag_int(old.spec_copy_source(path) is Some)
            == old.nodes_with_copy_source_count + flag_int(copy is Some)
    }

    /// Hands out the node at `path` for writing, creating it and the
    /// directories on the way where they are missing. No counter changes.
    pub fn get_or_insert<'tree>(&'tree mut self, path: &[u8]) -> (leaf: &'tree mut Node)
        requires
            old(self).wf(),
        ensures
            leaf.view_on(old(self).on_disk@) == leaf_at(old(self).tree(), path@),
            leaf.repr_ok(old(self).on_disk@),
            final(self).on_disk == old(self).on_disk,
            final(self).ignore_patterns_hash == old(self).ignore_patterns_hash,
            final(self).nodes_with_entry_count == old(self).nodes_with_entry_count,
            final(self).nodes_with_copy_source_count == old(self).nodes_with_copy_source_count,
            final(self).walked(old(self), path@, 0),
            final(self).tree() == put(
                old(self).tree(),
                path@,
                CountChange { entries: 0, tracked_entries: 0 },
                final(leaf).view_on(old(self).on_disk@),
            ),
            final(leaf).repr_ok(old(self).on_disk@) ==> final(self).root.repr_ok(
                old(self).on_disk@,
            ),
            match old(self).root.leaf_shape(old(self).on_disk@, path@) {
                Some(shape) => leaf.shape() == shape,
                None => leaf.shape().is_fresh(old(self).on_disk@, false),
            },
            final(leaf).name == leaf.name ==> final(self).kept_off(old(self), path@),
    {
        Self::get_or_insert_node(
            self.on_disk.as_slice(),
            &mut self.unreachable_bytes,
            &mut self.root,
            path,
            Self::no_change(),
            false,
        )
    }

    /// Drops the entry and the copy source of `filename`, and every
    /// directory on the way to it that is left with nothing below it.
    pub fn drop_entry_and_copy_source(&mut self, filename: &[u8])
        requires
            old(self).wf(),
        ensures
            final(self).edited_at(old(self), filename@, None, None),
            final(self).counted_drop(old(self), filename@),
            final(self).kept_beside(old(self), filename@),
            final(self).tree() == drop_spec(old(self).tree(), filename@).tree,
            forall|q: Seq<u8>|
                q != filename@ && !is_ancestor_path(q, filename@) ==> #[trigger] final(self).spec_node(q) == old(self).spec_node(q),
            forall|q: Seq<u8>|
                old(self).spec_node(filename@) is Some && (q == filename@ || is_ancestor_path(
                    q,
                    filename@,
                )) ==> (#[trigger] final(self).spec_node(q) matches Some(n) ==> !is_removable(n)),
    {
        let ghost t0 = self.tree();
        proof {
            tree::lemma_drop_wf(t0, filename@);
            tree::lemma_drop_maps(t0, filename@);
        }
        match drop_at_path(
            self.on_disk.as_slice(),
            &mut self.unreachable_bytes,
            &mut self.root,
            filename,
        ) {
            Some((dropped, _removed)) => {
                if dropped.had_entry {
                    self.nodes_with_entry_count = self.nodes_with_entry_count - 1;
                }
                if dropped.had_copy_source {
                    self.nodes_with_copy_source_count = self.nodes_with_copy_source_count - 1;
                }
            },
            None => {},
        }
    }

    /// Forgets the copy source of `key`, and returns it.
    pub fn copy_map_remove(&mut self, key: &[u8]) -> (r: Option<Vec<u8>>)
        requires
            old(self).wf(),
        ensures
            r is Some <==> old(self).spec_copy_source(key@) is Some,
            r matches Some(source) ==> Some(source@) == old(self).spec_copy_source(key@),
            final(self).edited_at(old(self), key@, old(self).spec_get(key@), None),
            forall|q: Seq<u8>| #[trigger] final(self).spec_data(q) == old(self).spec_data(q),
            final(self).walked(old(self), key@, old(self).spec_copy_on_disk_len(key@)),
            final(self).kept_off(old(self), key@),
    {
        let ghost d = self.on_disk@;
        let ghost t0 = self.tree();
        let ghost zero = CountChange { entries: 0, tracked_entries: 0 };
        let ghost u0 = self.unreachable_bytes;
        let ghost walk = self.spec_walk_cost(key@);
        let found = Self::get_node_mut(
            self.on_disk.as_slice(),
            &mut self.unreachable_bytes,
            &mut self.root,
            key,
        );
        proof {
            tree::lemma_leaf_at_is_get(t0, key@);
        }
        match found {
            Some(node) => {
                let ghost leaf0 = node.view_on(d);
                let taken = node.copy_source.take();
                let ghost leaf1 = NodeView { copy_source: None, ..leaf0 };
                proof {
                    assert(node.view_on(d) == leaf1);
                    tree::lemma_leaf_at_wf(t0, key@);
                    tree::lemma_put_get(t0, key@, zero, leaf1, key@);
                    tree::lemma_put_wf(t0, key@, zero, leaf1);
                    tree::lemma_put_maps(t0, key@, zero, leaf1);
                    tree::lemma_put_existing(t0, key@, zero, leaf1);
                }
                match taken {
                    Some(source) => {
                        self.nodes_with_copy_source_count = self.nodes_with_copy_source_count - 1;
                        proof {
                            lemma_saturating_sum_twice(u0, walk, source@.len());
                        }
                        Self::count_dropped_path(&mut self.unreachable_bytes, &source);
                        Some(source.bytes)
                    },
                    None => None,
                }
            },
            None => None,
        }
    }

    /// Records `value` as the copy source of `key`, creating the node where
    /// it is missing, and returns the copy source that was recorded before.
    pub fn copy_map_insert(&mut self, key: &[u8], value: Vec<u8>) -> (r: Option<Vec<u8>>)
        requires
            old(self).wf(),
            old(self).spec_copy_source(key@) is None ==> old(self).nodes_with_copy_source_count
                < u32::MAX,
        ensures
            r is Some <==> old(self).spec_copy_source(key@) is Some,
            r matches Some(source) ==> Some(source@) == old(self).spec_copy_source(key@),
            final(self).edited_at(old(self), key@, old(self).spec_get(key@), Some(value@)),
            final(self).walked(old(self), key@, 0),
            old(self).spec_all_decoded() ==> final(self).spec_all_decoded(),
            final(self).other_data_kept(old(self), key@),
            final(self).data_kept_at(old(self), key@),
            final(self).kept_off(old(self), key@),
    {
        self.insert_copy_source(key, TreePath { bytes: value, on_disk: false }, false)
    }

    /// `copy_map_insert`, for a copy source and for names that may lie in
    /// the serialized bytes.
    pub fn insert_copy_source(&mut self, key: &[u8], value: TreePath, names_on_disk: bool) -> (r:
        Option<Vec<u8>>)
        requires
            old(self).wf(),
            old(self).spec_copy_source(key@) is None ==> old(self).nodes_with_copy_source_count
                < u32::MAX,
        ensures
            r is Some <==> old(self).spec_copy_source(key@) is Some,
            r matches Some(source) ==> Some(source@) == old(self).spec_copy_source(key@),
            final(self).edited_at(old(self), key@, old(self).spec_get(key@), Some(value@)),
            final(self).walked(old(self), key@, 0),
            old(self).spec_all_decoded() ==> final(self).spec_all_decoded(),
            final(self).other_data_kept(old(self), key@),
            final(self).data_kept_at(old(self), key@),
            final(self).kept_off(old(self), key@),
    {
        let ghost d = self.on_disk@;
        let ghost t0 = self.tree();
        let ghost zero = CountChange { entries: 0, tracked_entries: 0 };
        let ghost source = value@;
        let node = Self::get_or_insert_node(
            self.on_disk.as_slice(),
            &mut self.unreachable_bytes,
            &mut self.root,
            key,
            Self::no_change(),
            names_on_disk,
        );
        let ghost leaf0 = node.view_on(d);
        let had_none = node.copy_source.is_none();
        let before = node.copy_source.take();
        node.copy_source = Some(value);
        let ghost leaf1 = NodeView { copy_source: Some(source), ..leaf0 };
        proof {
            assert(node.view_on(d) == leaf1);
            tree::lemma_leaf_at_wf(t0, key@);
            tree::lemma_put_get(t0, key@, zero, leaf1, key@);
            tree::lemma_put_wf(t0, key@, zero, leaf1);
            tree::lemma_put_maps(t0, key@, zero, leaf1);
        }
        if had_none {
            self.nodes_with_copy_source_count = self.nodes_with_copy_source_count + 1;
        }
        match before {
            Some(source) => Some(source.bytes),
            None => None,
        }
    }

    /// No change to the counters of the ancestors.
    pub fn no_change() -> (r: AncestorChange)
        ensures
            r.delta() == (CountChange { entries: 0, tracked_entries: 0 }),
            !r.new_entry,
            r.tracked_change is Keep,
    {
        AncestorChange { new_entry: false, tracked_change: TrackedChange::Keep }
    }

    /// Counts the bytes of a dropped path as unreachable, where the serialized
    /// tree holds them.
    pub fn count_dropped_path(unreachable_bytes: &mut u32, path: &TreePath)
        ensures
            *final(unreachable_bytes) == (if path.on_disk {
                saturating_sum(*old(unreachable_bytes), path@.len())
            } else {
                *old(unreachable_bytes)
            }),
    {
        if path.on_disk {
            add_unreachable(unreachable_bytes, path.bytes.len());
        }
    }

    /// Hands out the node at `path` for writing, if the tree has one. Each
    /// level on the way is decoded first.
    pub fn get_node_mut<'tree>(
        on_disk: &[u8],
        unreachable_bytes: &mut u32,
        root: &'tree mut ChildNodes,
        path: &[u8],
    ) -> (r: Option<&'tree mut Node>)
        requires
            old(root).repr_ok(on_disk@),
            level_wf(old(root).view_on(on_disk@)),
        ensures
            r is Some <==> tree_get(old(root).view_on(on_disk@), path@) is Some,
            r matches Some(leaf) ==> {
                &&& Some(leaf.view_on(on_disk@)) == tree_get(old(root).view_on(on_disk@), path@)
                &&& leaf.repr_ok(on_disk@)
                &&& final(root).view_on(on_disk@) == put(
                    old(root).view_on(on_disk@),
                    path@,
                    CountChange { entries: 0, tracked_entries: 0 },
                    final(leaf).view_on(on_disk@),
                )
                &&& final(leaf).repr_ok(on_disk@) ==> final(root).repr_ok(on_disk@)
                &&& Some(leaf.shape()) == old(root).leaf_shape(on_disk@, path@)
            },
            r is None ==> final(root).view_on(on_disk@) == old(root).view_on(on_disk@),
            r is None ==> final(root).repr_ok(on_disk@),
            *final(unreachable_bytes) == saturating_sum(
                *old(unreachable_bytes),
                old(root).walk_cost(on_disk@, path@),
            ),
            final(root).walk_cost(on_disk@, path@) == 0,
            (r matches Some(leaf) ==> final(leaf).name == leaf.name) ==> ChildNodes::kept_off_path(
                Some(*old(root)),
                *final(root),
                on_disk@,
                path@,
            ),
        decreases path@.len(),
    {
        let ghost d = on_disk@;
        let ghost old_view = old(root).view_on(d);
        let ghost fin_root = *final(root);
        let ghost root0 = *old(root);
        let ghost u0 = *old(unreachable_bytes);
        let (first, rest) = split_first_component(path);
        proof {
            lemma_split_join(path@);
        }
        let nodes = root.make_mut(on_disk, unreachable_bytes);
        proof {
            lemma_in_memory_view(*nodes, d);
        }
        let (found, i) = search_nodes(nodes, first);
        if !found {
            proof {
                assert forall|name: Seq<u8>| #[trigger]
                    ChildNodes::InMemory(*nodes).shape_of(d, name) == root0.shape_of(d, name) by {
                    lemma_decoded_keeps_shapes(root0, *nodes, d, name);
                }
                assert(is_insert_pos(old_view, first@, i as int)) by {
                    assert forall|k: int| 0 <= k < old_view.len() implies old_view[k].name
                        == nodes@[k].name.bytes@ by {}
                }
                tree::lemma_insert_pos(old_view, first@, i as int);
                assert(root0.shape_of(d, first@) is None);
                assert(fin_root.view_on(d) == old_view);
                assert(fin_root.shape_of(d, first@) is None);
            }
            return None;
        }
        let ghost level_nodes = nodes@;
        proof {
            assert(old_view[i as int].name == first@);
            tree::lemma_child_at(old_view, first@, i as int);
            assert(node_wf(old_view[i as int]));
        }
        let ghost fin_nodes = *final(nodes);
        let child = &mut nodes[i];
        proof {
            lemma_view_update(level_nodes, fin_nodes@, i as int, d);
            lemma_in_memory_view(fin_nodes, d);
            assert(fin_root.view_on(d) == old_view.update(i as int, final(child).view_on(d)));
        }
        match rest {
            Some(rest) => {
                let ghost fin_child = *final(child);
                let ghost child_now = *child;
                let ghost below = child.children;
                proof {
                    assert(level_nodes[i as int].shape() == root0.shape_at(d, i as int));
                    assert(root0.shape_of(d, first@) == Some(root0.shape_at(d, i as int)));
                    assert(root0.walk_cost(d, path@) == root0.spec_disk_len() + below.walk_cost(
                        d,
                        rest@,
                    ));
                    lemma_saturating_sum_twice(u0, root0.spec_disk_len(), below.walk_cost(d, rest@));
                }
                let r = Self::get_node_mut(on_disk, unreachable_bytes, &mut child.children, rest);
                proof {
                    if r is None {
                        assert(fin_child.view_on(d) == child_now.view_on(d));
                        assert(fin_root.view_on(d) =~= old_view);
                    }
                    assert(fin_child.name == level_nodes[i as int].name);
                    tree::lemma_update_lookup(old_view, i as int, fin_child.view_on(d), first@);
                    assert(fin_root.shape_of(d, first@) == Some(fin_child.shape()));
                    assert(fin_root.walk_cost(d, path@) == fin_child.children.walk_cost(d, rest@));
                    assert((r matches Some(leaf) ==> final(leaf).name == leaf.name)
                        ==> ChildNodes::kept_off_path(Some(root0), fin_root, d, path@)) by {
                        if (r matches Some(leaf) ==> final(leaf).name == leaf.name) {
                            lemma_level_kept(
                                root0,
                                level_nodes,
                                level_nodes,
                                fin_nodes,
                                i as int,
                                d,
                                path@,
                            );
                        }
                    }
                }
                r
            },
            None => {
                proof {
                    assert(level_nodes[i as int].shape() == root0.shape_at(d, i as int));
                    assert(root0.shape_of(d, first@) == Some(root0.shape_at(d, i as int)));
                    assert(final(child).name == child.name ==> ChildNodes::kept_off_path(
                        Some(root0),
                        fin_root,
                        d,
                        path@,
                    )) by {
                        if final(child).name == child.name {
                            lemma_level_kept(
                                root0,
                                level_nodes,
                                level_nodes,
                                fin_nodes,
                                i as int,
                                d,
                                path@,
                            );
                        }
                    }
                }
                Some(child)
            },
        }
    }

    /// Walks to the node at `path`, creating empty nodes where the path has
    /// none, and hands the node out for writing. Each level on the way is
    /// decoded first. The counters of every strict ancestor take up `change`.
    ///
    /// Names of created nodes are marked as lying in the serialized tree where
    /// `names_on_disk` is set.
    pub fn get_or_insert_node<'tree>(
        on_disk: &[u8],
        unreachable_bytes: &mut u32,
        root: &'tree mut ChildNodes,
        path: &[u8],
        change: AncestorChange,
        names_on_disk: bool,
    ) -> (leaf: &'tree mut Node)
        requires
            old(root).repr_ok(on_disk@),
            level_wf(old(root).view_on(on_disk@)),
            change.new_entry ==> level_entries(old(root).view_on(on_disk@)) < u32::MAX,
            change.tracked_change is Increment ==> level_tracked(old(root).view_on(on_disk@))
                < u32::MAX,
            change.tracked_change is Decrement ==> (tree_get(old(root).view_on(on_disk@), path@)
                matches Some(n) && n.data.is_tracked()),
        ensures
            leaf.view_on(on_disk@) == leaf_at(old(root).view_on(on_disk@), path@),
            leaf.repr_ok(on_disk@),
            final(root).view_on(on_disk@) == put(
                old(root).view_on(on_disk@),
                path@,
                change.delta(),
                final(leaf).view_on(on_disk@),
            ),
            final(leaf).repr_ok(on_disk@) ==> final(root).repr_ok(on_disk@),
            *final(unreachable_bytes) == saturating_sum(
                *old(unreachable_bytes),
                old(root).walk_cost(on_disk@, path@),
            ),
            final(root).walk_cost(on_disk@, path@) == 0,
            old(root).all_decoded() ==> leaf.children.all_decoded(),
            old(root).all_decoded() && final(leaf).children.all_decoded() ==> final(root).all_decoded(),
            match old(root).leaf_shape(on_disk@, path@) {
                Some(shape) => leaf.shape() == shape,
                None => leaf.shape().is_fresh(on_disk@, names_on_disk),
            },
            final(leaf).name == leaf.name ==> ChildNodes::kept_off_path(
                Some(*old(root)),
                *final(root),
                on_disk@,
                path@,
            ),
        decreases path@.len(),
    {
        let ghost d = on_disk@;
        let ghost old_view = old(root).view_on(d);
        let ghost fin_root = *final(root);
        let ghost root0 = *old(root);
        let ghost u0 = *old(unreachable_bytes);
        let (first, rest) = split_first_component(path);
        proof {
            lemma_split_join(path@);
        }
        let nodes = root.make_mut(on_disk, unreachable_bytes);
        let ghost decoded = nodes@;
        proof {
            lemma_in_memory_view(*nodes, d);
        }
        let i = find_or_insert_child(nodes, first, names_on_disk, Ghost(d));
        let ghost level_nodes = nodes@;
        let ghost level = with_child(old_view, first@);
        proof {
            lemma_in_memory_view(*nodes, d);
            tree::lemma_with_child_sums(old_view, first@);
            tree::lemma_sum_by_bound(level, i as int, entry_weight_fn());
            tree::lemma_sum_by_bound(level, i as int, tracked_weight_fn());
            if has_child(old_view, first@) {
                assert(node_wf(level[i as int]));
            }
            assert(node_wf(level[i as int]));
            if change.tracked_change is Decrement && has_rest(path@) {
                tree::lemma_tracked_leaf_counted(level[i as int].children, rest_of_path(path@));
            }
        }
        let ghost fin_nodes = *final(nodes);
        let child = &mut nodes[i];
        proof {
            lemma_view_update(level_nodes, fin_nodes@, i as int, d);
            lemma_in_memory_view(fin_nodes, d);
            assert(fin_root.view_on(d) == level.update(i as int, final(child).view_on(d)));
            if root0.all_decoded() {
                assert(ChildNodes::nodes_decoded(decoded));
                assert(ChildNodes::nodes_decoded(level_nodes));
                assert(final(child).children.all_decoded() ==> fin_root.all_decoded()) by {
                    if final(child).children.all_decoded() {
                        assert forall|k: int| 0 <= k < fin_nodes@.len() implies (
                        #[trigger] fin_nodes@[k]).children.all_decoded() by {
                            if k != i {
                                assert(fin_nodes@[k] == level_nodes[k]);
                            }
                        }
                    }
                }
            }
        }
        match rest {
            Some(rest) => {
                apply_change(child, change);
                let ghost below = child.children;
                let ghost fin_child = *final(child);
                proof {
                    // What the walk costs below this level.
                    if has_child(old_view, first@) {
                        assert(decoded[i as int].shape() == root0.shape_at(d, i as int));
                        assert(root0.shape_of(d, first@) == Some(root0.shape_at(d, i as int)));
                        assert(below == root0.shape_at(d, i as int).children);
                    } else {
                        assert(root0.shape_of(d, first@) is None);
                        assert(level[i as int] == empty_node(first@));
                        assert(below.view_on(d).len() == 0);
                        assert(below.walk_cost(d, rest@) == 0);
                    }
                    assert(root0.walk_cost(d, path@) == root0.spec_disk_len() + below.walk_cost(
                        d,
                        rest@,
                    ));
                    lemma_saturating_sum_twice(u0, root0.spec_disk_len(), below.walk_cost(d, rest@));
                }
                let leaf = Self::get_or_insert_node(
                    on_disk,
                    unreachable_bytes,
                    &mut child.children,
                    rest,
                    change,
                    names_on_disk,
                );
                proof {
                    // Once walked, the way is decoded.
                    assert(fin_child.name == level_nodes[i as int].name);
                    tree::lemma_update_lookup(level, i as int, fin_child.view_on(d), first@);
                    assert(fin_root.shape_of(d, first@) == Some(fin_child.shape()));
                    assert(fin_root.walk_cost(d, path@) == fin_child.children.walk_cost(d, rest@));
                    // What the walk leaves alone.
                    if !has_child(old_view, first@) {
                        assert(below.leaf_shape(d, rest@) is None);
                    }
                    assert(final(leaf).name == leaf.name ==> ChildNodes::kept_off_path(
                        Some(root0),
                        fin_root,
                        d,
                        path@,
                    )) by {
                        if final(leaf).name == leaf.name {
                            lemma_level_kept(
                                root0,
                                decoded,
                                level_nodes,
                                fin_nodes,
                                i as int,
                                d,
                                path@,
                            );
                        }
                    }
                }
                leaf
            },
            None => {
                proof {
                    if has_child(old_view, first@) {
                        assert(decoded[i as int].shape() == root0.shape_at(d, i as int));
                        assert(root0.shape_of(d, first@) == Some(root0.shape_at(d, i as int)));
                    }
                    assert(final(child).name == child.name ==> ChildNodes::kept_off_path(
                        Some(root0),
                        fin_root,
                        d,
                        path@,
                    )) by {
                        if final(child).name == child.name {
                            lemma_level_kept(
                                root0,
                                decoded,
                                level_nodes,
                                fin_nodes,
                                i as int,
                                d,
                                path@,
                            );
                        }
                    }
                }
                child
            },
        }
    }
}

/// Drops the entry and the copy source at `path`, and then every node on
/// the way back that nothing keeps in the tree. Says what was at the path,
/// and whether the node of this level was removed; nothing where the path
/// has no node.
#[verifier::rlimit(40)]
pub fn drop_at_path(
    on_disk: &[u8],
    unreachable_bytes: &mut u32,
    nodes: &mut ChildNodes,
    path: &[u8],
) -> (r: Option<(Dropped, bool)>)
    requires
        old(nodes).repr_ok(on_disk@),
        level_wf(old(nodes).view_on(on_disk@)),
    ensures
        final(nodes).view_on(on_disk@) == drop_spec(old(nodes).view_on(on_disk@), path@).tree,
        final(nodes).repr_ok(on_disk@),
        r is Some == drop_spec(old(nodes).view_on(on_disk@), path@).found,
        r matches Some(out) ==> out.0 == drop_spec(old(nodes).view_on(on_disk@), path@).dropped
            && out.1 == drop_spec(old(nodes).view_on(on_disk@), path@).removed,
        *final(unreachable_bytes) == saturating_sum(
            *old(unreachable_bytes),
            old(nodes).walk_cost(on_disk@, path@) + old(nodes).dropped_bytes(on_disk@, path@),
        ),
        old(nodes).kept_beside(*final(nodes), on_disk@, path@),
    decreases path@.len(),
{
    let ghost d = on_disk@;
    let ghost old_view = old(nodes).view_on(d);
    let ghost root0 = *old(nodes);
    let ghost u0 = *old(unreachable_bytes);
    let (first, rest) = split_first_component(path);
    proof {
        lemma_split_join(path@);
    }
    let level = nodes.make_mut(on_disk, unreachable_bytes);
    proof {
        lemma_in_memory_view(*level, d);
    }
    let (found, i) = search_nodes(level, first);
    if !found {
        proof {
            assert(is_insert_pos(old_view, first@, i as int)) by {
                assert forall|k: int| 0 <= k < old_view.len() implies old_view[k].name
                    == level@[k].name.bytes@ by {}
            }
            tree::lemma_insert_pos(old_view, first@, i as int);
            assert(root0.shape_of(d, first@) is None);
            lemma_decoded_kept_beside(root0, *level, d, path@);
        }
        return None;
    }
    let ghost before = level@;
    let ghost shape = before[i as int].shape();
    let ghost walk = root0.walk_cost(d, path@);
    let ghost gone = root0.dropped_bytes(d, path@);
    proof {
        assert(old_view[i as int].name == first@);
        tree::lemma_child_at(old_view, first@, i as int);
        assert(node_wf(old_view[i as int]));
        assert(shape == root0.shape_at(d, i as int));
        assert(root0.shape_of(d, first@) == Some(shape));
    }
    let node = &mut level[i];
    let ghost mut spent: nat = root0.spec_disk_len();
    let dropped;
    match rest {
        Some(rest) => {
            proof {
                tree::lemma_drop_wf(old_view[i as int].children, rest@);
                tree::lemma_drop_what(old_view[i as int].children, rest@);
                assert(node.children == shape.children);
                lemma_saturating_sum_twice(
                    u0,
                    spent,
                    shape.children.walk_cost(d, rest@) + shape.children.dropped_bytes(d, rest@),
                );
                spent = spent + shape.children.walk_cost(d, rest@) + shape.children.dropped_bytes(
                    d,
                    rest@,
                );
            }
            match drop_at_path(on_disk, unreachable_bytes, &mut node.children, rest) {
                Some((below, removed)) => {
                    dropped = below;
                    if dropped.had_entry {
                        node.descendants_with_entry_count = node.descendants_with_entry_count - 1;
                    }
                    if dropped.was_tracked {
                        node.tracked_descendants_count = node.tracked_descendants_count - 1;
                    }
                    if removed {
                        if let NodeData::CachedDirectory { .. } = node.data {
                            node.data = NodeData::Empty;
                        }
                    }
                },
                None => {
                    proof {
                        lemma_view_update(before, level@, i as int, d);
                        lemma_in_memory_view(*level, d);
                        assert(nodes_view(level@, d) =~= old_view);
                        assert(shape.children.dropped_bytes(d, rest@) == 0) by {
                            lemma_nothing_dropped(shape.children, d, rest@);
                        }
                        assert(gone == 0);
                        lemma_level_kept_beside(root0, before, *level, i as int, d, path@);
                    }
                    return None;
                },
            }
        },
        None => {
            let had_entry = node.data.has_entry();
            let was_tracked = match node.data {
                NodeData::Entry(e) => e.is_tracked(),
                _ => false,
            };
            if had_entry {
                node.data = NodeData::Empty;
            }
            let mut had_copy_source = false;
            if let Some(source) = &node.copy_source {
                proof {
                    if source.on_disk {
                        lemma_saturating_sum_twice(u0, spent, source@.len());
                        spent = spent + source@.len();
                    }
                }
                DirstateMap::count_dropped_path(unreachable_bytes, source);
                had_copy_source = true;
            }
            node.copy_source = None;
            dropped = Dropped { was_tracked, had_entry, had_copy_source };
        },
    }
    let remove = !node.data.has_entry() && node.copy_source.is_none() && node.children.is_empty();
    proof {
        lemma_view_update(before, level@, i as int, d);
        lemma_in_memory_view(*level, d);
        assert(remove == is_removable(level@[i as int].view_on(d)));
    }
    proof {
        assert(*unreachable_bytes == saturating_sum(u0, spent));
    }
    if remove {
        let ghost kept = level@;
        let removed = level.remove(i);
        proof {
            assert(removed.name == before[i as int].name);
            if removed.name.on_disk {
                lemma_saturating_sum_twice(u0, spent, removed.name@.len());
                spent = spent + removed.name@.len();
            }
        }
        DirstateMap::count_dropped_path(unreachable_bytes, &removed.name);
        proof {
            lemma_view_remove(kept, i as int, d);
            lemma_in_memory_view(*level, d);
            lemma_removed_kept_beside(root0, before, *level, i as int, d, path@);
        }
    } else {
        proof {
            lemma_level_kept_beside(root0, before, *level, i as int, d, path@);
        }
    }
    proof {
        assert(spent == walk + gone);
    }
    Some((dropped, remove))
}

/// A level that does not change is left alone by a drop.
pub proof fn lemma_kept_beside_same(level: ChildNodes, d: Seq<u8>, path: Seq<u8>)
    ensures
        level.kept_beside(level, d, path),
    decreases path.len(),
{
    if has_rest(path) && rest_of_path(path).len() < path.len() {
        match level.shape_of(d, first_component(path)) {
            Some(shape) => {
                lemma_kept_beside_same(shape.children, d, rest_of_path(path));
            },
            None => {},
        }
    }
}

/// A level that is decoded and not changed is left alone by a drop.
pub proof fn lemma_decoded_kept_beside(
    root0: ChildNodes,
    decoded: Vec<Node>,
    d: Seq<u8>,
    path: Seq<u8>,
)
    requires
        root0.view_on(d) == nodes_view(decoded@, d),
        forall|k: int| 0 <= k < decoded@.len() ==> (#[trigger] decoded@[k]).shape()
            == root0.shape_at(d, k),
    ensures
        root0.kept_beside(ChildNodes::InMemory(decoded), d, path),
{
    let after = ChildNodes::InMemory(decoded);
    assert forall|name: Seq<u8>| #[trigger] after.shape_of(d, name) == root0.shape_of(d, name) by {
        lemma_decoded_keeps_shapes(root0, decoded, d, name);
    }
    if has_rest(path) && rest_of_path(path).len() < path.len() {
        match root0.shape_of(d, first_component(path)) {
            Some(shape) => {
                lemma_kept_beside_same(shape.children, d, rest_of_path(path));
            },
            None => {},
        }
    }
}

/// A drop that goes through the node at `i` of a level and leaves the node
/// there leaves alone what `kept_beside` says, given that it does so below
/// that node.
pub proof fn lemma_level_kept_beside(
    root0: ChildNodes,
    decoded: Seq<Node>,
    fin: Vec<Node>,
    i: int,
    d: Seq<u8>,
    path: Seq<u8>,
)
    requires
        names_sorted(root0.view_on(d)),
        root0.view_on(d) == nodes_view(decoded, d),
        forall|k: int| 0 <= k < decoded.len() ==> (#[trigger] decoded[k]).shape() == root0.shape_at(
            d,
            k,
        ),
        0 <= i < decoded.len(),
        decoded[i].name.bytes@ == first_component(path),
        fin@.len() == decoded.len(),
        forall|k: int| 0 <= k < decoded.len() && k != i ==> fin@[k] == decoded[k],
        fin@[i].name.bytes@ == first_component(path),
        has_rest(path) && rest_of_path(path).len() < path.len() ==> {
            &&& fin@[i].shape().name_on_disk == decoded[i].shape().name_on_disk
            &&& fin@[i].shape().copy_on_disk == decoded[i].shape().copy_on_disk
            &&& decoded[i].children.kept_beside(fin@[i].children, d, rest_of_path(path))
        },
    ensures
        root0.kept_beside(ChildNodes::InMemory(fin), d, path),
{
    let first = first_component(path);
    let after = ChildNodes::InMemory(fin);
    let old_view = root0.view_on(d);
    assert(old_view[i].name == first);
    tree::lemma_child_at(old_view, first, i);
    assert forall|name: Seq<u8>| name != first implies #[trigger] after.shape_of(d, name)
        == root0.shape_of(d, name) by {
        lemma_others_keep_shape(root0, decoded, decoded, fin, i, first, d, name);
    }
    if has_rest(path) && rest_of_path(path).len() < path.len() {
        let fin_view = after.view_on(d);
        lemma_in_memory_view(fin, d);
        assert forall|k: int| 0 <= k < decoded.len() implies (#[trigger] fin_view[k]).name
            == old_view[k].name by {
            if k != i {
                assert(fin@[k] == decoded[k]);
            }
        }
        assert forall|a: int, b: int| 0 <= a < b < fin_view.len() implies bytes_lt(
            #[trigger] fin_view[a].name,
            #[trigger] fin_view[b].name,
        ) by {
            assert(bytes_lt(old_view[a].name, old_view[b].name));
        }
        tree::lemma_child_at(fin_view, first, i);
        assert(after.shape_of(d, first) == Some(fin@[i].shape()));
        assert(root0.shape_of(d, first) == Some(decoded[i].shape()));
    }
}

/// A drop that removes the node at `i` of a level leaves the other nodes
/// in their shape.
pub proof fn lemma_removed_kept_beside(
    root0: ChildNodes,
    decoded: Seq<Node>,
    fin: Vec<Node>,
    i: int,
    d: Seq<u8>,
    path: Seq<u8>,
)
    requires
        names_sorted(root0.view_on(d)),
        root0.view_on(d) == nodes_view(decoded, d),
        forall|k: int| 0 <= k < decoded.len() ==> (#[trigger] decoded[k]).shape() == root0.shape_at(
            d,
            k,
        ),
        0 <= i < decoded.len(),
        decoded[i].name.bytes@ == first_component(path),
        fin@.len() == decoded.len() - 1,
        forall|k: int| 0 <= k < i ==> fin@[k] == decoded[k],
        forall|k: int| i <= k < fin@.len() ==> fin@[k] == decoded[k + 1],
    ensures
        root0.kept_beside(ChildNodes::InMemory(fin), d, path),
{
    let first = first_component(path);
    let after = ChildNodes::InMemory(fin);
    let old_view = root0.view_on(d);
    let fin_view = after.view_on(d);
    lemma_in_memory_view(fin, d);
    assert forall|a: int, b: int| 0 <= a < b < fin_view.len() implies bytes_lt(
        #[trigger] fin_view[a].name,
        #[trigger] fin_view[b].name,
    ) by {
        let a0 = if a < i {
            a
        } else {
            a + 1
        };
        let b0 = if b < i {
            b
        } else {
            b + 1
        };
        assert(fin@[a] == decoded[a0]);
        assert(fin@[b] == decoded[b0]);
        assert(bytes_lt(old_view[a0].name, old_view[b0].name));
    }
    assert(old_view[i].name == first);
    assert forall|name: Seq<u8>| name != first implies #[trigger] after.shape_of(d, name)
        == root0.shape_of(d, name) by {
        if has_child(old_view, name) {
            let c = child_at(old_view, name);
            assert(c != i);
            let c2 = if c < i {
                c
            } else {
                c - 1
            };
            assert(fin@[c2] == decoded[c]);
            assert(fin_view[c2].name == name);
            tree::lemma_child_at(fin_view, name, c2);
            assert(after.shape_at(d, c2) == fin@[c2].shape());
        } else {
            if has_child(fin_view, name) {
                let k = child_at(fin_view, name);
                let k0 = if k < i {
                    k
                } else {
                    k + 1
                };
                assert(fin@[k] == decoded[k0]);
                assert(old_view[k0].name == name);
            }
        }
    }
    if has_rest(path) && rest_of_path(path).len() < path.len() {
        if has_child(fin_view, first) {
            let k = child_at(fin_view, first);
            let k0 = if k < i {
                k
            } else {
                k + 1
            };
            assert(fin@[k] == decoded[k0]);
            assert(old_view[k0].name == first);
            tree::lemma_child_at(old_view, first, i);
            tree::lemma_child_at(old_view, first, k0);
        }
    }
}

/// Where a path has no node, dropping it leaves all names and copy sources
/// in use.
pub proof fn lemma_nothing_dropped(c: ChildNodes, d: Seq<u8>, path: Seq<u8>)
    requires
        level_wf(c.view_on(d)),
        !drop_spec(c.view_on(d), path).found,
    ensures
        c.dropped_bytes(d, path) == 0,
{
}



} // verus!
