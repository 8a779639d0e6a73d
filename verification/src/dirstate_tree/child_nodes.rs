//! One level of the tree in either form: lookup by name, read-only
//! references to its nodes, and the switch to the decoded form.

use crate::bytes::{
    be_u32_at, bytes_lt, compare_bytes, copy_bytes, first_component, has_rest,
    lemma_bytes_lt_asymmetric, lemma_bytes_lt_transitive, Order, push_bytes, rest_of_path,
};
use crate::dirstate_tree::node::{
    ChildNodes, disk_level, disk_node, DiskSlice, Node, NODE_SIZE, NodeData, NodeView, TreePath,
};
use crate::dirstate_tree::on_disk::{
    disk_children, disk_copy_source, disk_entry_count, disk_has_copy_source, disk_name,
    disk_node_ok, disk_read_data, disk_tracked_count, read_node,
};
use crate::dirstate_tree::tree::{
    after_drop_below, after_drop_here, child_at, drop_spec, has_child, is_removable,
    lemma_child_at, names_sorted,
};
use crate::entry::{DirstateEntry, EntryState, TruncatedTimestamp};
use vstd::prelude::*;

verus! {

/// A path that is either held by a node in memory or lies in the serialized
/// tree.
pub enum BorrowedPath<'tree> {
    InMemory(&'tree Vec<u8>),
    OnDisk(&'tree [u8]),
}

impl<'tree> BorrowedPath<'tree> {
    /// The bytes of the path.
    pub open spec fn view(self) -> Seq<u8> {
        match self {
            BorrowedPath::InMemory(p) => p@,
            BorrowedPath::OnDisk(p) => p@,
        }
    }

    /// The bytes of the path.
    pub fn as_bytes(&self) -> (r: &[u8])
        ensures
            r@ == self@,
    {
        match self {
            BorrowedPath::InMemory(p) => p.as_slice(),
            BorrowedPath::OnDisk(p) => p,
        }
    }

    /// A copy of the path that outlives the borrow of the tree. It
    /// remembers whether the serialized tree holds the bytes.
    pub fn detach_from_tree(&self) -> (r: TreePath)
        ensures
            r@ == self@,
            r.on_disk == (*self is OnDisk),
    {
        match self {
            BorrowedPath::InMemory(p) => TreePath { bytes: copy_bytes(p.as_slice()), on_disk: false },
            BorrowedPath::OnDisk(p) => TreePath { bytes: copy_bytes(p), on_disk: true },
        }
    }
}

/// How a node stands to the serialized bytes: the form of its children, and
/// whether the serialized bytes hold its name and its copy source.
pub struct NodeShape {
    pub children: ChildNodes,
    pub name_on_disk: bool,
    pub copy_on_disk: bool,
}

impl Node {
    /// How the node stands to the serialized bytes.
    pub open spec fn shape(self) -> NodeShape {
        NodeShape {
            children: self.children,
            name_on_disk: self.name.on_disk,
            copy_on_disk: self.copy_source matches Some(p) && p.on_disk,
        }
    }
}

impl NodeShape {
    /// The shape of a node that a walk has created: nothing below it,
    /// nothing of it in the serialized bytes but its name where
    /// `name_on_disk` says so.
    pub open spec fn is_fresh(self, d: Seq<u8>, name_on_disk: bool) -> bool {
        &&& self.children is InMemory
        &&& self.children.view_on(d).len() == 0
        &&& self.name_on_disk == name_on_disk
        &&& !self.copy_on_disk
    }
}

/// The shape of the node serialized at `at`: all of it lies in the
/// serialized bytes.
pub open spec fn disk_shape(d: Seq<u8>, at: int) -> NodeShape {
    NodeShape {
        children: ChildNodes::OnDisk(
            DiskSlice {
                start: be_u32_at(d, at + 16) as usize,
                count: be_u32_at(d, at + 20) as usize,
            },
        ),
        name_on_disk: true,
        copy_on_disk: d[at + 49] != 0,
    }
}

/// `a + b`, or the largest value where the sum does not fit.
pub open spec fn saturating_sum(a: u32, b: nat) -> u32 {
    if a + b > u32::MAX {
        u32::MAX
    } else {
        (a + b) as u32
    }
}

/// A walk through decoded levels decodes nothing.
pub proof fn lemma_decoded_walk_is_free(c: ChildNodes, d: Seq<u8>, path: Seq<u8>)
    requires
        c.all_decoded(),
    ensures
        c.walk_cost(d, path) == 0,
    decreases path.len(),
{
    if has_rest(path) && rest_of_path(path).len() < path.len() {
        match c.shape_of(d, first_component(path)) {
            Some(shape) => {
                let k = child_at(c.view_on(d), first_component(path));
                assert(c.view_on(d).len() == c->InMemory_0@.len());
                assert(c->InMemory_0@[k].children.all_decoded());
                lemma_decoded_walk_is_free(shape.children, d, rest_of_path(path));
            },
            None => {},
        }
    }
}

/// Counting bytes in two steps is counting their sum.
pub proof fn lemma_saturating_sum_twice(a: u32, x: nat, y: nat)
    ensures
        saturating_sum(saturating_sum(a, x), y) == saturating_sum(a, x + y),
{
}

/// Counts `n` more bytes of the serialized tree as unreachable. The count
/// stops at its largest value.
pub fn add_unreachable(unreachable_bytes: &mut u32, n: usize)
    ensures
        *final(unreachable_bytes) == saturating_sum(*old(unreachable_bytes), n as nat),
{
    if n > (u32::MAX - *unreachable_bytes) as usize {
        *unreachable_bytes = u32::MAX;
    } else {
        *unreachable_bytes = *unreachable_bytes + n as u32;
    }
}

/// Read-only reference to one level of the tree.
#[derive(Clone, Copy)]
pub enum ChildNodesRef<'tree> {
    InMemory(&'tree Vec<Node>),
    OnDisk(DiskSlice),
}

/// Read-only reference to one node, decoded or serialized at the address
/// given.
#[derive(Clone, Copy)]
pub enum NodeRef<'tree> {
    InMemory(&'tree Node),
    OnDisk(usize),
}

impl ChildNodes {
    /// A read-only reference to the level.
    pub open spec fn spec_as_ref(&self) -> ChildNodesRef<'_> {
        match self {
            ChildNodes::InMemory(v) => ChildNodesRef::InMemory(v),
            ChildNodes::OnDisk(s) => ChildNodesRef::OnDisk(*s),
        }
    }

    /// A read-only reference to the level.
    pub fn as_ref(&self) -> (r: ChildNodesRef<'_>)
        ensures
            r == self.spec_as_ref(),
            forall|d: Seq<u8>| r.view_on(d) == self.view_on(d),
            forall|d: Seq<u8>| r.ok(d) == self.repr_ok(d),
    {
        match self {
            ChildNodes::InMemory(v) => ChildNodesRef::InMemory(v),
            ChildNodes::OnDisk(s) => ChildNodesRef::OnDisk(*s),
        }
    }

    /// The number of nodes of this level.
    pub open spec fn spec_len(self) -> nat {
        match self {
            ChildNodes::InMemory(v) => v@.len(),
            ChildNodes::OnDisk(s) => s.count as nat,
        }
    }

    /// Whether the level has no nodes.
    pub fn is_empty(&self) -> (r: bool)
        ensures
            r == (self.spec_len() == 0),
            forall|d: Seq<u8>| r == (#[trigger] self.view_on(d).len() == 0),
    {
        match self {
            ChildNodes::InMemory(v) => v.len() == 0,
            ChildNodes::OnDisk(s) => s.count == 0,
        }
    }

    /// The shape of the `k`-th node of the level.
    pub open spec fn shape_at(self, d: Seq<u8>, k: int) -> NodeShape {
        match self {
            ChildNodes::InMemory(v) => v@[k].shape(),
            ChildNodes::OnDisk(s) => disk_shape(d, s.start + k * 58),
        }
    }

    /// The shape of the node of the level that is called `name`, if there
    /// is one.
    pub open spec fn shape_of(self, d: Seq<u8>, name: Seq<u8>) -> Option<NodeShape> {
        if has_child(self.view_on(d), name) {
            Some(self.shape_at(d, child_at(self.view_on(d), name)))
        } else {
            None
        }
    }

    /// The shape of the node called `name` in a level that may be missing.
    pub open spec fn shape_in(level: Option<ChildNodes>, d: Seq<u8>, name: Seq<u8>) -> Option<
        NodeShape,
    > {
        match level {
            Some(l) => l.shape_of(d, name),
            None => None,
        }
    }

    /// What a walk to `path` with write access leaves alone. At every level
    /// on the way, each node but the one on the way has in `after` the
    /// shape that it has in `before`: the levels below it are in the form
    /// in which they were, serialized ones at the same records. The nodes
    /// on the way keep where their names and copy sources lie, and the walk
    /// ends where the way does. `before` is missing where the walk creates
    /// the level.
    pub open spec fn kept_off_path(
        before: Option<ChildNodes>,
        after: ChildNodes,
        d: Seq<u8>,
        path: Seq<u8>,
    ) -> bool
        decreases path.len(),
    {
        let first = first_component(path);
        &&& forall|name: Seq<u8>|
            name != first ==> #[trigger] after.shape_of(d, name) == Self::shape_in(
                before,
                d,
                name,
            )
        &&& has_rest(path) && rest_of_path(path).len() < path.len() ==> (match after.shape_of(
            d,
            first,
        ) {
            None => Self::shape_in(before, d, first) is None,
            Some(now) => match Self::shape_in(before, d, first) {
                Some(was) => now.name_on_disk == was.name_on_disk && now.copy_on_disk
                    == was.copy_on_disk && Self::kept_off_path(
                    Some(was.children),
                    now.children,
                    d,
                    rest_of_path(path),
                ),
                None => !now.copy_on_disk && Self::kept_off_path(
                    None,
                    now.children,
                    d,
                    rest_of_path(path),
                ),
            },
        })
    }

    /// What dropping `path` leaves alone. At every level on the way, each
    /// node but the one on the way has in `after` the shape that it has in
    /// `self`: the levels below it are in the form in which they were,
    /// serialized ones at the same records. The nodes on the way that stay
    /// keep where their names and copy sources lie.
    pub open spec fn kept_beside(self, after: ChildNodes, d: Seq<u8>, path: Seq<u8>) -> bool
        decreases path.len(),
    {
        let first = first_component(path);
        &&& forall|name: Seq<u8>|
            name != first ==> #[trigger] after.shape_of(d, name) == self.shape_of(d, name)
        &&& has_rest(path) && rest_of_path(path).len() < path.len() ==> (match after.shape_of(
            d,
            first,
        ) {
            None => true,
            Some(now) => match self.shape_of(d, first) {
                Some(was) => now.name_on_disk == was.name_on_disk && now.copy_on_disk
                    == was.copy_on_disk && was.children.kept_beside(
                    now.children,
                    d,
                    rest_of_path(path),
                ),
                None => false,
            },
        })
    }

    /// Bytes of records that a walk to `path` with write access decodes:
    /// those of every level on the way that is still serialized, down to
    /// the level of the last component or to the first level that lacks
    /// its component.
    pub open spec fn walk_cost(self, d: Seq<u8>, path: Seq<u8>) -> nat
        decreases path.len(),
    {
        self.spec_disk_len() + (if has_rest(path) && rest_of_path(path).len() < path.len() {
            match self.shape_of(d, first_component(path)) {
                Some(shape) => shape.children.walk_cost(d, rest_of_path(path)),
                None => 0,
            }
        } else {
            0
        })
    }

    /// No level at or below this one is still serialized.
    pub open spec fn all_decoded(self) -> bool
        decreases self,
    {
        match self {
            ChildNodes::OnDisk(_) => false,
            ChildNodes::InMemory(v) => forall|i: int|
                0 <= i < v@.len() ==> (#[trigger] v@[i]).children.all_decoded(),
        }
    }

    /// No level below these nodes is still serialized.
    pub open spec fn nodes_decoded(v: Seq<Node>) -> bool {
        forall|i: int| 0 <= i < v.len() ==> (#[trigger] v[i]).children.all_decoded()
    }

    /// The shape of the node at `path`, if there is one.
    pub open spec fn leaf_shape(self, d: Seq<u8>, path: Seq<u8>) -> Option<NodeShape>
        decreases path.len(),
    {
        match self.shape_of(d, first_component(path)) {
            None => None,
            Some(shape) => if has_rest(path) {
                if rest_of_path(path).len() < path.len() {
                    shape.children.leaf_shape(d, rest_of_path(path))
                } else {
                    None
                }
            } else {
                Some(shape)
            },
        }
    }

    /// Bytes of names and of the copy source that dropping `path` leaves
    /// without use in the serialized bytes: the copy source of the path,
    /// and the name of every node that is removed, where the serialized
    /// bytes hold them.
    pub open spec fn dropped_bytes(self, d: Seq<u8>, path: Seq<u8>) -> nat
        decreases path.len(),
    {
        let view = self.view_on(d);
        let first = first_component(path);
        match self.shape_of(d, first) {
            None => 0,
            Some(shape) => {
                let node = view[child_at(view, first)];
                if has_rest(path) {
                    if rest_of_path(path).len() < path.len() && drop_spec(
                        node.children,
                        rest_of_path(path),
                    ).found {
                        shape.children.dropped_bytes(d, rest_of_path(path)) + (if is_removable(
                            after_drop_below(node, drop_spec(node.children, rest_of_path(path))),
                        ) && shape.name_on_disk {
                            node.name.len()
                        } else {
                            0
                        })
                    } else {
                        0
                    }
                } else {
                    (match node.copy_source {
                        Some(source) => if shape.copy_on_disk {
                            source.len()
                        } else {
                            0
                        },
                        None => 0,
                    }) + (if is_removable(after_drop_here(node)) && shape.name_on_disk {
                        node.name.len()
                    } else {
                        0
                    })
                }
            },
        }
    }

    /// Bytes of the serialized tree that this level still refers to as a
    /// whole: those of its records while it is serialized, none once it is
    /// decoded.
    pub open spec fn spec_disk_len(self) -> nat {
        match self {
            ChildNodes::InMemory(_) => 0,
            ChildNodes::OnDisk(s) => s.spec_byte_len(),
        }
    }

    /// Gives write access to the nodes of this level. A level that is still
    /// serialized is decoded first, one level deep, and the bytes of its
    /// records are counted as unreachable.
    pub fn make_mut(&mut self, on_disk: &[u8], unreachable_bytes: &mut u32) -> (r: &mut Vec<Node>)
        requires
            old(self).repr_ok(on_disk@),
        ensures
            ChildNodes::InMemory(*r).view_on(on_disk@) == old(self).view_on(on_disk@),
            ChildNodes::InMemory(*r).repr_ok(on_disk@),
            *final(self) == ChildNodes::InMemory(*final(r)),
            *final(unreachable_bytes) == saturating_sum(
                *old(unreachable_bytes),
                old(self).spec_disk_len(),
            ),
            *old(self) is InMemory ==> *old(self) == ChildNodes::InMemory(*r),
            forall|k: int|
                0 <= k < r@.len() ==> (#[trigger] r@[k]).shape() == old(self).shape_at(on_disk@, k),
    {
        if let ChildNodes::OnDisk(slice) = self {
            let slice = *slice;
            let len = on_disk.len();
            add_unreachable(unreachable_bytes, slice.count * NODE_SIZE);
            let mut nodes: Vec<Node> = Vec::new();
            let mut i: usize = 0;
            while i < slice.count
                invariant
                    i <= slice.count,
                    slice.ok(on_disk@),
                    nodes@.len() == i,
                    forall|k: int|
                        0 <= k < i ==> (#[trigger] nodes@[k]).view_on(on_disk@) == disk_node(
                            on_disk@,
                            slice.start + k * NODE_SIZE,
                        ),
                    forall|k: int| 0 <= k < i ==> (#[trigger] nodes@[k]).repr_ok(on_disk@),
                    forall|k: int|
                        0 <= k < i ==> (#[trigger] nodes@[k]).shape() == disk_shape(
                            on_disk@,
                            slice.start + k * 58,
                        ),
                decreases slice.count - i,
            {
                let at = slice.record(i, on_disk);
                nodes.push(read_node(on_disk, at));
                i += 1;
            }
            proof {
                assert(ChildNodes::InMemory(nodes).view_on(on_disk@) =~= old(self).view_on(
                    on_disk@,
                ));
            }
            *self = ChildNodes::InMemory(nodes);
        }
        match self {
            ChildNodes::InMemory(nodes) => nodes,
            ChildNodes::OnDisk(_) => vstd::pervasive::unreached(),
        }
    }
}

/// The names of decoded nodes increase strictly.
pub open spec fn node_names_sorted(v: Seq<Node>) -> bool {
    forall|i: int, j: int|
        0 <= i < j < v.len() ==> bytes_lt(#[trigger] v[i].name.bytes@, #[trigger] v[j].name.bytes@)
}

/// Where `name` is, or would have to be put, among decoded nodes ordered by
/// name.
pub fn search_nodes(v: &Vec<Node>, name: &[u8]) -> (r: (bool, usize))
    requires
        node_names_sorted(v@),
    ensures
        r.1 <= v@.len(),
        r.0 ==> r.1 < v@.len() && v@[r.1 as int].name.bytes@ == name@,
        !r.0 ==> forall|i: int| 0 <= i < r.1 ==> bytes_lt(#[trigger] v@[i].name.bytes@, name@),
        !r.0 ==> forall|i: int|
            r.1 <= i < v@.len() ==> bytes_lt(name@, #[trigger] v@[i].name.bytes@),
{
    let mut lo: usize = 0;
    let mut hi: usize = v.len();
    while lo < hi
        invariant
            lo <= hi <= v@.len(),
            node_names_sorted(v@),
            forall|i: int| 0 <= i < lo ==> bytes_lt(#[trigger] v@[i].name.bytes@, name@),
            forall|i: int| hi <= i < v@.len() ==> bytes_lt(name@, #[trigger] v@[i].name.bytes@),
        decreases hi - lo,
    {
        let mid = lo + (hi - lo) / 2;
        match compare_bytes(v[mid].name.bytes.as_slice(), name) {
            Order::Equal => {
                return (true, mid);
            },
            Order::Less => {
                proof {
                    assert forall|i: int| 0 <= i < mid + 1 implies bytes_lt(
                        #[trigger] v@[i].name.bytes@,
                        name@,
                    ) by {
                        if i < mid {
                            lemma_bytes_lt_transitive(
                                v@[i].name.bytes@,
                                v@[mid as int].name.bytes@,
                                name@,
                            );
                        }
                    }
                }
                lo = mid + 1;
            },
            Order::Greater => {
                proof {
                    assert forall|i: int| mid <= i < v@.len() implies bytes_lt(
                        name@,
                        #[trigger] v@[i].name.bytes@,
                    ) by {
                        if mid < i {
                            lemma_bytes_lt_transitive(
                                name@,
                                v@[mid as int].name.bytes@,
                                v@[i].name.bytes@,
                            );
                        }
                    }
                }
                hi = mid;
            },
        }
    }
    (false, lo)
}

/// Where `name` is among serialized nodes ordered by name, if it is there.
pub fn search_disk(on_disk: &[u8], slice: DiskSlice, name: &[u8]) -> (r: Option<usize>)
    requires
        slice.ok(on_disk@),
        names_sorted(disk_level(on_disk@, slice.start as int, slice.count as int)),
    ensures
        r matches Some(i) ==> i < slice.count && disk_level(
            on_disk@,
            slice.start as int,
            slice.count as int,
        )[i as int].name == name@,
        r is None ==> !has_child(
            disk_level(on_disk@, slice.start as int, slice.count as int),
            name@,
        ),
{
    let ghost level = disk_level(on_disk@, slice.start as int, slice.count as int);
    let mut lo: usize = 0;
    let mut hi: usize = slice.count;
    while lo < hi
        invariant
            lo <= hi <= slice.count,
            slice.ok(on_disk@),
            level == disk_level(on_disk@, slice.start as int, slice.count as int),
            names_sorted(level),
            forall|i: int| 0 <= i < lo ==> bytes_lt(#[trigger] level[i].name, name@),
            forall|i: int| hi <= i < slice.count ==> bytes_lt(name@, #[trigger] level[i].name),
        decreases hi - lo,
    {
        let mid = lo + (hi - lo) / 2;
        let at = slice.record(mid, on_disk);
        match compare_bytes(disk_name(on_disk, at), name) {
            Order::Equal => {
                return Some(mid);
            },
            Order::Less => {
                proof {
                    assert forall|i: int| 0 <= i < mid + 1 implies bytes_lt(
                        #[trigger] level[i].name,
                        name@,
                    ) by {
                        if i < mid {
                            lemma_bytes_lt_transitive(level[i].name, level[mid as int].name, name@);
                        }
                    }
                }
                lo = mid + 1;
            },
            Order::Greater => {
                proof {
                    assert forall|i: int| mid <= i < slice.count implies bytes_lt(
                        name@,
                        #[trigger] level[i].name,
                    ) by {
                        if mid < i {
                            lemma_bytes_lt_transitive(name@, level[mid as int].name, level[i].name);
                        }
                    }
                }
                hi = mid;
            },
        }
    }
    proof {
        assert forall|i: int| 0 <= i < level.len() implies (#[trigger] level[i]).name != name@ by {
            if i < lo {
                lemma_bytes_lt_asymmetric(level[i].name, name@);
            } else {
                lemma_bytes_lt_asymmetric(name@, level[i].name);
            }
        }
    }
    None
}

impl<'tree> ChildNodesRef<'tree> {
    /// The nodes of the level, its serialized parts read from `d`.
    pub open spec fn view_on(self, d: Seq<u8>) -> Seq<NodeView> {
        match self {
            ChildNodesRef::InMemory(v) => ChildNodes::InMemory(*v).view_on(d),
            ChildNodesRef::OnDisk(s) => disk_level(d, s.start as int, s.count as int),
        }
    }

    /// The serialized parts of the level can be read from `d`.
    pub open spec fn ok(self, d: Seq<u8>) -> bool {
        match self {
            ChildNodesRef::InMemory(v) => ChildNodes::InMemory(*v).repr_ok(d),
            ChildNodesRef::OnDisk(s) => s.ok(d),
        }
    }

    /// The number of nodes of the level.
    pub fn len(&self) -> (r: usize)
        ensures
            forall|d: Seq<u8>| r == (#[trigger] self.view_on(d)).len(),
    {
        match self {
            ChildNodesRef::InMemory(v) => v.len(),
            ChildNodesRef::OnDisk(s) => s.count,
        }
    }

    /// The `i`-th node of the level, in the order of names.
    pub fn at(&self, i: usize, on_disk: &[u8]) -> (r: NodeRef<'tree>)
        requires
            self.ok(on_disk@),
            i < self.view_on(on_disk@).len(),
        ensures
            r.ok(on_disk@),
            r.view_on(on_disk@) == self.view_on(on_disk@)[i as int],
            *self matches ChildNodesRef::InMemory(v) ==> r == NodeRef::InMemory(&v@[i as int]),
            *self is OnDisk ==> r is OnDisk,
    {
        match self {
            ChildNodesRef::InMemory(v) => NodeRef::InMemory(&v[i]),
            ChildNodesRef::OnDisk(s) => NodeRef::OnDisk(s.record(i, on_disk)),
        }
    }

    /// The node of the level that is called `base_name`, found by binary
    /// search.
    pub fn get(&self, base_name: &[u8], on_disk: &[u8]) -> (r: Option<NodeRef<'tree>>)
        requires
            self.ok(on_disk@),
            names_sorted(self.view_on(on_disk@)),
        ensures
            r is Some <==> has_child(self.view_on(on_disk@), base_name@),
            r matches Some(node) ==> node.ok(on_disk@) && node.view_on(on_disk@)
                == self.view_on(on_disk@)[child_at(self.view_on(on_disk@), base_name@)],
    {
        let ghost level = self.view_on(on_disk@);
        match self {
            ChildNodesRef::InMemory(v) => {
                proof {
                    assert forall|i: int, j: int| 0 <= i < j < v@.len() implies bytes_lt(
                        #[trigger] v@[i].name.bytes@,
                        #[trigger] v@[j].name.bytes@,
                    ) by {
                        assert(level[i].name == v@[i].name.bytes@);
                        assert(level[j].name == v@[j].name.bytes@);
                    }
                }
                let (found, i) = search_nodes(v, base_name);
                if found {
                    proof {
                        lemma_child_at(level, base_name@, i as int);
                    }
                    Some(NodeRef::InMemory(&v[i]))
                } else {
                    proof {
                        assert forall|k: int| 0 <= k < level.len() implies (#[trigger] level[k]).name
                            != base_name@ by {
                            assert(level[k].name == v@[k].name.bytes@);
                            if k < i {
                                lemma_bytes_lt_asymmetric(level[k].name, base_name@);
                            } else {
                                lemma_bytes_lt_asymmetric(base_name@, level[k].name);
                            }
                        }
                    }
                    None
                }
            },
            ChildNodesRef::OnDisk(s) => {
                match search_disk(on_disk, *s, base_name) {
                    Some(i) => {
                        proof {
                            lemma_child_at(level, base_name@, i as int);
                        }
                        Some(NodeRef::OnDisk(s.record(i, on_disk)))
                    },
                    None => None,
                }
            },
        }
    }

    /// References to the nodes of the level, in ascending order of their
    /// names. The level is one of a well-formed tree: it holds its nodes in
    /// that order.
    pub fn sorted(&self, on_disk: &[u8]) -> (r: Vec<NodeRef<'tree>>)
        requires
            self.ok(on_disk@),
            names_sorted(self.view_on(on_disk@)),
        ensures
            r@.len() == self.view_on(on_disk@).len(),
            forall|i: int|
                0 <= i < r@.len() ==> (#[trigger] r@[i]).ok(on_disk@) && r@[i].view_on(on_disk@)
                    == self.view_on(on_disk@)[i],
            forall|i: int, j: int|
                0 <= i < j < r@.len() ==> bytes_lt(
                    (#[trigger] r@[i]).view_on(on_disk@).name,
                    (#[trigger] r@[j]).view_on(on_disk@).name,
                ),
    {
        let n = self.len();
        let mut out: Vec<NodeRef<'tree>> = Vec::new();
        let mut i: usize = 0;
        while i < n
            invariant
                i <= n,
                n == self.view_on(on_disk@).len(),
                self.ok(on_disk@),
                out@.len() == i,
                forall|k: int|
                    0 <= k < i ==> (#[trigger] out@[k]).ok(on_disk@) && out@[k].view_on(on_disk@)
                        == self.view_on(on_disk@)[k],
            decreases n - i,
        {
            out.push(self.at(i, on_disk));
            i += 1;
        }
        out
    }
}

impl<'tree> NodeRef<'tree> {
    /// The tree below and including the node, its serialized parts read
    /// from `d`.
    pub open spec fn view_on(self, d: Seq<u8>) -> NodeView {
        match self {
            NodeRef::InMemory(n) => n.view_on(d),
            NodeRef::OnDisk(at) => disk_node(d, at as int),
        }
    }

    /// The serialized parts of the node can be read from `d`.
    pub open spec fn ok(self, d: Seq<u8>) -> bool {
        match self {
            NodeRef::InMemory(n) => n.repr_ok(d),
            NodeRef::OnDisk(at) => disk_node_ok(d, at as int),
        }
    }

    /// The last component of the node's path.
    pub fn base_name(&self, on_disk: &'tree [u8]) -> (r: &'tree [u8])
        requires
            self.ok(on_disk@),
        ensures
            r@ == self.view_on(on_disk@).name,
    {
        match self {
            NodeRef::InMemory(n) => n.name.bytes.as_slice(),
            NodeRef::OnDisk(at) => disk_name(on_disk, *at),
        }
    }

    /// The full path of the node. `prefix` is what the full paths of its
    /// level begin with: nothing at the root, the path of the parent and a
    /// separator below it.
    pub fn full_path(&self, on_disk: &[u8], prefix: &[u8]) -> (r: Vec<u8>)
        requires
            self.ok(on_disk@),
        ensures
            r@ == prefix@ + self.view_on(on_disk@).name,
    {
        let mut path = copy_bytes(prefix);
        match self {
            NodeRef::InMemory(n) => push_bytes(&mut path, n.name.bytes.as_slice()),
            NodeRef::OnDisk(at) => push_bytes(&mut path, disk_name(on_disk, *at)),
        }
        path
    }

    /// The children of the node.
    pub fn children(&self, on_disk: &[u8]) -> (r: ChildNodesRef<'tree>)
        requires
            self.ok(on_disk@),
        ensures
            r.ok(on_disk@),
            r.view_on(on_disk@) == self.view_on(on_disk@).children,
            *self matches NodeRef::InMemory(n) ==> r == n.children.spec_as_ref(),
            *self is OnDisk ==> r is OnDisk,
    {
        match self {
            NodeRef::InMemory(n) => n.children.as_ref(),
            NodeRef::OnDisk(at) => ChildNodesRef::OnDisk(disk_children(on_disk, *at)),
        }
    }

    /// Whether the node has a copy source.
    pub fn has_copy_source(&self, on_disk: &[u8]) -> (r: bool)
        requires
            self.ok(on_disk@),
        ensures
            r == self.view_on(on_disk@).copy_source is Some,
    {
        match self {
            NodeRef::InMemory(n) => n.copy_source.is_some(),
            NodeRef::OnDisk(at) => disk_has_copy_source(on_disk, *at),
        }
    }

    /// The copy source of the node, if it has one.
    pub fn copy_source(&self, on_disk: &'tree [u8]) -> (r: Option<&'tree [u8]>)
        requires
            self.ok(on_disk@),
        ensures
            r is Some <==> self.view_on(on_disk@).copy_source is Some,
            r matches Some(source) ==> source@ == self.view_on(on_disk@).copy_source.unwrap(),
    {
        match self {
            NodeRef::InMemory(n) => match &n.copy_source {
                Some(p) => Some(p.bytes.as_slice()),
                None => None,
            },
            NodeRef::OnDisk(at) => disk_copy_source(on_disk, *at),
        }
    }

    /// The copy source of the node, with where it is held.
    pub fn copy_source_borrowed(&self, on_disk: &'tree [u8]) -> (r: Option<BorrowedPath<'tree>>)
        requires
            self.ok(on_disk@),
        ensures
            r is Some <==> self.view_on(on_disk@).copy_source is Some,
            r matches Some(source) ==> source@ == self.view_on(on_disk@).copy_source.unwrap(),
            r matches Some(source) ==> (source is OnDisk <==> (*self is OnDisk || (
            self matches NodeRef::InMemory(n) && n.copy_source.unwrap().on_disk))),
    {
        match self {
            NodeRef::InMemory(n) => match &n.copy_source {
                Some(p) => if p.on_disk {
                    Some(BorrowedPath::OnDisk(p.bytes.as_slice()))
                } else {
                    Some(BorrowedPath::InMemory(&p.bytes))
                },
                None => None,
            },
            NodeRef::OnDisk(at) => match disk_copy_source(on_disk, *at) {
                Some(source) => Some(BorrowedPath::OnDisk(source)),
                None => None,
            },
        }
    }

    /// The data of the node.
    pub fn data(&self, on_disk: &[u8]) -> (r: NodeData)
        requires
            self.ok(on_disk@),
        ensures
            r == self.view_on(on_disk@).data,
    {
        match self {
            NodeRef::InMemory(n) => n.data,
            NodeRef::OnDisk(at) => {
                assert(*at + NODE_SIZE <= on_disk@.len());
                disk_read_data(on_disk, *at)
            },
        }
    }

    /// The entry of the node, if it has one.
    pub fn entry(&self, on_disk: &[u8]) -> (r: Option<DirstateEntry>)
        requires
            self.ok(on_disk@),
        ensures
            r == self.view_on(on_disk@).data.spec_as_entry(),
    {
        match self.data(on_disk) {
            NodeData::Entry(e) => Some(e),
            _ => None,
        }
    }

    /// The state letter of the node's entry, if it has one that anything
    /// tracks.
    pub fn state(&self, on_disk: &[u8]) -> (r: Option<EntryState>)
        requires
            self.ok(on_disk@),
        ensures
            r == match self.view_on(on_disk@).data {
                NodeData::Entry(e) => if e.spec_any_tracked() {
                    Some(e.spec_state())
                } else {
                    None
                },
                _ => None,
            },
    {
        match self.entry(on_disk) {
            Some(e) => if e.any_tracked() {
                Some(e.state())
            } else {
                None
            },
            None => None,
        }
    }

    /// The cached modification time of the directory, if one is recorded.
    pub fn cached_directory_mtime(&self, on_disk: &[u8]) -> (r: Option<TruncatedTimestamp>)
        requires
            self.ok(on_disk@),
        ensures
            r == match self.view_on(on_disk@).data {
                NodeData::CachedDirectory { mtime } => Some(mtime),
                _ => None,
            },
    {
        match self.data(on_disk) {
            NodeData::CachedDirectory { mtime } => Some(mtime),
            _ => None,
        }
    }

    /// The stored count of nodes strictly below this one that have an entry.
    pub fn descendants_with_entry_count(&self, on_disk: &[u8]) -> (r: u32)
        requires
            self.ok(on_disk@),
        ensures
            r == self.view_on(on_disk@).entry_count,
    {
        match self {
            NodeRef::InMemory(n) => n.descendants_with_entry_count,
            NodeRef::OnDisk(at) => {
                assert(*at + NODE_SIZE <= on_disk@.len());
                disk_entry_count(on_disk, *at)
            },
        }
    }

    /// The stored count of nodes strictly below this one that have a tracked
    /// entry.
    pub fn tracked_descendants_count(&self, on_disk: &[u8]) -> (r: u32)
        requires
            self.ok(on_disk@),
        ensures
            r == self.view_on(on_disk@).tracked_count,
    {
        match self {
            NodeRef::InMemory(n) => n.tracked_descendants_count,
            NodeRef::OnDisk(at) => {
                assert(*at + NODE_SIZE <= on_disk@.len());
                disk_tracked_count(on_disk, *at)
            },
        }
    }
}

} // verus!
