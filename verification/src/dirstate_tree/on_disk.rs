//! The serialized tree: when a run of serialized nodes can be read, and the
//! functions that read it.
//!
//! A serialized node is a record of `NODE_SIZE` bytes. Integers are stored
//! most significant byte first.
//!
//! | bytes  | field                                             |
//! |--------|---------------------------------------------------|
//! | 0..4   | start of the name                                 |
//! | 4..8   | length of the name                                |
//! | 8..12  | start of the copy source                          |
//! | 12..16 | length of the copy source                         |
//! | 16..20 | start of the children                             |
//! | 20..24 | number of children                                |
//! | 24..28 | descendants with an entry                         |
//! | 28..32 | tracked descendants                               |
//! | 32..36 | mode                                              |
//! | 36..40 | size                                              |
//! | 40..44 | seconds of the modification time                  |
//! | 44..48 | nanoseconds of the modification time              |
//! | 48     | data: 0 nothing, 1 entry, 2 cached directory time |
//! | 49     | has a copy source                                 |
//! | 50..53 | tracked in working copy, in first parent, p2 info |
//! | 53     | has mode and size                                 |
//! | 54     | has a modification time                           |
//! | 55     | the second is ambiguous                           |
//! | 56, 57 | fallback exec, symlink: 0 unset, 1 false, 2 true  |
//!
//! The children of a node are serialized before the node: a record only
//! points to lower addresses.

use crate::bytes::{
    be_u32_at, be_u32_bytes, bytes_lt, compare_bytes, copy_bytes, lemma_be_u32_round_trip,
    Order, push_be_u32, push_bytes, read_be_u32, SLASH, slash_free,
};
use crate::dirstate_tree::child_nodes::{ChildNodesRef, NodeRef};
use crate::dirstate_tree::node::{
    ChildNodes, disk_data, disk_fallback, disk_level, disk_node, DiskSlice, Node, NODE_SIZE,
    NodeData, NodeView, TreePath,
};
use crate::dirstate_tree::tree::{
    copies_fn, entry_weight, entry_weight_fn, level_copies, level_entries, level_tracked,
    level_wf, names_sorted, node_copies, node_wf, tracked_weight, tracked_weight_fn,
};
use crate::dirstate_tree::tree;
use crate::entry::{DirstateEntry, NSEC_PER_SEC, RANGE_MASK_31BIT, TruncatedTimestamp};
use vstd::prelude::*;
use vstd::slice::slice_subrange;

verus! {

/// The record at `at` and all records below it lie within `d`, and each
/// points to lower addresses only.
pub open spec fn disk_node_ok(d: Seq<u8>, at: int) -> bool
    decreases at + NODE_SIZE, 0nat,
{
    let children_start = be_u32_at(d, at + 16) as int;
    let children_count = be_u32_at(d, at + 20) as int;
    &&& 0 <= at
    &&& at + NODE_SIZE <= d.len()
    &&& be_u32_at(d, at) + be_u32_at(d, at + 4) <= d.len()
    &&& d[at + 49] != 0 ==> be_u32_at(d, at + 8) + be_u32_at(d, at + 12) <= d.len()
    &&& children_start + children_count * NODE_SIZE <= at
    &&& disk_level_ok(d, children_start, children_count)
}

/// The `count` records from `start` on can be read.
pub open spec fn disk_level_ok(d: Seq<u8>, start: int, count: int) -> bool
    decreases start + count * NODE_SIZE, 1nat,
{
    &&& 0 <= start
    &&& 0 <= count
    &&& forall|i: int| 0 <= i < count ==> disk_node_ok(d, #[trigger] (start + i * NODE_SIZE))
}

impl DiskSlice {
    /// The records of the slice can be read and lie in `d`.
    pub open spec fn ok(self, d: Seq<u8>) -> bool {
        &&& disk_level_ok(d, self.start as int, self.count as int)
        &&& self.start + self.count * NODE_SIZE <= d.len()
    }

    /// Bytes that the slice covers.
    pub open spec fn spec_byte_len(self) -> nat {
        (self.count * NODE_SIZE) as nat
    }

    /// Address of the `i`-th record.
    pub fn record(&self, i: usize, d: &[u8]) -> (at: usize)
        requires
            self.ok(d@),
            i < self.count,
        ensures
            at == self.start + i * NODE_SIZE,
            disk_node_ok(d@, at as int),
            disk_node(d@, at as int) == disk_level(d@, self.start as int, self.count as int)[i as int],
    {
        let len = d.len();
        proof {
            assert(self.start + self.count * NODE_SIZE <= len);
            assert(disk_node_ok(d@, self.start + i * NODE_SIZE));
        }
        self.start + i * NODE_SIZE
    }
}

impl Node {
    /// Every level below this node that is still serialized can be read
    /// from `d`.
    pub open spec fn repr_ok(self, d: Seq<u8>) -> bool
        decreases self,
    {
        self.children.repr_ok(d)
    }
}

impl ChildNodes {
    /// Every level at and below this one that is still serialized can be
    /// read from `d`.
    pub open spec fn repr_ok(self, d: Seq<u8>) -> bool
        decreases self,
    {
        match self {
            ChildNodes::InMemory(v) => forall|i: int|
                0 <= i < v@.len() ==> (#[trigger] v@[i]).repr_ok(d),
            ChildNodes::OnDisk(s) => s.ok(d),
        }
    }
}

/// The name of the record at `at`.
pub fn disk_name(d: &[u8], at: usize) -> (r: &[u8])
    requires
        disk_node_ok(d@, at as int),
    ensures
        r@ == disk_node(d@, at as int).name,
{
    assert(at + NODE_SIZE <= d.len());
    let start = read_be_u32(d, at) as usize;
    let len = read_be_u32(d, at + 4) as usize;
    slice_subrange(d, start, start + len)
}

/// Whether the record at `at` has a copy source.
pub fn disk_has_copy_source(d: &[u8], at: usize) -> (r: bool)
    requires
        disk_node_ok(d@, at as int),
    ensures
        r == disk_node(d@, at as int).copy_source is Some,
{
    assert(at + NODE_SIZE <= d.len());
    d[at + 49] != 0
}

/// The copy source of the record at `at`.
pub fn disk_copy_source(d: &[u8], at: usize) -> (r: Option<&[u8]>)
    requires
        disk_node_ok(d@, at as int),
    ensures
        r is Some <==> disk_node(d@, at as int).copy_source is Some,
        r is Some ==> r.unwrap()@ == disk_node(d@, at as int).copy_source.unwrap(),
{
    assert(at + NODE_SIZE <= d.len());
    if d[at + 49] != 0 {
        let start = read_be_u32(d, at + 8) as usize;
        let len = read_be_u32(d, at + 12) as usize;
        Some(slice_subrange(d, start, start + len))
    } else {
        None
    }
}

/// The children of the record at `at`.
pub fn disk_children(d: &[u8], at: usize) -> (r: DiskSlice)
    requires
        disk_node_ok(d@, at as int),
    ensures
        r.ok(d@),
        disk_level(d@, r.start as int, r.count as int) == disk_node(d@, at as int).children,
        r.start + r.count * NODE_SIZE <= at,
        r.start == be_u32_at(d@, at + 16),
        r.count == be_u32_at(d@, at + 20),
{
    assert(at + NODE_SIZE <= d.len());
    let start = read_be_u32(d, at + 16) as usize;
    let count = read_be_u32(d, at + 20) as usize;
    DiskSlice { start, count }
}

fn read_fallback(b: u8) -> (r: Option<bool>)
    ensures
        r == disk_fallback(b),
{
    if b == 1 {
        Some(false)
    } else if b == 2 {
        Some(true)
    } else {
        None
    }
}

/// The data of the record at `at`.
pub fn disk_read_data(d: &[u8], at: usize) -> (r: NodeData)
    requires
        at + NODE_SIZE <= d.len(),
    ensures
        r == disk_data(d@, at as int),
{
    let mtime = TruncatedTimestamp {
        truncated_seconds: read_be_u32(d, at + 40),
        nanoseconds: read_be_u32(d, at + 44),
        second_ambiguous: d[at + 55] != 0,
    };
    let kind = d[at + 48];
    if kind == 1 {
        NodeData::Entry(
            DirstateEntry {
                wc_tracked: d[at + 50] != 0,
                p1_tracked: d[at + 51] != 0,
                p2_info: d[at + 52] != 0,
                mode_size: if d[at + 53] != 0 {
                    Some((read_be_u32(d, at + 32), read_be_u32(d, at + 36)))
                } else {
                    None
                },
                mtime: if d[at + 54] != 0 {
                    Some(mtime)
                } else {
                    None
                },
                fallback_exec: read_fallback(d[at + 56]),
                fallback_symlink: read_fallback(d[at + 57]),
            },
        )
    } else if kind == 2 {
        NodeData::CachedDirectory { mtime }
    } else {
        NodeData::Empty
    }
}

/// The stored count of descendants with an entry of the record at `at`.
pub fn disk_entry_count(d: &[u8], at: usize) -> (r: u32)
    requires
        at + NODE_SIZE <= d.len(),
    ensures
        r == disk_node(d@, at as int).entry_count,
{
    read_be_u32(d, at + 24)
}

/// The stored count of tracked descendants of the record at `at`.
pub fn disk_tracked_count(d: &[u8], at: usize) -> (r: u32)
    requires
        at + NODE_SIZE <= d.len(),
    ensures
        r == disk_node(d@, at as int).tracked_count,
{
    read_be_u32(d, at + 28)
}

/// Decodes the record at `at` into a node of its own. Its children stay
/// serialized.
pub fn read_node(d: &[u8], at: usize) -> (r: Node)
    requires
        disk_node_ok(d@, at as int),
    ensures
        r.view_on(d@) == disk_node(d@, at as int),
        r.repr_ok(d@),
        r.name.on_disk,
        r.copy_source matches Some(p) ==> p.on_disk,
        r.children is OnDisk,
        r.shape() == crate::dirstate_tree::child_nodes::disk_shape(d@, at as int),
{
    assert(at + NODE_SIZE <= d.len());
    let name = TreePath { bytes: copy_bytes(disk_name(d, at)), on_disk: true };
    let copy_source = match disk_copy_source(d, at) {
        Some(source) => Some(TreePath { bytes: copy_bytes(source), on_disk: true }),
        None => None,
    };
    let children = ChildNodes::OnDisk(disk_children(d, at));
    let r = Node {
        name,
        data: disk_read_data(d, at),
        copy_source,
        children,
        descendants_with_entry_count: disk_entry_count(d, at),
        tracked_descendants_count: disk_tracked_count(d, at),
    };
    proof {
        assert(r.children.view_on(d@) == disk_node(d@, at as int).children);
        assert(r.view_on(d@).copy_source == disk_node(d@, at as int).copy_source);
        assert(r.copy_source is Some <==> d@[at + 49] != 0);
    }
    r
}

/// `a` is how `b` begins.
pub open spec fn begins_with(b: Seq<u8>, a: Seq<u8>) -> bool {
    a.len() <= b.len() && forall|i: int| 0 <= i < a.len() ==> a[i] == b[i]
}

/// An integer stored in a file is the same once bytes are added behind the
/// file.
pub proof fn lemma_be_u32_at_same(a: Seq<u8>, b: Seq<u8>, at: int)
    requires
        begins_with(b, a),
        0 <= at,
        at + 4 <= a.len(),
    ensures
        be_u32_at(b, at) == be_u32_at(a, at),
{
}

/// A node that can be read stays what it is when bytes are added behind
/// it.
pub proof fn lemma_disk_node_grows(a: Seq<u8>, b: Seq<u8>, at: int)
    requires
        begins_with(b, a),
        disk_node_ok(a, at),
    ensures
        disk_node_ok(b, at),
        disk_node(b, at) == disk_node(a, at),
    decreases at + NODE_SIZE, 0nat,
{
    let children_start = be_u32_at(a, at + 16) as int;
    let children_count = be_u32_at(a, at + 20) as int;
    lemma_disk_level_grows(a, b, children_start, children_count);
    lemma_be_u32_at_same(a, b, at);
    lemma_be_u32_at_same(a, b, at + 4);
    lemma_be_u32_at_same(a, b, at + 8);
    lemma_be_u32_at_same(a, b, at + 12);
    lemma_be_u32_at_same(a, b, at + 16);
    lemma_be_u32_at_same(a, b, at + 20);
    lemma_be_u32_at_same(a, b, at + 24);
    lemma_be_u32_at_same(a, b, at + 28);
    lemma_be_u32_at_same(a, b, at + 32);
    lemma_be_u32_at_same(a, b, at + 36);
    lemma_be_u32_at_same(a, b, at + 40);
    lemma_be_u32_at_same(a, b, at + 44);
    assert(disk_data(b, at) == disk_data(a, at));
    let name_start = be_u32_at(a, at) as int;
    let name_len = be_u32_at(a, at + 4) as int;
    assert(b.subrange(name_start, name_start + name_len) =~= a.subrange(
        name_start,
        name_start + name_len,
    ));
    if a[at + 49] != 0 {
        let copy_start = be_u32_at(a, at + 8) as int;
        let copy_len = be_u32_at(a, at + 12) as int;
        assert(b.subrange(copy_start, copy_start + copy_len) =~= a.subrange(
            copy_start,
            copy_start + copy_len,
        ));
    }
}

/// A level that can be read stays what it is when bytes are added behind
/// it.
pub proof fn lemma_disk_level_grows(a: Seq<u8>, b: Seq<u8>, start: int, count: int)
    requires
        begins_with(b, a),
        disk_level_ok(a, start, count),
    ensures
        disk_level_ok(b, start, count),
        disk_level(b, start, count) == disk_level(a, start, count),
    decreases start + count * NODE_SIZE, 1nat,
{
    assert forall|i: int| 0 <= i < count implies disk_node_ok(
        b,
        #[trigger] (start + i * NODE_SIZE),
    ) && disk_node(b, start + i * NODE_SIZE) == disk_node(a, start + i * NODE_SIZE) by {
        assert(disk_node_ok(a, start + i * NODE_SIZE));
        assert(i * NODE_SIZE + NODE_SIZE <= count * NODE_SIZE) by (nonlinear_arith)
            requires
                i < count,
        ;
        lemma_disk_node_grows(a, b, start + i * NODE_SIZE);
    }
    assert(disk_level(b, start, count) =~= disk_level(a, start, count));
}

/// What a serialized node holds beside the bytes that it points to.
pub struct NodeFields {
    pub name_start: u32,
    pub name_len: u32,
    pub copy_start: u32,
    pub copy_len: u32,
    pub children_start: u32,
    pub children_count: u32,
    pub entry_count: u32,
    pub tracked_count: u32,
    pub data: NodeData,
    pub has_copy_source: bool,
}

/// Mode and size as a serialized node stores them: zero where the data has
/// none.
pub open spec fn data_mode_size(data: NodeData) -> (u32, u32) {
    match data {
        NodeData::Entry(e) => match e.mode_size {
            Some(ms) => ms,
            None => (0u32, 0u32),
        },
        _ => (0u32, 0u32),
    }
}

/// The modification time that the data holds, if any.
pub open spec fn data_mtime(data: NodeData) -> Option<TruncatedTimestamp> {
    match data {
        NodeData::Entry(e) => e.mtime,
        NodeData::CachedDirectory { mtime } => Some(mtime),
        NodeData::Empty => None,
    }
}

/// The `k`-th of the twelve integers of a serialized node.
pub open spec fn field_int(f: NodeFields, k: int) -> u32 {
    if k == 0 {
        f.name_start
    } else if k == 1 {
        f.name_len
    } else if k == 2 {
        f.copy_start
    } else if k == 3 {
        f.copy_len
    } else if k == 4 {
        f.children_start
    } else if k == 5 {
        f.children_count
    } else if k == 6 {
        f.entry_count
    } else if k == 7 {
        f.tracked_count
    } else if k == 8 {
        data_mode_size(f.data).0
    } else if k == 9 {
        data_mode_size(f.data).1
    } else if k == 10 {
        match data_mtime(f.data) {
            Some(t) => t.truncated_seconds,
            None => 0u32,
        }
    } else {
        match data_mtime(f.data) {
            Some(t) => t.nanoseconds,
            None => 0u32,
        }
    }
}

/// The twelve integers of a serialized node, in their order.
pub open spec fn field_ints(f: NodeFields) -> Seq<u32> {
    Seq::new(12, |k: int| field_int(f, k))
}

/// 1 for true, 0 for false.
pub open spec fn flag_byte(b: bool) -> u8 {
    if b {
        1
    } else {
        0
    }
}

/// The byte that stands for a fallback: 0 unset, 1 false, 2 true.
pub open spec fn fallback_byte(f: Option<bool>) -> u8 {
    match f {
        None => 0,
        Some(false) => 1,
        Some(true) => 2,
    }
}

/// The entry of the data, or an entry without flags and metadata.
pub open spec fn data_entry(data: NodeData) -> DirstateEntry {
    match data {
        NodeData::Entry(e) => e,
        _ => DirstateEntry {
            wc_tracked: false,
            p1_tracked: false,
            p2_info: false,
            mode_size: None,
            mtime: None,
            fallback_exec: None,
            fallback_symlink: None,
        },
    }
}

/// The `j`-th of the ten single bytes of a serialized node.
pub open spec fn field_flag(f: NodeFields, j: int) -> u8 {
    let e = data_entry(f.data);
    if j == 0 {
        match f.data {
            NodeData::Entry(_) => 1u8,
            NodeData::CachedDirectory { .. } => 2u8,
            NodeData::Empty => 0u8,
        }
    } else if j == 1 {
        flag_byte(f.has_copy_source)
    } else if j == 2 {
        flag_byte(e.wc_tracked)
    } else if j == 3 {
        flag_byte(e.p1_tracked)
    } else if j == 4 {
        flag_byte(e.p2_info)
    } else if j == 5 {
        flag_byte(e.mode_size is Some)
    } else if j == 6 {
        flag_byte(data_mtime(f.data) is Some)
    } else if j == 7 {
        flag_byte(data_mtime(f.data) matches Some(t) && t.second_ambiguous)
    } else if j == 8 {
        fallback_byte(e.fallback_exec)
    } else {
        fallback_byte(e.fallback_symlink)
    }
}

/// The ten single bytes of a serialized node, in their order.
pub open spec fn field_flags(f: NodeFields) -> Seq<u8> {
    Seq::new(10, |j: int| field_flag(f, j))
}

/// The bytes of integers one after the other.
pub open spec fn ints_bytes(ints: Seq<u32>) -> Seq<u8> {
    Seq::new(4 * ints.len(), |i: int| be_u32_bytes(ints[i / 4])[i % 4])
}

/// The bytes of a serialized node.
pub open spec fn encode_node(f: NodeFields) -> Seq<u8> {
    ints_bytes(field_ints(f)) + field_flags(f)
}

/// Where integers and single bytes are written one after the other, each
/// integer is read back from its place.
pub proof fn lemma_int_in_file(pre: Seq<u8>, ints: Seq<u32>, rest: Seq<u8>, k: int)
    requires
        0 <= k < ints.len(),
    ensures
        be_u32_at(pre + ints_bytes(ints) + rest, pre.len() + 4 * k) == ints[k],
{
    lemma_be_u32_round_trip(ints[k]);
    let b = be_u32_bytes(ints[k]);
    let enc = ints_bytes(ints);
    let d = pre + enc + rest;
    let at = pre.len() as int;
    assert(enc[4 * k] == b[0]);
    assert(enc[4 * k + 1] == b[1]);
    assert(enc[4 * k + 2] == b[2]);
    assert(enc[4 * k + 3] == b[3]);
    assert(d[at + 4 * k] == enc[4 * k]);
    assert(d[at + 4 * k + 1] == enc[4 * k + 1]);
    assert(d[at + 4 * k + 2] == enc[4 * k + 2]);
    assert(d[at + 4 * k + 3] == enc[4 * k + 3]);
}

/// The data of a node is what its integers and single bytes say.
pub proof fn lemma_data_of_fields(d: Seq<u8>, at: int, f: NodeFields)
    requires
        be_u32_at(d, at + 32) == field_int(f, 8),
        be_u32_at(d, at + 36) == field_int(f, 9),
        be_u32_at(d, at + 40) == field_int(f, 10),
        be_u32_at(d, at + 44) == field_int(f, 11),
        d[at + 48] == field_flag(f, 0),
        d[at + 50] == field_flag(f, 2),
        d[at + 51] == field_flag(f, 3),
        d[at + 52] == field_flag(f, 4),
        d[at + 53] == field_flag(f, 5),
        d[at + 54] == field_flag(f, 6),
        d[at + 55] == field_flag(f, 7),
        d[at + 56] == field_flag(f, 8),
        d[at + 57] == field_flag(f, 9),
    ensures
        disk_data(d, at) == f.data,
{
    match f.data {
        NodeData::Entry(e) => {
            let got = disk_data(d, at)->Entry_0;
            assert(got.wc_tracked == e.wc_tracked);
            assert(got.p1_tracked == e.p1_tracked);
            assert(got.p2_info == e.p2_info);
            assert(got.mode_size == e.mode_size);
            assert(got.mtime == e.mtime);
            assert(got.fallback_exec == e.fallback_exec);
            assert(got.fallback_symlink == e.fallback_symlink);
        },
        NodeData::CachedDirectory { mtime } => {},
        NodeData::Empty => {},
    }
}

/// The integers of a serialized node are read back from their places.
pub proof fn lemma_encoded_ints(pre: Seq<u8>, f: NodeFields, post: Seq<u8>)
    ensures
        forall|k: int|
            0 <= k < 12 ==> be_u32_at(pre + encode_node(f) + post, pre.len() + 4 * k)
                == #[trigger] field_ints(f)[k],
{
    let ints = field_ints(f);
    let rest = field_flags(f) + post;
    let d = pre + encode_node(f) + post;
    assert(d =~= pre + ints_bytes(ints) + rest);
    assert forall|k: int| 0 <= k < 12 implies be_u32_at(d, pre.len() + 4 * k)
        == #[trigger] ints[k] by {
        lemma_int_in_file(pre, ints, rest, k);
    }
}

/// The single bytes of a serialized node stand at their places.
pub proof fn lemma_encoded_flags(pre: Seq<u8>, f: NodeFields, post: Seq<u8>)
    ensures
        encode_node(f).len() == NODE_SIZE,
        forall|j: int|
            0 <= j < 10 ==> (pre + encode_node(f) + post)[pre.len() + 48 + j]
                == #[trigger] field_flags(f)[j],
{
    let flags = field_flags(f);
    let enc = encode_node(f);
    let d = pre + enc + post;
    assert(field_ints(f).len() == 12);
    assert(flags.len() == 10);
    assert forall|j: int| 0 <= j < 10 implies d[pre.len() + 48 + j] == #[trigger] flags[j] by {
        assert(d[pre.len() + 48 + j] == enc[48 + j]);
    }
}

/// A serialized node holds what was written into it, whatever stands before
/// and behind it.
pub proof fn lemma_encoded_node(pre: Seq<u8>, f: NodeFields, post: Seq<u8>)
    ensures
        encode_node(f).len() == NODE_SIZE,
        ({
            let d = pre + encode_node(f) + post;
            let at = pre.len() as int;
            &&& be_u32_at(d, at) == f.name_start
            &&& be_u32_at(d, at + 4) == f.name_len
            &&& be_u32_at(d, at + 8) == f.copy_start
            &&& be_u32_at(d, at + 12) == f.copy_len
            &&& be_u32_at(d, at + 16) == f.children_start
            &&& be_u32_at(d, at + 20) == f.children_count
            &&& be_u32_at(d, at + 24) == f.entry_count
            &&& be_u32_at(d, at + 28) == f.tracked_count
            &&& disk_data(d, at) == f.data
            &&& (d[at + 49] != 0) == f.has_copy_source
        }),
{
    let ints = field_ints(f);
    let flags = field_flags(f);
    let d = pre + encode_node(f) + post;
    let at = pre.len() as int;
    lemma_encoded_ints(pre, f, post);
    lemma_encoded_flags(pre, f, post);
    assert(be_u32_at(d, at + 4 * 0) == ints[0]);
    assert(be_u32_at(d, at + 4 * 1) == ints[1]);
    assert(be_u32_at(d, at + 4 * 2) == ints[2]);
    assert(be_u32_at(d, at + 4 * 3) == ints[3]);
    assert(be_u32_at(d, at + 4 * 4) == ints[4]);
    assert(be_u32_at(d, at + 4 * 5) == ints[5]);
    assert(be_u32_at(d, at + 4 * 6) == ints[6]);
    assert(be_u32_at(d, at + 4 * 7) == ints[7]);
    assert(be_u32_at(d, at + 4 * 8) == ints[8]);
    assert(be_u32_at(d, at + 4 * 9) == ints[9]);
    assert(be_u32_at(d, at + 4 * 10) == ints[10]);
    assert(be_u32_at(d, at + 4 * 11) == ints[11]);
    assert(d[at + 48 + 0] == flags[0]);
    assert(d[at + 48 + 1] == flags[1]);
    assert(d[at + 48 + 2] == flags[2]);
    assert(d[at + 48 + 3] == flags[3]);
    assert(d[at + 48 + 4] == flags[4]);
    assert(d[at + 48 + 5] == flags[5]);
    assert(d[at + 48 + 6] == flags[6]);
    assert(d[at + 48 + 7] == flags[7]);
    assert(d[at + 48 + 8] == flags[8]);
    assert(d[at + 48 + 9] == flags[9]);
    assert(disk_data(d, at) == f.data) by {
        lemma_data_of_fields(d, at, f);
    }
}

fn flag_of(b: bool) -> (r: u8)
    ensures
        r == flag_byte(b),
{
    if b {
        1
    } else {
        0
    }
}

fn fallback_of(f: Option<bool>) -> (r: u8)
    ensures
        r == fallback_byte(f),
{
    match f {
        None => 0,
        Some(false) => 1,
        Some(true) => 2,
    }
}

/// Appends the bytes of a serialized node.
pub fn push_node(out: &mut Vec<u8>, f: &NodeFields)
    ensures
        final(out)@ == old(out)@ + encode_node(*f),
        final(out)@.len() == old(out)@.len() + NODE_SIZE,
{
    let (mode, size): (u32, u32) = match f.data {
        NodeData::Entry(e) => match e.mode_size {
            Some(ms) => ms,
            None => (0, 0),
        },
        _ => (0, 0),
    };
    let mtime: Option<TruncatedTimestamp> = match f.data {
        NodeData::Entry(e) => e.mtime,
        NodeData::CachedDirectory { mtime } => Some(mtime),
        NodeData::Empty => None,
    };
    let (seconds, nanoseconds): (u32, u32) = match mtime {
        Some(t) => (t.truncated_seconds, t.nanoseconds),
        None => (0, 0),
    };
    let ints: [u32; 12] = [
        f.name_start,
        f.name_len,
        f.copy_start,
        f.copy_len,
        f.children_start,
        f.children_count,
        f.entry_count,
        f.tracked_count,
        mode,
        size,
        seconds,
        nanoseconds,
    ];
    let flags: [u8; 10] = match f.data {
        NodeData::Entry(e) => [
            1,
            flag_of(f.has_copy_source),
            flag_of(e.wc_tracked),
            flag_of(e.p1_tracked),
            flag_of(e.p2_info),
            flag_of(e.mode_size.is_some()),
            flag_of(e.mtime.is_some()),
            flag_of(
                match e.mtime {
                    Some(t) => t.second_ambiguous,
                    None => false,
                },
            ),
            fallback_of(e.fallback_exec),
            fallback_of(e.fallback_symlink),
        ],
        NodeData::CachedDirectory { mtime } => [
            2,
            flag_of(f.has_copy_source),
            0,
            0,
            0,
            0,
            1,
            flag_of(mtime.second_ambiguous),
            0,
            0,
        ],
        NodeData::Empty => [0, flag_of(f.has_copy_source), 0, 0, 0, 0, 0, 0, 0, 0],
    };
    proof {
        assert(ints@ =~= field_ints(*f));
        assert(flags@ =~= field_flags(*f));
    }
    let mut i: usize = 0;
    while i < 12
        invariant
            i <= 12,
            ints@.len() == 12,
            out@ == old(out)@ + ints_bytes(ints@).take(4 * i as int),
        decreases 12 - i,
    {
        push_be_u32(out, ints[i]);
        proof {
            assert(out@ =~= old(out)@ + ints_bytes(ints@).take(4 * (i + 1) as int));
        }
        i += 1;
    }
    proof {
        assert(ints_bytes(ints@).take(48) =~= ints_bytes(ints@));
    }
    let mut j: usize = 0;
    while j < 10
        invariant
            j <= 10,
            flags@.len() == 10,
            out@ == old(out)@ + ints_bytes(ints@) + flags@.take(j as int),
        decreases 10 - j,
    {
        out.push(flags[j]);
        proof {
            assert(out@ =~= old(out)@ + ints_bytes(ints@) + flags@.take(j + 1));
        }
        j += 1;
    }
    proof {
        assert(flags@.take(10) =~= flags@);
        assert(out@ =~= old(out)@ + encode_node(*f));
    }
}

/// What a level adds to the counters of its parent, and how many copy
/// sources lie at and below it.
pub struct LevelSums {
    pub entries: u32,
    pub tracked_entries: u32,
    pub copies: u32,
}

/// The serialized nodes of a level can be read and make a well-formed
/// level, and its sums fit in 32 bits.
pub open spec fn valid_level(d: Seq<u8>, start: int, count: int) -> bool {
    &&& disk_level_ok(d, start, count)
    &&& start + count * NODE_SIZE <= d.len()
    &&& level_wf(disk_level(d, start, count))
    &&& level_entries(disk_level(d, start, count)) <= u32::MAX
    &&& level_copies(disk_level(d, start, count)) <= u32::MAX
}

/// The serialized node can be read and is well formed, and what it adds to
/// the sums of its level fits in 32 bits.
pub open spec fn valid_node(d: Seq<u8>, at: int) -> bool {
    &&& disk_node_ok(d, at)
    &&& node_wf(disk_node(d, at))
    &&& entry_weight(disk_node(d, at)) <= u32::MAX
    &&& node_copies(disk_node(d, at)) <= u32::MAX
}

/// Whether the data is in range.
pub fn data_in_range(data: &NodeData) -> (r: bool)
    ensures
        r == data.wf(),
{
    match data {
        NodeData::Entry(e) => {
            let sizes = match e.mode_size {
                Some(ms) => ms.0 <= RANGE_MASK_31BIT && ms.1 <= RANGE_MASK_31BIT,
                None => true,
            };
            let time = match e.mtime {
                Some(t) => t.truncated_seconds <= RANGE_MASK_31BIT && t.nanoseconds < NSEC_PER_SEC,
                None => true,
            };
            sizes && time
        },
        NodeData::CachedDirectory { mtime } => mtime.truncated_seconds <= RANGE_MASK_31BIT
            && mtime.nanoseconds < NSEC_PER_SEC,
        NodeData::Empty => true,
    }
}

/// Whether a name holds no separator.
pub fn is_slash_free(name: &[u8]) -> (r: bool)
    ensures
        r == slash_free(name@),
{
    let mut i: usize = 0;
    while i < name.len()
        invariant
            i <= name.len(),
            forall|k: int| 0 <= k < i ==> name@[k] != SLASH,
        decreases name.len() - i,
    {
        if name[i] == SLASH {
            return false;
        }
        i += 1;
    }
    true
}

/// The nodes of a valid level are valid.
pub proof fn lemma_valid_level_nodes(d: Seq<u8>, start: int, count: int, i: int)
    requires
        valid_level(d, start, count),
        0 <= i < count,
    ensures
        valid_node(d, start + i * NODE_SIZE),
        disk_level(d, start, count)[i] == disk_node(d, start + i * NODE_SIZE),
{
    let view = disk_level(d, start, count);
    assert(disk_node_ok(d, start + i * NODE_SIZE));
    assert(node_wf(view[i]));
    tree::lemma_sum_by_bound(view, i, entry_weight_fn());
    tree::lemma_sum_by_bound(view, i, copies_fn());
    tree::lemma_level_copies_is_sum(view);
}

/// The sums over the first nodes of a level are no larger than those over
/// the level.
pub proof fn lemma_prefix_sums(view: Seq<NodeView>, k: int)
    requires
        0 <= k <= view.len(),
    ensures
        level_entries(view.take(k)) <= level_entries(view),
        level_tracked(view.take(k)) <= level_tracked(view),
        level_copies(view.take(k)) <= level_copies(view),
    decreases view.len() - k,
{
    if k < view.len() {
        lemma_prefix_sums(view, k + 1);
        tree::lemma_sum_by_take(view, k, entry_weight_fn());
        tree::lemma_sum_by_take(view, k, tracked_weight_fn());
        tree::lemma_sum_by_take(view, k, copies_fn());
        tree::lemma_level_copies_is_sum(view.take(k));
        tree::lemma_level_copies_is_sum(view.take(k + 1));
    } else {
        assert(view.take(k) =~= view);
    }
}

/// Checks the serialized node at `at` and all nodes below it, and returns
/// what the node adds to the sums of its level: to the entries, to the
/// tracked entries and to the copy sources.
pub fn validate_node(d: &[u8], at: usize) -> (r: Option<LevelSums>)
    requires
        at + NODE_SIZE <= d@.len(),
    ensures
        r is Some <==> valid_node(d@, at as int),
        r matches Some(sums) ==> sums.entries == entry_weight(disk_node(d@, at as int))
            && sums.tracked_entries == tracked_weight(disk_node(d@, at as int)) && sums.copies
            == node_copies(disk_node(d@, at as int)),
    decreases at + NODE_SIZE, 0nat,
{
    let total = d.len();
    let name_start = read_be_u32(d, at) as usize;
    let name_len = read_be_u32(d, at + 4) as usize;
    let copy_start = read_be_u32(d, at + 8) as usize;
    let copy_len = read_be_u32(d, at + 12) as usize;
    let children_start = read_be_u32(d, at + 16) as usize;
    let children_count = read_be_u32(d, at + 20) as usize;
    let has_copy = d[at + 49] != 0;
    if name_len > total || name_start > total - name_len {
        return None;
    }
    if has_copy && (copy_len > total || copy_start > total - copy_len) {
        return None;
    }
    if children_count > at / NODE_SIZE || children_start > at - children_count * NODE_SIZE {
        return None;
    }
    let below = match validate_level(d, children_start, children_count) {
        Some(below) => below,
        None => {
            proof {
                if valid_node(d@, at as int) {
                    let node = disk_node(d@, at as int);
                    assert(node_wf(node));
                    assert(level_copies(node.children) <= node_copies(node));
                    assert(valid_level(d@, children_start as int, children_count as int));
                }
            }
            return None;
        },
    };
    let ghost node = disk_node(d@, at as int);
    proof {
        assert(disk_node_ok(d@, at as int));
        assert(node.children == disk_level(d@, children_start as int, children_count as int));
        tree::lemma_tracked_le_entries(node.children);
    }
    if !is_slash_free(slice_subrange(d, name_start, name_start + name_len)) {
        return None;
    }
    let data = disk_read_data(d, at);
    if !data_in_range(&data) {
        return None;
    }
    let entry_count = read_be_u32(d, at + 24);
    let tracked_count = read_be_u32(d, at + 28);
    if entry_count != below.entries || tracked_count != below.tracked_entries {
        return None;
    }
    proof {
        assert(node_wf(node));
    }
    let is_entry = data.has_entry();
    let is_tracked = match data {
        NodeData::Entry(e) => e.is_tracked(),
        _ => false,
    };
    if is_entry && entry_count == u32::MAX {
        return None;
    }
    if has_copy && below.copies == u32::MAX {
        return None;
    }
    Some(
        LevelSums {
            entries: if is_entry {
                entry_count + 1
            } else {
                entry_count
            },
            tracked_entries: if is_tracked {
                tracked_count + 1
            } else {
                tracked_count
            },
            copies: if has_copy {
                below.copies + 1
            } else {
                below.copies
            },
        },
    )
}

/// Checks the `count` serialized nodes from `start` on and all nodes below
/// them, and returns the sums of the level.
pub fn validate_level(d: &[u8], start: usize, count: usize) -> (r: Option<LevelSums>)
    ensures
        r is Some <==> valid_level(d@, start as int, count as int),
        r matches Some(sums) ==> sums.entries == level_entries(
            disk_level(d@, start as int, count as int),
        ) && sums.tracked_entries == level_tracked(disk_level(d@, start as int, count as int))
            && sums.copies == level_copies(disk_level(d@, start as int, count as int)),
    decreases start + count * NODE_SIZE, 1nat,
{
    let total = d.len();
    if count > total / NODE_SIZE || start > total - count * NODE_SIZE {
        return None;
    }
    let ghost view = disk_level(d@, start as int, count as int);
    let mut sums = LevelSums { entries: 0, tracked_entries: 0, copies: 0 };
    let mut i: usize = 0;
    proof {
        assert(view.take(0) =~= Seq::<NodeView>::empty());
        assert(level_copies(view.take(0)) == 0);
    }
    while i < count
        invariant
            i <= count,
            total == d@.len(),
            start + count * NODE_SIZE <= total,
            view == disk_level(d@, start as int, count as int),
            forall|k: int| 0 <= k < i ==> valid_node(d@, #[trigger] (start + k * NODE_SIZE)),
            forall|a: int, b: int|
                0 <= a < b < i ==> bytes_lt(#[trigger] view[a].name, #[trigger] view[b].name),
            sums.entries == level_entries(view.take(i as int)),
            sums.tracked_entries == level_tracked(view.take(i as int)),
            sums.copies == level_copies(view.take(i as int)),
        decreases count - i,
    {
        let at = start + i * NODE_SIZE;
        proof {
            assert(view[i as int] == disk_node(d@, at as int));
            tree::lemma_sum_by_take(view, i as int, entry_weight_fn());
            tree::lemma_sum_by_take(view, i as int, tracked_weight_fn());
            tree::lemma_sum_by_take(view, i as int, copies_fn());
            tree::lemma_level_copies_is_sum(view.take(i as int));
            tree::lemma_level_copies_is_sum(view.take(i + 1));
            lemma_prefix_sums(view, i + 1);
            if valid_level(d@, start as int, count as int) {
                lemma_valid_level_nodes(d@, start as int, count as int, i as int);
                tree::lemma_tracked_le_entries(view);
            }
        }
        let node = match validate_node(d, at) {
            Some(node) => node,
            None => {
                return None;
            },
        };
        if i > 0 {
            let before = start + (i - 1) * NODE_SIZE;
            proof {
                assert(valid_node(d@, before as int));
                assert(view[i - 1] == disk_node(d@, before as int));
            }
            match compare_bytes(disk_name(d, before), disk_name(d, at)) {
                Order::Less => {},
                _ => {
                    proof {
                        if names_sorted(view) {
                            assert(bytes_lt(view[i - 1].name, view[i as int].name));
                        }
                    }
                    return None;
                },
            }
            proof {
                assert forall|a: int, b: int| 0 <= a < b < i + 1 implies bytes_lt(
                    #[trigger] view[a].name,
                    #[trigger] view[b].name,
                ) by {
                    if b == i && a < i - 1 {
                        crate::bytes::lemma_bytes_lt_transitive(
                            view[a].name,
                            view[i - 1].name,
                            view[i as int].name,
                        );
                    }
                }
            }
        }
        if node.entries > u32::MAX - sums.entries || node.tracked_entries > u32::MAX
            - sums.tracked_entries || node.copies > u32::MAX - sums.copies {
            return None;
        }
        sums.entries = sums.entries + node.entries;
        sums.tracked_entries = sums.tracked_entries + node.tracked_entries;
        sums.copies = sums.copies + node.copies;
        i += 1;
    }
    proof {
        assert(view.take(count as int) =~= view);
        assert forall|k: int| 0 <= k < count implies disk_node_ok(
            d@,
            #[trigger] (start + k * NODE_SIZE),
        ) by {
            assert(valid_node(d@, start + k * NODE_SIZE));
        }
        assert forall|k: int| 0 <= k < view.len() implies node_wf(#[trigger] view[k]) by {
            assert(valid_node(d@, start + k * NODE_SIZE));
        }
    }
    Some(sums)
}

/// The file that new bytes make: the bytes alone, or behind the old file
/// where they are appended.
pub open spec fn file_of(old_file: Seq<u8>, append: bool, out: Seq<u8>) -> Seq<u8> {
    if append {
        old_file + out
    } else {
        out
    }
}

/// The fields say where in the file the parts of the node are, and the
/// parts are there.
pub open spec fn fields_fit(file: Seq<u8>, f: NodeFields, v: NodeView) -> bool {
    &&& f.name_start + f.name_len <= file.len()
    &&& file.subrange(f.name_start as int, f.name_start + f.name_len) == v.name
    &&& f.has_copy_source == (v.copy_source is Some)
    &&& f.has_copy_source ==> f.copy_start + f.copy_len <= file.len() && file.subrange(
        f.copy_start as int,
        f.copy_start + f.copy_len,
    ) == v.copy_source.unwrap()
    &&& disk_level_ok(file, f.children_start as int, f.children_count as int)
    &&& f.children_start + f.children_count * NODE_SIZE <= file.len()
    &&& disk_level(file, f.children_start as int, f.children_count as int) == v.children
    &&& f.entry_count == v.entry_count
    &&& f.tracked_count == v.tracked_count
    &&& f.data == v.data
}

/// Fields that fit a file fit it once bytes are added behind it.
pub proof fn lemma_fields_fit_grows(a: Seq<u8>, b: Seq<u8>, f: NodeFields, v: NodeView)
    requires
        begins_with(b, a),
        fields_fit(a, f, v),
    ensures
        fields_fit(b, f, v),
{
    lemma_disk_level_grows(a, b, f.children_start as int, f.children_count as int);
    assert(b.subrange(f.name_start as int, f.name_start + f.name_len) =~= a.subrange(
        f.name_start as int,
        f.name_start + f.name_len,
    ));
    if f.has_copy_source {
        assert(b.subrange(f.copy_start as int, f.copy_start + f.copy_len) =~= a.subrange(
            f.copy_start as int,
            f.copy_start + f.copy_len,
        ));
    }
}

/// The bytes of the first `k` of a list of nodes.
pub open spec fn encode_nodes(fields: Seq<NodeFields>, k: int) -> Seq<u8>
    decreases k,
{
    if k <= 0 {
        Seq::empty()
    } else {
        encode_nodes(fields, k - 1) + encode_node(fields[k - 1])
    }
}

/// The bytes of a list of nodes hold the bytes of each node at its place.
pub proof fn lemma_encode_nodes_at(fields: Seq<NodeFields>, n: int, k: int)
    requires
        0 <= k < n <= fields.len(),
    ensures
        encode_nodes(fields, n).len() == n * NODE_SIZE,
        encode_nodes(fields, n).subrange(k * NODE_SIZE, k * NODE_SIZE + NODE_SIZE) == encode_node(
            fields[k],
        ),
    decreases n,
{
    lemma_encode_nodes_len(fields, n);
    lemma_encode_nodes_len(fields, n - 1);
    let all = encode_nodes(fields, n);
    let below = encode_nodes(fields, n - 1);
    lemma_encoded_node(Seq::empty(), fields[n - 1], Seq::empty());
    if k == n - 1 {
        assert(all.subrange(k * NODE_SIZE, k * NODE_SIZE + NODE_SIZE) =~= encode_node(fields[k]));
    } else {
        lemma_encode_nodes_at(fields, n - 1, k);
        assert(all.subrange(k * NODE_SIZE, k * NODE_SIZE + NODE_SIZE) =~= below.subrange(
            k * NODE_SIZE,
            k * NODE_SIZE + NODE_SIZE,
        ));
    }
}

/// The bytes of a list of nodes are as many records long.
pub proof fn lemma_encode_nodes_len(fields: Seq<NodeFields>, n: int)
    requires
        0 <= n <= fields.len(),
    ensures
        encode_nodes(fields, n).len() == n * NODE_SIZE,
    decreases n,
{
    if n > 0 {
        lemma_encode_nodes_len(fields, n - 1);
        lemma_encoded_node(Seq::empty(), fields[n - 1], Seq::empty());
    }
}

/// The bytes of a level behind a file are the bytes of its `k`-th node
/// between what stands before and behind them.
pub proof fn lemma_level_bytes_split(before: Seq<u8>, fields: Seq<NodeFields>, k: int)
    requires
        0 <= k < fields.len(),
    ensures
        ({
            let all = encode_nodes(fields, fields.len() as int);
            let pre = before + all.subrange(0, k * 58);
            let post = all.subrange(k * 58 + 58, all.len() as int);
            &&& all.len() == fields.len() * 58
            &&& pre.len() == before.len() + k * 58
            &&& before + all == pre + encode_node(fields[k]) + post
        }),
{
    let n = fields.len() as int;
    let all = encode_nodes(fields, n);
    lemma_encode_nodes_at(fields, n, k);
    let pre = before + all.subrange(0, k * 58);
    let post = all.subrange(k * 58 + 58, all.len() as int);
    assert(all =~= all.subrange(0, k * 58) + all.subrange(k * 58, k * 58 + 58) + post);
    assert(before + all =~= pre + encode_node(fields[k]) + post);
}

/// A node whose fields are read from the file and fit the file is the node
/// that the fields were made for.
pub proof fn lemma_node_of_fields(file: Seq<u8>, at: int, f: NodeFields, v: NodeView)
    requires
        0 <= at,
        at + 58 <= file.len(),
        fields_fit(file, f, v),
        f.children_start + f.children_count * 58 <= at,
        be_u32_at(file, at) == f.name_start,
        be_u32_at(file, at + 4) == f.name_len,
        be_u32_at(file, at + 8) == f.copy_start,
        be_u32_at(file, at + 12) == f.copy_len,
        be_u32_at(file, at + 16) == f.children_start,
        be_u32_at(file, at + 20) == f.children_count,
        be_u32_at(file, at + 24) == f.entry_count,
        be_u32_at(file, at + 28) == f.tracked_count,
        disk_data(file, at) == f.data,
        (file[at + 49] != 0) == f.has_copy_source,
    ensures
        disk_node_ok(file, at),
        disk_node(file, at) == v,
{
    let node = disk_node(file, at);
    assert(node.name == v.name);
    assert(node.copy_source == v.copy_source);
    assert(node.children == v.children);
    assert(node.data == v.data);
    assert(node.entry_count == v.entry_count);
    assert(node.tracked_count == v.tracked_count);
}

/// The node written as the `k`-th of a level is the node that its fields
/// were made for.
pub proof fn lemma_node_written(
    before: Seq<u8>,
    fields: Seq<NodeFields>,
    view: Seq<NodeView>,
    k: int,
)
    requires
        fields.len() == view.len(),
        0 <= k < fields.len(),
        fields_fit(before, fields[k], view[k]),
    ensures
        disk_node_ok(
            before + encode_nodes(fields, fields.len() as int),
            before.len() + k * NODE_SIZE,
        ),
        disk_node(before + encode_nodes(fields, fields.len() as int), before.len() + k * NODE_SIZE)
            == view[k],
{
    let all = encode_nodes(fields, fields.len() as int);
    let file = before + all;
    let at = before.len() + k * 58;
    let pre = before + all.subrange(0, k * 58);
    let post = all.subrange(k * 58 + 58, all.len() as int);
    lemma_level_bytes_split(before, fields, k);
    lemma_encoded_node(pre, fields[k], post);
    assert(begins_with(file, before));
    lemma_fields_fit_grows(before, file, fields[k], view[k]);
    lemma_node_of_fields(file, at, fields[k], view[k]);
}

/// The level written from a list of fields is the level that the fields
/// were made for.
pub proof fn lemma_level_written(before: Seq<u8>, fields: Seq<NodeFields>, view: Seq<NodeView>)
    requires
        fields.len() == view.len(),
        forall|k: int| 0 <= k < fields.len() ==> fields_fit(before, #[trigger] fields[k], view[k]),
    ensures
        disk_level_ok(
            before + encode_nodes(fields, fields.len() as int),
            before.len() as int,
            fields.len() as int,
        ),
        disk_level(
            before + encode_nodes(fields, fields.len() as int),
            before.len() as int,
            fields.len() as int,
        ) == view,
        (before + encode_nodes(fields, fields.len() as int)).len() == before.len() + fields.len()
            * NODE_SIZE,
{
    let n = fields.len() as int;
    let file = before + encode_nodes(fields, n);
    let start = before.len() as int;
    lemma_encode_nodes_len(fields, n);
    assert forall|k: int| 0 <= k < n implies disk_node_ok(file, #[trigger] (start + k * NODE_SIZE))
        && disk_node(file, start + k * NODE_SIZE) == view[k] by {
        assert(fields_fit(before, fields[k], view[k]));
        lemma_node_written(before, fields, view, k);
    }
    assert(disk_level(file, start, n) =~= view);
}

/// Bytes that a node takes where it is written anew: its name, its copy
/// source, its record, and the levels below it.
pub open spec fn node_view_bytes(n: NodeView) -> nat
    decreases n, 0nat,
{
    n.name.len() + (match n.copy_source {
        Some(source) => source.len(),
        None => 0,
    }) + 58 + view_bytes(n.children)
}

/// Bytes that a level takes where it is written anew.
pub open spec fn view_bytes(s: Seq<NodeView>) -> nat
    decreases s, 1nat,
{
    if s.len() == 0 {
        0
    } else {
        view_bytes(s.drop_last()) + node_view_bytes(s.last())
    }
}

/// Bytes that a decoded node takes where only what is decoded is written.
pub open spec fn node_new_bytes(n: Node) -> nat
    decreases n, 0nat,
{
    n.name.bytes@.len() + (match n.copy_source {
        Some(source) => source.bytes@.len(),
        None => 0,
    }) + 58 + level_new_bytes(n.children)
}

/// Bytes that a level takes where only what is decoded is written: none
/// for a level that is still serialized.
pub open spec fn level_new_bytes(c: ChildNodes) -> nat
    decreases c, 0nat,
{
    match c {
        ChildNodes::OnDisk(_) => 0,
        ChildNodes::InMemory(v) => nodes_new_bytes(v@, v@.len()),
    }
}

/// Bytes that the first `k` of decoded nodes take where only what is
/// decoded is written.
pub open spec fn nodes_new_bytes(v: Seq<Node>, k: nat) -> nat
    decreases v, k,
{
    if k == 0 || k > v.len() {
        0
    } else {
        nodes_new_bytes(v, (k - 1) as nat) + node_new_bytes(v[k - 1])
    }
}

/// Bytes that writing the first `k` nodes of a level adds to the file.
pub open spec fn written_part(c: ChildNodesRef, d: Seq<u8>, append: bool, k: int) -> nat {
    if append {
        match c {
            ChildNodesRef::InMemory(v) => nodes_new_bytes(v@, k as nat),
            ChildNodesRef::OnDisk(_) => 0,
        }
    } else {
        view_bytes(c.view_on(d).take(k))
    }
}

/// Bytes that writing a level adds to the file: where the new bytes are
/// appended, those of the decoded levels alone.
pub open spec fn written_bytes(c: ChildNodesRef, d: Seq<u8>, append: bool) -> nat {
    written_part(c, d, append, c.view_on(d).len() as int)
}

/// Bytes that writing a node adds to the file.
pub open spec fn node_written_bytes(r: NodeRef, d: Seq<u8>, append: bool) -> nat {
    match r {
        NodeRef::InMemory(n) => if append {
            node_new_bytes(*n)
        } else {
            node_view_bytes(n.view_on(d))
        },
        NodeRef::OnDisk(at) => node_view_bytes(disk_node(d, at as int)),
    }
}

/// Writing one more node of a level adds the bytes of that node.
pub proof fn lemma_written_part_step(
    c: ChildNodesRef,
    d: Seq<u8>,
    append: bool,
    k: int,
    r: NodeRef,
)
    requires
        0 <= k < c.view_on(d).len(),
        !(append && c is OnDisk),
        r.view_on(d) == c.view_on(d)[k],
        c matches ChildNodesRef::InMemory(v) ==> r == NodeRef::InMemory(&v@[k]),
        c is OnDisk ==> r is OnDisk,
    ensures
        written_part(c, d, append, k + 1) == written_part(c, d, append, k) + node_written_bytes(
            r,
            d,
            append,
        ),
{
    let view = c.view_on(d);
    if !append {
        assert(view.take(k + 1).drop_last() =~= view.take(k));
        assert(view.take(k + 1).last() == view[k]);
        assert(node_written_bytes(r, d, append) == node_view_bytes(view[k]));
    } else {
        match c {
            ChildNodesRef::InMemory(v) => {
                assert(view.len() == v@.len());
                assert(nodes_new_bytes(v@, (k + 1) as nat) == nodes_new_bytes(v@, k as nat)
                    + node_new_bytes(v@[k]));
            },
            ChildNodesRef::OnDisk(_) => {},
        }
    }
}

/// Writing more nodes of a level adds at least their records.
pub proof fn lemma_written_part_grows(c: ChildNodesRef, d: Seq<u8>, append: bool, j: int, k: int)
    requires
        0 <= j <= k <= c.view_on(d).len(),
    ensures
        written_part(c, d, append, j) + 58 * (k - j) <= written_part(c, d, append, k) || (append
            && c is OnDisk),
        written_part(c, d, append, j) <= written_part(c, d, append, k),
    decreases k - j,
{
    if j < k {
        lemma_written_part_grows(c, d, append, j, k - 1);
        let view = c.view_on(d);
        if !append {
            assert(view.take(k).drop_last() =~= view.take(k - 1));
            assert(view_bytes(view.take(k)) == view_bytes(view.take(k - 1)) + node_view_bytes(
                view.take(k).last(),
            ));
        } else {
            match c {
                ChildNodesRef::InMemory(v) => {
                    assert(view.len() == v@.len());
                    assert(nodes_new_bytes(v@, k as nat) == nodes_new_bytes(v@, (k - 1) as nat)
                        + node_new_bytes(v@[k - 1]));
                },
                ChildNodesRef::OnDisk(_) => {},
            }
        }
    }
}

/// What a node adds to the file is its name, its copy source, its record,
/// and what the levels below it add.
pub proof fn lemma_node_written_bytes(r: NodeRef, d: Seq<u8>, append: bool, below: ChildNodesRef)
    requires
        r.ok(d),
        below.view_on(d) == r.view_on(d).children,
        r matches NodeRef::InMemory(n) ==> below == n.children.spec_as_ref(),
        r is OnDisk ==> !append,
    ensures
        node_written_bytes(r, d, append) == r.view_on(d).name.len() + (match r.view_on(
            d,
        ).copy_source {
            Some(source) => source.len(),
            None => 0,
        }) + 58 + written_bytes(below, d, append),
{
    let v = r.view_on(d);
    assert(v.children.take(v.children.len() as int) =~= v.children);
    match r {
        NodeRef::InMemory(n) => {
            if append {
                match n.children {
                    ChildNodes::InMemory(nodes) => {
                        assert(below.view_on(d).len() == nodes@.len());
                    },
                    ChildNodes::OnDisk(_) => {},
                }
            }
        },
        NodeRef::OnDisk(_) => {},
    }
}

/// Bytes added behind a file leave the file as it begins, and stand at its
/// end.
pub proof fn lemma_file_extended(old_file: Seq<u8>, append: bool, out: Seq<u8>, more: Seq<u8>)
    ensures
        file_of(old_file, append, out + more) == file_of(old_file, append, out) + more,
        begins_with(file_of(old_file, append, out + more), file_of(old_file, append, out)),
        file_of(old_file, append, out + more).subrange(
            file_of(old_file, append, out).len() as int,
            (file_of(old_file, append, out).len() + more.len()) as int,
        ) == more,
{
    let a = file_of(old_file, append, out);
    let b = file_of(old_file, append, out + more);
    assert(b =~= a + more);
    assert(b.subrange(a.len() as int, (a.len() + more.len()) as int) =~= more);
}

/// What begins a beginning of a file begins the file.
pub proof fn lemma_begins_with_transitive(c: Seq<u8>, b: Seq<u8>, a: Seq<u8>)
    requires
        begins_with(c, b),
        begins_with(b, a),
    ensures
        begins_with(c, a),
{
}

/// The bytes of a copy source, or none.
pub open spec fn copy_bytes_of(copy: Option<Seq<u8>>) -> Seq<u8> {
    match copy {
        Some(source) => source,
        None => Seq::empty(),
    }
}

/// Name and copy source written behind the levels of a node stand where
/// the fields of the node say.
pub proof fn lemma_parts_written(file1: Seq<u8>, f: NodeFields, v: NodeView)
    requires
        disk_level_ok(file1, f.children_start as int, f.children_count as int),
        f.children_start + f.children_count * 58 <= file1.len(),
        disk_level(file1, f.children_start as int, f.children_count as int) == v.children,
        f.name_start == file1.len(),
        f.name_len == v.name.len(),
        f.has_copy_source == (v.copy_source is Some),
        v.copy_source matches Some(source) ==> f.copy_start == file1.len() + v.name.len()
            && f.copy_len == source.len(),
        f.entry_count == v.entry_count,
        f.tracked_count == v.tracked_count,
        f.data == v.data,
    ensures
        fields_fit(file1 + v.name + copy_bytes_of(v.copy_source), f, v),
{
    let file = file1 + v.name + copy_bytes_of(v.copy_source);
    assert(begins_with(file, file1));
    lemma_disk_level_grows(file1, file, f.children_start as int, f.children_count as int);
    assert(file.subrange(f.name_start as int, f.name_start + f.name_len) =~= v.name);
    match v.copy_source {
        Some(source) => {
            assert(file.subrange(f.copy_start as int, f.copy_start + f.copy_len) =~= source);
        },
        None => {},
    }
}

/// Length of the name and of the copy source of a node.
pub open spec fn name_and_copy_len(v: NodeView) -> nat {
    v.name.len() + copy_bytes_of(v.copy_source).len()
}

/// Writes the name and the copy source of a node behind `out`, and returns
/// the fields of the node. `below` is where the children of the node are in
/// the file.
///
/// Fails, and writes nothing, where the file would pass the largest
/// address.
pub fn write_name_and_copy<'tree>(
    child: NodeRef<'tree>,
    on_disk: &'tree [u8],
    append: bool,
    out: &mut Vec<u8>,
    below: DiskSlice,
) -> (r: Option<NodeFields>)
    requires
        child.ok(on_disk@),
        file_of(on_disk@, append, old(out)@).len() <= u32::MAX,
        below.ok(file_of(on_disk@, append, old(out)@)),
        disk_level(
            file_of(on_disk@, append, old(out)@),
            below.start as int,
            below.count as int,
        ) == child.view_on(on_disk@).children,
    ensures
        begins_with(final(out)@, old(out)@),
        r is Some <==> file_of(on_disk@, append, old(out)@).len() + name_and_copy_len(
            child.view_on(on_disk@),
        ) <= u32::MAX,
        r is None ==> final(out)@ == old(out)@,
        r matches Some(f) ==> {
            &&& fields_fit(file_of(on_disk@, append, final(out)@), f, child.view_on(on_disk@))
            &&& final(out)@.len() == old(out)@.len() + name_and_copy_len(child.view_on(on_disk@))
        },
{
    let ghost d = on_disk@;
    let ghost v = child.view_on(d);
    let ghost out1 = out@;
    let ghost file1 = file_of(d, append, out1);
    let base: usize = if append {
        on_disk.len()
    } else {
        0
    };
    proof {
        assert(file1.len() == base + out1.len());
    }
    let name = child.base_name(on_disk);
    let copy_source = child.copy_source(on_disk);
    let copy_len: usize = match copy_source {
        Some(source) => source.len(),
        None => 0,
    };
    let room = u32::MAX as usize - (base + out.len());
    if name.len() > room || copy_len > room - name.len() {
        return None;
    }
    let name_start = base + out.len();
    push_bytes(out, name);
    let copy_start: usize = if copy_source.is_some() {
        base + out.len()
    } else {
        0
    };
    if let Some(source) = copy_source {
        push_bytes(out, source);
    }
    let f = NodeFields {
        name_start: name_start as u32,
        name_len: name.len() as u32,
        copy_start: copy_start as u32,
        copy_len: copy_len as u32,
        children_start: below.start as u32,
        children_count: below.count as u32,
        entry_count: child.descendants_with_entry_count(on_disk),
        tracked_count: child.tracked_descendants_count(on_disk),
        data: child.data(on_disk),
        has_copy_source: copy_source.is_some(),
    };
    proof {
        let tail = copy_bytes_of(v.copy_source);
        assert(out@ =~= out1 + v.name + tail);
        lemma_file_extended(d, append, out1, v.name + tail);
        assert(out1 + (v.name + tail) =~= out1 + v.name + tail);
        assert(file_of(d, append, out@) =~= file1 + v.name + tail);
        lemma_parts_written(file1, f, v);
        assert(begins_with(out@, out1));
    }
    Some(f)
}

/// Writes what a node points to behind `out`: the levels below it, its
/// name and its copy source. Returns the fields of the node, which say
/// where these are.
pub fn write_node_parts<'tree>(
    child: NodeRef<'tree>,
    on_disk: &'tree [u8],
    append: bool,
    out: &mut Vec<u8>,
) -> (r: Option<NodeFields>)
    requires
        child.ok(on_disk@),
        child is OnDisk ==> !append,
        file_of(on_disk@, append, old(out)@).len() <= u32::MAX,
    ensures
        begins_with(final(out)@, old(out)@),
        r is Some <==> file_of(on_disk@, append, old(out)@).len() + node_written_bytes(
            child,
            on_disk@,
            append,
        ) <= u32::MAX + 58,
        r matches Some(f) ==> {
            let file = file_of(on_disk@, append, final(out)@);
            &&& file.len() <= u32::MAX
            &&& fields_fit(file, f, child.view_on(on_disk@))
            &&& final(out)@.len() + 58 == old(out)@.len() + node_written_bytes(
                child,
                on_disk@,
                append,
            )
        },
    decreases child.view_on(on_disk@), 0nat,
{
    let ghost d = on_disk@;
    let levels = child.children(on_disk);
    proof {
        lemma_node_written_bytes(child, d, append, levels);
        assert(file_of(d, append, out@).len() == (if append {
            d.len()
        } else {
            0
        }) + out@.len());
    }
    let below = match write_nodes(levels, on_disk, append, out) {
        Some(below) => below,
        None => {
            return None;
        },
    };
    let ghost out1 = out@;
    proof {
        assert(file_of(d, append, out1).len() == (if append {
            d.len()
        } else {
            0
        }) + out1.len());
    }
    let r = write_name_and_copy(child, on_disk, append, out, below);
    proof {
        lemma_begins_with_transitive(out@, out1, old(out)@);
        assert(file_of(d, append, out@).len() == (if append {
            d.len()
        } else {
            0
        }) + out@.len());
    }
    r
}

/// Writes, for each node of a level, what the node points to behind `out`,
/// and returns the fields of the nodes in their order.
pub fn write_level_parts<'tree>(
    children: ChildNodesRef<'tree>,
    on_disk: &'tree [u8],
    append: bool,
    out: &mut Vec<u8>,
) -> (r: Option<Vec<NodeFields>>)
    requires
        children.ok(on_disk@),
        !(append && children is OnDisk),
        file_of(on_disk@, append, old(out)@).len() <= u32::MAX,
    ensures
        begins_with(final(out)@, old(out)@),
        r is Some <==> file_of(on_disk@, append, old(out)@).len() + written_bytes(
            children,
            on_disk@,
            append,
        ) <= u32::MAX + 58 * children.view_on(on_disk@).len(),
        r matches Some(fields) ==> {
            let file = file_of(on_disk@, append, final(out)@);
            &&& file.len() <= u32::MAX
            &&& fields@.len() == children.view_on(on_disk@).len()
            &&& forall|k: int|
                0 <= k < fields@.len() ==> fields_fit(
                    file,
                    #[trigger] fields@[k],
                    children.view_on(on_disk@)[k],
                )
            &&& final(out)@.len() + 58 * fields@.len() == old(out)@.len() + written_bytes(
                children,
                on_disk@,
                append,
            )
        },
    decreases children.view_on(on_disk@), 0nat,
{
    let ghost d = on_disk@;
    let ghost view = children.view_on(d);
    let n = children.len();
    let mut fields: Vec<NodeFields> = Vec::new();
    let mut i: usize = 0;
    while i < n
        invariant
            i <= n,
            n == view.len(),
            view == children.view_on(d),
            d == on_disk@,
            children.ok(d),
            begins_with(out@, old(out)@),
            file_of(d, append, out@).len() <= u32::MAX,
            file_of(d, append, out@).len() - out@.len() == file_of(d, append, old(out)@).len()
                - old(out)@.len(),
            !(append && children is OnDisk),
            out@.len() + 58 * i == old(out)@.len() + written_part(children, d, append, i as int),
            fields@.len() == i,
            forall|k: int|
                0 <= k < i ==> fields_fit(file_of(d, append, out@), #[trigger] fields@[k], view[k]),
        decreases n - i,
    {
        let child = children.at(i, on_disk);
        let ghost file0 = file_of(d, append, out@);
        proof {
            lemma_written_part_step(children, d, append, i as int, child);
            lemma_written_part_grows(children, d, append, i + 1, n as int);
        }
        let f = match write_node_parts(child, on_disk, append, out) {
            Some(f) => f,
            None => {
                return None;
            },
        };
        proof {
            let file1 = file_of(d, append, out@);
            assert(begins_with(file1, file0));
            assert forall|k: int| 0 <= k < i implies fields_fit(
                file1,
                #[trigger] fields@[k],
                view[k],
            ) by {
                lemma_fields_fit_grows(file0, file1, fields@[k], view[k]);
            }
        }
        fields.push(f);
        i += 1;
    }
    Some(fields)
}

/// Appends the records of the nodes of a level.
pub fn write_records(out: &mut Vec<u8>, fields: &Vec<NodeFields>)
    ensures
        final(out)@ == old(out)@ + encode_nodes(fields@, fields@.len() as int),
        final(out)@.len() == old(out)@.len() + 58 * fields@.len(),
{
    let n = fields.len();
    let mut j: usize = 0;
    proof {
        assert(out@ =~= old(out)@ + encode_nodes(fields@, 0));
    }
    while j < n
        invariant
            j <= n,
            n == fields@.len(),
            out@ == old(out)@ + encode_nodes(fields@, j as int),
        decreases n - j,
    {
        push_node(out, &fields[j]);
        proof {
            assert(out@ =~= old(out)@ + encode_nodes(fields@, j + 1));
        }
        j += 1;
    }
    proof {
        lemma_encode_nodes_len(fields@, n as int);
    }
}

/// Writes the records of a level whose parts are written, and returns where
/// the level is in the file.
///
/// Fails, and writes nothing, where the records would pass the largest
/// address that a serialized node can hold.
fn write_level(
    on_disk: &[u8],
    append: bool,
    out: &mut Vec<u8>,
    fields: &Vec<NodeFields>,
    Ghost(view): Ghost<Seq<NodeView>>,
) -> (r: Option<DiskSlice>)
    requires
        file_of(on_disk@, append, old(out)@).len() <= u32::MAX,
        fields@.len() == view.len(),
        forall|k: int|
            0 <= k < fields@.len() ==> fields_fit(
                file_of(on_disk@, append, old(out)@),
                #[trigger] fields@[k],
                view[k],
            ),
    ensures
        begins_with(final(out)@, old(out)@),
        r is Some <==> file_of(on_disk@, append, old(out)@).len() + 58 * fields@.len()
            <= u32::MAX,
        r is None ==> final(out)@ == old(out)@,
        r matches Some(slice) ==> {
            let file = file_of(on_disk@, append, final(out)@);
            &&& file.len() <= u32::MAX
            &&& slice.ok(file)
            &&& disk_level(file, slice.start as int, slice.count as int) == view
            &&& final(out)@.len() == old(out)@.len() + 58 * fields@.len()
        },
{
    let ghost d = on_disk@;
    let base: usize = if append {
        on_disk.len()
    } else {
        0
    };
    let n = fields.len();
    let ghost before = file_of(d, append, out@);
    proof {
        assert(before.len() == base + out@.len());
    }
    let room: usize = u32::MAX as usize - (base + out.len());
    if n > room / NODE_SIZE {
        proof {
            assert(n * 58 > room) by (nonlinear_arith)
                requires
                    n > room / 58,
            ;
        }
        return None;
    }
    proof {
        assert(n * 58 <= room) by (nonlinear_arith)
            requires
                n <= room / 58,
        ;
    }
    let start = base + out.len();
    write_records(out, fields);
    proof {
        lemma_level_written(before, fields@, view);
        assert(file_of(d, append, out@) =~= before + encode_nodes(fields@, n as int));
    }
    Some(DiskSlice { start, count: n })
}

/// Writes a level and all levels below it behind `out`, the children of a
/// node before the node, and returns where the level is in the file.
///
/// Where the new bytes are appended to the old file, a level that is still
/// serialized is not written again: it stays where it is.
///
/// Fails where the file would pass the largest address that a serialized
/// node can hold.
pub fn write_nodes<'tree>(
    children: ChildNodesRef<'tree>,
    on_disk: &'tree [u8],
    append: bool,
    out: &mut Vec<u8>,
) -> (r: Option<DiskSlice>)
    requires
        children.ok(on_disk@),
        file_of(on_disk@, append, old(out)@).len() <= u32::MAX,
    ensures
        begins_with(final(out)@, old(out)@),
        r is Some <==> file_of(on_disk@, append, old(out)@).len() + written_bytes(
            children,
            on_disk@,
            append,
        ) <= u32::MAX,
        r matches Some(slice) ==> {
            let file = file_of(on_disk@, append, final(out)@);
            &&& file.len() <= u32::MAX
            &&& slice.ok(file)
            &&& disk_level(file, slice.start as int, slice.count as int) == children.view_on(
                on_disk@,
            )
            &&& final(out)@.len() == old(out)@.len() + written_bytes(children, on_disk@, append)
        },
    decreases children.view_on(on_disk@), 1nat,
{
    let ghost d = on_disk@;
    let ghost view = children.view_on(d);
    let base: usize = if append {
        on_disk.len()
    } else {
        0
    };
    if append {
        if let ChildNodesRef::OnDisk(slice) = children {
            proof {
                let file = file_of(d, append, out@);
                assert(begins_with(file, d));
                lemma_disk_level_grows(d, file, slice.start as int, slice.count as int);
            }
            return Some(slice);
        }
    }
    proof {
        assert(file_of(d, append, out@).len() == base + out@.len());
    }
    let fields = match write_level_parts(children, on_disk, append, out) {
        Some(fields) => fields,
        None => {
            return None;
        },
    };
    let ghost written = out@;
    let r = write_level(on_disk, append, out, &fields, Ghost(view));
    proof {
        lemma_begins_with_transitive(out@, written, old(out)@);
    }
    r
}

/// Bytes of the metadata of a serialized tree.
pub const TREE_METADATA_SIZE: usize = 44;

/// What is kept beside a serialized tree: where its root level is, the
/// counters of the map, and the hash of the ignore patterns.
///
/// As bytes: the five integers, most significant byte first, four unused
/// bytes, and the twenty bytes of the hash.
#[derive(Clone, Copy, Debug, PartialEq, Eq)]
pub struct TreeMetadata {
    pub root_start: u32,
    pub root_count: u32,
    pub nodes_with_entry_count: u32,
    pub nodes_with_copy_source_count: u32,
    pub unreachable_bytes: u32,
    pub ignore_patterns_hash: [u8; 20],
}

impl TreeMetadata {
    /// The five integers in their order.
    pub open spec fn spec_ints(self) -> Seq<u32> {
        seq![
            self.root_start,
            self.root_count,
            self.nodes_with_entry_count,
            self.nodes_with_copy_source_count,
            self.unreachable_bytes,
        ]
    }

    /// The bytes of the metadata.
    pub open spec fn spec_bytes(self) -> Seq<u8> {
        ints_bytes(self.spec_ints()) + seq![0u8, 0u8, 0u8, 0u8] + self.ignore_patterns_hash@
    }

    /// The bytes are those of this metadata, but for the unused ones.
    pub open spec fn is_read_from(self, m: Seq<u8>) -> bool {
        &&& m.len() == TREE_METADATA_SIZE
        &&& self.root_start == be_u32_at(m, 0)
        &&& self.root_count == be_u32_at(m, 4)
        &&& self.nodes_with_entry_count == be_u32_at(m, 8)
        &&& self.nodes_with_copy_source_count == be_u32_at(m, 12)
        &&& self.unreachable_bytes == be_u32_at(m, 16)
        &&& self.ignore_patterns_hash@ == m.subrange(24, 44)
    }

    /// The bytes of the metadata.
    pub fn as_bytes(&self) -> (r: Vec<u8>)
        ensures
            r@ == self.spec_bytes(),
    {
        let mut out: Vec<u8> = Vec::new();
        let ints: [u32; 5] = [
            self.root_start,
            self.root_count,
            self.nodes_with_entry_count,
            self.nodes_with_copy_source_count,
            self.unreachable_bytes,
        ];
        proof {
            assert(ints@ =~= self.spec_ints());
        }
        let mut i: usize = 0;
        while i < 5
            invariant
                i <= 5,
                ints@.len() == 5,
                out@ == ints_bytes(ints@).take(4 * i as int),
            decreases 5 - i,
        {
            push_be_u32(&mut out, ints[i]);
            proof {
                assert(out@ =~= ints_bytes(ints@).take(4 * (i + 1) as int));
            }
            i += 1;
        }
        proof {
            assert(ints_bytes(ints@).take(20) =~= ints_bytes(ints@));
        }
        out.push(0);
        out.push(0);
        out.push(0);
        out.push(0);
        push_bytes(&mut out, self.ignore_patterns_hash.as_slice());
        proof {
            assert(out@ =~= self.spec_bytes());
        }
        out
    }

    /// The metadata that forty-four bytes hold; nothing for any other
    /// number of bytes.
    pub fn from_bytes(m: &[u8]) -> (r: Option<Self>)
        ensures
            r is Some <==> m@.len() == TREE_METADATA_SIZE,
            r matches Some(meta) ==> meta.is_read_from(m@),
    {
        if m.len() != TREE_METADATA_SIZE {
            return None;
        }
        let mut hash: [u8; 20] = [0u8; 20];
        let mut i: usize = 0;
        while i < 20
            invariant
                i <= 20,
                m@.len() == 44,
                forall|k: int| 0 <= k < i ==> hash@[k] == m@[24 + k],
            decreases 20 - i,
        {
            hash[i] = m[24 + i];
            i += 1;
        }
        let meta = TreeMetadata {
            root_start: read_be_u32(m, 0),
            root_count: read_be_u32(m, 4),
            nodes_with_entry_count: read_be_u32(m, 8),
            nodes_with_copy_source_count: read_be_u32(m, 12),
            unreachable_bytes: read_be_u32(m, 16),
            ignore_patterns_hash: hash,
        };
        proof {
            assert(meta.ignore_patterns_hash@ =~= m@.subrange(24, 44));
        }
        Some(meta)
    }
}

/// Metadata is read back from its bytes.
pub proof fn lemma_metadata_round_trip(meta: TreeMetadata)
    ensures
        meta.is_read_from(meta.spec_bytes()),
{
    let ints = meta.spec_ints();
    let rest = seq![0u8, 0u8, 0u8, 0u8] + meta.ignore_patterns_hash@;
    let m = meta.spec_bytes();
    assert(m =~= Seq::<u8>::empty() + ints_bytes(ints) + rest);
    lemma_int_in_file(Seq::empty(), ints, rest, 0);
    lemma_int_in_file(Seq::empty(), ints, rest, 1);
    lemma_int_in_file(Seq::empty(), ints, rest, 2);
    lemma_int_in_file(Seq::empty(), ints, rest, 3);
    lemma_int_in_file(Seq::empty(), ints, rest, 4);
    assert(m.subrange(24, 44) =~= meta.ignore_patterns_hash@);
}

/// The data and the metadata are those of a serialized tree: the metadata
/// has its length, the root level that it names is valid, and the counters
/// that it holds are the numbers of entries and of copy sources of the
/// tree.
pub open spec fn v2_readable(d: Seq<u8>, m: Seq<u8>) -> bool {
    &&& m.len() == TREE_METADATA_SIZE
    &&& valid_level(d, be_u32_at(m, 0) as int, be_u32_at(m, 4) as int)
    &&& level_entries(disk_level(d, be_u32_at(m, 0) as int, be_u32_at(m, 4) as int))
        == be_u32_at(m, 8)
    &&& level_copies(disk_level(d, be_u32_at(m, 0) as int, be_u32_at(m, 4) as int)) == be_u32_at(
        m,
        12,
    )
}

} // verus!
