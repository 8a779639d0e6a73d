//! Nodes of the tree, in memory and serialized, and the mathematical tree
//! that both stand for.

use crate::bytes::be_u32_at;
use crate::entry::{DirstateEntry, TruncatedTimestamp};
use vstd::prelude::*;

verus! {

/// What a node records about its own path.
#[derive(Clone, Copy, Debug, PartialEq, Eq)]
pub enum NodeData {
    Entry(DirstateEntry),
    CachedDirectory { mtime: TruncatedTimestamp },
    /// Nothing: the node is there for its children or its copy source.
    Empty,
}

impl Default for NodeData {
    fn default() -> (r: Self)
        ensures
            r is Empty,
    {
        NodeData::Empty
    }
}

impl NodeData {
    /// Whether the data is an entry.
    pub open spec fn spec_has_entry(self) -> bool {
        self is Entry
    }

    /// Whether the data is an entry.
    pub fn has_entry(&self) -> (r: bool)
        ensures
            r == self.spec_has_entry(),
    {
        match self {
            NodeData::Entry(_) => true,
            _ => false,
        }
    }

    /// The entry, if the data is one.
    pub open spec fn spec_as_entry(self) -> Option<DirstateEntry> {
        match self {
            NodeData::Entry(e) => Some(e),
            _ => None,
        }
    }

    /// The entry, if the data is one.
    pub fn as_entry(&self) -> (r: Option<&DirstateEntry>)
        ensures
            r is Some <==> *self is Entry,
            r is Some ==> Some(*r.unwrap()) == self.spec_as_entry(),
    {
        match self {
            NodeData::Entry(entry) => Some(entry),
            _ => None,
        }
    }

    /// The entry for writing, if the data is one.
    pub fn as_entry_mut(&mut self) -> (r: Option<&mut DirstateEntry>)
        ensures
            r is Some <==> *old(self) is Entry,
            r is Some ==> Some(*r.unwrap()) == old(self).spec_as_entry() && *final(self)
                == NodeData::Entry(*final(r.unwrap())),
            r is None ==> *final(self) == *old(self),
    {
        match self {
            NodeData::Entry(entry) => Some(entry),
            _ => None,
        }
    }

    /// The entry is in range, and so is a cached time.
    pub open spec fn wf(self) -> bool {
        match self {
            NodeData::Entry(e) => e.wf(),
            NodeData::CachedDirectory { mtime } => mtime.wf(),
            NodeData::Empty => true,
        }
    }

    /// Counts as tracked: an entry that the working copy tracks.
    pub open spec fn is_tracked(self) -> bool {
        self matches NodeData::Entry(e) && e.wc_tracked
    }
}


/// A path component, or a copy source. `on_disk` says that the serialized
/// tree holds these bytes too: when the path is dropped, they are of no use
/// there any more.
#[derive(Clone, Debug)]
pub struct TreePath {
    pub bytes: Vec<u8>,
    pub on_disk: bool,
}

/// A run of `count` serialized nodes that begins at byte `start`.
#[derive(Clone, Copy, Debug)]
pub struct DiskSlice {
    pub start: usize,
    pub count: usize,
}

/// The children of one node, or the nodes of the root.
pub enum ChildNodes {
    /// Decoded nodes, ordered by name.
    InMemory(Vec<Node>),
    /// Serialized nodes, not yet decoded.
    OnDisk(DiskSlice),
}

/// A file or a directory.
pub struct Node {
    /// The last component of the node's path.
    pub name: TreePath,
    pub data: NodeData,
    pub copy_source: Option<TreePath>,
    pub children: ChildNodes,
    /// How many nodes strictly below this one have an entry.
    pub descendants_with_entry_count: u32,
    /// How many nodes strictly below this one have an entry that the working
    /// copy tracks.
    pub tracked_descendants_count: u32,
}

/// The tree below and including one node, as a mathematical value.
pub struct NodeView {
    pub name: Seq<u8>,
    pub data: NodeData,
    pub copy_source: Option<Seq<u8>>,
    pub children: Seq<NodeView>,
    pub entry_count: nat,
    pub tracked_count: nat,
}

/// Bytes of one serialized node.
pub const NODE_SIZE: usize = 58;

/// The data of the node serialized at `at`.
pub open spec fn disk_data(d: Seq<u8>, at: int) -> NodeData {
    let mtime = TruncatedTimestamp {
        truncated_seconds: be_u32_at(d, at + 40) as u32,
        nanoseconds: be_u32_at(d, at + 44) as u32,
        second_ambiguous: d[at + 55] != 0,
    };
    if d[at + 48] == 1 {
        NodeData::Entry(
            DirstateEntry {
                wc_tracked: d[at + 50] != 0,
                p1_tracked: d[at + 51] != 0,
                p2_info: d[at + 52] != 0,
                mode_size: if d[at + 53] != 0 {
                    Some((be_u32_at(d, at + 32) as u32, be_u32_at(d, at + 36) as u32))
                } else {
                    None
                },
                mtime: if d[at + 54] != 0 {
                    Some(mtime)
                } else {
                    None
                },
                fallback_exec: disk_fallback(d[at + 56]),
                fallback_symlink: disk_fallback(d[at + 57]),
            },
        )
    } else if d[at + 48] == 2 {
        NodeData::CachedDirectory { mtime }
    } else {
        NodeData::Empty
    }
}

/// What a fallback byte stands for: unset, false or true.
pub open spec fn disk_fallback(b: u8) -> Option<bool> {
    if b == 1 {
        Some(false)
    } else if b == 2 {
        Some(true)
    } else {
        None
    }
}

/// The node serialized at byte `at`.
pub open spec fn disk_node(d: Seq<u8>, at: int) -> NodeView
    decreases at + NODE_SIZE, 0nat,
{
    let name_start = be_u32_at(d, at) as int;
    let name_len = be_u32_at(d, at + 4) as int;
    let copy_start = be_u32_at(d, at + 8) as int;
    let copy_len = be_u32_at(d, at + 12) as int;
    let children_start = be_u32_at(d, at + 16) as int;
    let children_count = be_u32_at(d, at + 20) as int;
    NodeView {
        name: d.subrange(name_start, name_start + name_len),
        data: disk_data(d, at),
        copy_source: if d[at + 49] != 0 {
            Some(d.subrange(copy_start, copy_start + copy_len))
        } else {
            None
        },
        children: if 0 <= at && children_start + children_count * NODE_SIZE <= at {
            disk_level(d, children_start, children_count)
        } else {
            Seq::empty()
        },
        entry_count: be_u32_at(d, at + 24),
        tracked_count: be_u32_at(d, at + 28),
    }
}

/// The `count` nodes serialized from byte `start` on.
pub open spec fn disk_level(d: Seq<u8>, start: int, count: int) -> Seq<NodeView>
    decreases start + count * NODE_SIZE, 1nat,
{
    Seq::new(
        if start >= 0 && count >= 0 { count as nat } else { 0 },
        |i: int|
            if start >= 0 && 0 <= i < count {
                disk_node(d, start + i * NODE_SIZE)
            } else {
                arbitrary()
            },
    )
}

impl TreePath {
    /// The bytes of the path.
    pub open spec fn view(self) -> Seq<u8> {
        self.bytes@
    }
}

impl Node {
    /// The tree that this node stands for, its undecoded parts read from `d`.
    pub open spec fn view_on(self, d: Seq<u8>) -> NodeView
        decreases self,
    {
        NodeView {
            name: self.name.bytes@,
            data: self.data,
            copy_source: match self.copy_source {
                Some(p) => Some(p.bytes@),
                None => None,
            },
            children: self.children.view_on(d),
            entry_count: self.descendants_with_entry_count as nat,
            tracked_count: self.tracked_descendants_count as nat,
        }
    }
}

impl ChildNodes {
    /// The nodes of this level, its undecoded parts read from `d`.
    pub open spec fn view_on(self, d: Seq<u8>) -> Seq<NodeView>
        decreases self,
    {
        match self {
            ChildNodes::InMemory(v) => Seq::new(
                v@.len(),
                |i: int|
                    if 0 <= i < v@.len() {
                        v@[i].view_on(d)
                    } else {
                        arbitrary()
                    },
            ),
            ChildNodes::OnDisk(s) => disk_level(d, s.start as int, s.count as int),
        }
    }
}

} // verus!
