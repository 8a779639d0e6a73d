//! Walking the tree node by node, the nodes below a node before the node,
//! without recursion: the way back up is kept on a stack.

use crate::bytes::{copy_bytes, push_bytes, SLASH};
use crate::dirstate_tree::child_nodes::{ChildNodesRef, NodeRef};
use crate::dirstate_tree::node::NodeView;
use crate::dirstate_tree::walk::{Visited, walk, walk_node};
use vstd::prelude::*;

verus! {

/// A place in a level: the nodes from `index` on are yet to be walked.
pub struct Cursor<'tree> {
    pub children: ChildNodesRef<'tree>,
    pub index: usize,
    /// What the paths of the level begin with.
    pub prefix: Vec<u8>,
}

/// A node whose children are being walked, and the place in its own level
/// where the walk goes on after it.
pub struct Frame<'tree> {
    pub node: NodeRef<'tree>,
    pub path: Vec<u8>,
    pub siblings: Cursor<'tree>,
}

/// A walk of the tree that hands out one node at a time.
pub struct NodesIter<'tree> {
    pub on_disk: &'tree [u8],
    pub current: Cursor<'tree>,
    pub stack: Vec<Frame<'tree>>,
}

/// The walk of two runs of nodes is the walk of the first and then the walk
/// of the second.
pub proof fn lemma_walk_concat(a: Seq<NodeView>, b: Seq<NodeView>, prefix: Seq<u8>)
    ensures
        walk(a + b, prefix) == walk(a, prefix) + walk(b, prefix),
    decreases b.len(),
{
    if b.len() == 0 {
        assert(a + b =~= a);
        assert(walk(a, prefix) + walk(b, prefix) =~= walk(a, prefix));
    } else {
        assert((a + b).drop_last() =~= a + b.drop_last());
        assert((a + b).last() == b.last());
        lemma_walk_concat(a, b.drop_last(), prefix);
        assert(walk(a + b, prefix) =~= walk(a, prefix) + walk(b, prefix));
    }
}

/// The walk of the nodes of a level from the `i`-th on begins with the walk
/// of the `i`-th.
pub proof fn lemma_walk_skip(s: Seq<NodeView>, i: int, prefix: Seq<u8>)
    requires
        0 <= i < s.len(),
    ensures
        walk(s.skip(i), prefix) == walk_node(s[i], prefix) + walk(s.skip(i + 1), prefix),
{
    let one = seq![s[i]];
    assert(s.skip(i) =~= one + s.skip(i + 1));
    lemma_walk_concat(one, s.skip(i + 1), prefix);
    assert(one.drop_last() =~= Seq::<NodeView>::empty());
    assert(one.last() == s[i]);
    assert(walk(one.drop_last(), prefix) =~= Seq::<Visited>::empty());
    assert(walk(one, prefix) == walk(one.drop_last(), prefix) + walk_node(one.last(), prefix));
    assert(walk(one, prefix) =~= walk_node(s[i], prefix));
}

impl<'tree> Cursor<'tree> {
    /// The level can be read, and the index lies in it or at its end.
    pub open spec fn wf(self, d: Seq<u8>) -> bool {
        self.children.ok(d) && self.index <= self.children.view_on(d).len()
    }

    /// The nodes that the cursor has yet to walk.
    pub open spec fn rest(self, d: Seq<u8>) -> Seq<Visited> {
        walk(self.children.view_on(d).skip(self.index as int), self.prefix@)
    }
}

impl<'tree> Frame<'tree> {
    /// The node and the rest of its level can be read.
    pub open spec fn wf(self, d: Seq<u8>) -> bool {
        self.node.ok(d) && self.siblings.wf(d)
    }

    /// The node of the frame with its path.
    pub open spec fn visited(self, d: Seq<u8>) -> Visited {
        Visited { path: self.path@, node: self.node.view_on(d) }
    }
}

/// What the first `k` frames of a stack have yet to hand out, the last of
/// them first: for each frame its node, and then the rest of the level of
/// the node.
pub open spec fn stack_rest(stack: Seq<Frame<'_>>, d: Seq<u8>, k: int) -> Seq<Visited>
    decreases k,
{
    if k <= 0 || k > stack.len() {
        Seq::empty()
    } else {
        seq![stack[k - 1].visited(d)] + stack[k - 1].siblings.rest(d) + stack_rest(stack, d, k - 1)
    }
}

/// What the first frames of a stack have yet to hand out depends on these
/// frames alone.
pub proof fn lemma_stack_rest_same(a: Seq<Frame<'_>>, b: Seq<Frame<'_>>, d: Seq<u8>, k: int)
    requires
        0 <= k <= a.len(),
        k <= b.len(),
        forall|i: int| 0 <= i < k ==> a[i] == b[i],
    ensures
        stack_rest(a, d, k) == stack_rest(b, d, k),
    decreases k,
{
    if k > 0 {
        lemma_stack_rest_same(a, b, d, k - 1);
    }
}

impl<'tree> NodesIter<'tree> {
    /// The level at hand and every frame of the stack can be read.
    pub open spec fn wf(self) -> bool {
        &&& self.current.wf(self.on_disk@)
        &&& forall|i: int| 0 <= i < self.stack@.len() ==> (#[trigger] self.stack@[i]).wf(
            self.on_disk@,
        )
    }

    /// The nodes that the walk has yet to hand out, in their order.
    pub open spec fn remaining(self) -> Seq<Visited> {
        self.current.rest(self.on_disk@) + stack_rest(
            self.stack@,
            self.on_disk@,
            self.stack@.len() as int,
        )
    }

    /// A walk of the level `children` and of all that lies below it.
    pub fn new(children: ChildNodesRef<'tree>, on_disk: &'tree [u8]) -> (r: Self)
        requires
            children.ok(on_disk@),
        ensures
            r.wf(),
            r.on_disk@ == on_disk@,
            r.remaining() == walk(children.view_on(on_disk@), Seq::empty()),
    {
        let r = NodesIter {
            on_disk,
            current: Cursor { children, index: 0, prefix: Vec::new() },
            stack: Vec::new(),
        };
        proof {
            let view = children.view_on(on_disk@);
            assert(view.skip(0) =~= view);
            assert(r.remaining() =~= walk(view, Seq::empty()));
        }
        r
    }

    /// The next node with its full path, or nothing at the end of the
    /// walk.
    pub fn next(&mut self) -> (r: Option<(Vec<u8>, NodeRef<'tree>)>)
        requires
            old(self).wf(),
        ensures
            final(self).wf(),
            final(self).on_disk@ == old(self).on_disk@,
            r is None ==> old(self).remaining().len() == 0 && final(self).remaining().len() == 0,
            r matches Some(found) ==> {
                &&& old(self).remaining().len() > 0
                &&& found.1.ok(old(self).on_disk@)
                &&& old(self).remaining()[0] == (Visited {
                    path: found.0@,
                    node: found.1.view_on(old(self).on_disk@),
                })
                &&& final(self).remaining() == old(self).remaining().drop_first()
            },
    {
        let ghost d = self.on_disk@;
        let on_disk = self.on_disk;
        // Down to the first node without children: each node passed waits
        // on the stack for its children to be handed out.
        while self.current.index < self.current.children.len()
            invariant
                self.wf(),
                self.on_disk@ == d,
                on_disk@ == d,
                self.remaining() == old(self).remaining(),
            decreases self.current.children.view_on(d),
        {
            let ghost view = self.current.children.view_on(d);
            let ghost index = self.current.index as int;
            let ghost prefix = self.current.prefix@;
            let ghost frames = self.stack@;
            let child = self.current.children.at(self.current.index, on_disk);
            let mut path = copy_bytes(self.current.prefix.as_slice());
            push_bytes(&mut path, child.base_name(on_disk));
            let mut below = copy_bytes(path.as_slice());
            below.push(SLASH);
            let children = child.children(on_disk);
            let siblings = Cursor {
                children: self.current.children,
                index: self.current.index + 1,
                prefix: copy_bytes(self.current.prefix.as_slice()),
            };
            proof {
                lemma_walk_skip(view, index, prefix);
                assert(children.view_on(d).skip(0) =~= children.view_on(d));
                assert(below@ =~= (prefix + view[index].name).push(SLASH));
            }
            self.current = Cursor { children, index: 0, prefix: below };
            let frame = Frame { node: child, path, siblings };
            self.stack.push(frame);
            proof {
                let k = self.stack@.len() as int;
                lemma_stack_rest_same(frames, self.stack@, d, k - 1);
                assert(self.stack@[k - 1] == frame);
                assert(self.remaining() =~= old(self).remaining());
            }
        }
        proof {
            let view = self.current.children.view_on(d);
            assert(view.skip(view.len() as int) =~= Seq::<NodeView>::empty());
            assert(self.current.rest(d) =~= Seq::<Visited>::empty());
        }
        let ghost frames = self.stack@;
        match self.stack.pop() {
            Some(frame) => {
                proof {
                    let k = frames.len() as int;
                    assert(frames[k - 1] == frame);
                    lemma_stack_rest_same(frames, self.stack@, d, k - 1);
                    assert(frame.wf(d));
                    assert(old(self).remaining() =~= seq![frame.visited(d)] + (frame.siblings.rest(
                        d,
                    ) + stack_rest(self.stack@, d, k - 1)));
                }
                let Frame { node, path, siblings } = frame;
                self.current = siblings;
                proof {
                    assert(self.remaining() =~= old(self).remaining().drop_first());
                    assert forall|i: int| 0 <= i < self.stack@.len() implies (
                    #[trigger] self.stack@[i]).wf(d) by {
                        assert(self.stack@[i] == frames[i]);
                    }
                }
                Some((path, node))
            },
            None => None,
        }
    }
}

/// What a list of nodes with their paths stands for.
pub open spec fn visited_view(out: Seq<(Vec<u8>, NodeRef<'_>)>, d: Seq<u8>) -> Seq<Visited> {
    Seq::new(out.len(), |i: int| Visited { path: out[i].0@, node: out[i].1.view_on(d) })
}

/// The serialized parts of all nodes of a list can be read from `d`.
pub open spec fn visited_ok(out: Seq<(Vec<u8>, NodeRef<'_>)>, d: Seq<u8>) -> bool {
    forall|i: int| 0 <= i < out.len() ==> (#[trigger] out[i]).1.ok(d)
}

impl<'tree> NodesIter<'tree> {
    /// All nodes that the walk has yet to hand out, in their order.
    pub fn collect(self) -> (r: Vec<(Vec<u8>, NodeRef<'tree>)>)
        requires
            self.wf(),
        ensures
            visited_ok(r@, self.on_disk@),
            visited_view(r@, self.on_disk@) == self.remaining(),
    {
        let ghost d = self.on_disk@;
        let ghost all = self.remaining();
        let mut walk = self;
        let mut out: Vec<(Vec<u8>, NodeRef<'tree>)> = Vec::new();
        proof {
            assert(visited_view(out@, d) + walk.remaining() =~= all);
        }
        loop
            invariant
                walk.wf(),
                walk.on_disk@ == d,
                visited_ok(out@, d),
                visited_view(out@, d) + walk.remaining() == all,
            ensures
                visited_ok(out@, d),
                visited_view(out@, d) == all,
            decreases walk.remaining().len(),
        {
            let ghost before = visited_view(out@, d);
            let ghost rest = walk.remaining();
            match walk.next() {
                Some(found) => {
                    out.push(found);
                    proof {
                        assert(visited_view(out@, d) =~= before.push(rest[0]));
                        assert(before.push(rest[0]) + rest.drop_first() =~= before + rest);
                    }
                },
                None => {
                    proof {
                        assert(before + rest =~= before);
                    }
                    break ;
                },
            }
        }
        out
    }
}

} // verus!
