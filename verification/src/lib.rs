//! Working-directory state tracking for a version-controlled tree.
//!
//! - [`dirstate_tree`]: the dirstate map, a tree of path components that is
//!   read lazily from its serialized form, with per-directory counters, a
//!   copy map, and its two file formats.
//! - [`entry`]: the recorded state of one path.
//! - [`ancestors`]: walks over the ancestors of revisions in a revision
//!   graph.
//! - [`config`]: layered configuration and the parsers of its values.
//! - [`commands`]: what commands answer to the user where they fail.
//! - [`operations`]: which files of a revision to show.
//! - [`bytes`]: byte strings, their order, and the components of paths.

use vstd::prelude::*;

pub mod ancestors;
pub mod bytes;
pub mod commands;
pub mod config;
pub mod dirstate_tree;
pub mod entry;
pub mod operations;

verus! {

/// The number of a revision in the graph. Parents have numbers of their own,
/// or the null revision.
pub type Revision = i32;

/// Stands for "no revision": the parent of a root.
pub const NULL_REVISION: Revision = -1;

/// What a graph answers where it cannot give the parents of a revision.
#[derive(Clone, Copy, Debug, PartialEq, Eq)]
pub enum GraphError {
    /// The graph has no revision of this number.
    ParentOutOfRange(Revision),
}

/// A revision graph: each revision has two parents, of which either may be
/// the null revision.
pub trait Graph {
    /// What the graph says of `rev`: its two parents, or that it has no
    /// such revision.
    spec fn spec_parents(&self, rev: Revision) -> Result<[Revision; 2], GraphError>;

    /// The two parents of `rev`. A parent is a revision or the null
    /// revision, never less.
    fn parents(&self, rev: Revision) -> (r: Result<[Revision; 2], GraphError>)
        ensures
            r == self.spec_parents(rev),
            r matches Ok(ps) ==> ps[0] >= NULL_REVISION && ps[1] >= NULL_REVISION,
    ;
}

/// A reference to a graph is that graph.
impl<G: Graph> Graph for &G {
    open spec fn spec_parents(&self, rev: Revision) -> Result<[Revision; 2], GraphError> {
        (**self).spec_parents(rev)
    }

    fn parents(&self, rev: Revision) -> (r: Result<[Revision; 2], GraphError>) {
        (**self).parents(rev)
    }
}

} // verus!
