//! The dirstate map: a tree of path components that records, for each
//! tracked path, its entry and copy source, and for each directory how many
//! entries lie below it. Levels of the tree stay in their serialized form
//! until they are first written to.

pub mod node;
pub mod tree;
pub mod on_disk;
pub mod child_nodes;
pub mod iter;
pub mod dirstate_map;
pub mod owning;
pub mod walk;
pub mod parsers;
