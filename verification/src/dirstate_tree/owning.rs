//! The dirstate map as its users see it: a map from paths to entries, a map
//! from paths to copy sources, and queries about directories.

use crate::bytes::copy_bytes;
use crate::dirstate_tree::dirstate_map::{
    DirstateError, DirstateMap, DirstateMapError, DirstateV2ParseError, is_tracked_entry,
    lemma_kept_off_path_twice, lemma_kept_off_same, v1_readable,
};
use crate::dirstate_tree::iter::{visited_ok, visited_view};
use crate::dirstate_tree::node::{disk_level, NodeData, NodeView};
use crate::dirstate_tree::on_disk::{
    file_of, lemma_metadata_round_trip, TreeMetadata, v2_readable, valid_level, write_nodes,
    written_bytes,
};
use crate::dirstate_tree::parsers::{
    DirstateParents, lemma_pack_records_push, lemma_records_round_trip, pack_entry,
    pack_records, packed_entry_size, PARENTS_SIZE, record_exact, record_of, record_packable,
    v1_contents, V1Record,
};
use crate::dirstate_tree::tree::{drop_spec, is_ancestor_path, is_removable};
use crate::dirstate_tree::tree;
use crate::dirstate_tree::walk::{
    copies_of, copy_fn, debug_fn, debug_tuples_of, entries_of, entry_fn, lemma_filter_map_index,
    lemma_filter_map_take, lemma_records_count, lemma_records_find, lemma_walk_find,
    lemma_walk_no_path_twice, PathCopy, PathDebug, PathEntry, record_fn, record_of_visited,
    records_of, tracked_dir_fn, tracked_dirs_of, Visited, walk,
};
use crate::entry::{DirstateEntry, ParentFileData, TruncatedTimestamp};
use vstd::prelude::*;

verus! {

/// Owns the serialized bytes and the tree that is read from them.
pub struct OwningDirstateMap {
    pub map: DirstateMap,
}

/// What a list of paths with entries stands for.
pub open spec fn entry_pairs(v: Seq<(Vec<u8>, DirstateEntry)>) -> Seq<PathEntry> {
    Seq::new(v.len(), |i: int| PathEntry { path: v[i].0@, entry: v[i].1 })
}

/// What a list of paths with copy sources stands for.
pub open spec fn copy_pairs(v: Seq<(Vec<u8>, Vec<u8>)>) -> Seq<PathCopy> {
    Seq::new(v.len(), |i: int| PathCopy { path: v[i].0@, source: v[i].1@ })
}

/// What a list of paths stands for.
pub open spec fn path_list(v: Seq<Vec<u8>>) -> Seq<Seq<u8>> {
    Seq::new(v.len(), |i: int| v[i]@)
}

/// What a list of paths with debug tuples stands for.
pub open spec fn debug_pairs(v: Seq<(Vec<u8>, (u8, i32, i32, i32))>) -> Seq<PathDebug> {
    Seq::new(v.len(), |i: int| PathDebug { path: v[i].0@, tuple: v[i].1 })
}

/// Whether a node is a directory: it has no entry that anything tracks.
pub open spec fn is_directory(n: NodeView) -> bool {
    match n.data {
        NodeData::Entry(e) => !e.spec_any_tracked(),
        _ => true,
    }
}

impl OwningDirstateMap {
    /// The map is well formed.
    pub open spec fn wf(&self) -> bool {
        self.map.wf()
    }

    /// The entry recorded for `path`, if any.
    pub open spec fn spec_get(&self, path: Seq<u8>) -> Option<DirstateEntry> {
        self.map.spec_get(path)
    }

    /// The copy source recorded for `path`, if any.
    pub open spec fn spec_copy_source(&self, path: Seq<u8>) -> Option<Seq<u8>> {
        self.map.spec_copy_source(path)
    }

    /// The number of entries.
    pub open spec fn spec_len(&self) -> nat {
        self.map.nodes_with_entry_count as nat
    }

    /// The result is the error that says that `path` has no entry.
    pub open spec fn is_path_not_found(r: Result<(), DirstateError>, path: Seq<u8>) -> bool {
        match r {
            Err(DirstateError::MapError(DirstateMapError::PathNotFound(p))) => p@ == path,
            _ => false,
        }
    }

    /// The result is the error that says that `path` has no entry.
    pub open spec fn is_path_not_found_for(r: Result<bool, DirstateError>, path: Seq<u8>) -> bool {
        match r {
            Err(DirstateError::MapError(DirstateMapError::PathNotFound(p))) => p@ == path,
            _ => false,
        }
    }

    /// A map without entries, over the given serialized bytes.
    pub fn new_empty(on_disk: Vec<u8>) -> (r: Self)
        ensures
            r.wf(),
            r.map.on_disk == on_disk,
            r.map.tree() == Seq::<NodeView>::empty(),
            r.spec_len() == 0,
            r.map.nodes_with_copy_source_count == 0,
            r.map.unreachable_bytes == 0,
    {
        OwningDirstateMap { map: DirstateMap::empty(on_disk) }
    }

    /// The map that this one owns.
    pub fn get_map(&self) -> (r: &DirstateMap)
        ensures
            *r == self.map,
    {
        &self.map
    }

    /// Forgets every node. The serialized bytes stay, and so does the count
    /// of bytes that are unreachable in them.
    pub fn clear(&mut self)
        ensures
            final(self).wf(),
            final(self).map.tree() == Seq::<NodeView>::empty(),
            final(self).map.nodes_with_entry_count == 0,
            final(self).map.nodes_with_copy_source_count == 0,
            final(self).map.on_disk == old(self).map.on_disk,
            final(self).map.unreachable_bytes == old(self).map.unreachable_bytes,
            final(self).map.ignore_patterns_hash == old(self).map.ignore_patterns_hash,
    {
        self.map.root = crate::dirstate_tree::node::ChildNodes::InMemory(Vec::new());
        self.map.nodes_with_entry_count = 0;
        self.map.nodes_with_copy_source_count = 0;
        proof {
            assert(self.map.tree() =~= Seq::<NodeView>::empty());
        }
    }

    /// Records `entry` for `filename`, whatever was recorded before. The
    /// counters take up the difference between `entry` and the entry that
    /// was there.
    pub fn set_entry(&mut self, filename: &[u8], entry: DirstateEntry) -> (r: Result<
        (),
        DirstateV2ParseError,
    >)
        requires
            old(self).wf(),
            entry.wf(),
            old(self).spec_get(filename@) is None ==> old(self).spec_len() < u32::MAX,
        ensures
            r is Ok,
            final(self).map.holds_entry_after(&old(self).map, filename@, entry),
    {
        let old_entry_opt = match self.get(filename) {
            Ok(e) => e,
            Err(e) => {
                return Err(e);
            },
        };
        self.map.set_entry(filename, old_entry_opt, entry);
        Ok(())
    }

    /// Marks `filename` tracked in the working copy, and says whether it
    /// was untracked or absent before. A file that was tracked already is
    /// marked possibly dirty.
    pub fn set_tracked(&mut self, filename: &[u8]) -> (r: Result<bool, DirstateV2ParseError>)
        requires
            old(self).wf(),
            old(self).spec_get(filename@) is None ==> old(self).spec_len() < u32::MAX,
        ensures
            r == Ok::<bool, DirstateV2ParseError>(
                !is_tracked_entry(old(self).spec_get(filename@)),
            ),
            final(self).map.holds_entry_after(
                &old(self).map,
                filename@,
                DirstateMap::tracked_entry(old(self).spec_get(filename@)),
            ),
    {
        let old_entry_opt = match self.get(filename) {
            Ok(e) => e,
            Err(e) => {
                return Err(e);
            },
        };
        self.map.set_tracked(filename, old_entry_opt)
    }

    /// Marks `filename` untracked in the working copy. Fails where
    /// `filename` has no entry; else the answer is `true`.
    ///
    /// An entry that is not tracked stays as it is. One that is only added
    /// is dropped with its copy source. Any other loses its metadata, and
    /// its copy source unless it carries second-parent information.
    pub fn set_untracked(&mut self, filename: &[u8]) -> (r: Result<bool, DirstateError>)
        requires
            old(self).wf(),
        ensures
            match old(self).spec_get(filename@) {
                None => Self::is_path_not_found_for(r, filename@) && *final(self) == *old(self),
                Some(e) => r == Ok::<bool, DirstateError>(true) && if !e.wc_tracked {
                    *final(self) == *old(self)
                } else if e.spec_added() {
                    &&& final(self).map.edited_at(&old(self).map, filename@, None, None)
                    &&& final(self).map.tree() == drop_spec(old(self).map.tree(), filename@).tree
                    &&& final(self).map.counted_drop(&old(self).map, filename@)
                    &&& final(self).map.kept_beside(&old(self).map, filename@)
                } else {
                    &&& final(self).map.edited_at(
                        &old(self).map,
                        filename@,
                        Some(e.spec_set_untracked()),
                        if e.spec_p2_info() {
                            old(self).spec_copy_source(filename@)
                        } else {
                            None
                        },
                    )
                    &&& final(self).map.walked(
                        &old(self).map,
                        filename@,
                        if e.spec_p2_info() {
                            0
                        } else {
                            old(self).map.spec_copy_on_disk_len(filename@)
                        },
                    )
                    &&& final(self).map.other_data_kept(&old(self).map, filename@)
                    &&& final(self).map.kept_off(&old(self).map, filename@)
                },
            },
    {
        let old_entry_opt = match self.get(filename) {
            Ok(e) => e,
            Err(e) => {
                return Err(DirstateError::ParseError(e));
            },
        };
        match old_entry_opt {
            None => Err(
                DirstateError::MapError(DirstateMapError::PathNotFound(copy_bytes(filename))),
            ),
            Some(old_entry) => {
                if !old_entry.is_tracked() {
                    return Ok(true);
                }
                if old_entry.added() {
                    self.map.drop_entry_and_copy_source(filename);
                    return Ok(true);
                }
                if !old_entry.p2_info() {
                    let _ = self.map.copy_map_remove(filename);
                } else {
                    proof {
                        lemma_kept_off_same(self.map.root, self.map.on_disk@, filename@);
                    }
                }
                let ghost mid = self.map;
                let _ = self.map.set_untracked(filename, old_entry);
                proof {
                    lemma_kept_off_path_twice(
                        Some(old(self).map.root),
                        mid.root,
                        self.map.root,
                        self.map.on_disk@,
                        filename@,
                    );
                }
                Ok(true)
            },
        }
    }

    /// Records fresh metadata for `filename`, marks it clean and forgets
    /// its copy source. Fails where `filename` has no entry.
    pub fn set_clean(&mut self, filename: &[u8], mode: u32, size: u32, mtime: TruncatedTimestamp) -> (r:
        Result<(), DirstateError>)
        requires
            old(self).wf(),
            mtime.wf(),
        ensures
            match old(self).spec_get(filename@) {
                None => Self::is_path_not_found(r, filename@) && *final(self) == *old(self),
                Some(e) => r is Ok && final(self).map.edited_at(
                    &old(self).map,
                    filename@,
                    Some(e.spec_set_clean(mode, size, mtime)),
                    None,
                ) && final(self).map.walked(
                    &old(self).map,
                    filename@,
                    old(self).map.spec_copy_on_disk_len(filename@),
                ) && final(self).map.other_data_kept(&old(self).map, filename@)
                    && final(self).map.kept_off(&old(self).map, filename@),
            },
    {
        let old_entry = match self.get(filename) {
            Ok(Some(e)) => e,
            Ok(None) => {
                return Err(
                    DirstateError::MapError(DirstateMapError::PathNotFound(copy_bytes(filename))),
                );
            },
            Err(e) => {
                return Err(DirstateError::ParseError(e));
            },
        };
        let _ = self.map.copy_map_remove(filename);
        let ghost mid = self.map;
        let r = self.map.set_clean(filename, old_entry, mode, size, mtime);
        proof {
            lemma_kept_off_path_twice(
                Some(old(self).map.root),
                mid.root,
                self.map.root,
                self.map.on_disk@,
                filename@,
            );
        }
        r
    }

    /// Marks the entry of `filename` possibly dirty. Fails where `filename`
    /// has no entry.
    pub fn set_possibly_dirty(&mut self, filename: &[u8]) -> (r: Result<(), DirstateError>)
        requires
            old(self).wf(),
        ensures
            match old(self).spec_get(filename@) {
                None => Self::is_path_not_found(r, filename@) && *final(self) == *old(self),
                Some(e) => r is Ok && final(self).map.holds_entry_after(
                    &old(self).map,
                    filename@,
                    e.spec_set_possibly_dirty(),
                ),
            },
    {
        match self.get(filename) {
            Ok(Some(_)) => {},
            Ok(None) => {
                return Err(
                    DirstateError::MapError(DirstateMapError::PathNotFound(copy_bytes(filename))),
                );
            },
            Err(e) => {
                return Err(DirstateError::ParseError(e));
            },
        }
        self.map.set_possibly_dirty(filename)
    }

    /// Sets the three flags of `filename` and the metadata of its parent
    /// file, and forgets its copy source. With none of the flags set the
    /// path is dropped instead.
    pub fn reset_state(
        &mut self,
        filename: &[u8],
        wc_tracked: bool,
        p1_tracked: bool,
        p2_info: bool,
        has_meaningful_mtime: bool,
        parent_file_data_opt: Option<ParentFileData>,
    ) -> (r: Result<(), DirstateError>)
        requires
            old(self).wf(),
            DirstateMap::parent_data_in_range(parent_file_data_opt),
            (wc_tracked || p1_tracked || p2_info) && old(self).spec_get(filename@) is None
                ==> old(self).spec_len() < u32::MAX,
        ensures
            r is Ok,
            if !(p1_tracked || p2_info || wc_tracked) {
                &&& final(self).map.edited_at(&old(self).map, filename@, None, None)
                &&& final(self).map.tree() == drop_spec(old(self).map.tree(), filename@).tree
                &&& final(self).map.counted_drop(&old(self).map, filename@)
                &&& final(self).map.kept_beside(&old(self).map, filename@)
            } else {
                &&& final(self).map.edited_at(
                    &old(self).map,
                    filename@,
                    Some(
                        DirstateMap::reset_entry(
                            wc_tracked,
                            p1_tracked,
                            p2_info,
                            has_meaningful_mtime,
                            parent_file_data_opt,
                        ),
                    ),
                    None,
                )
                &&& final(self).map.walked(
                    &old(self).map,
                    filename@,
                    old(self).map.spec_copy_on_disk_len(filename@),
                )
                &&& final(self).map.other_data_kept(&old(self).map, filename@)
                &&& final(self).map.kept_off(&old(self).map, filename@)
            },
    {
        if !(p1_tracked || p2_info || wc_tracked) {
            self.map.drop_entry_and_copy_source(filename);
            return Ok(());
        }
        let _ = self.map.copy_map_remove(filename);
        let old_entry_opt = match self.get(filename) {
            Ok(e) => e,
            Err(e) => {
                return Err(DirstateError::ParseError(e));
            },
        };
        let ghost mid = self.map;
        let r = self.map.reset_state(
            filename,
            old_entry_opt,
            wc_tracked,
            p1_tracked,
            p2_info,
            has_meaningful_mtime,
            parent_file_data_opt,
        );
        proof {
            lemma_kept_off_path_twice(
                Some(old(self).map.root),
                mid.root,
                self.map.root,
                self.map.on_disk@,
                filename@,
            );
        }
        r
    }

    /// Drops the entry and the copy source of `filename`, and every
    /// directory on the way to it that is left with nothing below it.
    pub fn drop_entry_and_copy_source(&mut self, filename: &[u8]) -> (r: Result<(), DirstateError>)
        requires
            old(self).wf(),
        ensures
            r is Ok,
            final(self).map.edited_at(&old(self).map, filename@, None, None),
            final(self).map.tree() == drop_spec(old(self).map.tree(), filename@).tree,
            final(self).map.counted_drop(&old(self).map, filename@),
            final(self).map.kept_beside(&old(self).map, filename@),
            forall|q: Seq<u8>|
                q != filename@ && !is_ancestor_path(q, filename@) ==> #[trigger] final(self).map.spec_node(q) == old(self).map.spec_node(q),
            forall|q: Seq<u8>|
                old(self).map.spec_node(filename@) is Some && (q == filename@ || is_ancestor_path(
                    q,
                    filename@,
                )) ==> (#[trigger] final(self).map.spec_node(q) matches Some(n) ==> !is_removable(
                    n,
                )),
    {
        self.map.drop_entry_and_copy_source(filename);
        Ok(())
    }

    /// Whether `directory` is a directory with a tracked file below it.
    pub fn has_tracked_dir(&self, directory: &[u8]) -> (r: Result<bool, DirstateError>)
        requires
            self.wf(),
        ensures
            r == Ok::<bool, DirstateError>(
                self.map.spec_node(directory@) matches Some(n) && is_directory(n)
                    && n.tracked_count > 0,
            ),
    {
        let on_disk = self.map.on_disk.as_slice();
        match self.map.get_node(directory) {
            Some(node) => {
                let state = node.state(on_disk);
                Ok(state.is_none() && node.tracked_descendants_count(on_disk) > 0)
            },
            None => Ok(false),
        }
    }

    /// Whether `directory` is a directory with an entry below it.
    pub fn has_dir(&self, directory: &[u8]) -> (r: Result<bool, DirstateError>)
        requires
            self.wf(),
        ensures
            r == Ok::<bool, DirstateError>(
                self.map.spec_node(directory@) matches Some(n) && is_directory(n) && n.entry_count
                    > 0,
            ),
    {
        let on_disk = self.map.on_disk.as_slice();
        match self.map.get_node(directory) {
            Some(node) => {
                let state = node.state(on_disk);
                Ok(state.is_none() && node.descendants_with_entry_count(on_disk) > 0)
            },
            None => Ok(false),
        }
    }

    /// The number of paths with a copy source.
    pub fn copy_map_len(&self) -> (r: usize)
        ensures
            r == self.map.nodes_with_copy_source_count,
    {
        self.map.nodes_with_copy_source_count as usize
    }

    /// Whether `key` has a copy source.
    pub fn copy_map_contains_key(&self, key: &[u8]) -> (r: Result<bool, DirstateV2ParseError>)
        requires
            self.wf(),
        ensures
            r == Ok::<bool, DirstateV2ParseError>(self.spec_copy_source(key@) is Some),
    {
        let on_disk = self.map.on_disk.as_slice();
        match self.map.get_node(key) {
            Some(node) => Ok(node.has_copy_source(on_disk)),
            None => Ok(false),
        }
    }

    /// The copy source of `key`, if it has one.
    pub fn copy_map_get(&self, key: &[u8]) -> (r: Result<Option<&[u8]>, DirstateV2ParseError>)
        requires
            self.wf(),
        ensures
            r is Ok,
            r.unwrap() is Some <==> self.spec_copy_source(key@) is Some,
            r.unwrap() matches Some(source) ==> Some(source@) == self.spec_copy_source(key@),
    {
        let on_disk = self.map.on_disk.as_slice();
        match self.map.get_node(key) {
            Some(node) => Ok(node.copy_source(on_disk)),
            None => Ok(None),
        }
    }

    /// Forgets the copy source of `key`, and returns it.
    pub fn copy_map_remove(&mut self, key: &[u8]) -> (r: Result<
        Option<Vec<u8>>,
        DirstateV2ParseError,
    >)
        requires
            old(self).wf(),
        ensures
            r is Ok,
            r.unwrap() is Some <==> old(self).spec_copy_source(key@) is Some,
            r.unwrap() matches Some(source) ==> Some(source@) == old(self).spec_copy_source(key@),
            final(self).map.edited_at(&old(self).map, key@, old(self).spec_get(key@), None),
            final(self).map.walked(
                &old(self).map,
                key@,
                old(self).map.spec_copy_on_disk_len(key@),
            ),
            forall|q: Seq<u8>| #[trigger]
                final(self).map.spec_data(q) == old(self).map.spec_data(q),
            final(self).map.kept_off(&old(self).map, key@),
    {
        Ok(self.map.copy_map_remove(key))
    }

    /// Records `value` as the copy source of `key`, and returns the copy
    /// source that was recorded before.
    pub fn copy_map_insert(&mut self, key: Vec<u8>, value: Vec<u8>) -> (r: Result<
        Option<Vec<u8>>,
        DirstateV2ParseError,
    >)
        requires
            old(self).wf(),
            old(self).spec_copy_source(key@) is None ==> old(self).map.nodes_with_copy_source_count
                < u32::MAX,
        ensures
            r is Ok,
            r.unwrap() is Some <==> old(self).spec_copy_source(key@) is Some,
            r.unwrap() matches Some(source) ==> Some(source@) == old(self).spec_copy_source(key@),
            final(self).map.edited_at(&old(self).map, key@, old(self).spec_get(key@), Some(value@)),
            final(self).map.walked(&old(self).map, key@, 0),
            final(self).map.other_data_kept(&old(self).map, key@),
            final(self).map.data_kept_at(&old(self).map, key@),
            final(self).map.kept_off(&old(self).map, key@),
    {
        Ok(self.map.copy_map_insert(key.as_slice(), value))
    }

    /// The number of entries.
    pub fn len(&self) -> (r: usize)
        ensures
            r == self.spec_len(),
    {
        self.map.nodes_with_entry_count as usize
    }

    /// Whether `key` has an entry.
    pub fn contains_key(&self, key: &[u8]) -> (r: Result<bool, DirstateV2ParseError>)
        requires
            self.wf(),
        ensures
            r == Ok::<bool, DirstateV2ParseError>(self.spec_get(key@) is Some),
    {
        match self.get(key) {
            Ok(e) => Ok(e.is_some()),
            Err(e) => Err(e),
        }
    }

    /// The entry of `key`, if it has one.
    pub fn get(&self, key: &[u8]) -> (r: Result<Option<DirstateEntry>, DirstateV2ParseError>)
        requires
            self.wf(),
        ensures
            r == Ok::<Option<DirstateEntry>, DirstateV2ParseError>(self.spec_get(key@)),
    {
        let on_disk = self.map.on_disk.as_slice();
        match self.map.get_node(key) {
            Some(node) => Ok(node.entry(on_disk)),
            None => Ok(None),
        }
    }

    /// All entries with their paths: the entries below a directory before
    /// the directory itself, and the paths of one directory in the order of
    /// their names.
    pub fn iter(&self) -> (r: Vec<(Vec<u8>, DirstateEntry)>)
        requires
            self.wf(),
        ensures
            entry_pairs(r@) == entries_of(walk(self.map.tree(), Seq::empty())),
    {
        let on_disk = self.map.on_disk.as_slice();
        let nodes = self.map.iter_nodes().collect();
        let ghost all = visited_view(nodes@, on_disk@);
        let mut out: Vec<(Vec<u8>, DirstateEntry)> = Vec::new();
        let mut i: usize = 0;
        proof {
            assert(all.take(0) =~= Seq::<Visited>::empty());
            assert(entry_pairs(out@) =~= entries_of(all.take(0)));
        }
        while i < nodes.len()
            invariant
                i <= nodes@.len(),
                on_disk@ == self.map.on_disk@,
                visited_ok(nodes@, on_disk@),
                all == visited_view(nodes@, on_disk@),
                entry_pairs(out@) == entries_of(all.take(i as int)),
            decreases nodes@.len() - i,
        {
            let ghost before = entry_pairs(out@);
            if let Some(entry) = nodes[i].1.entry(on_disk) {
                out.push((crate::bytes::copy_bytes(nodes[i].0.as_slice()), entry));
                proof {
                    assert(entry_pairs(out@) =~= before.push(
                        PathEntry { path: nodes@[i as int].0@, entry },
                    ));
                }
            }
            proof {
                lemma_filter_map_take(all, entry_fn(), i as int);
            }
            i += 1;
        }
        proof {
            assert(all.take(i as int) =~= all);
        }
        out
    }

    /// All copy sources with their paths, in the order of `iter`.
    pub fn copy_map_iter(&self) -> (r: Vec<(Vec<u8>, Vec<u8>)>)
        requires
            self.wf(),
        ensures
            copy_pairs(r@) == copies_of(walk(self.map.tree(), Seq::empty())),
    {
        let on_disk = self.map.on_disk.as_slice();
        let nodes = self.map.iter_nodes().collect();
        let ghost all = visited_view(nodes@, on_disk@);
        let mut out: Vec<(Vec<u8>, Vec<u8>)> = Vec::new();
        let mut i: usize = 0;
        proof {
            assert(all.take(0) =~= Seq::<Visited>::empty());
            assert(copy_pairs(out@) =~= copies_of(all.take(0)));
        }
        while i < nodes.len()
            invariant
                i <= nodes@.len(),
                on_disk@ == self.map.on_disk@,
                visited_ok(nodes@, on_disk@),
                all == visited_view(nodes@, on_disk@),
                copy_pairs(out@) == copies_of(all.take(i as int)),
            decreases nodes@.len() - i,
        {
            let ghost before = copy_pairs(out@);
            if let Some(source) = nodes[i].1.copy_source(on_disk) {
                out.push(
                    (
                        crate::bytes::copy_bytes(nodes[i].0.as_slice()),
                        crate::bytes::copy_bytes(source),
                    ),
                );
                proof {
                    assert(copy_pairs(out@) =~= before.push(
                        PathCopy { path: nodes@[i as int].0@, source: source@ },
                    ));
                }
            }
            proof {
                lemma_filter_map_take(all, copy_fn(), i as int);
            }
            i += 1;
        }
        proof {
            assert(all.take(i as int) =~= all);
        }
        out
    }

    /// The paths of all directories with a tracked file below them, in the
    /// order of `iter`.
    pub fn iter_tracked_dirs(&self) -> (r: Result<Vec<Vec<u8>>, DirstateError>)
        requires
            self.wf(),
        ensures
            r is Ok,
            path_list(r.unwrap()@) == tracked_dirs_of(walk(self.map.tree(), Seq::empty())),
    {
        let on_disk = self.map.on_disk.as_slice();
        let nodes = self.map.iter_nodes().collect();
        let ghost all = visited_view(nodes@, on_disk@);
        let mut out: Vec<Vec<u8>> = Vec::new();
        let mut i: usize = 0;
        proof {
            assert(all.take(0) =~= Seq::<Visited>::empty());
            assert(path_list(out@) =~= tracked_dirs_of(all.take(0)));
        }
        while i < nodes.len()
            invariant
                i <= nodes@.len(),
                on_disk@ == self.map.on_disk@,
                visited_ok(nodes@, on_disk@),
                all == visited_view(nodes@, on_disk@),
                path_list(out@) == tracked_dirs_of(all.take(i as int)),
            decreases nodes@.len() - i,
        {
            let ghost before = path_list(out@);
            if nodes[i].1.tracked_descendants_count(on_disk) > 0 {
                out.push(crate::bytes::copy_bytes(nodes[i].0.as_slice()));
                proof {
                    assert(path_list(out@) =~= before.push(nodes@[i as int].0@));
                }
            }
            proof {
                lemma_filter_map_take(all, tracked_dir_fn(), i as int);
            }
            i += 1;
        }
        proof {
            assert(all.take(i as int) =~= all);
        }
        Ok(out)
    }

    /// What debugging commands show: for each entry its path and its tuple
    /// of state, mode, size and time; with `all` also the nodes without an
    /// entry, with a blank tuple that carries the cached time of a
    /// directory.
    pub fn debug_iter(&self, all: bool) -> (r: Vec<(Vec<u8>, (u8, i32, i32, i32))>)
        requires
            self.wf(),
        ensures
            debug_pairs(r@) == debug_tuples_of(walk(self.map.tree(), Seq::empty()), all),
    {
        let on_disk = self.map.on_disk.as_slice();
        let nodes = self.map.iter_nodes().collect();
        let ghost visited = visited_view(nodes@, on_disk@);
        let mut out: Vec<(Vec<u8>, (u8, i32, i32, i32))> = Vec::new();
        let mut i: usize = 0;
        proof {
            assert(visited.take(0) =~= Seq::<Visited>::empty());
            assert(debug_pairs(out@) =~= debug_tuples_of(visited.take(0), all));
            tree::lemma_walk_nodes_wf(self.map.tree(), Seq::empty());
        }
        while i < nodes.len()
            invariant
                i <= nodes@.len(),
                on_disk@ == self.map.on_disk@,
                visited_ok(nodes@, on_disk@),
                visited == visited_view(nodes@, on_disk@),
                forall|k: int| 0 <= k < visited.len() ==> (#[trigger] visited[k]).node.data.wf(),
                debug_pairs(out@) == debug_tuples_of(visited.take(i as int), all),
            decreases nodes@.len() - i,
        {
            let ghost before = debug_pairs(out@);
            let node = nodes[i].1;
            proof {
                assert(visited[i as int].node.data.wf());
            }
            let shown: Option<(u8, i32, i32, i32)> = match node.data(on_disk) {
                NodeData::Entry(entry) => Some(entry.debug_tuple()),
                NodeData::CachedDirectory { mtime } => if all {
                    Some((32, 0, -1, mtime.truncated_seconds() as i32))
                } else {
                    None
                },
                NodeData::Empty => if all {
                    Some((32, 0, -1, -1))
                } else {
                    None
                },
            };
            if let Some(tuple) = shown {
                out.push((crate::bytes::copy_bytes(nodes[i].0.as_slice()), tuple));
                proof {
                    assert(debug_pairs(out@) =~= before.push(
                        PathDebug { path: nodes@[i as int].0@, tuple },
                    ));
                }
            }
            proof {
                lemma_filter_map_take(visited, debug_fn(all), i as int);
            }
            i += 1;
        }
        proof {
            assert(visited.take(i as int) =~= visited);
        }
        out
    }

    /// The map of a serialized tree: the first `data_size` bytes of
    /// `on_disk`, with the metadata kept beside it.
    pub fn new_v2(on_disk: Vec<u8>, data_size: usize, metadata: &[u8]) -> (r: Result<
        Self,
        DirstateError,
    >)
        ensures
            r is Ok <==> data_size <= on_disk@.len() && (data_size == 0 || v2_readable(
                on_disk@.take(data_size as int),
                metadata@,
            )),
            r matches Ok(owning) ==> owning.map.is_v2_of(on_disk@, data_size as int, metadata@),
            r matches Err(e) ==> e == DirstateError::ParseError(DirstateV2ParseError),
    {
        match DirstateMap::new_v2(on_disk, data_size, metadata) {
            Ok(map) => Ok(OwningDirstateMap { map }),
            Err(e) => Err(e),
        }
    }

    /// What `pack_v2` returns for the map: whether the bytes are to be
    /// appended, and bytes and metadata that make a file which holds the
    /// tree and the counters of the map.
    pub open spec fn packed_v2(
        &self,
        can_append: bool,
        packed: Seq<u8>,
        meta: TreeMetadata,
        used_append: bool,
    ) -> bool {
        let file = file_of(self.map.on_disk@, used_append, packed);
        &&& used_append == (can_append && self.map.spec_write_should_append())
        &&& valid_level(file, meta.root_start as int, meta.root_count as int)
        &&& disk_level(file, meta.root_start as int, meta.root_count as int) == self.map.tree()
        &&& meta.nodes_with_entry_count == self.map.nodes_with_entry_count
        &&& meta.nodes_with_copy_source_count == self.map.nodes_with_copy_source_count
        &&& meta.unreachable_bytes == (if used_append {
            self.map.unreachable_bytes
        } else {
            0
        })
        &&& meta.ignore_patterns_hash == self.map.ignore_patterns_hash
    }

    /// Length of the file that `pack_v2` makes: that of the old file where
    /// the new bytes are appended, and the new bytes. Where they are
    /// appended, the new bytes are those of the decoded levels alone.
    pub open spec fn spec_packed_v2_len(&self, can_append: bool) -> nat {
        let append = can_append && self.map.spec_write_should_append();
        file_of(self.map.on_disk@, append, Seq::empty()).len() + written_bytes(
            self.map.root.spec_as_ref(),
            self.map.on_disk@,
            append,
        )
    }

    /// The map as a serialized tree: new bytes, the metadata to keep beside
    /// the file, and whether the bytes are to be appended to the file that
    /// the map was read from rather than to replace it.
    ///
    /// The bytes are appended where the caller allows it and less than the
    /// acceptable fraction of the old file is unreachable. Then the levels
    /// that are still serialized stay where they are, and only the decoded
    /// levels are written.
    ///
    /// Fails where the file would pass the largest address that a
    /// serialized node can hold.
    pub fn pack_v2(&self, can_append: bool) -> (r: Result<
        (Vec<u8>, TreeMetadata, bool),
        DirstateError,
    >)
        requires
            self.wf(),
        ensures
            r is Ok <==> self.spec_packed_v2_len(can_append) <= u32::MAX,
            r matches Ok(out) ==> self.packed_v2(can_append, out.0@, out.1, out.2) && file_of(
                self.map.on_disk@,
                out.2,
                out.0@,
            ).len() == self.spec_packed_v2_len(can_append),
            r matches Err(e) ==> e == DirstateError::MapError(DirstateMapError::TooLarge),
    {
        let on_disk = self.map.on_disk.as_slice();
        let append = can_append && self.map.write_should_append();
        if append && on_disk.len() > u32::MAX as usize {
            return Err(DirstateError::MapError(DirstateMapError::TooLarge));
        }
        let mut out: Vec<u8> = Vec::new();
        proof {
            assert(file_of(on_disk@, append, out@) =~= (if append {
                on_disk@
            } else {
                Seq::<u8>::empty()
            }));
        }
        let root = match write_nodes(self.map.root.as_ref(), on_disk, append, &mut out) {
            Some(root) => root,
            None => {
                return Err(DirstateError::MapError(DirstateMapError::TooLarge));
            },
        };
        let meta = TreeMetadata {
            root_start: root.start as u32,
            root_count: root.count as u32,
            nodes_with_entry_count: self.map.nodes_with_entry_count,
            nodes_with_copy_source_count: self.map.nodes_with_copy_source_count,
            unreachable_bytes: if append {
                self.map.unreachable_bytes
            } else {
                0
            },
            ignore_patterns_hash: self.map.ignore_patterns_hash,
        };
        Ok((out, meta, append))
    }

    /// The records that the flat format holds for the map: one for each
    /// entry, in the order of `iter`.
    pub open spec fn spec_records(&self) -> Seq<V1Record> {
        records_of(walk(self.map.tree(), Seq::empty()))
    }

    /// The map of a file in the flat format, with the two parents that the
    /// file begins with. An empty file gives an empty map and no parents.
    pub fn new_v1(on_disk: Vec<u8>) -> (r: Result<(Self, Option<DirstateParents>), DirstateError>)
        ensures
            on_disk@.len() == 0 ==> (r matches Ok(found) && found.1 is None && found.0.wf()
                && found.0.map.tree() == Seq::<NodeView>::empty() && found.0.map.on_disk
                == on_disk),
            on_disk@.len() > 0 ==> (r is Ok <==> v1_readable(on_disk@)),
            on_disk@.len() > 0 ==> (r matches Ok(found) ==> {
                &&& found.0.wf()
                &&& found.0.map.on_disk == on_disk
                &&& found.0.map.holds_records(v1_contents(on_disk@).unwrap())
                &&& found.1 matches Some(p) && p.spec_bytes() == on_disk@.subrange(
                    0,
                    PARENTS_SIZE as int,
                )
            }),
            r matches Ok(found) ==> found.0.map.unreachable_bytes == 0
                && found.0.map.spec_all_decoded(),
            r matches Err(e) ==> e == DirstateError::ParseError(DirstateV2ParseError),
    {
        match DirstateMap::new_v1(on_disk) {
            Ok((map, parents)) => Ok((OwningDirstateMap { map }, parents)),
            Err(e) => Err(e),
        }
    }

    /// The map in the flat format: the two parents, then a record for each
    /// entry with its path and its copy source.
    ///
    /// Fails where an entry has no record in the flat format: nothing
    /// tracks it, or its path and copy source are too long.
    pub fn pack_v1(&self, parents: DirstateParents) -> (r: Result<Vec<u8>, DirstateError>)
        requires
            self.wf(),
        ensures
            r is Ok <==> forall|i: int|
                0 <= i < self.spec_records().len() ==> record_packable(
                    #[trigger] self.spec_records()[i],
                ),
            r matches Ok(packed) ==> packed@ == parents.spec_bytes() + pack_records(
                self.spec_records(),
            ),
    {
        let on_disk = self.map.on_disk.as_slice();
        let nodes = self.map.iter_nodes().collect();
        let ghost visited = visited_view(nodes@, on_disk@);
        let ghost all = records_of(visited);
        // The size is computed first, so that the bytes are allocated once.
        let mut size: usize = PARENTS_SIZE;
        let mut k: usize = 0;
        while k < nodes.len()
            invariant
                k <= nodes@.len(),
                on_disk@ == self.map.on_disk@,
                visited_ok(nodes@, on_disk@),
            decreases nodes@.len() - k,
        {
            if nodes[k].1.entry(on_disk).is_some() {
                let more = packed_entry_size(
                    nodes[k].0.as_slice(),
                    nodes[k].1.copy_source(on_disk),
                );
                size = match more {
                    Some(n) => if n <= usize::MAX - size {
                        size + n
                    } else {
                        size
                    },
                    None => size,
                };
            }
            k += 1;
        }
        let mut packed: Vec<u8> = Vec::with_capacity(size);
        crate::bytes::push_bytes(&mut packed, parents.as_bytes().as_slice());
        let mut i: usize = 0;
        proof {
            assert(visited.take(0) =~= Seq::<Visited>::empty());
            assert(records_of(visited.take(0)) =~= Seq::<V1Record>::empty());
            assert(packed@ =~= parents.spec_bytes() + pack_records(records_of(visited.take(0))));
            tree::lemma_walk_nodes_wf(self.map.tree(), Seq::empty());
        }
        while i < nodes.len()
            invariant
                i <= nodes@.len(),
                on_disk@ == self.map.on_disk@,
                visited_ok(nodes@, on_disk@),
                visited == visited_view(nodes@, on_disk@),
                all == records_of(visited),
                all == self.spec_records(),
                forall|j: int| 0 <= j < visited.len() ==> (#[trigger] visited[j]).node.data.wf(),
                packed@ == parents.spec_bytes() + pack_records(records_of(visited.take(i as int))),
                forall|j: int|
                    0 <= j < records_of(visited.take(i as int)).len() ==> record_packable(
                        #[trigger] records_of(visited.take(i as int))[j],
                    ),
            decreases nodes@.len() - i,
        {
            let ghost done = records_of(visited.take(i as int));
            proof {
                lemma_filter_map_take(visited, record_fn(), i as int);
                assert(visited[i as int].node.data.wf());
            }
            if let Some(entry) = nodes[i].1.entry(on_disk) {
                let path = nodes[i].0.as_slice();
                let copy_source = nodes[i].1.copy_source(on_disk);
                let ghost record = record_of(path@, entry, copy_source);
                proof {
                    assert(record_of_visited(visited[i as int]) == Some(record));
                    lemma_filter_map_index(visited, record_fn(), i as int);
                    lemma_pack_records_push(done, record);
                }
                if !entry.any_tracked() || !pack_entry(path, &entry, copy_source, &mut packed) {
                    proof {
                        assert(!record_packable(all[done.len() as int]));
                    }
                    return Err(
                        DirstateError::MapError(
                            DirstateMapError::Unpackable(crate::bytes::copy_bytes(path)),
                        ),
                    );
                }
                proof {
                    assert(packed@ =~= parents.spec_bytes() + pack_records(done.push(record)));
                }
            }
            i += 1;
        }
        proof {
            assert(visited.take(i as int) =~= visited);
        }
        Ok(packed)
    }
}

/// Writing a map in the flat format and reading the bytes back gives the
/// entries again, each with its copy source, where the format keeps all of
/// every record: its entry is one that the format can express, and its path
/// holds no zero byte. A copy source of a path without entry is not
/// written.
///
/// `packed` is what `pack_v1` returns for `before`, and `after` is what
/// `new_v1` makes of it.
pub proof fn lemma_pack_v1_then_new_v1(
    before: OwningDirstateMap,
    parents: DirstateParents,
    packed: Seq<u8>,
    after: OwningDirstateMap,
)
    requires
        before.wf(),
        forall|i: int|
            0 <= i < before.spec_records().len() ==> record_exact(
                #[trigger] before.spec_records()[i],
            ),
        packed == parents.spec_bytes() + pack_records(before.spec_records()),
        v1_readable(packed) ==> after.map.holds_records(v1_contents(packed).unwrap()),
    ensures
        v1_readable(packed),
        packed.subrange(0, PARENTS_SIZE as int) == parents.spec_bytes(),
        forall|q: Seq<u8>| #[trigger] after.spec_get(q) == before.spec_get(q),
        forall|q: Seq<u8>| #[trigger]
            after.spec_copy_source(q) == (if before.spec_get(q) is Some {
                before.spec_copy_source(q)
            } else {
                None
            }),
        after.spec_len() == before.spec_len(),
{
    let t = before.map.tree();
    let rs = before.spec_records();
    let head = parents.spec_bytes();
    assert(head.len() == 40);
    assert(v1_contents(packed) == Some(rs)) by {
        lemma_records_round_trip(head, rs);
    }
    lemma_tree_records(t);
    assert(packed.subrange(0, PARENTS_SIZE as int) =~= head);
    assert(v1_readable(packed));
    assert(after.map.holds_records(rs));
    assert forall|q: Seq<u8>| #[trigger] after.spec_get(q) == before.spec_get(q) by {
        lemma_tree_record(t, q);
    }
    assert forall|q: Seq<u8>| #[trigger]
        after.spec_copy_source(q) == (if before.spec_get(q) is Some {
            before.spec_copy_source(q)
        } else {
            None
        }) by {
        lemma_tree_record(t, q);
    }
}

/// The record that the walk of a tree makes for a path is that of the entry
/// at the path, with the copy source at the path.
pub proof fn lemma_tree_record(t: Seq<NodeView>, q: Seq<u8>)
    requires
        tree::level_wf(t),
    ensures
        (match crate::dirstate_tree::parsers::find_record(
            records_of(walk(t, Seq::empty())),
            q,
        ) {
            Some(r) => Some(r.entry),
            None => None,
        }) == tree::tree_entry(t, q),
        (match crate::dirstate_tree::parsers::find_record(
            records_of(walk(t, Seq::empty())),
            q,
        ) {
            Some(r) => r.copy_source,
            None => None,
        }) == (if tree::tree_entry(t, q) is Some {
            tree::tree_copy(t, q)
        } else {
            None
        }),
{
    let l = walk(t, Seq::empty());
    lemma_walk_no_path_twice(t, Seq::empty());
    lemma_records_find(l, q);
    lemma_walk_find(t, Seq::empty(), q);
    assert(crate::dirstate_tree::walk::after(q, 0) =~= q);
    assert(q.subrange(0, 0) =~= Seq::<u8>::empty());
    assert(crate::dirstate_tree::walk::is_prefix(Seq::empty(), q));
}

/// The walk of a tree makes one record for each entry, and no two for the
/// same path.
pub proof fn lemma_tree_records(t: Seq<NodeView>)
    requires
        tree::level_wf(t),
    ensures
        crate::dirstate_tree::parsers::no_record_twice(records_of(walk(t, Seq::empty()))),
        records_of(walk(t, Seq::empty())).len() == tree::level_entries(t),
{
    let l = walk(t, Seq::empty());
    lemma_walk_no_path_twice(t, Seq::empty());
    lemma_records_find(l, Seq::empty());
    lemma_records_count(t, Seq::empty());
    tree::lemma_level_sums_are_recounts(t, t.len() as int);
    assert(t.take(t.len() as int) =~= t);
}

/// Writing a map as a serialized tree and reading the file back gives the
/// same tree: the same nodes with the same entries, copy sources and
/// counters, and the same counters of the map; this whether the new bytes
/// replace the old file or are appended to it.
///
/// `packed`, `meta` and `used_append` are what `pack_v2` returns for
/// `before`; `after` is what `new_v2` makes of the whole file and of the
/// bytes of the metadata.
pub proof fn lemma_pack_v2_then_new_v2(
    before: OwningDirstateMap,
    can_append: bool,
    packed: Seq<u8>,
    meta: TreeMetadata,
    used_append: bool,
    after: OwningDirstateMap,
)
    requires
        before.wf(),
        before.packed_v2(can_append, packed, meta, used_append),
        after.map.is_v2_of(
            file_of(before.map.on_disk@, used_append, packed),
            file_of(before.map.on_disk@, used_append, packed).len() as int,
            meta.spec_bytes(),
        ),
    ensures
        file_of(before.map.on_disk@, used_append, packed).len() == 0 || v2_readable(
            file_of(before.map.on_disk@, used_append, packed),
            meta.spec_bytes(),
        ),
        after.map.tree() == before.map.tree(),
        after.spec_len() == before.spec_len(),
        after.map.nodes_with_copy_source_count == before.map.nodes_with_copy_source_count,
        forall|q: Seq<u8>| #[trigger] after.spec_get(q) == before.spec_get(q),
        forall|q: Seq<u8>| #[trigger] after.spec_copy_source(q) == before.spec_copy_source(q),
        file_of(before.map.on_disk@, used_append, packed).len() > 0 ==> after.map.unreachable_bytes
            == (if used_append {
            before.map.unreachable_bytes
        } else {
            0
        }) && after.map.ignore_patterns_hash == before.map.ignore_patterns_hash,
{
    let file = file_of(before.map.on_disk@, used_append, packed);
    let m = meta.spec_bytes();
    let start = meta.root_start as int;
    let count = meta.root_count as int;
    lemma_metadata_round_trip(meta);
    assert(file.take(file.len() as int) =~= file);
    assert(crate::bytes::be_u32_at(m, 0) == meta.root_start);
    assert(crate::bytes::be_u32_at(m, 4) == meta.root_count);
    let view = disk_level(file, start, count);
    assert(view == before.map.tree());
    if file.len() == 0 {
        assert(valid_level(file, start, count));
        assert(count == 0);
        assert(view =~= Seq::<NodeView>::empty());
        assert(after.map.tree() == before.map.tree());
    } else {
        assert(v2_readable(file, m));
        assert(after.map.tree() == view);
        assert(after.map.ignore_patterns_hash@ == before.map.ignore_patterns_hash@);
        assert(after.map.ignore_patterns_hash == before.map.ignore_patterns_hash);
    }
    lemma_same_tree_same_maps(after, before);
}

/// Maps with the same tree are the same maps from paths to entries and to
/// copy sources, and have the same counters where they are well formed.
pub proof fn lemma_same_tree_same_maps(a: OwningDirstateMap, b: OwningDirstateMap)
    requires
        a.wf(),
        b.wf(),
        a.map.tree() == b.map.tree(),
    ensures
        a.spec_len() == b.spec_len(),
        a.map.nodes_with_copy_source_count == b.map.nodes_with_copy_source_count,
        forall|q: Seq<u8>| #[trigger] a.spec_get(q) == b.spec_get(q),
        forall|q: Seq<u8>| #[trigger] a.spec_copy_source(q) == b.spec_copy_source(q),
{
}

/// In a well-formed map the counter of entries of the map is the number of
/// entries that a fresh count of the whole tree finds, and the two counters
/// of every node are the numbers of entries, and of tracked entries, that a
/// fresh count of the tree below the node finds. Every mutation keeps the
/// map well formed, so this holds after each step of any sequence of
/// mutations.
pub proof fn lemma_counters_are_true_counts(map: OwningDirstateMap, path: Seq<u8>)
    requires
        map.wf(),
    ensures
        map.spec_len() == tree::level_entries_recount(map.map.tree()),
        map.map.spec_node(path) matches Some(n) ==> n.entry_count == tree::level_entries_recount(
            n.children,
        ) && n.tracked_count == tree::level_tracked_recount(n.children),
{
    let t = map.map.tree();
    tree::lemma_level_sums_are_recounts(t, t.len() as int);
    assert(t.take(t.len() as int) =~= t);
    tree::lemma_entry_wf(t, path);
    match map.map.spec_node(path) {
        Some(n) => {
            tree::lemma_counters_are_recounts(n);
        },
        None => {},
    }
}

/// Dropping the one path of a map that holds nothing else leaves the map
/// without nodes: the node of the path goes, and with it every directory on
/// the way to it.
pub proof fn lemma_drop_only_path_empties_map(map: OwningDirstateMap, path: Seq<u8>)
    requires
        tree::only_chain(map.map.tree(), path),
    ensures
        drop_spec(map.map.tree(), path).tree == Seq::<NodeView>::empty(),
{
    tree::lemma_drop_only_path_empties_tree(map.map.tree(), path);
    assert(drop_spec(map.map.tree(), path).tree =~= Seq::<NodeView>::empty());
}

} // verus!
