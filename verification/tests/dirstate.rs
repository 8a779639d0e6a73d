use hg_core::dirstate_tree::child_nodes::{add_unreachable, BorrowedPath, ChildNodesRef};
use hg_core::dirstate_tree::dirstate_map::{
    DirstateError, DirstateMap, DirstateMapError, DirstateV2ParseError,
};
use hg_core::dirstate_tree::node::{ChildNodes, NodeData, NODE_SIZE};
use hg_core::dirstate_tree::on_disk::TreeMetadata;
use hg_core::dirstate_tree::owning::OwningDirstateMap;
use hg_core::dirstate_tree::parsers::DirstateParents;
use hg_core::entry::{DirstateEntry, EntryState, ParentFileData, TruncatedTimestamp};

fn empty() -> OwningDirstateMap {
    OwningDirstateMap::new_empty(Vec::new())
}

fn count(children: &ChildNodes) -> usize {
    match children {
        ChildNodes::InMemory(nodes) => nodes.len(),
        ChildNodes::OnDisk(slice) => slice.count,
    }
}

/// Counts the entries and the tracked entries below each node afresh and
/// holds the stored counters against them. Returns the counts of the level.
fn recount(children: ChildNodesRef, on_disk: &[u8]) -> (u32, u32) {
    let mut entries = 0;
    let mut tracked_sum = 0;
    for node in children.sorted(on_disk) {
        let stored = (
            node.descendants_with_entry_count(on_disk),
            node.tracked_descendants_count(on_disk),
        );
        let below = recount(node.children(on_disk), on_disk);
        assert_eq!(stored, below);
        entries += below.0;
        tracked_sum += below.1;
        if let Some(entry) = node.entry(on_disk) {
            entries += 1;
            if entry.is_tracked() {
                tracked_sum += 1;
            }
        }
    }
    (entries, tracked_sum)
}

fn recount_all(map: &OwningDirstateMap) -> (u32, u32) {
    recount(map.map.root.as_ref(), map.map.on_disk.as_slice())
}

fn check_counters(map: &OwningDirstateMap) {
    let (entries, _) = recount_all(map);
    assert_eq!(map.len(), entries as usize);
    assert_eq!(map.copy_map_len(), map.copy_map_iter().len());
}

fn clean_time() -> TruncatedTimestamp {
    TruncatedTimestamp::new_truncated(1_700_000_000, 5, false)
}

#[test]
fn counters_hold_after_every_mutation() {
    let mut map = empty();
    check_counters(&map);
    assert_eq!(map.set_tracked(b"a/b/c"), Ok(true));
    check_counters(&map);
    assert_eq!(map.set_tracked(b"a/b/d"), Ok(true));
    check_counters(&map);
    assert_eq!(map.set_tracked(b"a/e"), Ok(true));
    check_counters(&map);
    assert_eq!(map.set_tracked(b"f"), Ok(true));
    check_counters(&map);
    map.set_clean(b"a/b/c", 0o644, 12, clean_time()).unwrap();
    check_counters(&map);
    assert_eq!(map.set_untracked(b"a/b/c").unwrap(), true);
    check_counters(&map);
    map.copy_map_insert(b"a/e".to_vec(), b"f".to_vec()).unwrap();
    check_counters(&map);
    map.reset_state(b"a/b/d", false, true, false, false, None).unwrap();
    check_counters(&map);
    map.reset_state(b"g/h", true, true, true, false, None).unwrap();
    check_counters(&map);
    map.drop_entry_and_copy_source(b"a/e").unwrap();
    check_counters(&map);
    map.reset_state(b"g/h", false, false, false, false, None).unwrap();
    check_counters(&map);
    map.set_possibly_dirty(b"f").unwrap();
    check_counters(&map);
    assert_eq!(map.len(), 3);
    assert_eq!(recount_all(&map), (3, 1));
}

#[test]
fn drop_removes_empty_ancestors() {
    let mut map = empty();
    map.set_tracked(b"a/b/c/d").unwrap();
    assert_eq!(count(&map.map.root), 1);
    assert!(map.map.get_node(b"a/b/c").is_some());
    map.drop_entry_and_copy_source(b"a/b/c/d").unwrap();
    assert!(map.map.get_node(b"a/b/c/d").is_none());
    assert!(map.map.get_node(b"a/b/c").is_none());
    assert!(map.map.get_node(b"a/b").is_none());
    assert!(map.map.get_node(b"a").is_none());
    assert_eq!(count(&map.map.root), 0);
    assert_eq!(map.len(), 0);
}

#[test]
fn drop_keeps_ancestors_with_other_children() {
    let mut map = empty();
    map.set_tracked(b"a/b").unwrap();
    map.set_tracked(b"a/c").unwrap();
    map.drop_entry_and_copy_source(b"a/b").unwrap();
    let paths: Vec<Vec<u8>> = map.iter().into_iter().map(|(path, _)| path).collect();
    assert_eq!(paths, vec![b"a/c".to_vec()]);
    let on_disk = map.map.on_disk.as_slice();
    let a = map.map.get_node(b"a").unwrap();
    assert_eq!(a.descendants_with_entry_count(on_disk), 1);
    assert_eq!(a.tracked_descendants_count(on_disk), 1);
    assert_eq!(map.len(), 1);
    assert_eq!(map.get(b"a/b"), Ok(None));
    assert!(map.get(b"a/c").unwrap().is_some());
}

#[test]
fn drop_of_missing_path_changes_nothing() {
    let mut map = empty();
    map.set_tracked(b"a/b").unwrap();
    map.drop_entry_and_copy_source(b"a/x").unwrap();
    map.drop_entry_and_copy_source(b"z").unwrap();
    map.drop_entry_and_copy_source(b"a/b/c").unwrap();
    assert_eq!(map.len(), 1);
    assert!(map.get(b"a/b").unwrap().is_some());
    check_counters(&map);
}

#[test]
fn drop_forgets_cached_directory_time_where_a_child_goes() {
    let mut map = empty();
    map.set_tracked(b"dir/sub/file").unwrap();
    map.set_tracked(b"dir/other").unwrap();
    let mtime = clean_time();
    map.map.get_or_insert(b"dir").data = NodeData::CachedDirectory { mtime };
    map.map.get_or_insert(b"dir/sub").data = NodeData::CachedDirectory { mtime };
    let on_disk: Vec<u8> = Vec::new();
    assert_eq!(
        map.map.get_node(b"dir").unwrap().cached_directory_mtime(&on_disk),
        Some(mtime)
    );
    map.drop_entry_and_copy_source(b"dir/sub/file").unwrap();
    // `dir/sub` is left with nothing and goes; `dir` lost a child.
    assert!(map.map.get_node(b"dir/sub").is_none());
    assert_eq!(
        map.map.get_node(b"dir").unwrap().cached_directory_mtime(&on_disk),
        None
    );
    check_counters(&map);
}

#[test]
fn set_tracked_twice() {
    let mut map = empty();
    assert_eq!(map.set_tracked(b"x"), Ok(true));
    map.set_clean(b"x", 0o644, 3, clean_time()).unwrap();
    assert!(!map.get(b"x").unwrap().unwrap().possibly_dirty());
    assert_eq!(map.set_tracked(b"x"), Ok(false));
    let entry = map.get(b"x").unwrap().unwrap();
    assert!(entry.is_tracked());
    assert!(entry.possibly_dirty());
    assert_eq!(map.len(), 1);
}

#[test]
fn set_tracked_on_absent_path_creates_a_fresh_entry() {
    let mut map = empty();
    assert_eq!(map.set_tracked(b"dir/x"), Ok(true));
    assert_eq!(map.get(b"dir/x"), Ok(Some(DirstateEntry::new_tracked())));
    assert_eq!(map.get(b"dir"), Ok(None));
    assert_eq!(map.contains_key(b"dir/x"), Ok(true));
    assert_eq!(map.contains_key(b"dir"), Ok(false));
    assert_eq!(map.has_dir(b"dir"), Ok(true));
    assert_eq!(map.has_tracked_dir(b"dir"), Ok(true));
    assert_eq!(map.has_dir(b"dir/x"), Ok(false));
    assert_eq!(map.has_dir(b"other"), Ok(false));
}

#[test]
fn set_untracked_cases() {
    let mut map = empty();
    // no entry
    assert_eq!(
        map.set_untracked(b"nothing"),
        Err(DirstateError::MapError(DirstateMapError::PathNotFound(b"nothing".to_vec())))
    );
    // an added file is dropped
    map.set_tracked(b"added").unwrap();
    map.copy_map_insert(b"added".to_vec(), b"origin".to_vec()).unwrap();
    assert_eq!(map.set_untracked(b"added").unwrap(), true);
    assert_eq!(map.get(b"added"), Ok(None));
    assert_eq!(map.copy_map_get(b"added"), Ok(None));
    assert_eq!(map.len(), 0);
    // a file known to the first parent stays, without metadata and copy source
    map.reset_state(
        b"known",
        true,
        true,
        false,
        true,
        Some(ParentFileData { mode_size: Some((0o644, 7)), mtime: Some(clean_time()) }),
    )
    .unwrap();
    map.copy_map_insert(b"known".to_vec(), b"origin".to_vec()).unwrap();
    assert_eq!(map.has_tracked_dir(b"known"), Ok(false));
    assert_eq!(map.set_untracked(b"known").unwrap(), true);
    let entry = map.get(b"known").unwrap().unwrap();
    assert!(!entry.is_tracked());
    assert!(entry.removed());
    assert_eq!(entry.mode_size, None);
    assert_eq!(entry.mtime, None);
    assert_eq!(map.copy_map_get(b"known"), Ok(None));
    // an entry that is not tracked is left alone
    assert_eq!(map.set_untracked(b"known").unwrap(), true);
    assert_eq!(map.get(b"known").unwrap().unwrap(), entry);
    // with second-parent information the copy source stays
    map.reset_state(b"merged", true, true, true, false, None).unwrap();
    map.copy_map_insert(b"merged".to_vec(), b"origin".to_vec()).unwrap();
    assert_eq!(map.set_untracked(b"merged").unwrap(), true);
    assert_eq!(map.copy_map_get(b"merged"), Ok(Some(&b"origin"[..])));
    check_counters(&map);
}

#[test]
fn set_clean_and_possibly_dirty_need_an_entry() {
    let mut map = empty();
    assert_eq!(
        map.set_clean(b"a/b", 0o644, 1, clean_time()),
        Err(DirstateError::MapError(DirstateMapError::PathNotFound(b"a/b".to_vec())))
    );
    assert_eq!(
        map.set_possibly_dirty(b"a/b"),
        Err(DirstateError::MapError(DirstateMapError::PathNotFound(b"a/b".to_vec())))
    );
    assert_eq!(map.len(), 0);
    assert_eq!(count(&map.map.root), 0);
}

#[test]
fn set_clean_records_truncated_metadata() {
    let mut map = empty();
    map.reset_state(b"f", false, true, false, false, None).unwrap();
    map.copy_map_insert(b"f".to_vec(), b"g".to_vec()).unwrap();
    // the entry is not tracked in the working copy: no tracked directory
    map.reset_state(b"d/f", false, true, false, false, None).unwrap();
    assert_eq!(map.has_tracked_dir(b"d"), Ok(false));
    assert_eq!(map.has_dir(b"d"), Ok(true));
    map.set_clean(b"d/f", 0o100644, 0x8000_0005, clean_time()).unwrap();
    let entry = map.get(b"d/f").unwrap().unwrap();
    assert!(entry.is_tracked());
    assert!(entry.p1_tracked());
    assert_eq!(entry.mode_size, Some((0o100644, 5)));
    assert_eq!(entry.mtime, Some(clean_time()));
    assert_eq!(map.has_tracked_dir(b"d"), Ok(true));
    map.set_clean(b"f", 1, 2, clean_time()).unwrap();
    assert_eq!(map.copy_map_get(b"f"), Ok(None));
    assert_eq!(map.copy_map_len(), 0);
    check_counters(&map);
}

#[test]
fn reset_state_sets_flags_and_metadata() {
    let mut map = empty();
    let data = ParentFileData { mode_size: Some((0o644, 10)), mtime: Some(clean_time()) };
    map.reset_state(b"a", true, true, false, true, Some(data)).unwrap();
    let entry = map.get(b"a").unwrap().unwrap();
    assert_eq!(
        entry,
        DirstateEntry {
            wc_tracked: true,
            p1_tracked: true,
            p2_info: false,
            mode_size: Some((0o644, 10)),
            mtime: Some(clean_time()),
            fallback_exec: None,
            fallback_symlink: None,
        }
    );
    map.reset_state(b"a", true, true, false, false, Some(data)).unwrap();
    assert_eq!(map.get(b"a").unwrap().unwrap().mtime, None);
    map.reset_state(b"a", false, false, true, true, None).unwrap();
    let entry = map.get(b"a").unwrap().unwrap();
    assert_eq!((entry.wc_tracked, entry.p1_tracked, entry.p2_info), (false, false, true));
    assert_eq!(entry.mode_size, None);
    // without any flag the path is dropped
    map.reset_state(b"a", false, false, false, true, Some(data)).unwrap();
    assert_eq!(map.get(b"a"), Ok(None));
    assert_eq!(count(&map.map.root), 0);
}

#[test]
fn copy_map_operations() {
    let mut map = empty();
    assert_eq!(map.copy_map_len(), 0);
    assert_eq!(map.copy_map_insert(b"a/b".to_vec(), b"src".to_vec()), Ok(None));
    assert_eq!(map.copy_map_len(), 1);
    assert_eq!(map.copy_map_contains_key(b"a/b"), Ok(true));
    assert_eq!(map.copy_map_contains_key(b"a"), Ok(false));
    assert_eq!(map.copy_map_get(b"a/b"), Ok(Some(&b"src"[..])));
    // a copy source without entry
    assert_eq!(map.get(b"a/b"), Ok(None));
    assert_eq!(map.len(), 0);
    assert_eq!(
        map.copy_map_insert(b"a/b".to_vec(), b"other".to_vec()),
        Ok(Some(b"src".to_vec()))
    );
    assert_eq!(map.copy_map_len(), 1);
    assert_eq!(map.copy_map_iter(), vec![(b"a/b".to_vec(), b"other".to_vec())]);
    assert_eq!(map.copy_map_remove(b"a/b"), Ok(Some(b"other".to_vec())));
    assert_eq!(map.copy_map_remove(b"a/b"), Ok(None));
    assert_eq!(map.copy_map_remove(b"nothing"), Ok(None));
    assert_eq!(map.copy_map_len(), 0);
    assert_eq!(map.copy_map_get(b"a/b"), Ok(None));
}

#[test]
fn iteration_is_children_first_and_sorted() {
    let mut map = empty();
    for path in [&b"b"[..], b"a/z", b"a/b/c", b"a", b"a/b", b"c/d"] {
        map.set_tracked(path).unwrap();
    }
    let paths: Vec<Vec<u8>> = map.iter().into_iter().map(|(path, _)| path).collect();
    let expected: Vec<Vec<u8>> = [&b"a/b/c"[..], b"a/b", b"a/z", b"a", b"b", b"c/d"]
        .iter()
        .map(|p| p.to_vec())
        .collect();
    assert_eq!(paths, expected);
    let dirs = map.iter_tracked_dirs().unwrap();
    let expected: Vec<Vec<u8>> = [&b"a/b"[..], b"a", b"c"].iter().map(|p| p.to_vec()).collect();
    assert_eq!(dirs, expected);
}

#[test]
fn debug_iter_shows_tuples() {
    let mut map = empty();
    map.set_tracked(b"dir/added").unwrap();
    map.reset_state(
        b"dir/clean",
        true,
        true,
        false,
        true,
        Some(ParentFileData { mode_size: Some((0o644, 9)), mtime: Some(clean_time()) }),
    )
    .unwrap();
    map.reset_state(b"gone", false, true, false, false, None).unwrap();
    assert_eq!(
        map.debug_iter(false),
        vec![
            (b"dir/added".to_vec(), (b'a', 0, -1, -1)),
            (b"dir/clean".to_vec(), (b'n', 0o644, 9, 1_700_000_000)),
            (b"gone".to_vec(), (b'r', 0, 0, 0)),
        ]
    );
    assert_eq!(
        map.debug_iter(true),
        vec![
            (b"dir/added".to_vec(), (b'a', 0, -1, -1)),
            (b"dir/clean".to_vec(), (b'n', 0o644, 9, 1_700_000_000)),
            (b"dir".to_vec(), (b' ', 0, -1, -1)),
            (b"gone".to_vec(), (b'r', 0, 0, 0)),
        ]
    );
}

#[test]
fn clear_forgets_everything() {
    let mut map = empty();
    map.set_tracked(b"a/b").unwrap();
    map.copy_map_insert(b"a/b".to_vec(), b"c".to_vec()).unwrap();
    map.clear();
    assert_eq!(map.len(), 0);
    assert_eq!(map.copy_map_len(), 0);
    assert_eq!(map.get(b"a/b"), Ok(None));
    assert!(map.iter().is_empty());
}

#[test]
fn set_entry_replaces_an_entry() {
    let mut map = empty();
    map.set_tracked(b"a/b").unwrap();
    let mut entry = DirstateEntry::new_tracked();
    entry.set_clean(0o755, 42, clean_time());
    map.set_entry(b"a/b", entry).unwrap();
    assert_eq!(map.get(b"a/b"), Ok(Some(entry)));
    assert_eq!(map.len(), 1);
    check_counters(&map);
}

#[test]
fn set_entry_counts_a_new_entry() {
    let mut map = empty();
    map.set_tracked(b"a/x").unwrap();
    let entry = DirstateEntry::new_tracked();
    map.set_entry(b"a/b/c", entry).unwrap();
    assert_eq!(map.get(b"a/b/c"), Ok(Some(entry)));
    assert_eq!(map.len(), 2);
    let on_disk = map.map.on_disk.clone();
    let a = map.map.get_node(b"a").unwrap();
    assert_eq!(a.descendants_with_entry_count(&on_disk), 2);
    assert_eq!(a.tracked_descendants_count(&on_disk), 2);
    let b = map.map.get_node(b"a/b").unwrap();
    assert_eq!(b.descendants_with_entry_count(&on_disk), 1);
    assert_eq!(b.tracked_descendants_count(&on_disk), 1);
    check_counters(&map);
}

#[test]
fn set_entry_takes_up_the_change_of_tracking() {
    let mut map = empty();
    map.set_tracked(b"a/b").unwrap();
    let mut removed = DirstateEntry::new_tracked();
    removed.set_clean(0o644, 1, clean_time());
    removed.set_untracked();
    map.set_entry(b"a/b", removed).unwrap();
    assert_eq!(map.get(b"a/b"), Ok(Some(removed)));
    assert_eq!(map.len(), 1);
    let on_disk = map.map.on_disk.clone();
    let a = map.map.get_node(b"a").unwrap();
    assert_eq!(a.descendants_with_entry_count(&on_disk), 1);
    assert_eq!(a.tracked_descendants_count(&on_disk), 0);
    check_counters(&map);
    // and back
    map.set_entry(b"a/b", DirstateEntry::new_tracked()).unwrap();
    let a = map.map.get_node(b"a").unwrap();
    assert_eq!(a.tracked_descendants_count(&on_disk), 1);
    check_counters(&map);
}

fn parents() -> DirstateParents {
    DirstateParents { p1: [0x11; 20], p2: [0x22; 20] }
}

fn sample_map() -> OwningDirstateMap {
    let mut map = empty();
    map.set_tracked(b"added").unwrap();
    map.reset_state(
        b"dir/clean",
        true,
        true,
        false,
        true,
        Some(ParentFileData {
            mode_size: Some((0o100644, 1234)),
            mtime: Some(TruncatedTimestamp::new_truncated(1_600_000_000, 0, false)),
        }),
    )
    .unwrap();
    map.reset_state(b"dir/sub/removed", false, true, false, false, None).unwrap();
    map.reset_state(b"dir/sub/merged", true, true, true, false, None).unwrap();
    map.reset_state(b"other/from-p2", true, false, true, false, None).unwrap();
    map.set_tracked(b"other/copied").unwrap();
    map.copy_map_insert(b"other/copied".to_vec(), b"dir/clean".to_vec()).unwrap();
    map
}

#[test]
fn pack_v1_bytes_of_one_entry() {
    let mut map = empty();
    map.reset_state(
        b"ab",
        true,
        true,
        false,
        true,
        Some(ParentFileData {
            mode_size: Some((0o644, 258)),
            mtime: Some(TruncatedTimestamp::new_truncated(3, 0, false)),
        }),
    )
    .unwrap();
    map.copy_map_insert(b"ab".to_vec(), b"c".to_vec()).unwrap();
    let packed = map.pack_v1(parents()).unwrap();
    let mut expected = vec![0x11; 20];
    expected.extend_from_slice(&[0x22; 20]);
    expected.push(b'n');
    expected.extend_from_slice(&[0, 0, 0x01, 0xa4]);
    expected.extend_from_slice(&[0, 0, 1, 2]);
    expected.extend_from_slice(&[0, 0, 0, 3]);
    expected.extend_from_slice(&[0, 0, 0, 4]);
    expected.extend_from_slice(b"ab\0c");
    assert_eq!(packed, expected);
}

#[test]
fn pack_v1_writes_unset_fields_as_negative_numbers() {
    let mut map = empty();
    map.set_tracked(b"x").unwrap();
    let packed = map.pack_v1(parents()).unwrap();
    assert_eq!(packed[40], b'a');
    assert_eq!(&packed[41..45], &[0, 0, 0, 0]);
    assert_eq!(&packed[45..49], &[0xff, 0xff, 0xff, 0xff]);
    assert_eq!(&packed[49..53], &[0xff, 0xff, 0xff, 0xff]);
    assert_eq!(&packed[53..57], &[0, 0, 0, 1]);
    assert_eq!(&packed[57..], b"x");
}

#[test]
fn v1_round_trip() {
    let map = sample_map();
    let packed = map.pack_v1(parents()).unwrap();
    let (read, read_parents) = OwningDirstateMap::new_v1(packed).unwrap();
    assert_eq!(read_parents, Some(parents()));
    assert_eq!(read.iter(), map.iter());
    assert_eq!(read.copy_map_iter(), map.copy_map_iter());
    assert_eq!(read.len(), map.len());
    assert_eq!(read.copy_map_len(), 1);
    assert_eq!(read.map.unreachable_bytes, 0);
    check_counters(&read);
}

#[test]
fn v1_of_an_empty_file_is_an_empty_map() {
    let (map, read_parents) = OwningDirstateMap::new_v1(Vec::new()).unwrap();
    assert_eq!(read_parents, None);
    assert_eq!(map.len(), 0);
}

#[test]
fn v1_rejects_malformed_files() {
    let parse_error = DirstateError::ParseError(DirstateV2ParseError);
    // shorter than the parents
    assert_eq!(OwningDirstateMap::new_v1(vec![0; 39]).err(), Some(parse_error));
    let packed = sample_map().pack_v1(parents()).unwrap();
    // a record cut short
    let mut cut = packed.clone();
    cut.pop();
    assert!(OwningDirstateMap::new_v1(cut).is_err());
    // an unknown state letter
    let mut letter = packed.clone();
    letter[40] = b'?';
    assert!(OwningDirstateMap::new_v1(letter).is_err());
    // the same path twice
    let mut map = empty();
    map.set_tracked(b"x").unwrap();
    let mut twice = map.pack_v1(parents()).unwrap();
    let record = twice[40..].to_vec();
    twice.extend_from_slice(&record);
    assert!(OwningDirstateMap::new_v1(twice).is_err());
    // a negative length
    let mut negative = map.pack_v1(parents()).unwrap();
    negative[53] = 0x80;
    assert!(OwningDirstateMap::new_v1(negative).is_err());
}

#[test]
fn pack_v1_fails_for_an_entry_that_nothing_tracks() {
    let mut map = empty();
    map.set_tracked(b"x").unwrap();
    let untracked = DirstateEntry {
        wc_tracked: false,
        p1_tracked: false,
        p2_info: false,
        mode_size: None,
        mtime: None,
        fallback_exec: None,
        fallback_symlink: None,
    };
    map.map.get_or_insert(b"x").data = NodeData::Entry(untracked);
    assert_eq!(
        map.pack_v1(parents()),
        Err(DirstateError::MapError(DirstateMapError::Unpackable(b"x".to_vec())))
    );
}

fn write_then_read(map: &OwningDirstateMap, can_append: bool) -> (OwningDirstateMap, bool) {
    let (packed, meta, append) = map.pack_v2(can_append).unwrap();
    let mut file = if append { map.map.on_disk.clone() } else { Vec::new() };
    file.extend_from_slice(&packed);
    let size = file.len();
    let read = OwningDirstateMap::new_v2(file, size, &meta.as_bytes()).unwrap();
    (read, append)
}

fn same_contents(a: &OwningDirstateMap, b: &OwningDirstateMap) {
    assert_eq!(a.iter(), b.iter());
    assert_eq!(a.copy_map_iter(), b.copy_map_iter());
    assert_eq!(a.debug_iter(true), b.debug_iter(true));
    assert_eq!(a.iter_tracked_dirs().unwrap(), b.iter_tracked_dirs().unwrap());
    assert_eq!(a.len(), b.len());
    assert_eq!(a.copy_map_len(), b.copy_map_len());
    check_counters(a);
    check_counters(b);
}

#[test]
fn v2_round_trip_rewrite() {
    let mut map = sample_map();
    map.map.get_or_insert(b"dir/sub").data = NodeData::CachedDirectory { mtime: clean_time() };
    let (read, append) = write_then_read(&map, false);
    assert!(!append);
    same_contents(&map, &read);
    assert_eq!(read.map.unreachable_bytes, 0);
    assert!(matches!(read.map.root, ChildNodes::OnDisk(_)));
    let on_disk = read.map.on_disk.as_slice();
    assert_eq!(
        read.map.get_node(b"dir/sub").unwrap().cached_directory_mtime(on_disk),
        Some(clean_time())
    );
    // with nothing on disk there is nothing to append to
    let (read, append) = write_then_read(&map, true);
    assert!(!append);
    same_contents(&map, &read);
}

#[test]
fn v2_round_trip_append() {
    let mut large = sample_map();
    for i in 0..20u8 {
        for name in [&b"one"[..], b"two", b"three"] {
            let mut path = vec![b'd', b'0' + i / 10, b'0' + i % 10, b'/'];
            path.extend_from_slice(name);
            large.set_tracked(&path).unwrap();
        }
    }
    let (mut map, _) = write_then_read(&large, false);
    // one mutation: less than half of the file becomes unreachable
    map.set_tracked(b"d07/new").unwrap();
    assert!(map.map.unreachable_bytes > 0);
    assert!(map.map.write_should_append());
    let before = map.map.on_disk.len();
    let (read, append) = write_then_read(&map, true);
    assert!(append);
    same_contents(&map, &read);
    assert!(read.map.on_disk.len() > before);
    assert_eq!(&read.map.on_disk[..before], &map.map.on_disk[..]);
    assert_eq!(read.map.unreachable_bytes, map.map.unreachable_bytes);
    // the caller may forbid it
    let (read, append) = write_then_read(&map, false);
    assert!(!append);
    same_contents(&map, &read);
    assert_eq!(read.map.unreachable_bytes, 0);
}

#[test]
fn v2_of_no_data_is_an_empty_map() {
    let map = OwningDirstateMap::new_v2(vec![1, 2, 3], 0, &[]).unwrap();
    assert_eq!(map.len(), 0);
    assert!(map.map.on_disk.is_empty());
    let (read, _) = write_then_read(&empty(), false);
    assert_eq!(read.len(), 0);
}

#[test]
fn v2_rejects_malformed_files() {
    let parse_error = Some(DirstateError::ParseError(DirstateV2ParseError));
    let map = sample_map();
    let (packed, meta, _) = map.pack_v2(false).unwrap();
    let meta_bytes = meta.as_bytes();
    let size = packed.len();
    assert!(OwningDirstateMap::new_v2(packed.clone(), size, &meta_bytes).is_ok());
    // the declared size exceeds the data
    assert_eq!(
        OwningDirstateMap::new_v2(packed.clone(), size + 1, &meta_bytes).err(),
        parse_error
    );
    // the data is cut short
    assert_eq!(
        OwningDirstateMap::new_v2(packed.clone(), size - 1, &meta_bytes).err(),
        parse_error
    );
    // the metadata is cut short
    assert_eq!(
        OwningDirstateMap::new_v2(packed.clone(), size, &meta_bytes[..43]).err(),
        parse_error
    );
    // a counter of the map is wrong
    let wrong = TreeMetadata { nodes_with_entry_count: meta.nodes_with_entry_count + 1, ..meta };
    assert_eq!(
        OwningDirstateMap::new_v2(packed.clone(), size, &wrong.as_bytes()).err(),
        parse_error
    );
    // a counter of a node is wrong: the last record is a node of the root
    let mut counter = packed.clone();
    counter[size - NODE_SIZE + 27] ^= 1;
    assert_eq!(OwningDirstateMap::new_v2(counter, size, &meta_bytes).err(), parse_error);
    // a record points behind itself
    let mut pointer = packed.clone();
    pointer[size - NODE_SIZE + 16] = 0xff;
    assert_eq!(OwningDirstateMap::new_v2(pointer, size, &meta_bytes).err(), parse_error);
    // a record that is its own child
    let mut cycle = packed.clone();
    let own = ((size - NODE_SIZE) as u32).to_be_bytes();
    cycle[size - NODE_SIZE + 16..size - NODE_SIZE + 20].copy_from_slice(&own);
    cycle[size - NODE_SIZE + 20..size - NODE_SIZE + 24].copy_from_slice(&[0, 0, 0, 1]);
    assert_eq!(OwningDirstateMap::new_v2(cycle, size, &meta_bytes).err(), parse_error);
    // a name with a separator in it
    let mut name = packed.clone();
    let name_at = u32::from_be_bytes([
        packed[size - NODE_SIZE],
        packed[size - NODE_SIZE + 1],
        packed[size - NODE_SIZE + 2],
        packed[size - NODE_SIZE + 3],
    ]) as usize;
    name[name_at] = b'/';
    assert_eq!(OwningDirstateMap::new_v2(name, size, &meta_bytes).err(), parse_error);
    // names out of order: the two nodes of the root are swapped
    let mut swapped = packed.clone();
    let (a, b) = (size - 3 * NODE_SIZE, size - 2 * NODE_SIZE);
    for i in 0..NODE_SIZE {
        swapped.swap(a + i, b + i);
    }
    assert_eq!(OwningDirstateMap::new_v2(swapped, size, &meta_bytes).err(), parse_error);
}

#[test]
fn mutation_decodes_only_the_levels_on_the_path() {
    let mut map = empty();
    for path in [&b"a/b/c/file"[..], b"a/b/c/other", b"a/b/x/y", b"a/s/t", b"u/v/w", b"z"] {
        map.set_tracked(path).unwrap();
    }
    let (mut read, _) = write_then_read(&map, false);
    assert_eq!(read.map.unreachable_bytes, 0);
    assert!(matches!(read.map.root, ChildNodes::OnDisk(_)));
    // reading decodes nothing
    assert!(read.get(b"a/b/c/file").unwrap().is_some());
    assert!(matches!(read.map.root, ChildNodes::OnDisk(_)));
    // one mutation three levels down: the root (a, u, z), the children of
    // `a` (b, s) and the children of `a/b` (c, x) are decoded
    read.copy_map_insert(b"a/b/c".to_vec(), b"origin".to_vec()).unwrap();
    assert_eq!(read.map.unreachable_bytes as usize, (3 + 2 + 2) * NODE_SIZE);
    let root = match &read.map.root {
        ChildNodes::InMemory(nodes) => nodes,
        ChildNodes::OnDisk(_) => panic!("the root level was written to"),
    };
    assert_eq!(root.len(), 3);
    // the untouched siblings are still serialized
    assert!(matches!(root[1].children, ChildNodes::OnDisk(_)));
    assert!(matches!(root[2].children, ChildNodes::OnDisk(_)));
    let a = match &root[0].children {
        ChildNodes::InMemory(nodes) => nodes,
        ChildNodes::OnDisk(_) => panic!("the children of `a` were written to"),
    };
    assert!(matches!(a[1].children, ChildNodes::OnDisk(_)));
    let b = match &a[0].children {
        ChildNodes::InMemory(nodes) => nodes,
        ChildNodes::OnDisk(_) => panic!("the children of `a/b` were written to"),
    };
    // the children of the node that was changed, and of its sibling
    assert!(matches!(b[0].children, ChildNodes::OnDisk(_)));
    assert!(matches!(b[1].children, ChildNodes::OnDisk(_)));
    same_contents(&read, &{
        let mut expected = map;
        expected.copy_map_insert(b"a/b/c".to_vec(), b"origin".to_vec()).unwrap();
        expected
    });
}

#[test]
fn walk_for_writing_leaves_the_children_of_the_leaf_where_they_are() {
    let mut map = empty();
    for path in [&b"a/b/c/file"[..], b"a/b/c/other", b"a/b/x/y", b"a/s/t"] {
        map.set_tracked(path).unwrap();
    }
    let (mut read, _) = write_then_read(&map, false);
    let on_disk = read.map.on_disk.clone();
    let place = |map: &DirstateMap, path: &[u8]| match map.get_node(path).unwrap().children(&on_disk)
    {
        ChildNodesRef::OnDisk(slice) => (slice.start, slice.count),
        ChildNodesRef::InMemory(_) => panic!("the level is decoded"),
    };
    let below_leaf = place(&read.map, b"a/b/c");
    let below_sibling = place(&read.map, b"a/b/x");
    let below_uncle = place(&read.map, b"a/s");
    assert_eq!(below_leaf.1, 2);
    let leaf = read.map.get_or_insert(b"a/b/c");
    match &leaf.children {
        ChildNodes::OnDisk(slice) => assert_eq!((slice.start, slice.count), below_leaf),
        ChildNodes::InMemory(_) => panic!("the children of the leaf were decoded"),
    }
    assert_eq!(read.map.unreachable_bytes as usize, (1 + 2 + 2) * NODE_SIZE);
    assert_eq!(place(&read.map, b"a/b/c"), below_leaf);
    assert_eq!(place(&read.map, b"a/b/x"), below_sibling);
    assert_eq!(place(&read.map, b"a/s"), below_uncle);
    // a node that the walk creates has nothing below it, in memory
    let fresh = read.map.get_or_insert(b"a/s/new/deep");
    match &fresh.children {
        ChildNodes::InMemory(nodes) => assert!(nodes.is_empty()),
        ChildNodes::OnDisk(_) => panic!("a new node has no records"),
    }
    assert_eq!(place(&read.map, b"a/s/t").1, 0);
    assert_eq!(place(&read.map, b"a/b/x"), below_sibling);
}

#[test]
fn dropped_paths_of_the_file_count_as_unreachable() {
    let mut map = empty();
    map.set_tracked(b"dir/name").unwrap();
    map.copy_map_insert(b"dir/name".to_vec(), b"source".to_vec()).unwrap();
    let (mut read, _) = write_then_read(&map, false);
    read.drop_entry_and_copy_source(b"dir/name").unwrap();
    // two levels of one record each, the copy source, and the two names
    assert_eq!(
        read.map.unreachable_bytes as usize,
        2 * NODE_SIZE + b"source".len() + b"name".len() + b"dir".len()
    );
    assert_eq!(read.len(), 0);
}

fn with_ratio(unreachable_bytes: u32, len: usize) -> DirstateMap {
    let mut map = DirstateMap::empty(vec![0; len]);
    map.unreachable_bytes = unreachable_bytes;
    map
}

#[test]
fn append_below_half_unreachable() {
    assert!(with_ratio(40, 100).write_should_append());
    assert!(!with_ratio(60, 100).write_should_append());
    assert!(with_ratio(49, 100).write_should_append());
    assert!(!with_ratio(50, 100).write_should_append());
    assert!(with_ratio(0, 1).write_should_append());
    assert!(!with_ratio(0, 0).write_should_append());
    assert!(!with_ratio(u32::MAX, 10).write_should_append());
}

#[test]
fn entry_states() {
    let mut entry = DirstateEntry::new_tracked();
    assert_eq!(entry.state(), EntryState::Added);
    assert!(entry.added());
    entry.set_clean(0o644, 1, clean_time());
    assert_eq!(entry.state(), EntryState::Normal);
    entry.set_untracked();
    assert_eq!(entry.state(), EntryState::Removed);
    assert!(!EntryState::Removed.is_tracked());
    assert!(EntryState::Merged.is_tracked());
    assert_eq!(EntryState::from_byte(b'm'), Some(EntryState::Merged));
    assert_eq!(EntryState::from_byte(b'x'), None);
    assert_eq!(EntryState::Normal.to_byte(), b'n');
    let merged = DirstateEntry::from_v1_data(EntryState::Merged, 0, 0, 0).unwrap();
    assert!(merged.modified());
    assert!(merged.p2_info());
    assert_eq!(merged.debug_tuple(), (b'm', 0, -2, -1));
    assert_eq!(DirstateEntry::from_v1_data(EntryState::Normal, -5, 3, 0), None);
    let from_p2 = DirstateEntry::from_v1_data(EntryState::Normal, 0, -2, 0).unwrap();
    assert_eq!((from_p2.wc_tracked, from_p2.p1_tracked, from_p2.p2_info), (true, false, true));
    assert_eq!(TruncatedTimestamp::from_already_truncated(1, 1_000_000_000, false), None);
    assert_eq!(
        TruncatedTimestamp::new_truncated(0x8000_0001, 9, true),
        TruncatedTimestamp { truncated_seconds: 1, nanoseconds: 9, second_ambiguous: true }
    );
}

#[test]
fn nodes_are_handed_out_one_at_a_time() {
    let mut map = empty();
    for path in [&b"a/b"[..], b"a/c/d", b"e"] {
        map.set_tracked(path).unwrap();
    }
    let (read, _) = write_then_read(&map, false);
    for map in [&map, &read] {
        let mut walk = map.map.iter_nodes();
        let mut paths = Vec::new();
        while let Some((path, node)) = walk.next() {
            let on_disk = map.map.on_disk.as_slice();
            paths.push((path, node.entry(on_disk).is_some()));
        }
        assert_eq!(walk.next().map(|found| found.0), None);
        let expected: Vec<(Vec<u8>, bool)> = vec![
            (b"a/b".to_vec(), true),
            (b"a/c/d".to_vec(), true),
            (b"a/c".to_vec(), false),
            (b"a".to_vec(), false),
            (b"e".to_vec(), true),
        ];
        assert_eq!(paths, expected);
        assert_eq!(map.map.iter_nodes().collect().len(), 5);
    }
}

#[test]
fn copy_sources_know_where_they_are_held() {
    let mut map = empty();
    map.copy_map_insert(b"new".to_vec(), b"old".to_vec()).unwrap();
    let (mut read, _) = write_then_read(&map, false);
    {
        let on_disk = read.map.on_disk.as_slice();
        let node = read.map.get_node(b"new").unwrap();
        let source = node.copy_source_borrowed(on_disk).unwrap();
        assert!(matches!(source, BorrowedPath::OnDisk(_)));
        assert_eq!(source.as_bytes(), b"old");
        let detached = source.detach_from_tree();
        assert_eq!(detached.bytes, b"old".to_vec());
        assert!(detached.on_disk);
        assert!(node.has_copy_source(on_disk));
        assert_eq!(node.base_name(on_disk), b"new");
    }
    {
        let on_disk = map.map.on_disk.as_slice();
        let node = map.map.get_node(b"new").unwrap();
        let source = node.copy_source_borrowed(on_disk).unwrap();
        assert!(matches!(source, BorrowedPath::InMemory(_)));
        assert!(!source.detach_from_tree().on_disk);
    }
    // a copy source that lies in the file counts as unreachable once it is
    // replaced by removal; one that was set in memory does not
    assert_eq!(read.copy_map_remove(b"new"), Ok(Some(b"old".to_vec())));
    assert_eq!(read.map.unreachable_bytes as usize, NODE_SIZE + 3);
    assert_eq!(map.copy_map_remove(b"new"), Ok(Some(b"old".to_vec())));
    assert_eq!(map.map.unreachable_bytes, 0);
}

#[test]
fn node_data_as_entry() {
    let entry = DirstateEntry::new_tracked();
    let mut data = NodeData::Entry(entry);
    assert!(data.has_entry());
    assert_eq!(data.as_entry(), Some(&entry));
    data.as_entry_mut().unwrap().set_possibly_dirty();
    assert_eq!(NodeData::default().as_entry(), None);
    assert!(!NodeData::CachedDirectory { mtime: clean_time() }.has_entry());
}

#[test]
fn unreachable_bytes_stop_at_the_largest_value() {
    let mut count = u32::MAX - 5;
    add_unreachable(&mut count, 3);
    assert_eq!(count, u32::MAX - 2);
    add_unreachable(&mut count, 3);
    assert_eq!(count, u32::MAX);
    add_unreachable(&mut count, usize::MAX);
    assert_eq!(count, u32::MAX);
}

#[test]
fn names_with_empty_components_are_paths_of_their_own() {
    let mut map = empty();
    map.set_tracked(b"a//b").unwrap();
    map.set_tracked(b"a/b").unwrap();
    map.set_tracked(b"").unwrap();
    map.set_tracked(b"a/").unwrap();
    assert_eq!(map.len(), 4);
    let (read, _) = write_then_read(&map, false);
    same_contents(&map, &read);
    assert!(read.get(b"a//b").unwrap().is_some());
    assert!(read.get(b"a/").unwrap().is_some());
    assert!(read.get(b"").unwrap().is_some());
    assert_eq!(read.get(b"a///b"), Ok(None));
    let packed = map.pack_v1(parents()).unwrap();
    let (flat, _) = OwningDirstateMap::new_v1(packed).unwrap();
    assert_eq!(flat.iter(), map.iter());
}

#[test]
fn full_path_joins_prefix_and_base_name() {
    let mut map = empty();
    map.set_tracked(b"dir/sub/file").unwrap();
    let on_disk = map.map.on_disk.clone();
    let node = map.map.get_node(b"dir/sub/file").unwrap();
    assert_eq!(node.base_name(&on_disk), b"file");
    assert_eq!(node.full_path(&on_disk, b"dir/sub/"), b"dir/sub/file".to_vec());
    let top = map.map.get_node(b"dir").unwrap();
    assert_eq!(top.full_path(&on_disk, b""), b"dir".to_vec());
}
