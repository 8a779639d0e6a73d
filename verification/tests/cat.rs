use hg_core::operations::cat::{cat_output, cat_plan, sort_paths, CatPlan};
use hg_core::operations::join::path_ordering;
use std::cmp::Ordering;

fn paths(names: &[&str]) -> Vec<Vec<u8>> {
    names.iter().map(|name| name.as_bytes().to_vec()).collect()
}

#[test]
fn files_found_and_missing() {
    let manifest = paths(&["a", "b/c", "b/d", "e"]);
    let plan = cat_plan(&manifest, &paths(&["e", "x", "b/c", "0"]));
    assert_eq!(plan.found, paths(&["b/c", "e"]));
    assert_eq!(plan.missing, paths(&["0", "x"]));

    let plan = cat_plan(&manifest, &paths(&[]));
    assert!(plan.found.is_empty());
    assert!(plan.missing.is_empty());

    let plan = cat_plan(&paths(&[]), &paths(&["b", "a"]));
    assert!(plan.found.is_empty());
    assert_eq!(plan.missing, paths(&["a", "b"]));

    let plan = cat_plan(&manifest, &manifest);
    assert_eq!(plan.found, manifest);
    assert!(plan.missing.is_empty());
}

#[test]
fn a_file_asked_for_twice_is_found_once() {
    let plan = cat_plan(&paths(&["a", "b"]), &paths(&["b", "b"]));
    assert_eq!(plan.found, paths(&["b"]));
    assert_eq!(plan.missing, paths(&["b"]));
}

#[test]
fn paths_are_sorted_by_their_bytes() {
    assert_eq!(
        sort_paths(&paths(&["b", "a/b", "", "a", "B", "a", "ab"])),
        paths(&["", "B", "a", "a", "a/b", "ab", "b"])
    );
    assert_eq!(path_ordering(&b"a".to_vec(), &b"b".to_vec()), Ordering::Less);
    assert_eq!(path_ordering(&b"a".to_vec(), &b"a".to_vec()), Ordering::Equal);
    assert_eq!(path_ordering(&b"ab".to_vec(), &b"a".to_vec()), Ordering::Greater);
    assert_eq!(path_ordering(&vec![0xff], &vec![0x7f, 0xff]), Ordering::Greater);
}

#[test]
fn contents_are_put_one_after_the_other() {
    let plan = cat_plan(&paths(&["a", "b"]), &paths(&["a", "b", "c"]));
    let output = cat_output(plan, &vec![b"one\n".to_vec(), b"two\n".to_vec()], vec![7; 20]);
    assert!(output.found_any);
    assert_eq!(output.concatenated, b"one\ntwo\n".to_vec());
    assert_eq!(output.missing, paths(&["c"]));
    assert_eq!(output.node, vec![7; 20]);
    let nothing = CatPlan { found: vec![], missing: paths(&["c"]) };
    let output = cat_output(nothing, &vec![], vec![]);
    assert!(!output.found_any);
    assert!(output.concatenated.is_empty());
}
