use hg_core::ancestors::{AncestorsIterator, LazyAncestors, MissingAncestors};
use hg_core::{Graph, GraphError, Revision, NULL_REVISION};
use std::collections::HashSet;

#[derive(Clone, Debug)]
struct Stub;

impl Graph for Stub {
    fn spec_parents(&self, rev: Revision) -> Result<[Revision; 2], GraphError> {
        self.parents(rev)
    }

    fn parents(&self, rev: Revision) -> Result<[Revision; 2], GraphError> {
        match rev {
            0 => Ok([-1, -1]),
            1 => Ok([0, -1]),
            2 => Ok([1, -1]),
            3 => Ok([1, -1]),
            4 => Ok([2, -1]),
            5 => Ok([4, -1]),
            6 => Ok([4, -1]),
            7 => Ok([4, -1]),
            8 => Ok([-1, -1]),
            9 => Ok([6, 7]),
            10 => Ok([5, -1]),
            11 => Ok([3, 7]),
            12 => Ok([9, -1]),
            13 => Ok([8, -1]),
            r => Err(GraphError::ParentOutOfRange(r)),
        }
    }
}

fn collect<G: Graph>(mut iter: AncestorsIterator<G>) -> Vec<Revision> {
    let mut out = Vec::new();
    while let Some(res) = iter.next() {
        out.push(res.unwrap());
    }
    out
}

fn list_ancestors<G: Graph>(
    graph: G,
    initrevs: Vec<Revision>,
    stoprev: Revision,
    inclusive: bool,
) -> Vec<Revision> {
    collect(AncestorsIterator::new(graph, initrevs, stoprev, inclusive).unwrap())
}

#[test]
fn test_list_ancestor() {
    assert_eq!(list_ancestors(Stub, vec![], 0, false), vec![]);
    assert_eq!(
        list_ancestors(Stub, vec![11, 13], 0, false),
        vec![8, 7, 4, 3, 2, 1, 0]
    );
    assert_eq!(list_ancestors(Stub, vec![1, 3], 0, false), vec![1, 0]);
    assert_eq!(
        list_ancestors(Stub, vec![11, 13], 0, true),
        vec![13, 11, 8, 7, 4, 3, 2, 1, 0]
    );
    assert_eq!(list_ancestors(Stub, vec![11, 13], 6, false), vec![8, 7]);
    assert_eq!(
        list_ancestors(Stub, vec![11, 13], 6, true),
        vec![13, 11, 8, 7]
    );
    assert_eq!(list_ancestors(Stub, vec![11, 13], 11, true), vec![13, 11]);
    assert_eq!(list_ancestors(Stub, vec![11, 13], 12, true), vec![13]);
    assert_eq!(
        list_ancestors(Stub, vec![10, 1], 0, true),
        vec![10, 5, 4, 2, 1, 0]
    );
}

#[test]
fn test_nullrev_input() {
    let mut iter = AncestorsIterator::new(Stub, vec![-1], 0, false).unwrap();
    assert_eq!(iter.next(), None)
}

#[test]
fn test_contains() {
    let mut lazy = AncestorsIterator::new(Stub, vec![10, 1], 0, true).unwrap();
    assert!(lazy.contains(1).unwrap());
    assert!(!lazy.contains(3).unwrap());

    let mut lazy = AncestorsIterator::new(Stub, vec![0], 0, false).unwrap();
    assert!(!lazy.contains(NULL_REVISION).unwrap());
}

#[test]
fn test_peek() {
    let mut iter = AncestorsIterator::new(Stub, vec![10], 0, true).unwrap();
    // peek() gives us the next value
    assert_eq!(iter.peek(), Some(10));
    // but it's not been consumed
    assert_eq!(iter.next(), Some(Ok(10)));
    // and iteration resumes normally
    assert_eq!(iter.next(), Some(Ok(5)));

    // let's drain the iterator to test peek() at the end
    while iter.next().is_some() {}
    assert_eq!(iter.peek(), None);
}

#[test]
fn test_empty() {
    let mut iter = AncestorsIterator::new(Stub, vec![10], 0, true).unwrap();
    assert!(!iter.is_empty());
    while iter.next().is_some() {}
    assert!(!iter.is_empty());

    let iter = AncestorsIterator::new(Stub, vec![], 0, true).unwrap();
    assert!(iter.is_empty());

    // case where iter.seen == {NULL_REVISION}
    let iter = AncestorsIterator::new(Stub, vec![0], 0, false).unwrap();
    assert!(iter.is_empty());
}

/// A corrupted Graph, supporting error handling tests
#[derive(Clone, Debug)]
struct Corrupted;

impl Graph for Corrupted {
    fn spec_parents(&self, rev: Revision) -> Result<[Revision; 2], GraphError> {
        self.parents(rev)
    }

    fn parents(&self, rev: Revision) -> Result<[Revision; 2], GraphError> {
        match rev {
            1 => Ok([0, -1]),
            r => Err(GraphError::ParentOutOfRange(r)),
        }
    }
}

#[test]
fn test_initrev_out_of_range() {
    // inclusive=false looks up initrev's parents right away
    match AncestorsIterator::new(Stub, vec![25], 0, false) {
        Ok(_) => panic!("Should have been ParentOutOfRange"),
        Err(e) => assert_eq!(e, GraphError::ParentOutOfRange(25)),
    }
}

#[test]
fn test_next_out_of_range() {
    // inclusive=false looks up initrev's parents right away
    let mut iter = AncestorsIterator::new(Corrupted, vec![1], 0, false).unwrap();
    assert_eq!(iter.next(), Some(Err(GraphError::ParentOutOfRange(0))));
}

#[test]
fn test_lazy_iter_contains() {
    let mut lazy = LazyAncestors::new(Stub, vec![11, 13], 0, false).unwrap();

    let revs: Vec<Revision> = collect(lazy.iter());
    // compare with iterator tests on the same initial revisions
    assert_eq!(revs, vec![8, 7, 4, 3, 2, 1, 0]);

    // contains() results are correct, unaffected by the fact that
    // we consumed entirely an iterator out of lazy
    assert_eq!(lazy.contains(2), Ok(true));
    assert_eq!(lazy.contains(9), Ok(false));
}

#[test]
fn test_lazy_contains_iter() {
    let mut lazy = LazyAncestors::new(Stub, vec![11, 13], 0, false).unwrap(); // reminder: [8, 7, 4, 3, 2, 1, 0]

    assert_eq!(lazy.contains(2), Ok(true));
    assert_eq!(lazy.contains(6), Ok(false));

    // after consumption of 2 by the inner iterator, results stay
    // consistent
    assert_eq!(lazy.contains(2), Ok(true));
    assert_eq!(lazy.contains(5), Ok(false));

    // iter() still gives us a fresh iterator
    let revs: Vec<Revision> = collect(lazy.iter());
    assert_eq!(revs, vec![8, 7, 4, 3, 2, 1, 0]);
}

#[test]
/// Test constructor, add/get bases
fn test_missing_bases() {
    let mut missing_ancestors = MissingAncestors::new(Stub, vec![5, 3, 1, 3]);
    let mut as_vec: Vec<Revision> = missing_ancestors.get_bases().iter().cloned().collect();
    as_vec.sort();
    assert_eq!(as_vec, [1, 3, 5]);

    missing_ancestors.add_bases(vec![3, 7, 8]);
    as_vec = missing_ancestors.get_bases().iter().cloned().collect();
    as_vec.sort();
    assert_eq!(as_vec, [1, 3, 5, 7, 8]);
}

fn assert_missing_remove(bases: &[Revision], revs: &[Revision], expected: &[Revision]) {
    let mut missing_ancestors = MissingAncestors::new(Stub, bases.to_vec());
    let mut revset: HashSet<Revision> = revs.iter().cloned().collect();
    missing_ancestors.remove_ancestors_from(&mut revset).unwrap();
    let mut as_vec: Vec<Revision> = revset.into_iter().collect();
    as_vec.sort();
    assert_eq!(as_vec.as_slice(), expected);
}

#[test]
fn test_missing_remove() {
    assert_missing_remove(
        &[1, 2, 3, 4, 7],
        Vec::from_iter(1..10).as_slice(),
        &[5, 6, 8, 9],
    );
    assert_missing_remove(&[10], &[11, 12, 13, 14], &[11, 12, 13, 14]);
    assert_missing_remove(&[7], &[1, 2, 3, 4, 5], &[3, 5]);
}

fn assert_missing_ancestors(bases: &[Revision], revs: &[Revision], expected: &[Revision]) {
    let mut missing_ancestors = MissingAncestors::new(Stub, bases.to_vec());
    let missing = missing_ancestors.missing_ancestors(revs.to_vec()).unwrap();
    assert_eq!(missing.as_slice(), expected);
}

#[test]
fn test_missing_ancestors() {
    assert_missing_ancestors(&[10], &[11], &[3, 7, 11]);
    assert_missing_ancestors(&[11], &[10], &[5, 10]);
    assert_missing_ancestors(&[7], &[9, 11], &[3, 6, 9, 11]);
}

// A Graph represented by a vector whose indices are revisions
// and values are parents of the revisions
struct VecGraph(Vec<[Revision; 2]>);

impl Graph for VecGraph {
    fn spec_parents(&self, rev: Revision) -> Result<[Revision; 2], GraphError> {
        self.parents(rev)
    }

    fn parents(&self, rev: Revision) -> Result<[Revision; 2], GraphError> {
        Ok(self.0[rev as usize])
    }
}

/// A case found by a random generator: a revision that is a second parent
/// of a base has to leave the set.
#[test]
fn test_remove_ancestors_from_case1() {
    let graph: VecGraph = VecGraph(vec![
        [NULL_REVISION, NULL_REVISION],
        [0, NULL_REVISION],
        [1, 0],
        [2, 1],
        [3, NULL_REVISION],
        [4, NULL_REVISION],
        [5, 1],
        [2, NULL_REVISION],
        [7, NULL_REVISION],
        [8, NULL_REVISION],
        [9, NULL_REVISION],
        [10, 1],
        [3, NULL_REVISION],
        [12, NULL_REVISION],
        [13, NULL_REVISION],
        [14, NULL_REVISION],
        [4, NULL_REVISION],
        [16, NULL_REVISION],
        [17, NULL_REVISION],
        [18, NULL_REVISION],
        [19, 11],
        [20, NULL_REVISION],
        [21, NULL_REVISION],
        [22, NULL_REVISION],
        [23, NULL_REVISION],
        [2, NULL_REVISION],
        [3, NULL_REVISION],
        [26, 24],
        [27, NULL_REVISION],
        [28, NULL_REVISION],
        [12, NULL_REVISION],
        [1, NULL_REVISION],
        [1, 9],
        [32, NULL_REVISION],
        [33, NULL_REVISION],
        [34, 31],
        [35, NULL_REVISION],
        [36, 26],
        [37, NULL_REVISION],
        [38, NULL_REVISION],
        [39, NULL_REVISION],
        [40, NULL_REVISION],
        [41, NULL_REVISION],
        [42, 26],
        [0, NULL_REVISION],
        [44, NULL_REVISION],
        [45, 4],
        [40, NULL_REVISION],
        [47, NULL_REVISION],
        [36, 0],
        [49, NULL_REVISION],
        [NULL_REVISION, NULL_REVISION],
        [51, NULL_REVISION],
        [52, NULL_REVISION],
        [53, NULL_REVISION],
        [14, NULL_REVISION],
        [55, NULL_REVISION],
        [15, NULL_REVISION],
        [23, NULL_REVISION],
        [58, NULL_REVISION],
        [59, NULL_REVISION],
        [2, NULL_REVISION],
        [61, 59],
        [62, NULL_REVISION],
        [63, NULL_REVISION],
        [NULL_REVISION, NULL_REVISION],
        [65, NULL_REVISION],
        [66, NULL_REVISION],
        [67, NULL_REVISION],
        [68, NULL_REVISION],
        [37, 28],
        [69, 25],
        [71, NULL_REVISION],
        [72, NULL_REVISION],
        [50, 2],
        [74, NULL_REVISION],
        [12, NULL_REVISION],
        [18, NULL_REVISION],
        [77, NULL_REVISION],
        [78, NULL_REVISION],
        [79, NULL_REVISION],
        [43, 33],
        [81, NULL_REVISION],
        [82, NULL_REVISION],
        [83, NULL_REVISION],
        [84, 45],
        [85, NULL_REVISION],
        [86, NULL_REVISION],
        [NULL_REVISION, NULL_REVISION],
        [88, NULL_REVISION],
        [NULL_REVISION, NULL_REVISION],
        [76, 83],
        [44, NULL_REVISION],
        [92, NULL_REVISION],
        [93, NULL_REVISION],
        [9, NULL_REVISION],
        [95, 67],
        [96, NULL_REVISION],
        [97, NULL_REVISION],
        [NULL_REVISION, NULL_REVISION],
    ]);
    let problem_rev = 28 as Revision;
    let problem_base = 70 as Revision;
    // making the problem obvious: problem_rev is a parent of problem_base
    assert_eq!(graph.parents(problem_base).unwrap()[1], problem_rev);

    let mut missing_ancestors: MissingAncestors<VecGraph> = MissingAncestors::new(
        graph,
        vec![60, 26, 70, 3, 96, 19, 98, 49, 97, 47, 1, 6],
    );
    assert!(missing_ancestors.bases.contains(&problem_base));

    let mut revs: HashSet<Revision> = [4, 12, 41, 28, 68, 38, 1, 30, 56, 44]
        .iter()
        .cloned()
        .collect();
    missing_ancestors.remove_ancestors_from(&mut revs).unwrap();
    assert!(!revs.contains(&problem_rev));
}

#[test]
fn missing_ancestors_know_whether_they_have_bases() {
    assert!(!MissingAncestors::new(Stub, vec![]).has_bases());
    assert!(!MissingAncestors::new(Stub, vec![NULL_REVISION]).has_bases());
    assert!(MissingAncestors::new(Stub, vec![NULL_REVISION, 3]).has_bases());
    let none = MissingAncestors::new(Stub, vec![]);
    assert!(none.get_bases().contains(&NULL_REVISION));
    assert_eq!(none.get_bases().len(), 1);
}

#[test]
fn missing_ancestors_hand_on_the_error_of_the_graph() {
    let mut missing = MissingAncestors::new(Corrupted, vec![1]);
    assert_eq!(
        missing.missing_ancestors(vec![5]),
        Err(GraphError::ParentOutOfRange(5))
    );
    let mut revs: HashSet<Revision> = [0, 7].iter().cloned().collect();
    let mut missing = MissingAncestors::new(Corrupted, vec![9]);
    assert_eq!(
        missing.remove_ancestors_from(&mut revs),
        Err(GraphError::ParentOutOfRange(9))
    );
    assert!(MissingAncestors::new(Stub, vec![7]).missing_ancestors(vec![]).unwrap().is_empty());
}

#[test]
fn ancestors_repeat_initial_revisions_given_twice() {
    assert_eq!(list_ancestors(Stub, vec![1, 1], 0, true), vec![1, 1, 0]);
    assert_eq!(list_ancestors(Stub, vec![1, 1], 0, false), vec![0]);
}

#[test]
fn lazy_ancestors_of_nothing_are_empty() {
    assert!(LazyAncestors::new(Stub, vec![], 0, false).unwrap().is_empty());
    assert!(!LazyAncestors::new(Stub, vec![1], 0, false).unwrap().is_empty());
    assert!(LazyAncestors::new(Stub, vec![25], 0, false).is_err());
}

/// The revisions of `roots` and their ancestors in `Stub`, found by
/// following parents from every root.
fn history(roots: &[Revision]) -> HashSet<Revision> {
    let mut found = HashSet::new();
    let mut queue: Vec<Revision> = roots.iter().cloned().filter(|r| *r >= 0).collect();
    while let Some(rev) = queue.pop() {
        if found.insert(rev) {
            for parent in Stub.parents(rev).unwrap() {
                if parent != NULL_REVISION {
                    queue.push(parent);
                }
            }
        }
    }
    found
}

fn some_sets() -> Vec<Vec<Revision>> {
    vec![
        vec![],
        vec![0],
        vec![3],
        vec![8],
        vec![10],
        vec![11, 13],
        vec![12, 10],
        vec![9, 11],
        vec![5, 6, 7],
        vec![13, 12, 11, 10],
    ]
}

#[test]
fn missing_ancestors_are_the_difference_of_histories() {
    for bases in some_sets() {
        for revs in some_sets() {
            let mut missing = MissingAncestors::new(Stub, bases.clone());
            let found = missing.missing_ancestors(revs.clone()).unwrap();
            let of_bases = history(&bases);
            let mut expected: Vec<Revision> = history(&revs)
                .into_iter()
                .filter(|r| !of_bases.contains(r))
                .collect();
            expected.sort();
            assert_eq!(found, expected, "bases {:?}, revs {:?}", bases, revs);
        }
    }
}

#[test]
fn remove_ancestors_leaves_what_is_not_in_the_history_of_the_bases() {
    for bases in some_sets() {
        for revs in some_sets() {
            let mut missing = MissingAncestors::new(Stub, bases.clone());
            let mut left: HashSet<Revision> = revs.iter().cloned().collect();
            left.insert(NULL_REVISION);
            missing.remove_ancestors_from(&mut left).unwrap();
            let of_bases = history(&bases);
            let expected: HashSet<Revision> =
                revs.iter().cloned().filter(|r| !of_bases.contains(r)).collect();
            assert_eq!(left, expected, "bases {:?}, revs {:?}", bases, revs);
        }
    }
}

#[test]
fn contains_says_whether_a_revision_is_an_ancestor() {
    for initrevs in some_sets() {
        for inclusive in [false, true] {
            let roots: Vec<Revision> = if inclusive {
                initrevs.clone()
            } else {
                let mut parents = Vec::new();
                for rev in &initrevs {
                    parents.extend(Stub.parents(*rev).unwrap());
                }
                parents
            };
            let expected = history(&roots);
            for target in -1..14 {
                let mut lazy = LazyAncestors::new(Stub, initrevs.clone(), 0, inclusive).unwrap();
                assert_eq!(
                    lazy.contains(target),
                    Ok(expected.contains(&target)),
                    "initrevs {:?}, inclusive {}, target {}",
                    initrevs,
                    inclusive,
                    target
                );
            }
            let walked = list_ancestors(Stub, initrevs.clone(), 0, inclusive);
            let mut sorted: Vec<Revision> = expected.into_iter().collect();
            sorted.sort();
            sorted.reverse();
            assert_eq!(walked, sorted);
        }
    }
}
