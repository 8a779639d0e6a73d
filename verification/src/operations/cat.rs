//! Which of the files that are asked for a revision has, and which it
//! lacks.

use crate::bytes::{bytes_lt, compare_bytes, copy_bytes, Order, push_bytes};
use crate::operations::join::{
    Joined, joined_view, JoinedView, merge_join, merge_joined, paths_view,
};
use vstd::prelude::*;

verus! {

/// What is shown of the files of a revision.
pub struct CatOutput {
    /// Whether any file of the revision is among the files asked for.
    pub found_any: bool,
    /// The contents of the files found, in the order of the revision.
    pub concatenated: Vec<u8>,
    /// The files asked for that the revision lacks.
    pub missing: Vec<Vec<u8>>,
    /// The identifier of the revision.
    pub node: Vec<u8>,
}

/// Paths in ascending order; equal paths may follow each other.
pub open spec fn ascending(s: Seq<Seq<u8>>) -> bool {
    forall|i: int, j: int| 0 <= i < j < s.len() ==> !bytes_lt(#[trigger] s[j], #[trigger] s[i])
}

/// `s` with `x` put behind the last path that is not larger.
pub open spec fn insert_path(s: Seq<Seq<u8>>, x: Seq<u8>) -> Seq<Seq<u8>>
    decreases s.len(),
{
    if s.len() == 0 {
        seq![x]
    } else if !bytes_lt(x, s.last()) {
        s.push(x)
    } else {
        insert_path(s.drop_last(), x).push(s.last())
    }
}

/// The paths of `s` in ascending order.
pub open spec fn sorted_paths(s: Seq<Seq<u8>>) -> Seq<Seq<u8>>
    decreases s.len(),
{
    if s.len() == 0 {
        Seq::empty()
    } else {
        insert_path(sorted_paths(s.drop_last()), s.last())
    }
}

/// A path put into paths in ascending order leaves them in ascending order,
/// and adds this path alone.
pub proof fn lemma_insert_path(s: Seq<Seq<u8>>, x: Seq<u8>, y: Seq<u8>)
    requires
        ascending(s),
    ensures
        insert_path(s, x).len() == s.len() + 1,
        ascending(insert_path(s, x)),
        insert_path(s, x).contains(y) <==> (s.contains(y) || y == x),
    decreases s.len(),
{
    let r = insert_path(s, x);
    if s.len() == 0 {
        assert(r[0] == x);
        if r.contains(y) {
            let i = choose|i: int| 0 <= i < r.len() && r[i] == y;
        }
    } else if !bytes_lt(x, s.last()) {
        assert forall|i: int, j: int| 0 <= i < j < r.len() implies !bytes_lt(
            #[trigger] r[j],
            #[trigger] r[i],
        ) by {
            if j == r.len() - 1 {
                assert(r[i] == s[i]);
                if i < s.len() - 1 {
                    assert(!bytes_lt(s[s.len() - 1], s[i]));
                }
                if bytes_lt(x, s[i]) {
                    crate::bytes::lemma_bytes_lt_total(s.last(), s[i]);
                    if bytes_lt(s[i], s.last()) {
                        crate::bytes::lemma_bytes_lt_transitive(x, s[i], s.last());
                    }
                }
            } else {
                assert(r[i] == s[i] && r[j] == s[j]);
            }
        }
        if r.contains(y) {
            let i = choose|i: int| 0 <= i < r.len() && r[i] == y;
            if i < s.len() {
                assert(s[i] == y);
            }
        }
        if s.contains(y) {
            let i = choose|i: int| 0 <= i < s.len() && s[i] == y;
            assert(r[i] == y);
        }
        if y == x {
            assert(r[s.len() as int] == x);
        }
    } else {
        let t = s.drop_last();
        assert forall|i: int, j: int| 0 <= i < j < t.len() implies !bytes_lt(
            #[trigger] t[j],
            #[trigger] t[i],
        ) by {
            assert(t[i] == s[i] && t[j] == s[j]);
        }
        let u = insert_path(t, x);
        lemma_insert_path(t, x, y);
        assert forall|i: int, j: int| 0 <= i < j < r.len() implies !bytes_lt(
            #[trigger] r[j],
            #[trigger] r[i],
        ) by {
            if j == r.len() - 1 {
                let z = u[i];
                lemma_insert_path(t, x, z);
                assert(u.contains(z));
                if t.contains(z) {
                    let k = choose|k: int| 0 <= k < t.len() && t[k] == z;
                    assert(s[k] == z);
                    assert(!bytes_lt(s[s.len() - 1], s[k]));
                } else {
                    crate::bytes::lemma_bytes_lt_asymmetric(x, s.last());
                }
            } else {
                lemma_insert_path(t, x, u[i]);
                assert(r[i] == u[i] && r[j] == u[j]);
            }
        }
        if r.contains(y) {
            let i = choose|i: int| 0 <= i < r.len() && r[i] == y;
            if i < u.len() {
                assert(u[i] == y);
                assert(u.contains(y));
                if t.contains(y) {
                    let k = choose|k: int| 0 <= k < t.len() && t[k] == y;
                    assert(s[k] == y);
                }
            } else {
                assert(s[s.len() - 1] == y);
            }
        }
        if s.contains(y) {
            let i = choose|i: int| 0 <= i < s.len() && s[i] == y;
            if i < t.len() {
                assert(t[i] == y);
                assert(t.contains(y));
                let k = choose|k: int| 0 <= k < u.len() && u[k] == y;
                assert(r[k] == y);
            } else {
                assert(r[r.len() - 1] == y);
            }
        }
        if y == x {
            assert(u.contains(x));
            let k = choose|k: int| 0 <= k < u.len() && u[k] == x;
            assert(r[k] == x);
        }
    }
}

/// Sorting puts the paths in ascending order, and keeps which paths there
/// are.
pub proof fn lemma_sorted_paths(s: Seq<Seq<u8>>, y: Seq<u8>)
    ensures
        sorted_paths(s).len() == s.len(),
        ascending(sorted_paths(s)),
        sorted_paths(s).contains(y) <==> s.contains(y),
    decreases s.len(),
{
    if s.len() > 0 {
        let t = s.drop_last();
        lemma_sorted_paths(t, y);
        lemma_insert_path(sorted_paths(t), s.last(), y);
        if s.contains(y) {
            let i = choose|i: int| 0 <= i < s.len() && s[i] == y;
            if i < t.len() {
                assert(t[i] == y);
                assert(t.contains(y));
            }
        }
        if t.contains(y) {
            let i = choose|i: int| 0 <= i < t.len() && t[i] == y;
            assert(s[i] == y);
        }
        if y == s.last() {
            assert(s[s.len() - 1] == y);
        }
    } else {
        if sorted_paths(s).contains(y) {
            let i = choose|i: int| 0 <= i < sorted_paths(s).len() && sorted_paths(s)[i] == y;
        }
    }
}

fn is_before(a: &Vec<u8>, b: &Vec<u8>) -> (r: bool)
    ensures
        r == bytes_lt(a@, b@),
{
    match compare_bytes(a.as_slice(), b.as_slice()) {
        Order::Less => true,
        _ => false,
    }
}

/// Puts `x` into paths in ascending order, behind the last path that is not
/// larger.
fn insert_sorted_path(v: &mut Vec<Vec<u8>>, x: Vec<u8>)
    ensures
        paths_view(final(v)@) == insert_path(paths_view(old(v)@), x@),
{
    let ghost s = paths_view(v@);
    let mut i: usize = v.len();
    let ghost tail = Seq::<Seq<u8>>::empty();
    proof {
        assert(s.subrange(0, i as int) =~= s);
        assert(insert_path(s, x@) + tail =~= insert_path(s, x@));
    }
    while i > 0 && is_before(&x, &v[i - 1])
        invariant
            i <= v.len(),
            v@ == old(v)@,
            s == paths_view(v@),
            tail == s.subrange(i as int, s.len() as int),
            insert_path(s, x@) == insert_path(s.subrange(0, i as int), x@) + tail,
        decreases i,
    {
        proof {
            let head = s.subrange(0, i as int);
            assert(head.last() == s[i - 1]);
            assert(head.drop_last() =~= s.subrange(0, i - 1));
            tail = seq![s[i - 1]] + tail;
            assert(tail =~= s.subrange(i - 1, s.len() as int));
            assert(insert_path(s, x@) =~= insert_path(s.subrange(0, i - 1), x@) + tail);
        }
        i -= 1;
    }
    proof {
        let head = s.subrange(0, i as int);
        if i > 0 {
            assert(head.last() == s[i - 1]);
        }
        assert(insert_path(head, x@) =~= head.push(x@));
    }
    v.insert(i, x);
    proof {
        assert(paths_view(v@) =~= s.subrange(0, i as int).push(x@) + tail);
    }
}

/// The paths in ascending order.
pub fn sort_paths(files: &Vec<Vec<u8>>) -> (r: Vec<Vec<u8>>)
    ensures
        paths_view(r@) == sorted_paths(paths_view(files@)),
{
    let ghost all = paths_view(files@);
    let mut out: Vec<Vec<u8>> = Vec::new();
    let mut i: usize = 0;
    proof {
        assert(all.take(0) =~= Seq::<Seq<u8>>::empty());
        assert(paths_view(out@) =~= sorted_paths(all.take(0)));
    }
    while i < files.len()
        invariant
            i <= files@.len(),
            all == paths_view(files@),
            paths_view(out@) == sorted_paths(all.take(i as int)),
        decreases files@.len() - i,
    {
        proof {
            assert(all.take(i + 1).drop_last() =~= all.take(i as int));
            assert(all.take(i + 1).last() == files@[i as int]@);
        }
        insert_sorted_path(&mut out, copy_bytes(files[i].as_slice()));
        i += 1;
    }
    proof {
        assert(all.take(i as int) =~= all);
    }
    out
}

/// The paths that a merge join finds in both lists, in their order.
pub open spec fn found_of(joined: Seq<JoinedView>) -> Seq<Seq<u8>>
    decreases joined.len(),
{
    if joined.len() == 0 {
        Seq::empty()
    } else {
        let rest = found_of(joined.drop_last());
        match joined.last() {
            (Some(path), Some(_)) => rest.push(path),
            _ => rest,
        }
    }
}

/// The paths that a merge join finds in the right list alone, in their
/// order.
pub open spec fn missing_of(joined: Seq<JoinedView>) -> Seq<Seq<u8>>
    decreases joined.len(),
{
    if joined.len() == 0 {
        Seq::empty()
    } else {
        let rest = missing_of(joined.drop_last());
        match joined.last() {
            (None, Some(path)) => rest.push(path),
            _ => rest,
        }
    }
}

/// Which files to show, and which are missing.
pub struct CatPlan {
    /// The files of the revision that are asked for, in the order of the
    /// revision.
    pub found: Vec<Vec<u8>>,
    /// The files asked for that the revision lacks, in ascending order.
    pub missing: Vec<Vec<u8>>,
}

/// Holds the files that are asked for against the files of a revision, which
/// come in ascending order: the files asked for are sorted, and the two
/// lists are merged.
pub fn cat_plan(manifest_files: &Vec<Vec<u8>>, files: &Vec<Vec<u8>>) -> (r: CatPlan)
    ensures
        paths_view(r.found@) == found_of(
            merge_joined(paths_view(manifest_files@), sorted_paths(paths_view(files@))),
        ),
        paths_view(r.missing@) == missing_of(
            merge_joined(paths_view(manifest_files@), sorted_paths(paths_view(files@))),
        ),
{
    let sorted = sort_paths(files);
    let joined = merge_join(manifest_files, &sorted);
    let ghost all = joined_view(joined@);
    let mut found: Vec<Vec<u8>> = Vec::new();
    let mut missing: Vec<Vec<u8>> = Vec::new();
    let mut i: usize = 0;
    proof {
        assert(all.take(0) =~= Seq::<JoinedView>::empty());
        assert(paths_view(found@) =~= found_of(all.take(0)));
        assert(paths_view(missing@) =~= missing_of(all.take(0)));
    }
    while i < joined.len()
        invariant
            i <= joined@.len(),
            all == joined_view(joined@),
            paths_view(found@) == found_of(all.take(i as int)),
            paths_view(missing@) == missing_of(all.take(i as int)),
        decreases joined@.len() - i,
    {
        let ghost found_before = paths_view(found@);
        let ghost missing_before = paths_view(missing@);
        proof {
            assert(all.take(i + 1).drop_last() =~= all.take(i as int));
            assert(all.take(i + 1).last() == all[i as int]);
        }
        match &joined[i] {
            (Some(path), Some(_)) => {
                found.push(copy_bytes(path.as_slice()));
                proof {
                    assert(paths_view(found@) =~= found_before.push(path@));
                }
            },
            (None, Some(path)) => {
                missing.push(copy_bytes(path.as_slice()));
                proof {
                    assert(paths_view(missing@) =~= missing_before.push(path@));
                }
            },
            _ => {},
        }
        i += 1;
    }
    proof {
        assert(all.take(i as int) =~= all);
    }
    CatPlan { found, missing }
}

/// The bytes of the first `k` contents one after the other.
pub open spec fn concatenation(contents: Seq<Vec<u8>>, k: int) -> Seq<u8>
    decreases k,
{
    if k <= 0 || k > contents.len() {
        Seq::empty()
    } else {
        concatenation(contents, k - 1) + contents[k - 1]@
    }
}

/// What is shown for a plan, given the contents of the files found in their
/// order and the identifier of the revision.
pub fn cat_output(plan: CatPlan, contents: &Vec<Vec<u8>>, node: Vec<u8>) -> (r: CatOutput)
    ensures
        r.found_any == (plan.found@.len() > 0),
        r.concatenated@ == concatenation(contents@, contents@.len() as int),
        r.missing == plan.missing,
        r.node == node,
{
    let mut concatenated: Vec<u8> = Vec::new();
    let mut i: usize = 0;
    while i < contents.len()
        invariant
            i <= contents@.len(),
            concatenated@ == concatenation(contents@, i as int),
        decreases contents@.len() - i,
    {
        push_bytes(&mut concatenated, contents[i].as_slice());
        i += 1;
    }
    CatOutput { found_any: plan.found.len() > 0, concatenated, missing: plan.missing, node }
}

/// Paths in strictly ascending order: no path twice.
pub open spec fn strictly_ascending(s: Seq<Seq<u8>>) -> bool {
    forall|i: int, j: int| 0 <= i < j < s.len() ==> bytes_lt(#[trigger] s[i], #[trigger] s[j])
}

/// The path that one step of a merge join finds in both lists, if any.
pub open spec fn found_step(step: JoinedView) -> Seq<Seq<u8>> {
    match step {
        (Some(path), Some(_)) => seq![path],
        _ => Seq::empty(),
    }
}

/// The path that one step of a merge join finds in the right list alone, if
/// any.
pub open spec fn missing_step(step: JoinedView) -> Seq<Seq<u8>> {
    match step {
        (None, Some(path)) => seq![path],
        _ => Seq::empty(),
    }
}

/// What a merge join finds is what its first step finds and then what the
/// rest finds.
pub proof fn lemma_first_step(step: JoinedView, rest: Seq<JoinedView>)
    ensures
        found_of(seq![step] + rest) == found_step(step) + found_of(rest),
        missing_of(seq![step] + rest) == missing_step(step) + missing_of(rest),
    decreases rest.len(),
{
    let all = seq![step] + rest;
    if rest.len() == 0 {
        let none = Seq::<JoinedView>::empty();
        assert(all.drop_last() =~= none);
        assert(all.last() == step);
        assert(rest =~= none);
        assert(found_of(none) =~= Seq::<Seq<u8>>::empty());
        assert(missing_of(none) =~= Seq::<Seq<u8>>::empty());
        assert(found_of(all) =~= match step {
            (Some(path), Some(_)) => found_of(none).push(path),
            _ => found_of(none),
        });
        assert(missing_of(all) =~= match step {
            (None, Some(path)) => missing_of(none).push(path),
            _ => missing_of(none),
        });
        assert(found_of(all) =~= found_step(step) + found_of(rest));
        assert(missing_of(all) =~= missing_step(step) + missing_of(rest));
    } else {
        assert(all.drop_last() =~= seq![step] + rest.drop_last());
        assert(all.last() == rest.last());
        lemma_first_step(step, rest.drop_last());
        assert(found_of(all) =~= found_step(step) + found_of(rest));
        assert(missing_of(all) =~= missing_step(step) + missing_of(rest));
    }
}

proof fn lemma_drop_first_strict(s: Seq<Seq<u8>>, y: Seq<u8>)
    requires
        strictly_ascending(s),
        s.len() > 0,
    ensures
        strictly_ascending(s.drop_first()),
        s.contains(y) <==> (y == s[0] || s.drop_first().contains(y)),
        !s.drop_first().contains(s[0]),
        s.drop_first().contains(y) ==> bytes_lt(s[0], y),
{
    let t = s.drop_first();
    assert forall|i: int, j: int| 0 <= i < j < t.len() implies bytes_lt(
        #[trigger] t[i],
        #[trigger] t[j],
    ) by {
        assert(t[i] == s[i + 1] && t[j] == s[j + 1]);
    }
    if s.contains(y) {
        let i = choose|i: int| 0 <= i < s.len() && s[i] == y;
        if i > 0 {
            assert(t[i - 1] == y);
        }
    }
    if t.contains(y) {
        let i = choose|i: int| 0 <= i < t.len() && t[i] == y;
        assert(s[i + 1] == y);
        assert(bytes_lt(s[0], s[i + 1]));
    }
    if y == s[0] {
        assert(s[0] == y);
    }
    if t.contains(s[0]) {
        let i = choose|i: int| 0 <= i < t.len() && t[i] == s[0];
        assert(bytes_lt(s[0], s[i + 1]));
        crate::bytes::lemma_bytes_lt_irreflexive(s[0]);
    }
}

/// The merge join of two lists in strictly ascending order finds in both
/// lists the paths that are in both, and in the right list alone the paths
/// of the right list that the left list lacks.
pub proof fn lemma_join_of_sorted(left: Seq<Seq<u8>>, right: Seq<Seq<u8>>, y: Seq<u8>)
    requires
        strictly_ascending(left),
        strictly_ascending(right),
    ensures
        found_of(merge_joined(left, right)).contains(y) <==> (left.contains(y) && right.contains(
            y,
        )),
        missing_of(merge_joined(left, right)).contains(y) <==> (right.contains(y)
            && !left.contains(y)),
    decreases left.len() + right.len(),
{
    let joined = merge_joined(left, right);
    if left.len() == 0 && right.len() == 0 {
        assert(!left.contains(y));
        assert(!right.contains(y));
        assert(found_of(joined).len() == 0);
        assert(missing_of(joined).len() == 0);
    } else {
        let take_left = right.len() == 0 || (left.len() > 0 && left[0] != right[0] && bytes_lt(
            left[0],
            right[0],
        ));
        let take_both = left.len() > 0 && right.len() > 0 && left[0] == right[0];
        let left1 = if take_left || take_both {
            left.drop_first()
        } else {
            left
        };
        let right1 = if take_left {
            right
        } else {
            right.drop_first()
        };
        let step: JoinedView = if take_both {
            (Some(left[0]), Some(right[0]))
        } else if take_left {
            (Some(left[0]), None)
        } else {
            (None, Some(right[0]))
        };
        assert(joined == seq![step] + merge_joined(left1, right1));
        if left.len() > 0 {
            lemma_drop_first_strict(left, y);
            if right.len() > 0 {
                lemma_drop_first_strict(left, right[0]);
            }
        }
        if right.len() > 0 {
            lemma_drop_first_strict(right, y);
            if left.len() > 0 {
                lemma_drop_first_strict(right, left[0]);
            }
        }
        lemma_join_of_sorted(left1, right1, y);
        let rest = merge_joined(left1, right1);
        lemma_first_step(step, rest);
        let f = found_of(rest);
        let m = missing_of(rest);
        lemma_contains_behind(found_step(step), f, y);
        lemma_contains_behind(missing_step(step), m, y);
        if left.len() == 0 {
            assert(!left.contains(y));
        }
        if right.len() == 0 {
            assert(!right.contains(y));
        }
        if left.len() > 0 && right.len() > 0 && left[0] != right[0] {
            crate::bytes::lemma_bytes_lt_total(left[0], right[0]);
            if bytes_lt(left[0], right[0]) {
                // the first of the left is below all of the right
                if right.contains(left[0]) {
                    if right.drop_first().contains(left[0]) {
                        crate::bytes::lemma_bytes_lt_asymmetric(left[0], right[0]);
                    }
                }
            } else {
                if left.contains(right[0]) {
                    if left.drop_first().contains(right[0]) {
                        crate::bytes::lemma_bytes_lt_asymmetric(right[0], left[0]);
                    }
                }
            }
        }
    }
}

proof fn lemma_contains_behind(head: Seq<Seq<u8>>, rest: Seq<Seq<u8>>, y: Seq<u8>)
    requires
        head.len() <= 1,
    ensures
        (head + rest).contains(y) <==> ((head.len() == 1 && head[0] == y) || rest.contains(y)),
{
    let all = head + rest;
    if all.contains(y) {
        let i = choose|i: int| 0 <= i < all.len() && all[i] == y;
        if i >= head.len() {
            assert(rest[i - head.len()] == y);
        }
    }
    if rest.contains(y) {
        let i = choose|i: int| 0 <= i < rest.len() && rest[i] == y;
        assert(all[i + head.len()] == y);
    }
    if head.len() == 1 && head[0] == y {
        assert(all[0] == y);
    }
}

} // verus!
