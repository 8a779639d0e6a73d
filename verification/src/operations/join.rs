//! The merge join of two lists of paths.

use crate::bytes::{bytes_lt, compare_bytes, Order};
use core::cmp::Ordering;
use itertools::{EitherOrBoth, Itertools};
use vstd::prelude::*;

verus! {

/// How two paths are ordered, byte by byte.
pub fn path_ordering(a: &Vec<u8>, b: &Vec<u8>) -> (r: Ordering)
    ensures
        r is Less <==> bytes_lt(a@, b@),
        r is Equal <==> a@ == b@,
        r is Greater <==> bytes_lt(b@, a@),
{
    match compare_bytes(a.as_slice(), b.as_slice()) {
        Order::Less => Ordering::Less,
        Order::Equal => Ordering::Equal,
        Order::Greater => Ordering::Greater,
    }
}

/// A step of a merge join: a path of the left list alone, a path of the
/// right list alone, or a path of each where the two are equal.
pub type Joined = (Option<Vec<u8>>, Option<Vec<u8>>);

/// A step of a merge join with its paths as mathematical values.
pub type JoinedView = (Option<Seq<u8>>, Option<Seq<u8>>);

/// The merge join of two lists: as long as both have paths, the smaller of
/// the two first paths is taken from its list, or both where they are
/// equal; once one list is at its end, the paths of the other follow one by
/// one.
pub open spec fn merge_joined(left: Seq<Seq<u8>>, right: Seq<Seq<u8>>) -> Seq<JoinedView>
    decreases left.len() + right.len(),
{
    if left.len() == 0 && right.len() == 0 {
        Seq::empty()
    } else if right.len() == 0 {
        seq![(Some(left[0]), None)] + merge_joined(left.drop_first(), right)
    } else if left.len() == 0 {
        seq![(None, Some(right[0]))] + merge_joined(left, right.drop_first())
    } else if left[0] == right[0] {
        seq![(Some(left[0]), Some(right[0]))] + merge_joined(
            left.drop_first(),
            right.drop_first(),
        )
    } else if bytes_lt(left[0], right[0]) {
        seq![(Some(left[0]), None)] + merge_joined(left.drop_first(), right)
    } else {
        seq![(None, Some(right[0]))] + merge_joined(left, right.drop_first())
    }
}

/// Paths as mathematical values.
pub open spec fn paths_view(v: Seq<Vec<u8>>) -> Seq<Seq<u8>> {
    Seq::new(v.len(), |i: int| v[i]@)
}

/// A path, if there is one, as a mathematical value.
pub open spec fn option_view(p: Option<Vec<u8>>) -> Option<Seq<u8>> {
    match p {
        Some(path) => Some(path@),
        None => None,
    }
}

/// The steps of a merge join with their paths as mathematical values.
pub open spec fn joined_view(v: Seq<Joined>) -> Seq<JoinedView> {
    Seq::new(v.len(), |i: int| (option_view(v[i].0), option_view(v[i].1)))
}

/// `Itertools::merge_join_by` on copies of the paths of two lists, with
/// `path_ordering` to compare them, each step written as a pair: the
/// adaptor looks at the first path of each list, hands out the smaller one
/// with its side, or both where they compare equal, and goes on with what
/// is left; when one list is at its end it hands out what the other has
/// left.
#[verifier::external_body]
pub(crate) fn merge_join(left: &Vec<Vec<u8>>, right: &Vec<Vec<u8>>) -> (r: Vec<Joined>)
    ensures
        joined_view(r@) == merge_joined(paths_view(left@), paths_view(right@)),
{
    left.iter().cloned().merge_join_by(right.iter().cloned(), |a, b| path_ordering(a, b)).map(
        |step| match step {
            EitherOrBoth::Left(a) => (Some(a), None),
            EitherOrBoth::Right(b) => (None, Some(b)),
            EitherOrBoth::Both(a, b) => (Some(a), Some(b)),
        },
    ).collect()
}

} // verus!
