//! Questions about whole sequences that `itertools` answers: whether the
//! elements are all different, whether they are all the same, and in which
//! order they stand when sorted.
//!
//! The answers are taken from that crate on trust; each function below says
//! what it takes for granted.

use crate::ratio::{value_at, Ratio};
use itertools::Itertools;
use std::cmp::Ordering;
use vstd::prelude::*;

verus! {

/// How `a` stands to `b` in the order of the rational numbers.
pub fn compare(a: &Ratio, b: &Ratio) -> (o: Ordering)
    ensures
        o == if a@ < b@ {
            Ordering::Less
        } else if a@ == b@ {
            Ordering::Equal
        } else {
            Ordering::Greater
        },
{
    if a.lt(b) {
        Ordering::Less
    } else if b.lt(a) {
        Ordering::Greater
    } else {
        Ordering::Equal
    }
}

/// Whether no character occurs twice in `chars`.
///
/// Calls `Itertools::all_unique`, which collects the elements in a hash set
/// and answers `false` at the first one that the set already holds. Taken on
/// trust: the answer is `true` exactly when the characters are pairwise
/// different.
#[verifier::external_body]
pub(crate) fn all_unique(chars: &Vec<char>) -> (r: bool)
    ensures
        r == chars@.no_duplicates(),
{
    chars.iter().all_unique()
}

/// Whether all entries of `columns` are the same.
///
/// Calls `Itertools::all_equal`, which compares every further element with
/// the first. Taken on trust: the answer is `true` exactly when any two
/// entries are equal, so it is `true` for no entries and for one.
#[verifier::external_body]
pub(crate) fn all_equal(columns: &Vec<Option<u8>>) -> (r: bool)
    ensures
        r == (forall|i: int, j: int|
            0 <= i < columns@.len() && 0 <= j < columns@.len() ==> columns@[i] == columns@[j]),
{
    columns.iter().all_equal()
}

/// The indices of `values`, sorted by the value they point at.
///
/// Calls `Itertools::sorted_by`, which collects the elements in a vector and
/// sorts it with the stable `sort_by` of slices. Taken on trust: the result
/// is as long as `values` and holds exactly its indices, the values they
/// point at never descend, and indices of equal values keep their order.
#[verifier::external_body]
pub(crate) fn sorted_indices(values: &Vec<Ratio>) -> (order: Vec<usize>)
    ensures
        order@.len() == values@.len(),
        forall|k: usize| (k < values@.len()) == order@.contains(k),
        forall|i: int, j: int|
            0 <= i < j < order@.len() ==> value_at(values@, order@[i]) <= value_at(
                values@,
                order@[j],
            ),
        forall|i: int, j: int|
            0 <= i < j < order@.len() && value_at(values@, order@[i]) == value_at(
                values@,
                order@[j],
            ) ==> order@[i] < order@[j],
{
    (0..values.len()).sorted_by(|a, b| compare(&values[*a], &values[*b])).collect()
}

} // verus!
