//! Sorting cells into the fill order.

use crate::cell_order::{fill_le, fill_order, lemma_lex_total, precedes};
use std::cmp::Ordering;
use vstd::prelude::*;
use vstd::relations::sorted_by;

verus! {

/// How two cells stand in the fill order.
pub fn compare_cells(a: &Vec<usize>, b: &Vec<usize>) -> (order: Ordering)
    ensures
        (order == Ordering::Less) == !fill_le(b@, a@),
        (order == Ordering::Greater) == !fill_le(a@, b@),
{
    proof {
        lemma_lex_total(a@, b@);
    }
    if !precedes(b, a) {
        Ordering::Less
    } else if !precedes(a, b) {
        Ordering::Greater
    } else {
        Ordering::Equal
    }
}

/// `sort_by` of std's slices, with `compare_cells` as the comparison, which
/// is a total order: afterwards the vector holds the cells it held, each as
/// often as before, and no cell stands before one that the fill order puts
/// ahead of it.
#[verifier::external_body]
pub(crate) fn sort_cells(cells: &mut Vec<Vec<usize>>)
    ensures
        sorted_by(final(cells).deep_view(), fill_order()),
        final(cells).deep_view().to_multiset() == old(cells).deep_view().to_multiset(),
{
    cells.sort_by(compare_cells);
}

} // verus!
