//! The cells of a grid as a mathematical sequence: every coordinate tuple of
//! the shape, first in row-major order, then in fill order.

use crate::cell_order::{
    distance, fill_le, fill_order, lemma_distance_update, lemma_fill_order_total, lex_le,
};
use crate::rule::shape_size;
use vstd::arithmetic::div_mod::lemma_fundamental_div_mod_converse;
use vstd::prelude::*;
use vstd::relations::sorted_by;
use vstd::seq_lib::lemma_sorted_unique;

verus! {

/// The rows of a vector of vectors.
pub open spec fn nested<T>(rows: Seq<Vec<T>>) -> Seq<Seq<T>> {
    rows.map_values(|row: Vec<T>| row@)
}

/// Every tuple of `tuples` followed by every item of `list`: the tuples in
/// their order, and for each the items in theirs.
pub open spec fn extended<T>(tuples: Seq<Seq<T>>, list: Seq<T>) -> Seq<Seq<T>> {
    Seq::new(
        tuples.len() * list.len(),
        |k: int| tuples[k / (list.len() as int)].push(list[k % (list.len() as int)]),
    )
}

/// Each item of the list as a tuple of its own.
pub open spec fn singles<T>(list: Seq<T>) -> Seq<Seq<T>> {
    Seq::new(list.len(), |i: int| seq![list[i]])
}

/// The cartesian product of the lists: every way to take one item of each,
/// the choice from the first list varying slowest. No lists give no tuple.
pub open spec fn tuples<T>(lists: Seq<Seq<T>>) -> Seq<Seq<T>>
    decreases lists.len(),
{
    if lists.len() == 0 {
        Seq::empty()
    } else if lists.len() == 1 {
        singles(lists[0])
    } else {
        extended(tuples(lists.drop_last()), lists.last())
    }
}

/// The coordinates `0..n` of an axis of length `n`.
pub open spec fn axis_range(n: usize) -> Seq<usize> {
    Seq::new(n as nat, |i: int| i as usize)
}

/// The coordinate ranges of the axes of a shape.
pub open spec fn axis_ranges(dims: Seq<usize>) -> Seq<Seq<usize>> {
    dims.map_values(|n: usize| axis_range(n))
}

/// The cells of a shape in row-major order: axis 0 varies slowest.
pub open spec fn grid_cells(dims: Seq<usize>) -> Seq<Seq<usize>> {
    tuples(axis_ranges(dims))
}

/// Whether `cell` has one coordinate per axis, each within the axis. A shape
/// without axes has no cell.
pub open spec fn in_grid(dims: Seq<usize>, cell: Seq<usize>) -> bool {
    dims.len() >= 1 && cell.len() == dims.len() && forall|a: int|
        0 <= a < dims.len() ==> cell[a] < dims[a]
}

/// The place of a cell in row-major order.
pub open spec fn position(dims: Seq<usize>, cell: Seq<usize>) -> nat
    decreases dims.len(),
{
    if dims.len() == 0 {
        0
    } else {
        position(dims.drop_last(), cell.drop_last()) * (dims.last() as nat) + cell.last() as nat
    }
}

/// A shape of one or more axes has as many cells as the product of its axis
/// lengths.
pub proof fn lemma_grid_len(dims: Seq<usize>)
    requires
        dims.len() >= 1,
    ensures
        grid_cells(dims).len() == shape_size(dims),
    decreases dims.len(),
{
    if dims.len() == 1 {
        assert(shape_size(dims.drop_last()) == 1);
    } else {
        lemma_grid_len(dims.drop_last());
        assert(axis_ranges(dims).drop_last() =~= axis_ranges(dims.drop_last()));
    }
}

/// The cell at place `k` of the row-major order lies in the grid, and its
/// place is `k`.
pub proof fn lemma_grid_cell(dims: Seq<usize>, k: int)
    requires
        dims.len() >= 1,
        0 <= k < shape_size(dims),
    ensures
        k < grid_cells(dims).len(),
        in_grid(dims, grid_cells(dims)[k]),
        position(dims, grid_cells(dims)[k]) == k,
    decreases dims.len(),
{
    lemma_grid_len(dims);
    let cell = grid_cells(dims)[k];
    if dims.len() == 1 {
        assert(shape_size(dims.drop_last()) == 1);
        assert(cell == seq![k as usize]);
        assert(position(dims.drop_last(), cell.drop_last()) == 0);
        assert(0 * (dims.last() as nat) == 0);
    } else {
        let shorter = dims.drop_last();
        let m = dims.last() as int;
        let p = shape_size(shorter) as int;
        assert(axis_ranges(dims).drop_last() =~= axis_ranges(shorter));
        lemma_grid_len(shorter);
        assert(m > 0 && 0 <= k / m < p && 0 <= k % m < m && k == (k / m) * m + k % m)
            by (nonlinear_arith)
            requires
                0 <= k < p * m,
                0 <= m,
                0 <= p,
        ;
        lemma_grid_cell(shorter, k / m);
        let before = grid_cells(shorter)[k / m];
        assert(cell.drop_last() =~= before);
    }
}

/// A cell of the grid stands at its place in the row-major order.
pub proof fn lemma_grid_position(dims: Seq<usize>, cell: Seq<usize>)
    requires
        in_grid(dims, cell),
    ensures
        position(dims, cell) < shape_size(dims),
        shape_size(dims) == grid_cells(dims).len(),
        grid_cells(dims)[position(dims, cell) as int] == cell,
    decreases dims.len(),
{
    lemma_grid_len(dims);
    if dims.len() == 1 {
        assert(shape_size(dims.drop_last()) == 1);
        assert(position(dims.drop_last(), cell.drop_last()) == 0);
        assert(0 * (dims.last() as nat) == 0);
        assert(grid_cells(dims)[cell[0] as int] =~= cell);
    } else {
        let shorter = dims.drop_last();
        let m = dims.last() as int;
        let p = shape_size(shorter) as int;
        let q = position(shorter, cell.drop_last()) as int;
        let r = cell.last() as int;
        assert(axis_ranges(dims).drop_last() =~= axis_ranges(shorter));
        lemma_grid_len(shorter);
        lemma_grid_position(shorter, cell.drop_last());
        let k = q * m + r;
        assert(0 <= k < p * m) by (nonlinear_arith)
            requires
                0 <= q < p,
                0 <= r < m,
                k == q * m + r,
        ;
        lemma_fundamental_div_mod_converse(k, m, q, r);
        assert(grid_cells(dims)[k] =~= cell);
    }
}

/// No cell stands at two places of the row-major order.
pub proof fn lemma_grid_distinct(dims: Seq<usize>)
    ensures
        grid_cells(dims).no_duplicates(),
{
    if dims.len() >= 1 {
        lemma_grid_len(dims);
        assert forall|i: int, j: int|
            0 <= i < grid_cells(dims).len() && 0 <= j < grid_cells(dims).len() && i
                != j implies grid_cells(dims)[i] != grid_cells(dims)[j] by {
            lemma_grid_cell(dims, i);
            lemma_grid_cell(dims, j);
        }
    }
}

/// The cells of a shape in fill order.
pub open spec fn ordered_cells(dims: Seq<usize>) -> Seq<Seq<usize>> {
    grid_cells(dims).sort_by(fill_order())
}

/// The cell of a rank.
pub open spec fn cell_at(dims: Seq<usize>, rank: int) -> Seq<usize> {
    ordered_cells(dims)[rank]
}

/// The rank of a cell.
pub open spec fn rank_of(dims: Seq<usize>, cell: Seq<usize>) -> int {
    ordered_cells(dims).index_of(cell)
}

/// The fill order of a shape of one or more axes holds each cell of the grid
/// once, and nothing else, sorted.
pub proof fn lemma_ordered_cells(dims: Seq<usize>)
    requires
        dims.len() >= 1,
    ensures
        ordered_cells(dims).len() == shape_size(dims),
        ordered_cells(dims).no_duplicates(),
        sorted_by(ordered_cells(dims), fill_order()),
        ordered_cells(dims).to_multiset() == grid_cells(dims).to_multiset(),
        forall|r: int| 0 <= r < shape_size(dims) ==> in_grid(dims, #[trigger] cell_at(dims, r)),
        forall|cell: Seq<usize>| #[trigger]
            in_grid(dims, cell) ==> ordered_cells(dims).contains(cell),
{
    broadcast use vstd::seq_lib::group_to_multiset_ensures;

    let grid = grid_cells(dims);
    let ordered = ordered_cells(dims);
    lemma_fill_order_total();
    grid.lemma_sort_by_ensures(fill_order());
    lemma_grid_len(dims);
    lemma_grid_distinct(dims);
    grid.lemma_multiset_has_no_duplicates();
    ordered.lemma_multiset_has_no_duplicates_conv();
    assert(ordered.len() == ordered.to_multiset().len());
    assert forall|r: int| 0 <= r < shape_size(dims) implies in_grid(
        dims,
        #[trigger] cell_at(dims, r),
    ) by {
        let cell = ordered[r];
        assert(ordered.contains(cell));
        let k = choose|k: int| 0 <= k < grid.len() && grid[k] == cell;
        lemma_grid_cell(dims, k);
    }
    assert forall|cell: Seq<usize>| #[trigger] in_grid(dims, cell) implies ordered.contains(cell) by {
        lemma_grid_position(dims, cell);
        assert(grid.to_multiset().count(cell) > 0);
    }
}

/// From a cell to its rank and back gives the cell.
pub proof fn lemma_rank_round_trip(dims: Seq<usize>, cell: Seq<usize>)
    requires
        in_grid(dims, cell),
    ensures
        0 <= rank_of(dims, cell) < shape_size(dims),
        cell_at(dims, rank_of(dims, cell)) == cell,
{
    lemma_ordered_cells(dims);
}

/// From a rank to its cell and back gives the rank.
pub proof fn lemma_cell_round_trip(dims: Seq<usize>, rank: int)
    requires
        dims.len() >= 1,
        0 <= rank < shape_size(dims),
    ensures
        in_grid(dims, cell_at(dims, rank)),
        rank_of(dims, cell_at(dims, rank)) == rank,
{
    lemma_ordered_cells(dims);
    let cell = cell_at(dims, rank);
    lemma_rank_round_trip(dims, cell);
}

/// Ranks grow with the distance from the origin, and within one distance
/// with the lexicographic order of the cells.
pub proof fn lemma_rank_ordering(dims: Seq<usize>, first: int, second: int)
    requires
        dims.len() >= 1,
        0 <= first < second < shape_size(dims),
    ensures
        distance(cell_at(dims, first)) <= distance(cell_at(dims, second)),
        distance(cell_at(dims, first)) == distance(cell_at(dims, second)) ==> lex_le(
            cell_at(dims, first),
            cell_at(dims, second),
        ),
        cell_at(dims, first) != cell_at(dims, second),
{
    lemma_ordered_cells(dims);
    let leq = fill_order();
    assert(leq(ordered_cells(dims)[first], ordered_cells(dims)[second]));
}

/// A cell that the fill order puts ahead of another has the smaller rank.
pub proof fn lemma_earlier_cell(dims: Seq<usize>, early: Seq<usize>, late: Seq<usize>)
    requires
        in_grid(dims, early),
        in_grid(dims, late),
        fill_le(early, late),
        early != late,
    ensures
        0 <= rank_of(dims, early) < rank_of(dims, late) < shape_size(dims),
{
    lemma_rank_round_trip(dims, early);
    lemma_rank_round_trip(dims, late);
    lemma_fill_order_total();
    let a = rank_of(dims, early);
    let b = rank_of(dims, late);
    if b < a {
        lemma_rank_ordering(dims, b, a);
        let leq = fill_order();
        assert(leq(late, early) && leq(early, late));
    }
}

/// The fill order of a shape is determined: two sequences that hold the
/// cells of the grid, each as often as the grid does, and that are sorted by
/// the fill order, are the same sequence.
pub proof fn lemma_fill_order_determined(
    dims: Seq<usize>,
    first: Seq<Seq<usize>>,
    second: Seq<Seq<usize>>,
)
    requires
        sorted_by(first, fill_order()),
        sorted_by(second, fill_order()),
        first.to_multiset() == grid_cells(dims).to_multiset(),
        second.to_multiset() == grid_cells(dims).to_multiset(),
    ensures
        first == second,
        first == ordered_cells(dims),
{
    lemma_fill_order_total();
    grid_cells(dims).lemma_sort_by_ensures(fill_order());
    lemma_sorted_unique(first, second, fill_order());
    lemma_sorted_unique(first, ordered_cells(dims), fill_order());
}

/// The ranks of the cells that come before `cell` along `axis`: the cells
/// that differ from it in that coordinate alone, in ascending order of it.
pub open spec fn axis_list(dims: Seq<usize>, cell: Seq<usize>, axis: int) -> Seq<usize> {
    Seq::new(cell[axis] as nat, |i: int| rank_of(dims, cell.update(axis, i as usize)) as usize)
}

/// The axis lists of a cell, one for each axis.
pub open spec fn axis_lists(dims: Seq<usize>, cell: Seq<usize>) -> Seq<Seq<usize>> {
    Seq::new(cell.len(), |a: int| axis_list(dims, cell, a))
}

/// For each rank, the axis lists of its cell.
pub open spec fn dependency_lists(dims: Seq<usize>) -> Seq<Seq<Seq<usize>>> {
    Seq::new(shape_size(dims), |r: int| axis_lists(dims, cell_at(dims, r)))
}

/// The ranks below `upto` whose cells are as far from the origin as the cell
/// of `rank`, in ascending order.
pub open spec fn shell_ranks(dims: Seq<usize>, rank: int, upto: nat) -> Seq<usize>
    decreases upto,
{
    if upto == 0 {
        Seq::empty()
    } else {
        let rest = shell_ranks(dims, rank, (upto - 1) as nat);
        if distance(cell_at(dims, upto - 1)) == distance(cell_at(dims, rank)) {
            rest.push((upto - 1) as usize)
        } else {
            rest
        }
    }
}

/// For each rank, the earlier ranks of its distance shell.
pub open spec fn diagonal_lists(dims: Seq<usize>) -> Seq<Seq<usize>> {
    Seq::new(shape_size(dims), |r: int| shell_ranks(dims, r, r as nat))
}

/// The shell ranks below a bound are exactly the ranks below it that are as
/// far from the origin as the given rank.
pub proof fn lemma_shell_ranks(dims: Seq<usize>, rank: int, upto: nat)
    requires
        upto <= usize::MAX,
    ensures
        forall|i: int|
            0 <= i < shell_ranks(dims, rank, upto).len() ==> {
                let q = #[trigger] shell_ranks(dims, rank, upto)[i];
                q < upto && distance(cell_at(dims, q as int)) == distance(cell_at(dims, rank))
            },
        forall|q: int|
            0 <= q < upto && distance(#[trigger] cell_at(dims, q)) == distance(cell_at(dims, rank))
                ==> shell_ranks(dims, rank, upto).contains(q as usize),
    decreases upto,
{
    if upto > 0 {
        lemma_shell_ranks(dims, rank, (upto - 1) as nat);
        let rest = shell_ranks(dims, rank, (upto - 1) as nat);
        let all = shell_ranks(dims, rank, upto);
        assert forall|q: int|
            0 <= q < upto && distance(#[trigger] cell_at(dims, q)) == distance(
                cell_at(dims, rank),
            ) implies all.contains(q as usize) by {
            if q < upto - 1 {
                let i = choose|i: int| 0 <= i < rest.len() && rest[i] == q as usize;
                assert(all[i] == q as usize);
            } else {
                assert(all[all.len() - 1] == q as usize);
            }
        }
    }
}

/// A cell that comes before another along an axis has the smaller rank.
pub proof fn lemma_axis_list_earlier(dims: Seq<usize>, rank: int, axis: int, i: int)
    requires
        0 <= rank < shape_size(dims),
        0 <= axis < dims.len(),
        0 <= i < cell_at(dims, rank)[axis],
    ensures
        in_grid(dims, cell_at(dims, rank).update(axis, i as usize)),
        0 <= rank_of(dims, cell_at(dims, rank).update(axis, i as usize)) < rank,
{
    let cell = cell_at(dims, rank);
    let early = cell.update(axis, i as usize);
    lemma_cell_round_trip(dims, rank);
    lemma_distance_update(cell, axis, i as usize);
    lemma_earlier_cell(dims, early, cell);
}

/// Every rank that a cell depends on, along an axis or in its distance
/// shell, comes before the cell.
pub proof fn lemma_links_sound(dims: Seq<usize>)
    requires
        dims.len() >= 1,
        shape_size(dims) <= usize::MAX,
    ensures
        crate::search::links_sound(dependency_lists(dims), diagonal_lists(dims)),
{
    let deps = dependency_lists(dims);
    let diags = diagonal_lists(dims);
    assert forall|r: int, a: int, i: int|
        0 <= r < deps.len() && 0 <= a < deps[r].len() && 0 <= i < deps[r][a].len() implies (
    #[trigger] deps[r][a][i]) < r by {
        lemma_cell_round_trip(dims, r);
        lemma_axis_list_earlier(dims, r, a, i);
    }
    assert forall|r: int, i: int| 0 <= r < diags.len() && 0 <= i < diags[r].len() implies (
    #[trigger] diags[r][i]) < r by {
        lemma_shell_ranks(dims, r, r as nat);
    }
}

} // verus!
