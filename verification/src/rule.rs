//! Grid geometry: the cells of a shape, the order in which they are
//! filled, and what each cell depends on.

use crate::cell_order::{cell_distance, distance, fill_order, lemma_fill_order_total};
use crate::fill_sort::sort_cells;
use crate::grid::{
    axis_list, axis_lists, axis_range, axis_ranges, cell_at, dependency_lists, diagonal_lists,
    extended, grid_cells, in_grid, lemma_axis_list_earlier, lemma_cell_round_trip,
    lemma_grid_len, lemma_grid_position, lemma_ordered_cells, lemma_rank_round_trip, nested,
    ordered_cells, position, rank_of, shell_ranks, singles, tuples,
};
use vstd::arithmetic::div_mod::lemma_fundamental_div_mod_converse;
use vstd::prelude::*;
use vstd::relations::sorted_by;
use vstd::seq_lib::lemma_sorted_unique;

verus! {

/// The product of the axis lengths of a shape: the number of cells of a grid
/// that has an axis.
pub open spec fn shape_size(dims: Seq<usize>) -> nat
    decreases dims.len(),
{
    if dims.len() == 0 {
        1
    } else {
        shape_size(dims.drop_last()) * (dims.last() as nat)
    }
}

/// Whether every axis of the shape has at least one cell.
pub open spec fn all_positive(dims: Seq<usize>) -> bool {
    forall|a: int| 0 <= a < dims.len() ==> dims[a] > 0
}

/// A shape with an empty axis has no cells.
pub proof fn lemma_shape_size_zero(dims: Seq<usize>, a: int)
    requires
        0 <= a < dims.len(),
        dims[a] == 0,
    ensures
        shape_size(dims) == 0,
    decreases dims.len(),
{
    if a == dims.len() - 1 {
        assert(shape_size(dims.drop_last()) * 0 == 0);
    } else {
        lemma_shape_size_zero(dims.drop_last(), a);
        assert(0 * (dims.last() as nat) == 0);
    }
}

/// Among shapes without an empty axis, a prefix never has more cells than
/// the whole.
pub proof fn lemma_shape_size_prefix(dims: Seq<usize>, n: int)
    requires
        all_positive(dims),
        0 <= n <= dims.len(),
    ensures
        1 <= shape_size(dims.take(n)) <= shape_size(dims),
    decreases dims.len() - n,
{
    if n == dims.len() {
        assert(dims.take(n) =~= dims);
        lemma_shape_size_positive(dims);
    } else {
        lemma_shape_size_prefix(dims, n + 1);
        assert(dims.take(n + 1).drop_last() =~= dims.take(n));
        let p = shape_size(dims.take(n));
        let d = dims[n] as nat;
        lemma_shape_size_positive(dims.take(n));
        assert(p <= p * d) by (nonlinear_arith)
            requires
                1 <= p,
                1 <= d,
        ;
    }
}

/// A shape without an empty axis has at least one cell.
pub proof fn lemma_shape_size_positive(dims: Seq<usize>)
    requires
        all_positive(dims),
    ensures
        1 <= shape_size(dims),
    decreases dims.len(),
{
    if dims.len() > 0 {
        lemma_shape_size_positive(dims.drop_last());
        let p = shape_size(dims.drop_last());
        let d = dims.last() as nat;
        assert(1 <= p * d) by (nonlinear_arith)
            requires
                1 <= p,
                1 <= d,
        ;
    }
}

/// The product of the axis lengths of the shape, or `None` where a `usize`
/// cannot hold it.
pub fn cell_count(dims: &Vec<usize>) -> (count: Option<usize>)
    ensures
        count is Some <==> shape_size(dims@) <= usize::MAX,
        count matches Some(n) ==> n == shape_size(dims@),
{
    let mut z: usize = 0;
    while z < dims.len()
        invariant
            z <= dims.len(),
            forall|a: int| 0 <= a < z ==> dims[a] > 0,
        decreases dims.len() - z,
    {
        if dims[z] == 0 {
            proof {
                lemma_shape_size_zero(dims@, z as int);
            }
            return Some(0);
        }
        z += 1;
    }
    let mut size: usize = 1;
    let mut i: usize = 0;
    while i < dims.len()
        invariant
            i <= dims.len(),
            all_positive(dims@),
            size == shape_size(dims@.take(i as int)),
        decreases dims.len() - i,
    {
        proof {
            assert(dims@.take(i + 1).drop_last() =~= dims@.take(i as int));
            lemma_shape_size_prefix(dims@, i + 1);
        }
        match size.checked_mul(dims[i]) {
            Some(next) => {
                size = next;
            },
            None => {
                return None;
            },
        }
        i += 1;
    }
    assert(dims@.take(i as int) =~= dims@);
    Some(size)
}

/// An assignment of as many cells as the product of the axis lengths, every
/// cell unfilled.
pub fn make_blank(dims: &Vec<usize>) -> (blank: Vec<Option<u32>>)
    requires
        shape_size(dims@) <= usize::MAX,
    ensures
        blank.len() == shape_size(dims@),
        forall|r: int| 0 <= r < blank.len() ==> blank[r] is None,
{
    let size = cell_count(dims).unwrap();
    let mut vec: Vec<Option<u32>> = Vec::with_capacity(size);
    let mut r: usize = 0;
    while r < size
        invariant
            r <= size,
            vec.len() == r,
            forall|q: int| 0 <= q < r ==> vec[q] is None,
        decreases size - r,
    {
        vec.push(None);
        r += 1;
    }
    vec
}

/// Whether no cell of the assignment is unfilled.
pub fn full(answer: &Vec<Option<u32>>) -> (is_full: bool)
    ensures
        is_full == (forall|r: int| 0 <= r < answer.len() ==> answer[r] is Some),
{
    let mut r: usize = 0;
    while r < answer.len()
        invariant
            r <= answer.len(),
            forall|q: int| 0 <= q < r ==> answer[q] is Some,
        decreases answer.len() - r,
    {
        if answer[r].is_none() {
            return false;
        }
        r += 1;
    }
    true
}

/// The first unfilled cell of an assignment that has one.
pub fn next_open_position(answer: &Vec<Option<u32>>) -> (open: usize)
    requires
        exists|r: int| 0 <= r < answer.len() && answer[r] is None,
    ensures
        open < answer.len(),
        answer[open as int] is None,
        forall|q: int| 0 <= q < open ==> answer[q] is Some,
{
    let mut r: usize = 0;
    while r < answer.len()
        invariant
            r <= answer.len(),
            forall|q: int| 0 <= q < r ==> answer[q] is Some,
            exists|q: int| 0 <= q < answer.len() && answer[q] is None,
        decreases answer.len() - r,
    {
        if answer[r].is_none() {
            return r;
        }
        r += 1;
    }
    proof {
        let q = choose|q: int| 0 <= q < answer.len() && answer[q] is None;
    }
    r
}

/// The cells in fill order: by distance from the origin, and among cells
/// equally far, lexicographically.
pub fn order_by_distance(indices: Vec<Vec<usize>>) -> (sorted: Vec<Vec<usize>>)
    ensures
        sorted_by(sorted.deep_view(), fill_order()),
        sorted.deep_view().to_multiset() == indices.deep_view().to_multiset(),
        sorted.deep_view() == indices.deep_view().sort_by(fill_order()),
{
    let mut sorted = indices;
    sort_cells(&mut sorted);
    proof {
        lemma_fill_order_total();
        indices.deep_view().lemma_sort_by_ensures(fill_order());
        lemma_sorted_unique(
            sorted.deep_view(),
            indices.deep_view().sort_by(fill_order()),
            fill_order(),
        );
    }
    sorted
}

/// A copy of a row.
pub fn duplicate<T: Copy>(row: &Vec<T>) -> (copy: Vec<T>)
    ensures
        copy@ == row@,
{
    let mut copy: Vec<T> = Vec::with_capacity(row.len());
    let mut i: usize = 0;
    while i < row.len()
        invariant
            i <= row.len(),
            copy.len() == i,
            forall|j: int| 0 <= j < i ==> copy[j] == row[j],
        decreases row.len() - i,
    {
        copy.push(row[i]);
        i += 1;
    }
    copy
}

/// Whether `row` is what stands at place `k` of `extended(tuples, list)`.
pub open spec fn extends_at<T>(row: Seq<T>, tuples: Seq<Seq<T>>, list: Seq<T>, k: int) -> bool {
    let m = list.len() as int;
    &&& 0 <= k / m < tuples.len()
    &&& 0 <= k % m < m
    &&& row == tuples[k / m].push(list[k % m])
}

/// Every tuple of `a` followed by every item of `b`.
pub fn partial_cartesian<T: Copy>(a: Vec<Vec<T>>, b: Vec<T>) -> (out: Vec<Vec<T>>)
    ensures
        nested(out@) == extended(nested(a@), b@),
{
    let mut out: Vec<Vec<T>> = Vec::new();
    let mut i: usize = 0;
    while i < a.len()
        invariant
            i <= a.len(),
            out.len() == i * b.len(),
            forall|k: int|
                0 <= k < out.len() ==> extends_at((#[trigger] out[k])@, nested(a@), b@, k),
        decreases a.len() - i,
    {
        let mut j: usize = 0;
        while j < b.len()
            invariant
                i < a.len(),
                j <= b.len(),
                out.len() == i * b.len() + j,
                forall|k: int|
                    0 <= k < out.len() ==> extends_at((#[trigger] out[k])@, nested(a@), b@, k),
            decreases b.len() - j,
        {
            let mut row = duplicate(&a[i]);
            row.push(b[j]);
            proof {
                lemma_fundamental_div_mod_converse(
                    i * b.len() + j,
                    b.len() as int,
                    i as int,
                    j as int,
                );
            }
            out.push(row);
            j += 1;
        }
        proof {
            assert((i + 1) * b.len() == i * b.len() + b.len()) by (nonlinear_arith);
        }
        i += 1;
    }
    out
}

/// The cartesian product of the lists: every way to take one item of each,
/// the choice from the first list varying slowest. No lists give no tuple.
pub fn cartesian_product<T: Copy>(lists: Vec<Vec<T>>) -> (out: Vec<Vec<T>>)
    ensures
        nested(out@) == tuples(nested(lists@)),
{
    let mut out: Vec<Vec<T>> = Vec::new();
    if lists.len() == 0 {
        assert(nested(out@) =~= tuples(nested(lists@)));
        return out;
    }
    let first = &lists[0];
    let mut n: usize = 0;
    while n < first.len()
        invariant
            n <= first.len(),
            out.len() == n,
            forall|k: int| 0 <= k < n ==> (#[trigger] out[k])@ == seq![first[k]],
        decreases first.len() - n,
    {
        let mut single: Vec<T> = Vec::new();
        single.push(first[n]);
        assert(single@ =~= seq![first[n as int]]);
        out.push(single);
        n += 1;
    }
    assert(nested(lists@).take(1)[0] == lists[0]@);
    assert(nested(out@) =~= singles(lists[0]@));
    let mut i: usize = 1;
    while i < lists.len()
        invariant
            1 <= i <= lists.len(),
            nested(out@) == tuples(nested(lists@).take(i as int)),
        decreases lists.len() - i,
    {
        let list = duplicate(&lists[i]);
        proof {
            let longer = nested(lists@).take(i + 1);
            assert(longer.drop_last() =~= nested(lists@).take(i as int));
            assert(longer.last() == list@);
        }
        out = partial_cartesian(out, list);
        i += 1;
    }
    assert(nested(lists@).take(i as int) =~= nested(lists@));
    out
}

/// The coordinates `0..n`.
pub fn coordinates(n: usize) -> (range: Vec<usize>)
    ensures
        range@ == axis_range(n),
{
    let mut range: Vec<usize> = Vec::with_capacity(n);
    let mut i: usize = 0;
    while i < n
        invariant
            i <= n,
            range.len() == i,
            forall|j: int| 0 <= j < i ==> range[j] == j,
        decreases n - i,
    {
        range.push(i);
        i += 1;
    }
    range
}

/// The rows of a vector of cells are its deep view.
pub proof fn lemma_nested_cells(cells: Vec<Vec<usize>>)
    ensures
        cells.deep_view() == nested(cells@),
{
    assert forall|i: int| 0 <= i < cells.len() implies cells.deep_view()[i] == nested(cells@)[i] by {}
}

/// The cells of the shape in row-major order: axis 0 varies slowest.
pub fn index_array(dims: &Vec<usize>) -> (cells: Vec<Vec<usize>>)
    ensures
        cells.deep_view() == grid_cells(dims@),
{
    let mut ranges: Vec<Vec<usize>> = Vec::new();
    let mut a: usize = 0;
    while a < dims.len()
        invariant
            a <= dims.len(),
            ranges.len() == a,
            forall|b: int| 0 <= b < a ==> (#[trigger] ranges[b])@ == axis_range(dims[b]),
        decreases dims.len() - a,
    {
        ranges.push(coordinates(dims[a]));
        a += 1;
    }
    assert(nested(ranges@) =~= axis_ranges(dims@));
    let cells = cartesian_product(ranges);
    proof {
        lemma_nested_cells(cells);
    }
    cells
}

/// The cells of the shape in fill order: the cell of each rank.
pub fn indices_in_order(dims: &Vec<usize>) -> (cells: Vec<Vec<usize>>)
    ensures
        cells.deep_view() == ordered_cells(dims@),
{
    order_by_distance(index_array(dims))
}

/// The place of a cell of the grid in row-major order.
pub fn flat_position(dims: &Vec<usize>, cell: &Vec<usize>) -> (place: usize)
    requires
        in_grid(dims@, cell@),
        shape_size(dims@) <= usize::MAX,
    ensures
        place == position(dims@, cell@),
        place < shape_size(dims@),
{
    let mut place: usize = 0;
    let mut a: usize = 0;
    while a < dims.len()
        invariant
            a <= dims.len(),
            in_grid(dims@, cell@),
            all_positive(dims@),
            shape_size(dims@) <= usize::MAX,
            place == position(dims@.take(a as int), cell@.take(a as int)),
        decreases dims.len() - a,
    {
        proof {
            let d = dims@.take(a + 1);
            let c = cell@.take(a + 1);
            assert(d.drop_last() =~= dims@.take(a as int));
            assert(c.drop_last() =~= cell@.take(a as int));
            lemma_grid_position(d, c);
            lemma_shape_size_prefix(dims@, a + 1);
        }
        place = place * dims[a] + cell[a];
        a += 1;
    }
    proof {
        assert(dims@.take(a as int) =~= dims@);
        assert(cell@.take(a as int) =~= cell@);
        lemma_grid_position(dims@, cell@);
    }
    place
}

/// For each place of the row-major order, the rank of the cell that stands
/// there.
pub fn location_to_index_mapping(dims: &Vec<usize>) -> (ranks: Vec<usize>)
    requires
        shape_size(dims@) <= usize::MAX,
    ensures
        ranks.len() == grid_cells(dims@).len(),
        forall|cell: Seq<usize>| #[trigger]
            in_grid(dims@, cell) ==> ranks[position(dims@, cell) as int] == rank_of(dims@, cell),
{
    if dims.len() == 0 {
        return Vec::new();
    }
    let cells = indices_in_order(dims);
    let count = cells.len();
    proof {
        lemma_ordered_cells(dims@);
        lemma_grid_len(dims@);
    }
    let mut ranks: Vec<usize> = vec![0; count];
    let mut r: usize = 0;
    while r < count
        invariant
            r <= count,
            dims.len() >= 1,
            count == shape_size(dims@),
            shape_size(dims@) <= usize::MAX,
            cells.deep_view() == ordered_cells(dims@),
            ranks.len() == count,
            cells.len() == count,
            forall|q: int|
                0 <= q < r ==> ranks[position(dims@, #[trigger] cell_at(dims@, q)) as int] == q,
        decreases count - r,
    {
        proof {
            lemma_cell_round_trip(dims@, r as int);
            assert(cells[r as int]@ =~= cell_at(dims@, r as int));
        }
        let place = flat_position(dims, &cells[r]);
        let ghost before = ranks@;
        ranks[place] = r;
        proof {
            assert forall|q: int| 0 <= q < r + 1 implies ranks[position(
                dims@,
                #[trigger] cell_at(dims@, q),
            ) as int] == q by {
                if q < r {
                    lemma_cell_round_trip(dims@, q);
                    lemma_grid_position(dims@, cell_at(dims@, q));
                    lemma_grid_position(dims@, cell_at(dims@, r as int));
                }
            }
        }
        r += 1;
    }
    proof {
        assert forall|cell: Seq<usize>| #[trigger] in_grid(dims@, cell) implies ranks[position(
            dims@,
            cell,
        ) as int] == rank_of(dims@, cell) by {
            lemma_rank_round_trip(dims@, cell);
            lemma_grid_position(dims@, cell);
        }
    }
    ranks
}

/// The axis lists of the cell of rank `location`: for each axis, the ranks
/// of the cells that come before it along that axis.
pub fn impacted_locations(
    location: usize,
    dims: &Vec<usize>,
    cells_by_rank: &Vec<Vec<usize>>,
    rank_by_place: &Vec<usize>,
) -> (lists: Vec<Vec<usize>>)
    requires
        dims.len() >= 1,
        shape_size(dims@) <= usize::MAX,
        location < shape_size(dims@),
        cells_by_rank.deep_view() == ordered_cells(dims@),
        rank_by_place.len() == shape_size(dims@),
        forall|cell: Seq<usize>| #[trigger]
            in_grid(dims@, cell) ==> rank_by_place[position(dims@, cell) as int] == rank_of(
                dims@,
                cell,
            ),
    ensures
        lists.deep_view() == axis_lists(dims@, cell_at(dims@, location as int)),
{
    let mut res: Vec<Vec<usize>> = Vec::new();
    proof {
        lemma_ordered_cells(dims@);
        lemma_cell_round_trip(dims@, location as int);
        assert(cells_by_rank[location as int]@ =~= cell_at(dims@, location as int));
    }
    let index = &cells_by_rank[location];
    let ghost cell = cell_at(dims@, location as int);
    let mut focus: usize = 0;
    while focus < index.len()
        invariant
            focus <= index.len(),
            shape_size(dims@) <= usize::MAX,
            location < shape_size(dims@),
            index@ == cell,
            cell == cell_at(dims@, location as int),
            in_grid(dims@, cell),
            rank_by_place.len() == shape_size(dims@),
            forall|c: Seq<usize>| #[trigger]
                in_grid(dims@, c) ==> rank_by_place[position(dims@, c) as int] == rank_of(dims@, c),
            res.len() == focus,
            forall|a: int| 0 <= a < focus ==> (#[trigger] res[a])@ == axis_list(dims@, cell, a),
        decreases index.len() - focus,
    {
        let cur = index[focus];
        let mut subres: Vec<usize> = Vec::new();
        let mut i: usize = 0;
        while i < cur
            invariant
                i <= cur,
                focus < index.len(),
                cur == cell[focus as int],
                shape_size(dims@) <= usize::MAX,
                location < shape_size(dims@),
                index@ == cell,
                cell == cell_at(dims@, location as int),
                in_grid(dims@, cell),
                rank_by_place.len() == shape_size(dims@),
                forall|c: Seq<usize>| #[trigger]
                    in_grid(dims@, c) ==> rank_by_place[position(dims@, c) as int] == rank_of(
                        dims@,
                        c,
                    ),
                subres.len() == i,
                forall|j: int|
                    0 <= j < i ==> subres[j] == rank_of(
                        dims@,
                        cell.update(focus as int, j as usize),
                    ),
            decreases cur - i,
        {
            let mut earlier = duplicate(index);
            earlier[focus] = i;
            proof {
                lemma_axis_list_earlier(dims@, location as int, focus as int, i as int);
                lemma_grid_position(dims@, earlier@);
            }
            let place = flat_position(dims, &earlier);
            subres.push(rank_by_place[place]);
            i += 1;
        }
        proof {
            assert(subres@ =~= axis_list(dims@, cell, focus as int)) by {
                assert forall|j: int| 0 <= j < cur implies subres[j] == axis_list(
                    dims@,
                    cell,
                    focus as int,
                )[j] by {
                    lemma_axis_list_earlier(dims@, location as int, focus as int, j);
                }
            }
        }
        res.push(subres);
        focus += 1;
    }
    proof {
        lemma_nested_cells(res);
    }
    res
}

/// For each rank, the axis lists of its cell: along each axis, the ranks of
/// the cells whose words, followed by the cell's own, make the phrase to
/// validate.
pub fn get_impacted_phrase_locations(dims: &Vec<usize>) -> (lists: Vec<Vec<Vec<usize>>>)
    requires
        dims.len() >= 1,
        all_positive(dims@),
        shape_size(dims@) <= usize::MAX,
    ensures
        lists.deep_view() == dependency_lists(dims@),
{
    let rank_by_place = location_to_index_mapping(dims);
    let cells_by_rank = indices_in_order(dims);
    let blank = make_blank(dims);
    proof {
        lemma_grid_len(dims@);
    }
    let mut lists: Vec<Vec<Vec<usize>>> = Vec::new();
    let mut location: usize = 0;
    while location < blank.len()
        invariant
            location <= blank.len(),
            dims.len() >= 1,
            blank.len() == shape_size(dims@),
            shape_size(dims@) <= usize::MAX,
            cells_by_rank.deep_view() == ordered_cells(dims@),
            rank_by_place.len() == shape_size(dims@),
            forall|cell: Seq<usize>| #[trigger]
                in_grid(dims@, cell) ==> rank_by_place[position(dims@, cell) as int] == rank_of(
                    dims@,
                    cell,
                ),
            lists.len() == location,
            forall|r: int|
                0 <= r < location ==> (#[trigger] lists[r]).deep_view() == axis_lists(
                    dims@,
                    cell_at(dims@, r),
                ),
        decreases blank.len() - location,
    {
        lists.push(impacted_locations(location, dims, &cells_by_rank, &rank_by_place));
        location += 1;
    }
    lists
}

/// For each rank, the earlier ranks of its distance shell: the cells whose
/// words its own word may not repeat.
pub fn get_diagonals(dims: &Vec<usize>) -> (lists: Vec<Vec<usize>>)
    requires
        dims.len() >= 1,
        all_positive(dims@),
        shape_size(dims@) <= usize::MAX,
    ensures
        lists.deep_view() == diagonal_lists(dims@),
{
    let indices = indices_in_order(dims);
    let blank = make_blank(dims);
    proof {
        lemma_ordered_cells(dims@);
    }
    let mut lists: Vec<Vec<usize>> = Vec::new();
    let mut location: usize = 0;
    while location < blank.len()
        invariant
            location <= blank.len(),
            blank.len() == shape_size(dims@),
            indices.len() == shape_size(dims@),
            indices.deep_view() == ordered_cells(dims@),
            lists.len() == location,
            forall|r: int|
                0 <= r < location ==> (#[trigger] lists[r])@ == shell_ranks(dims@, r, r as nat),
        decreases blank.len() - location,
    {
        proof {
            assert(indices[location as int]@ =~= cell_at(dims@, location as int));
        }
        let current_distance = cell_distance(&indices[location]);
        let mut shell: Vec<usize> = Vec::new();
        let mut earlier: usize = 0;
        while earlier < location
            invariant
                earlier <= location,
                location < indices.len(),
                indices.deep_view() == ordered_cells(dims@),
                current_distance == distance(cell_at(dims@, location as int)),
                shell@ == shell_ranks(dims@, location as int, earlier as nat),
            decreases location - earlier,
        {
            proof {
                assert(indices[earlier as int]@ =~= cell_at(dims@, earlier as int));
            }
            if cell_distance(&indices[earlier]) == current_distance {
                shell.push(earlier);
            }
            earlier += 1;
        }
        lists.push(shell);
        location += 1;
    }
    proof {
        lemma_nested_cells(lists);
    }
    lists
}

} // verus!
