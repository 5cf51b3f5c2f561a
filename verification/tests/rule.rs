use bnb_fold::cell_order::{cell_distance, lex_precedes, precedes};
use bnb_fold::fill_sort::compare_cells;
use bnb_fold::rule::{
    cartesian_product, cell_count, duplicate, flat_position, full, get_diagonals,
    get_impacted_phrase_locations, impacted_locations, index_array, indices_in_order,
    location_to_index_mapping, make_blank, next_open_position, order_by_distance,
    partial_cartesian,
};
use std::cmp::Ordering;

#[test]
fn it_produces_an_index_matrix_with_dims() {
    assert_eq!(
        index_array(&vec![3, 3]),
        vec![
            vec![0, 0],
            vec![0, 1],
            vec![0, 2],
            vec![1, 0],
            vec![1, 1],
            vec![1, 2],
            vec![2, 0],
            vec![2, 1],
            vec![2, 2]
        ]
    );
    assert_eq!(
        index_array(&vec![2, 2, 2]),
        vec![
            vec![0, 0, 0],
            vec![0, 0, 1],
            vec![0, 1, 0],
            vec![0, 1, 1],
            vec![1, 0, 0],
            vec![1, 0, 1],
            vec![1, 1, 0],
            vec![1, 1, 1]
        ]
    );
}

#[test]
fn it_orders_indices() {
    assert_eq!(
        order_by_distance(vec![
            vec![0, 0],
            vec![0, 1],
            vec![0, 2],
            vec![1, 0],
            vec![1, 1],
            vec![1, 2],
            vec![2, 0],
            vec![2, 1],
            vec![2, 2]
        ]),
        vec![
            vec![0, 0],
            vec![0, 1],
            vec![1, 0],
            vec![0, 2],
            vec![1, 1],
            vec![2, 0],
            vec![1, 2],
            vec![2, 1],
            vec![2, 2]
        ]
    );
}

#[test]
fn it_gets_impacted_phrase_locations() {
    assert_eq!(
        get_impacted_phrase_locations(&vec![2, 2]),
        vec![
            vec![vec![], vec![]],
            vec![vec![], vec![0]],
            vec![vec![0], vec![]],
            vec![vec![1], vec![2]]
        ]
    )
}

#[test]
fn it_gets_impacted_diagonals() {
    assert_eq!(
        get_diagonals(&vec![3, 3]),
        vec![
            vec![],
            vec![],
            vec![1],
            vec![],
            vec![3],
            vec![3, 4],
            vec![],
            vec![6],
            vec![]
        ]
    )
}

#[test]
fn two_by_two_grid_has_the_documented_topology() {
    let dims = vec![2, 2];
    assert_eq!(
        indices_in_order(&dims),
        vec![vec![0, 0], vec![0, 1], vec![1, 0], vec![1, 1]]
    );
    let empty: Vec<usize> = vec![];
    assert_eq!(
        get_diagonals(&dims),
        vec![empty.clone(), empty.clone(), vec![1], empty]
    );
}

#[test]
fn rank_and_cell_lead_back_to_each_other() {
    let dims = vec![3, 2, 4];
    let cells = indices_in_order(&dims);
    let ranks = location_to_index_mapping(&dims);
    assert_eq!(cells.len(), 24);
    assert_eq!(ranks.len(), 24);
    for (rank, cell) in cells.iter().enumerate() {
        let place = (cell[0] * 2 + cell[1]) * 4 + cell[2];
        assert_eq!(ranks[place], rank);
    }
}

#[test]
fn ranks_grow_with_distance_then_lexicographically() {
    let cells = indices_in_order(&vec![3, 4, 2]);
    for pair in cells.windows(2) {
        let first: usize = pair[0].iter().sum();
        let second: usize = pair[1].iter().sum();
        assert!(first < second || (first == second && pair[0] < pair[1]));
    }
}

#[test]
fn every_dependency_comes_before_its_cell() {
    let dims = vec![3, 3, 2];
    let deps = get_impacted_phrase_locations(&dims);
    let diags = get_diagonals(&dims);
    assert_eq!(deps.len(), 18);
    assert_eq!(diags.len(), 18);
    for rank in 0..deps.len() {
        for list in &deps[rank] {
            for earlier in list {
                assert!(*earlier < rank);
            }
        }
        for earlier in &diags[rank] {
            assert!(*earlier < rank);
        }
    }
}

#[test]
fn topology_is_the_same_when_built_twice() {
    let dims = vec![4, 3];
    assert_eq!(indices_in_order(&dims), indices_in_order(&dims));
    assert_eq!(
        get_impacted_phrase_locations(&dims),
        get_impacted_phrase_locations(&dims)
    );
    assert_eq!(get_diagonals(&dims), get_diagonals(&dims));
}

#[test]
fn axis_lists_ascend_along_the_axis() {
    let deps = get_impacted_phrase_locations(&vec![3, 3]);
    // rank 8 is cell [2, 2]: column cells [0, 2], [1, 2] and row cells [2, 0], [2, 1]
    assert_eq!(deps[8], vec![vec![3, 6], vec![5, 7]]);
}

#[test]
fn cartesian_product_takes_one_of_each() {
    assert_eq!(
        partial_cartesian(vec![vec![1, 2], vec![3, 4]], vec![7, 8]),
        vec![vec![1, 2, 7], vec![1, 2, 8], vec![3, 4, 7], vec![3, 4, 8]]
    );
    assert_eq!(
        cartesian_product(vec![vec!['a', 'b'], vec!['x'], vec!['p', 'q']]),
        vec![
            vec!['a', 'x', 'p'],
            vec!['a', 'x', 'q'],
            vec!['b', 'x', 'p'],
            vec!['b', 'x', 'q']
        ]
    );
    let nothing: Vec<Vec<u8>> = vec![];
    let none: Vec<Vec<u8>> = vec![];
    assert_eq!(cartesian_product(none), nothing);
    assert_eq!(cartesian_product(vec![vec![1u8, 2], vec![]]), nothing);
    assert_eq!(cartesian_product(vec![vec![], vec![1u8, 2]]), nothing);
    assert_eq!(cartesian_product(vec![vec![7u8, 8]]), vec![vec![7u8], vec![8u8]]);
}

#[test]
fn cell_count_is_the_product_or_none() {
    assert_eq!(cell_count(&vec![3, 4, 5]), Some(60));
    assert_eq!(cell_count(&vec![]), Some(1));
    assert_eq!(cell_count(&vec![7, 0, 9]), Some(0));
    assert_eq!(cell_count(&vec![usize::MAX, 2]), None);
    assert_eq!(cell_count(&vec![usize::MAX, 2, 0]), Some(0));
}

#[test]
fn blank_assignment_is_unfilled() {
    let blank = make_blank(&vec![2, 3]);
    assert_eq!(blank, vec![None; 6]);
    assert!(!full(&blank));
    assert_eq!(next_open_position(&blank), 0);
    assert!(full(&make_blank(&vec![2, 0])));
}

#[test]
fn next_open_position_is_the_first_unfilled_cell() {
    let answer = vec![Some(4), Some(0), None, Some(1), None];
    assert!(!full(&answer));
    assert_eq!(next_open_position(&answer), 2);
    assert!(full(&vec![Some(1), Some(2)]));
}

#[test]
fn cells_compare_by_distance_then_lexicographically() {
    assert_eq!(cell_distance(&vec![2, 0, 5]), 7);
    assert_eq!(cell_distance(&vec![usize::MAX, usize::MAX]), 2 * (usize::MAX as u128));
    assert!(lex_precedes(&vec![0, 9], &vec![1, 0]));
    assert!(lex_precedes(&vec![1], &vec![1, 0]));
    assert!(!lex_precedes(&vec![1, 0], &vec![1]));
    assert!(precedes(&vec![0, 2], &vec![1, 1]));
    assert!(precedes(&vec![3, 0], &vec![0, 4]));
    assert!(!precedes(&vec![1, 1], &vec![0, 2]));
    assert_eq!(compare_cells(&vec![0, 2], &vec![1, 1]), Ordering::Less);
    assert_eq!(compare_cells(&vec![1, 1], &vec![0, 2]), Ordering::Greater);
    assert_eq!(compare_cells(&vec![1, 1], &vec![1, 1]), Ordering::Equal);
    assert_eq!(compare_cells(&vec![5], &vec![0, 6]), Ordering::Less);
}

#[test]
fn flat_position_is_the_row_major_place() {
    let dims = vec![3, 2, 4];
    assert_eq!(flat_position(&dims, &vec![0, 0, 0]), 0);
    assert_eq!(flat_position(&dims, &vec![2, 1, 3]), 23);
    assert_eq!(flat_position(&dims, &vec![1, 0, 2]), 10);
    assert_eq!(duplicate(&vec![4, 5]), vec![4, 5]);
    let cells = indices_in_order(&dims);
    let ranks = location_to_index_mapping(&dims);
    let last = impacted_locations(23, &dims, &cells, &ranks);
    assert_eq!(last.len(), 3);
    assert_eq!(last[0].len(), 2);
    assert_eq!(last[1].len(), 1);
    assert_eq!(last[2].len(), 3);
    assert_eq!(cells[last[2][0]], vec![2, 1, 0]);
    assert_eq!(cells[last[0][1]], vec![1, 1, 3]);
}

#[test]
fn shapes_without_cells_have_no_indices() {
    let nothing: Vec<Vec<usize>> = vec![];
    assert_eq!(index_array(&vec![]), nothing);
    assert_eq!(index_array(&vec![3, 0, 2]), nothing);
    assert_eq!(indices_in_order(&vec![0]), nothing);
    let no_ranks: Vec<usize> = vec![];
    assert_eq!(location_to_index_mapping(&vec![]), no_ranks);
    assert_eq!(location_to_index_mapping(&vec![2, 0]), no_ranks);
    assert_eq!(index_array(&vec![2]), vec![vec![0], vec![1]]);
}
