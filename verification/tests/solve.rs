use bnb_fold::dictionary::{Backend, PhraseDictionary};
use bnb_fold::rule::{get_diagonals, get_impacted_phrase_locations};
use bnb_fold::search::{
    admits, forbidden_words, is_forbidden, search, search_within, step, unfilled, with_word,
    Outcome,
};
use bnb_fold::solve::{decode, max_axis, solve_for_dims, solve_with, SetupError, Solved};
use bnb_fold::string_handlers::make_codec;

fn words(list: &[&str]) -> Vec<String> {
    list.iter().map(|w| w.to_string()).collect()
}

fn check_two_by_two(grid: &Vec<String>) {
    let pairs = ["a b", "b c", "c d", "a c", "c b", "b d"];
    assert_eq!(grid.len(), 4);
    for word in grid {
        assert!(["a", "b", "c", "d"].contains(&word.as_str()));
    }
    // ranks 0..4 are the cells [0,0], [0,1], [1,0], [1,1]
    let rows = [(0, 1), (2, 3)];
    let columns = [(0, 2), (1, 3)];
    for (first, second) in rows.iter().chain(columns.iter()) {
        let phrase = format!("{} {}", grid[*first], grid[*second]);
        assert!(pairs.contains(&phrase.as_str()));
    }
    assert_ne!(grid[1], grid[2]);
}

#[test]
fn it_solves_the_two_by_two_example() {
    let solved = solve_for_dims(&vec![2, 2], "a b c d. a c b d.");
    match solved {
        Ok(Solved::Success(grid)) => {
            check_two_by_two(&grid);
            // of the two grids that can be completed, the later by word ids
            check_two_by_two(&words(&["a", "b", "c", "d"]));
            assert_eq!(grid, words(&["a", "c", "b", "d"]));
        }
        other => panic!("expected a grid, got {:?}", other),
    }
}

#[test]
fn every_backend_solves_the_two_by_two_example() {
    for backend in [Backend::Sequences, Backend::Codes, Backend::Table] {
        match solve_with(&vec![2, 2], "b a c d. b c a d.", backend) {
            Ok(Solved::Success(grid)) => {
                assert_eq!(grid.len(), 4);
                assert_ne!(grid[1], grid[2]);
                assert_eq!(grid[0], "b");
                assert_eq!(grid[3], "d");
            }
            other => panic!("expected a grid, got {:?}", other),
        }
    }
}

#[test]
fn sparse_corpus_is_infeasible() {
    assert!(matches!(
        solve_for_dims(&vec![3, 3], "a b."),
        Ok(Solved::Infeasible)
    ));
    assert!(matches!(
        solve_for_dims(&vec![2, 2], ""),
        Ok(Solved::Infeasible)
    ));
}

#[test]
fn shape_with_an_empty_axis_is_rejected() {
    assert!(matches!(
        solve_for_dims(&vec![2, 0], "a b."),
        Err(SetupError::InvalidShape)
    ));
    assert!(matches!(
        solve_for_dims(&vec![0], ""),
        Err(SetupError::InvalidShape)
    ));
}

#[test]
fn shape_beyond_the_machine_is_rejected() {
    assert!(matches!(
        solve_for_dims(&vec![usize::MAX, 2], "a b."),
        Err(SetupError::TooLarge)
    ));
    let text = format!("a{}.", " b".repeat(70));
    assert!(matches!(
        solve_with(&vec![65, 1], text.as_str(), Backend::Codes),
        Err(SetupError::TooLarge)
    ));
    assert!(matches!(
        solve_with(&vec![65, 1], text.as_str(), Backend::Table),
        Err(SetupError::TooLarge)
    ));
}

#[test]
fn one_line_grid_is_a_phrase_of_the_corpus() {
    match solve_for_dims(&vec![3], "x y. the quick fox. y x") {
        Ok(Solved::Success(grid)) => assert_eq!(grid, words(&["the", "quick", "fox"])),
        other => panic!("expected a grid, got {:?}", other),
    }
}

#[test]
fn diagonal_words_must_differ() {
    // "a a" is attested both ways, but the two cells at distance 1 may not
    // both hold "a"
    assert!(matches!(
        solve_for_dims(&vec![2, 2], "a a."),
        Ok(Solved::Infeasible)
    ));
}

#[test]
fn search_finds_a_grid_over_given_links() {
    let dims = vec![2, 2];
    let deps = get_impacted_phrase_locations(&dims);
    let diags = get_diagonals(&dims);
    let dict = PhraseDictionary::Sequences(vec![
        vec![0],
        vec![1],
        vec![2],
        vec![0, 1],
        vec![0, 2],
        vec![1, 0],
        vec![2, 0],
    ]);
    match search(&deps, &diags, 3, &dict) {
        Outcome::Success(answer) => {
            assert_eq!(answer, vec![Some(0), Some(2), Some(1), Some(0)]);
        }
        Outcome::Infeasible => panic!("expected a grid"),
    }
    assert!(matches!(
        search(&deps, &diags, 2, &dict),
        Outcome::Infeasible
    ));
    assert!(matches!(
        search(&deps, &diags, 0, &dict),
        Outcome::Infeasible
    ));
}

#[test]
fn search_over_no_cells_succeeds_at_once() {
    let dict = PhraseDictionary::Sequences(vec![]);
    match search(&vec![], &vec![], 5, &dict) {
        Outcome::Success(answer) => assert!(answer.is_empty()),
        Outcome::Infeasible => panic!("expected the empty grid"),
    }
}

#[test]
fn forbidden_words_are_not_admitted() {
    let dict = PhraseDictionary::Sequences(vec![vec![7], vec![8]]);
    let answer = vec![Some(3), Some(7), None, None];
    let axes: Vec<Vec<usize>> = vec![vec![], vec![]];
    let forbidden = forbidden_words(&answer, &vec![1]);
    assert!(!admits(&dict, &answer, &axes, &forbidden, 7));
    assert!(admits(&dict, &answer, &axes, &forbidden, 8));
    assert!(!admits(&dict, &answer, &axes, &forbidden, 9));
    let nothing = forbidden_words(&answer, &vec![]);
    assert!(admits(&dict, &answer, &axes, &nothing, 7));
}

#[test]
fn admits_reads_the_phrase_along_each_axis() {
    let dict = PhraseDictionary::Sequences(vec![vec![4, 5, 6], vec![5, 6]]);
    let answer = vec![Some(4), Some(5), None];
    let nothing = forbidden_words(&answer, &vec![]);
    assert!(admits(&dict, &answer, &vec![vec![0, 1], vec![1]], &nothing, 6));
    assert!(!admits(&dict, &answer, &vec![vec![1, 0]], &nothing, 6));
    assert!(!admits(&dict, &answer, &vec![vec![0, 1], vec![0]], &nothing, 6));
}

#[test]
fn children_copy_their_parent() {
    let blank = unfilled(3);
    assert_eq!(blank, vec![None, None, None]);
    let child = with_word(&blank, 0, 9);
    assert_eq!(child, vec![Some(9), None, None]);
    assert_eq!(blank, vec![None, None, None]);
    assert_eq!(with_word(&child, 1, 2), vec![Some(9), Some(2), None]);
}

#[test]
fn decode_stops_at_the_first_unfilled_cell() {
    let codec = make_codec("one two three.");
    assert_eq!(
        decode(&codec, &vec![Some(2), Some(0), None, Some(1)]),
        words(&["three", "one"])
    );
    assert_eq!(
        decode(&codec, &vec![Some(1), Some(1), Some(0)]),
        words(&["two", "two", "one"])
    );
    assert_eq!(decode(&codec, &vec![None, Some(1)]), words(&[]));
}

#[test]
fn longest_axis_bounds_the_phrases() {
    assert_eq!(max_axis(&vec![2, 5, 3]), 5);
    assert_eq!(max_axis(&vec![4]), 4);
}

#[test]
fn a_step_pops_one_and_pushes_its_children() {
    let dims = vec![2];
    let deps = get_impacted_phrase_locations(&dims);
    let diags = get_diagonals(&dims);
    let dict = PhraseDictionary::Sequences(vec![vec![0], vec![2], vec![2, 1], vec![0, 0]]);
    let mut stack = vec![unfilled(2)];
    assert!(step(&mut stack, &deps, &diags, 3, &dict).is_none());
    assert_eq!(stack, vec![vec![Some(0), None], vec![Some(2), None]]);
    assert!(step(&mut stack, &deps, &diags, 3, &dict).is_none());
    assert_eq!(stack, vec![vec![Some(0), None], vec![Some(2), Some(1)]]);
    match step(&mut stack, &deps, &diags, 3, &dict) {
        Some(Outcome::Success(answer)) => assert_eq!(answer, vec![Some(2), Some(1)]),
        _ => panic!("expected the completed grid"),
    }
    assert_eq!(stack, vec![vec![Some(0), None]]);
    let mut empty: Vec<Vec<Option<u32>>> = vec![];
    assert!(matches!(
        step(&mut empty, &deps, &diags, 3, &dict),
        Some(Outcome::Infeasible)
    ));
    assert!(empty.is_empty());
}

#[test]
fn forbidden_words_are_the_words_on_the_diagonal() {
    let answer = vec![Some(5), Some(6), Some(7), None];
    let forbidden = forbidden_words(&answer, &vec![0, 2]);
    assert!(is_forbidden(&forbidden, 5));
    assert!(!is_forbidden(&forbidden, 6));
    assert!(is_forbidden(&forbidden, 7));
    assert!(!is_forbidden(&forbidden, 0));
}

#[test]
fn a_bounded_search_is_cut_short_or_ends_as_the_search_does() {
    let dims = vec![2];
    let deps = get_impacted_phrase_locations(&dims);
    let diags = get_diagonals(&dims);
    let dict = PhraseDictionary::Sequences(vec![vec![0], vec![2], vec![2, 1], vec![0, 0]]);
    // the steps: pop [], pop [2], pop [2, 1]
    assert!(search_within(&deps, &diags, 3, &dict, 0).is_none());
    assert!(search_within(&deps, &diags, 3, &dict, 2).is_none());
    match search_within(&deps, &diags, 3, &dict, 3) {
        Some(Outcome::Success(answer)) => assert_eq!(answer, vec![Some(2), Some(1)]),
        _ => panic!("expected the completed grid"),
    }
    // the tree of a vocabulary of 3 words over 2 cells has 1 + 3 + 9 assignments
    match search_within(&deps, &diags, 3, &dict, 14) {
        Some(Outcome::Success(answer)) => assert_eq!(answer, vec![Some(2), Some(1)]),
        _ => panic!("expected the completed grid"),
    }
    let none = PhraseDictionary::Sequences(vec![vec![0], vec![1], vec![2]]);
    // pop [], pop [2], pop [1], pop [0], then the empty stack
    assert!(search_within(&deps, &diags, 3, &none, 4).is_none());
    assert!(matches!(
        search_within(&deps, &diags, 3, &none, 5),
        Some(Outcome::Infeasible)
    ));
    assert!(matches!(
        search_within(&deps, &diags, 3, &none, 14),
        Some(Outcome::Infeasible)
    ));
}
