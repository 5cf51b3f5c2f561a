//! From a shape and a corpus to a filled grid.

use crate::corpus::{corpus_phrases, encoded, lemma_own_codec_covers};
use crate::dictionary::{attested, buildable, Backend, PhraseDictionary};
use crate::grid::{dependency_lists, diagonal_lists, lemma_links_sound};
use crate::rule::{
    all_positive, cell_count, get_diagonals, get_impacted_phrase_locations, shape_size,
};
use crate::search::{
    cell_words, diverges_below, is_solution, leading_words, lemma_leading_words, search, Outcome,
};
use crate::string_handlers::{try_make_codec, Codec};
use crate::text::strings;
use crate::vocabulary::vocabulary;
use vstd::prelude::*;

verus! {

/// The words of the ids.
pub open spec fn decoded(vocab: Seq<Seq<char>>, ids: Seq<u32>) -> Seq<Seq<char>> {
    ids.map_values(|id: u32| vocab[id as int])
}

/// The words of an assignment, by rank, up to its first unfilled cell.
pub fn decode(codec: &Codec, coded: &Vec<Option<u32>>) -> (res: Vec<String>)
    requires
        forall|r: int|
            0 <= r < leading_words(coded@).len() ==> (#[trigger] leading_words(coded@)[r])
                < codec.vocabulary().len(),
    ensures
        strings(res@) == decoded(codec.vocabulary(), leading_words(coded@)),
{
    let ghost wanted = leading_words(coded@);
    proof {
        lemma_leading_words(coded@);
    }
    let mut res: Vec<String> = Vec::new();
    let mut i: usize = 0;
    while i < coded.len()
        invariant
            i <= coded.len(),
            i <= wanted.len() <= coded.len(),
            wanted == leading_words(coded@),
            forall|r: int| 0 <= r < wanted.len() ==> coded[r] == Some(#[trigger] wanted[r]),
            wanted.len() < coded.len() ==> coded[wanted.len() as int] is None,
            forall|r: int| 0 <= r < wanted.len() ==> (#[trigger] wanted[r]) < codec.vocabulary().len(),
            res.len() == i,
            forall|r: int|
                0 <= r < i ==> (#[trigger] res[r])@ == codec.vocabulary()[wanted[r] as int],
        decreases coded.len() - i,
    {
        match coded[i] {
            Some(id) => {
                assert(wanted[i as int] == id);
                let word = codec.decode(id).unwrap();
                res.push(word);
            },
            None => {
                proof {
                    if i < wanted.len() {
                        assert(coded[i as int] == Some(wanted[i as int]));
                    }
                }
                return res;
            },
        }
        i += 1;
    }
    res
}

/// The length of the longest axis of a shape: the longest phrase that a
/// grid of the shape asks about.
pub open spec fn longest_axis(dims: Seq<usize>) -> nat
    decreases dims.len(),
{
    if dims.len() == 0 {
        0
    } else if longest_axis(dims.drop_last()) >= dims.last() {
        longest_axis(dims.drop_last())
    } else {
        dims.last() as nat
    }
}

/// The length of the longest axis of a shape that has an axis.
pub fn max_axis(dims: &Vec<usize>) -> (longest: usize)
    requires
        dims.len() >= 1,
    ensures
        longest == longest_axis(dims@),
{
    let mut longest: usize = 0;
    let mut a: usize = 0;
    while a < dims.len()
        invariant
            a <= dims.len(),
            longest == longest_axis(dims@.take(a as int)),
        decreases dims.len() - a,
    {
        proof {
            assert(dims@.take(a + 1).drop_last() =~= dims@.take(a as int));
        }
        if dims[a] > longest {
            longest = dims[a];
        }
        a += 1;
    }
    assert(dims@.take(a as int) =~= dims@);
    longest
}

/// Whether every axis of the shape has at least one cell.
pub fn shape_is_valid(dims: &Vec<usize>) -> (valid: bool)
    ensures
        valid == all_positive(dims@),
{
    let mut a: usize = 0;
    while a < dims.len()
        invariant
            a <= dims.len(),
            forall|b: int| 0 <= b < a ==> dims[b] > 0,
        decreases dims.len() - a,
    {
        if dims[a] == 0 {
            return false;
        }
        a += 1;
    }
    true
}

/// What a dictionary of the corpus answers, in the given encoding, for a
/// grid of the given shape.
pub open spec fn corpus_oracle(backend: Backend, dims: Seq<usize>, corpus: Seq<char>) -> spec_fn(
    Seq<u32>,
) -> bool {
    attested(
        backend,
        corpus_phrases(corpus, vocabulary(corpus), longest_axis(dims)),
        vocabulary(corpus).len() as int,
    )
}

/// Whether the ids, taken by rank, fill a grid of the shape so that every
/// phrase along every axis is attested by the corpus and no word is
/// repeated within a distance shell.
pub open spec fn grid_solution(
    backend: Backend,
    dims: Seq<usize>,
    corpus: Seq<char>,
    ids: Seq<u32>,
) -> bool {
    is_solution(
        corpus_oracle(backend, dims, corpus),
        dependency_lists(dims),
        diagonal_lists(dims),
        vocabulary(corpus).len() as u32,
        ids,
    )
}

/// Whether the grid, the vocabulary and the dictionary of a search are
/// within what the machine can hold.
pub open spec fn within_limits(backend: Backend, dims: Seq<usize>, corpus: Seq<char>) -> bool {
    &&& shape_size(dims) <= usize::MAX
    &&& vocabulary(corpus).len() <= u32::MAX
    &&& buildable(
        backend,
        corpus_phrases(corpus, vocabulary(corpus), longest_axis(dims)),
        vocabulary(corpus).len() as int,
        longest_axis(dims),
    )
}

/// How a search over a corpus ends.
#[derive(Debug)]
pub enum Solved {
    /// The words of a completed grid, by rank.
    Success(Vec<String>),
    /// No grid of the shape can be completed from the corpus.
    Infeasible,
}

/// Why no search was made.
#[derive(Debug)]
pub enum SetupError {
    /// The shape has an axis without cells.
    InvalidShape,
    /// The grid, the vocabulary or the dictionary is more than the machine
    /// can hold.
    TooLarge,
}

/// Fills a grid of the shape with words of the corpus, with the dictionary
/// kept in the given encoding.
pub fn solve_with(dims: &Vec<usize>, corpus: &str, backend: Backend) -> (result: Result<
    Solved,
    SetupError,
>)
    requires
        dims.len() >= 1,
    ensures
        !all_positive(dims@) ==> result matches Err(SetupError::InvalidShape),
        all_positive(dims@) && !within_limits(backend, dims@, corpus@) ==> result matches Err(
            SetupError::TooLarge,
        ),
        all_positive(dims@) && within_limits(backend, dims@, corpus@) ==> result is Ok,
        result matches Ok(Solved::Success(grid)) ==> {
            &&& grid.len() == shape_size(dims@)
            &&& forall|r: int|
                0 <= r < grid.len() ==> vocabulary(corpus@).contains((#[trigger] grid[r])@)
            &&& grid_solution(
                backend,
                dims@,
                corpus@,
                encoded(vocabulary(corpus@), strings(grid@)),
            )
            &&& forall|ids: Seq<u32>| #[trigger]
                grid_solution(backend, dims@, corpus@, ids) ==> ids == encoded(
                    vocabulary(corpus@),
                    strings(grid@),
                ) || diverges_below(ids, encoded(vocabulary(corpus@), strings(grid@)))
        },
        result matches Ok(Solved::Infeasible) ==> forall|ids: Seq<u32>|
            !grid_solution(backend, dims@, corpus@, ids),
{
    if !shape_is_valid(dims) {
        return Err(SetupError::InvalidShape);
    }
    if cell_count(dims).is_none() {
        return Err(SetupError::TooLarge);
    }
    let codec = match try_make_codec(corpus) {
        None => {
            return Err(SetupError::TooLarge);
        },
        Some(codec) => codec,
    };
    proof {
        lemma_own_codec_covers(&codec, corpus@);
    }
    let max_length = max_axis(dims);
    let dict = match PhraseDictionary::build(backend, corpus, max_length, &codec) {
        None => {
            return Err(SetupError::TooLarge);
        },
        Some(dict) => dict,
    };
    let impacted_phrase_locations = get_impacted_phrase_locations(dims);
    let impacted_diagonals = get_diagonals(dims);
    proof {
        lemma_links_sound(dims@);
    }
    let vocab_size = codec.size();
    match search(&impacted_phrase_locations, &impacted_diagonals, vocab_size, &dict) {
        Outcome::Infeasible => Ok(Solved::Infeasible),
        Outcome::Success(answer) => {
            let ghost ids = cell_words(answer@);
            proof {
                lemma_leading_words(answer@);
                assert(leading_words(answer@) =~= ids);
            }
            let grid = decode(&codec, &answer);
            proof {
                let vocab = vocabulary(corpus@);
                assert(strings(grid@).len() == grid.len());
                assert forall|r: int| 0 <= r < grid.len() implies vocab.contains(
                    (#[trigger] grid[r])@,
                ) && vocab.index_of(grid[r]@) == ids[r] by {
                    assert(strings(grid@)[r] == grid[r]@);
                    codec.lemma_id_round_trip(ids[r] as int);
                }
                assert(encoded(vocab, strings(grid@)) =~= ids);
            }
            Ok(Solved::Success(grid))
        },
    }
}

/// Fills a grid of the shape with words of the corpus so that every run of
/// cells along every axis is a phrase of the corpus, and no word stands twice
/// in a distance shell; the dictionary holds the phrases themselves.
pub fn solve_for_dims(dims: &Vec<usize>, corpus: &str) -> (result: Result<Solved, SetupError>)
    requires
        dims.len() >= 1,
    ensures
        !all_positive(dims@) ==> result matches Err(SetupError::InvalidShape),
        all_positive(dims@) && !within_limits(Backend::Sequences, dims@, corpus@)
            ==> result matches Err(SetupError::TooLarge),
        all_positive(dims@) && within_limits(Backend::Sequences, dims@, corpus@) ==> result is Ok,
        result matches Ok(Solved::Success(grid)) ==> {
            &&& grid.len() == shape_size(dims@)
            &&& forall|r: int|
                0 <= r < grid.len() ==> vocabulary(corpus@).contains((#[trigger] grid[r])@)
            &&& grid_solution(
                Backend::Sequences,
                dims@,
                corpus@,
                encoded(vocabulary(corpus@), strings(grid@)),
            )
            &&& forall|ids: Seq<u32>| #[trigger]
                grid_solution(Backend::Sequences, dims@, corpus@, ids) ==> ids == encoded(
                    vocabulary(corpus@),
                    strings(grid@),
                ) || diverges_below(ids, encoded(vocabulary(corpus@), strings(grid@)))
        },
        result matches Ok(Solved::Infeasible) ==> forall|ids: Seq<u32>|
            !grid_solution(Backend::Sequences, dims@, corpus@, ids),
{
    solve_with(dims, corpus, Backend::Sequences)
}

} // verus!
