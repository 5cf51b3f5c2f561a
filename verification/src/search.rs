//! The backtracking search over assignments, on an explicit stack.

use crate::dictionary::PhraseDictionary;
use crate::rule::{full, next_open_position};
use crate::word_set::{
    word_set_contains, word_set_contents, word_set_insert, word_set_new, WordSet,
};
use vstd::prelude::*;

verus! {

/// The assignment of `cells` cells whose first cells hold `words`, in rank
/// order, and whose other cells are unfilled.
pub open spec fn padded(words: Seq<u32>, cells: nat) -> Seq<Option<u32>> {
    Seq::new(
        cells,
        |r: int|
            if r < words.len() {
                Some(words[r])
            } else {
                None
            },
    )
}

/// The phrase to validate for a cell: the words at the ranks of `list`, then
/// the candidate.
pub open spec fn key_at(words: Seq<u32>, list: Seq<usize>, candidate: u32) -> Seq<u32> {
    Seq::new(list.len(), |i: int| words[list[i] as int]).push(candidate)
}

/// Whether `candidate` may stand in a cell with the given axis lists and
/// diagonal, the earlier cells holding `words`.
pub open spec fn fits_at(
    attests: spec_fn(Seq<u32>) -> bool,
    words: Seq<u32>,
    axes: Seq<Seq<usize>>,
    diagonal: Seq<usize>,
    candidate: u32,
) -> bool {
    &&& forall|i: int| 0 <= i < diagonal.len() ==> words[#[trigger] diagonal[i] as int] != candidate
    &&& forall|a: int| 0 <= a < axes.len() ==> attests(key_at(words, #[trigger] axes[a], candidate))
}

/// Whether each of `words`, taken as the cells of ranks `0..words.len()`, is a
/// word of the vocabulary that fits where it stands.
pub open spec fn valid_prefix(
    attests: spec_fn(Seq<u32>) -> bool,
    deps: Seq<Seq<Seq<usize>>>,
    diags: Seq<Seq<usize>>,
    vocab_size: u32,
    words: Seq<u32>,
) -> bool {
    &&& words.len() <= deps.len()
    &&& forall|r: int|
        0 <= r < words.len() ==> (#[trigger] words[r]) < vocab_size && fits_at(
            attests,
            words,
            deps[r],
            diags[r],
            words[r],
        )
}

/// A completed grid: a valid word in every cell.
pub open spec fn is_solution(
    attests: spec_fn(Seq<u32>) -> bool,
    deps: Seq<Seq<Seq<usize>>>,
    diags: Seq<Seq<usize>>,
    vocab_size: u32,
    words: Seq<u32>,
) -> bool {
    words.len() == deps.len() && valid_prefix(attests, deps, diags, vocab_size, words)
}

/// Whether every rank that a cell refers to comes before the cell.
pub open spec fn links_sound(deps: Seq<Seq<Seq<usize>>>, diags: Seq<Seq<usize>>) -> bool {
    &&& deps.len() == diags.len()
    &&& forall|r: int, a: int, i: int|
        0 <= r < deps.len() && 0 <= a < deps[r].len() && 0 <= i < deps[r][a].len()
            ==> (#[trigger] deps[r][a][i]) < r
    &&& forall|r: int, i: int|
        0 <= r < diags.len() && 0 <= i < diags[r].len() ==> (#[trigger] diags[r][i]) < r
}

/// How a search ends.
pub enum Outcome {
    /// A completed assignment, every cell filled.
    Success(Vec<Option<u32>>),
    /// The search space holds no completed assignment.
    Infeasible,
}

/// The words of an assignment by rank; an unfilled cell counts as word 0.
pub open spec fn cell_words(answer: Seq<Option<u32>>) -> Seq<u32> {
    Seq::new(
        answer.len(),
        |r: int|
            match answer[r] {
                Some(w) => w,
                None => 0,
            },
    )
}

/// The number of assignments in the search tree below and including one
/// that has `left` cells unfilled: `1 + V + V^2 + ... + V^left`.
pub open spec fn subtree_size(vocab_size: nat, left: nat) -> nat
    decreases left,
{
    if left == 0 {
        1
    } else {
        1 + vocab_size * subtree_size(vocab_size, (left - 1) as nat)
    }
}

/// The assignments still to be looked at: the subtrees of all that wait on
/// the stack.
pub open spec fn pending_work(waiting: Seq<Seq<u32>>, vocab_size: nat, cells: nat) -> nat
    decreases waiting.len(),
{
    if waiting.len() == 0 {
        0
    } else {
        pending_work(waiting.drop_last(), vocab_size, cells) + subtree_size(
            vocab_size,
            (cells - waiting.last().len()) as nat,
        )
    }
}

/// Whether one of the waiting assignments is a prefix of `words`.
pub open spec fn covered(waiting: Seq<Seq<u32>>, words: Seq<u32>) -> bool {
    exists|j: int|
        0 <= j < waiting.len() && (#[trigger] waiting[j]).len() <= words.len() && words.take(
            waiting[j].len() as int,
        ) == waiting[j]
}

/// A phrase key reads only the cells that its list names.
pub proof fn lemma_key_agrees(
    first: Seq<u32>,
    second: Seq<u32>,
    list: Seq<usize>,
    candidate: u32,
    bound: int,
)
    requires
        forall|i: int| 0 <= i < list.len() ==> (#[trigger] list[i]) < bound,
        forall|r: int| 0 <= r < bound ==> first[r] == second[r],
    ensures
        key_at(first, list, candidate) == key_at(second, list, candidate),
{
}

/// Whether a word fits a cell depends only on the cells that the cell refers
/// to.
pub proof fn lemma_fits_agrees(
    attests: spec_fn(Seq<u32>) -> bool,
    first: Seq<u32>,
    second: Seq<u32>,
    axes: Seq<Seq<usize>>,
    diagonal: Seq<usize>,
    candidate: u32,
    bound: int,
)
    requires
        forall|a: int, i: int|
            0 <= a < axes.len() && 0 <= i < axes[a].len() ==> (#[trigger] axes[a][i]) < bound,
        forall|i: int| 0 <= i < diagonal.len() ==> (#[trigger] diagonal[i]) < bound,
        forall|r: int| 0 <= r < bound ==> first[r] == second[r],
    ensures
        fits_at(attests, first, axes, diagonal, candidate) == fits_at(
            attests,
            second,
            axes,
            diagonal,
            candidate,
        ),
{
    assert forall|a: int| 0 <= a < axes.len() implies key_at(first, #[trigger] axes[a], candidate)
        == key_at(second, axes[a], candidate) by {
        lemma_key_agrees(first, second, axes[a], candidate, bound);
    }
}

/// A valid prefix stays valid when a word that fits the next cell is added.
pub proof fn lemma_valid_extend(
    attests: spec_fn(Seq<u32>) -> bool,
    deps: Seq<Seq<Seq<usize>>>,
    diags: Seq<Seq<usize>>,
    vocab_size: u32,
    words: Seq<u32>,
    candidate: u32,
)
    requires
        links_sound(deps, diags),
        valid_prefix(attests, deps, diags, vocab_size, words),
        words.len() < deps.len(),
        candidate < vocab_size,
        fits_at(attests, words, deps[words.len() as int], diags[words.len() as int], candidate),
    ensures
        valid_prefix(attests, deps, diags, vocab_size, words.push(candidate)),
{
    let longer = words.push(candidate);
    assert forall|r: int| 0 <= r < longer.len() implies (#[trigger] longer[r]) < vocab_size
        && fits_at(attests, longer, deps[r], diags[r], longer[r]) by {
        lemma_fits_agrees(attests, words, longer, deps[r], diags[r], longer[r], r);
    }
}

/// In a completed grid the word of each cell fits the cells before it.
pub proof fn lemma_solution_step(
    attests: spec_fn(Seq<u32>) -> bool,
    deps: Seq<Seq<Seq<usize>>>,
    diags: Seq<Seq<usize>>,
    vocab_size: u32,
    solution: Seq<u32>,
    rank: int,
)
    requires
        links_sound(deps, diags),
        is_solution(attests, deps, diags, vocab_size, solution),
        0 <= rank < solution.len(),
    ensures
        solution[rank] < vocab_size,
        fits_at(attests, solution.take(rank), deps[rank], diags[rank], solution[rank]),
{
    lemma_fits_agrees(
        attests,
        solution,
        solution.take(rank),
        deps[rank],
        diags[rank],
        solution[rank],
        rank,
    );
}

/// One more waiting assignment adds its subtree to the pending work.
pub proof fn lemma_pending_push(
    waiting: Seq<Seq<u32>>,
    words: Seq<u32>,
    vocab_size: nat,
    cells: nat,
)
    ensures
        pending_work(waiting.push(words), vocab_size, cells) == pending_work(
            waiting,
            vocab_size,
            cells,
        ) + subtree_size(vocab_size, (cells - words.len()) as nat),
{
    assert(waiting.push(words).drop_last() =~= waiting);
}

/// Whether every rank of `list` is a filled cell of `answer`.
pub open spec fn all_filled(answer: Seq<Option<u32>>, list: Seq<usize>) -> bool {
    forall|i: int| 0 <= i < list.len() ==> (#[trigger] list[i]) < answer.len() && answer[list[i] as int] is Some
}

/// The words that stand at the ranks of a cell's diagonal.
pub fn forbidden_words(answer: &Vec<Option<u32>>, diagonal: &Vec<usize>) -> (forbidden: WordSet)
    requires
        all_filled(answer@, diagonal@),
    ensures
        forall|w: u32|
            word_set_contents(forbidden).contains(w) <==> exists|i: int|
                0 <= i < diagonal.len() && cell_words(answer@)[#[trigger] diagonal[i] as int] == w,
{
    let mut forbidden = word_set_new();
    let mut n: usize = 0;
    while n < diagonal.len()
        invariant
            n <= diagonal.len(),
            all_filled(answer@, diagonal@),
            forall|w: u32|
                word_set_contents(forbidden).contains(w) <==> exists|i: int|
                    0 <= i < n && cell_words(answer@)[#[trigger] diagonal[i] as int] == w,
        decreases diagonal.len() - n,
    {
        let rank = diagonal[n];
        let word = answer[rank].unwrap();
        let ghost before = word_set_contents(forbidden);
        word_set_insert(&mut forbidden, word);
        proof {
            assert forall|w: u32|
                word_set_contents(forbidden).contains(w) <==> exists|i: int|
                    0 <= i < n + 1 && cell_words(answer@)[#[trigger] diagonal[i] as int] == w by {
                if before.contains(w) {
                    let i = choose|i: int|
                        0 <= i < n && cell_words(answer@)[#[trigger] diagonal[i] as int] == w;
                }
                if exists|i: int|
                    0 <= i < n + 1 && cell_words(answer@)[#[trigger] diagonal[i] as int] == w {
                    let i = choose|i: int|
                        0 <= i < n + 1 && cell_words(answer@)[#[trigger] diagonal[i] as int] == w;
                }
            }
        }
        n += 1;
    }
    forbidden
}

/// The phrase to look up for one axis of a cell: the words at the ranks of
/// `list`, then the candidate.
pub fn phrase_for(answer: &Vec<Option<u32>>, list: &Vec<usize>, candidate: u32) -> (key: Vec<u32>)
    requires
        all_filled(answer@, list@),
    ensures
        key@ == key_at(cell_words(answer@), list@, candidate),
{
    let mut key: Vec<u32> = Vec::new();
    let mut n: usize = 0;
    while n < list.len()
        invariant
            n <= list.len(),
            all_filled(answer@, list@),
            key.len() == n,
            forall|i: int| 0 <= i < n ==> key[i] == cell_words(answer@)[list[i] as int],
        decreases list.len() - n,
    {
        let rank = list[n];
        key.push(answer[rank].unwrap());
        n += 1;
    }
    key.push(candidate);
    key
}

/// Whether the dictionary attests, on every axis of a cell, the phrase that
/// the candidate would complete.
pub fn attested_on_axes(
    dict: &PhraseDictionary,
    answer: &Vec<Option<u32>>,
    axes: &Vec<Vec<usize>>,
    candidate: u32,
) -> (attested: bool)
    requires
        forall|a: int| 0 <= a < axes.len() ==> all_filled(answer@, (#[trigger] axes[a])@),
    ensures
        attested == (forall|a: int|
            0 <= a < axes.len() ==> dict.holds(
                key_at(cell_words(answer@), (#[trigger] axes[a])@, candidate),
            )),
{
    let mut a: usize = 0;
    while a < axes.len()
        invariant
            a <= axes.len(),
            forall|b: int| 0 <= b < axes.len() ==> all_filled(answer@, (#[trigger] axes[b])@),
            forall|b: int|
                0 <= b < a ==> dict.holds(
                    key_at(cell_words(answer@), (#[trigger] axes[b])@, candidate),
                ),
        decreases axes.len() - a,
    {
        let key = phrase_for(answer, &axes[a], candidate);
        if !dict.contains(&key) {
            return false;
        }
        a += 1;
    }
    true
}

/// A copy of `answer` with the cell of rank `rank` set to `word`.
pub fn with_word(answer: &Vec<Option<u32>>, rank: usize, word: u32) -> (child: Vec<Option<u32>>)
    requires
        rank < answer.len(),
    ensures
        child@ == answer@.update(rank as int, Some(word)),
{
    let mut child: Vec<Option<u32>> = Vec::with_capacity(answer.len());
    let mut r: usize = 0;
    while r < answer.len()
        invariant
            r <= answer.len(),
            rank < answer.len(),
            child.len() == r,
            forall|q: int| 0 <= q < r ==> child[q] == answer@.update(rank as int, Some(word))[q],
        decreases answer.len() - r,
    {
        if r == rank {
            child.push(Some(word));
        } else {
            child.push(answer[r]);
        }
        r += 1;
    }
    child
}

/// Whether the word is one of the forbidden words.
pub fn is_forbidden(forbidden: &WordSet, word: u32) -> (held: bool)
    ensures
        held == word_set_contents(*forbidden).contains(word),
{
    word_set_contains(forbidden, word)
}

/// Whether `candidate` may fill a cell: it is not among the forbidden words,
/// and the dictionary attests the phrase it completes on every axis.
pub fn admits(
    dict: &PhraseDictionary,
    answer: &Vec<Option<u32>>,
    axes: &Vec<Vec<usize>>,
    forbidden: &WordSet,
    candidate: u32,
) -> (admitted: bool)
    requires
        forall|a: int| 0 <= a < axes.len() ==> all_filled(answer@, (#[trigger] axes[a])@),
    ensures
        admitted == (!word_set_contents(*forbidden).contains(candidate) && forall|a: int|
            0 <= a < axes.len() ==> dict.holds(
                key_at(cell_words(answer@), (#[trigger] axes[a])@, candidate),
            )),
{
    if is_forbidden(forbidden, candidate) {
        false
    } else {
        attested_on_axes(dict, answer, axes, candidate)
    }
}

/// The words of an assignment up to its first unfilled cell.
pub open spec fn leading_words(answer: Seq<Option<u32>>) -> Seq<u32>
    decreases answer.len(),
{
    if answer.len() == 0 {
        Seq::empty()
    } else {
        let before = leading_words(answer.drop_last());
        if before.len() == answer.len() - 1 && answer.last() is Some {
            before.push(answer.last()->0)
        } else {
            before
        }
    }
}

/// The leading words are as many as the cells before the first unfilled
/// one, and are the words of those cells.
pub proof fn lemma_leading_words(answer: Seq<Option<u32>>)
    ensures
        leading_words(answer).len() <= answer.len(),
        forall|r: int| 0 <= r < leading_words(answer).len() ==> answer[r] == Some(
            #[trigger] leading_words(answer)[r],
        ),
        leading_words(answer).len() < answer.len() ==> answer[leading_words(answer).len() as int]
            is None,
    decreases answer.len(),
{
    if answer.len() > 0 {
        lemma_leading_words(answer.drop_last());
        let before = leading_words(answer.drop_last());
    }
}

/// The leading words of a padded assignment are the words it was padded
/// from.
pub proof fn lemma_leading_of_padded(words: Seq<u32>, cells: nat)
    requires
        words.len() <= cells,
    ensures
        leading_words(padded(words, cells)) == words,
    decreases cells,
{
    if cells > 0 {
        let shorter = (cells - 1) as nat;
        if words.len() == cells {
            assert(padded(words, cells).drop_last() =~= padded(words.drop_last(), shorter));
            lemma_leading_of_padded(words.drop_last(), shorter);
        } else {
            assert(padded(words, cells).drop_last() =~= padded(words, shorter));
            lemma_leading_of_padded(words, shorter);
        }
    } else {
    }
}

/// The words of each assignment of a stack, up to its first unfilled cell.
pub open spec fn waiting_words(stack: Seq<Vec<Option<u32>>>) -> Seq<Seq<u32>> {
    stack.map_values(|answer: Vec<Option<u32>>| leading_words(answer@))
}

/// Whether each assignment of the stack has `cells` cells, the filled ones
/// first, and every filled cell holds a word that fits it.
pub open spec fn stack_valid(
    attests: spec_fn(Seq<u32>) -> bool,
    deps: Seq<Seq<Seq<usize>>>,
    diags: Seq<Seq<usize>>,
    vocab_size: u32,
    stack: Seq<Vec<Option<u32>>>,
) -> bool {
    forall|j: int|
        0 <= j < stack.len() ==> (#[trigger] stack[j])@ == padded(
            leading_words(stack[j]@),
            deps.len(),
        ) && valid_prefix(attests, deps, diags, vocab_size, leading_words(stack[j]@))
}

/// The children of an assignment whose filled cells hold `prefix`: for each
/// word below `upto` that fits the next cell, in ascending order, the prefix
/// with that word added.
pub open spec fn children_upto(
    attests: spec_fn(Seq<u32>) -> bool,
    deps: Seq<Seq<Seq<usize>>>,
    diags: Seq<Seq<usize>>,
    prefix: Seq<u32>,
    upto: nat,
) -> Seq<Seq<u32>>
    decreases upto,
{
    if upto == 0 {
        Seq::empty()
    } else {
        let before = children_upto(attests, deps, diags, prefix, (upto - 1) as nat);
        if fits_at(
            attests,
            prefix,
            deps[prefix.len() as int],
            diags[prefix.len() as int],
            (upto - 1) as u32,
        ) {
            before.push(prefix.push((upto - 1) as u32))
        } else {
            before
        }
    }
}

/// What waits on a longer stack covers what waited on its parts.
pub proof fn lemma_covered_concat(first: Seq<Seq<u32>>, second: Seq<Seq<u32>>, words: Seq<u32>)
    ensures
        covered(first, words) ==> covered(first + second, words),
        covered(second, words) ==> covered(first + second, words),
{
    let all = first + second;
    if covered(first, words) {
        let j = choose|j: int|
            0 <= j < first.len() && (#[trigger] first[j]).len() <= words.len() && words.take(
                first[j].len() as int,
            ) == first[j];
        assert(all[j] == first[j]);
    }
    if covered(second, words) {
        let j = choose|j: int|
            0 <= j < second.len() && (#[trigger] second[j]).len() <= words.len() && words.take(
                second[j].len() as int,
            ) == second[j];
        assert(all[first.len() + j] == second[j]);
    }
}

/// A completed grid that begins with `prefix` begins with one of the
/// children of `prefix`.
pub proof fn lemma_children_cover(
    attests: spec_fn(Seq<u32>) -> bool,
    deps: Seq<Seq<Seq<usize>>>,
    diags: Seq<Seq<usize>>,
    vocab_size: u32,
    prefix: Seq<u32>,
    solution: Seq<u32>,
    upto: nat,
)
    requires
        links_sound(deps, diags),
        is_solution(attests, deps, diags, vocab_size, solution),
        prefix.len() < solution.len(),
        solution.take(prefix.len() as int) == prefix,
        solution[prefix.len() as int] < upto <= vocab_size,
    ensures
        covered(children_upto(attests, deps, diags, prefix, upto), solution),
    decreases upto,
{
    let rank = prefix.len() as int;
    let all = children_upto(attests, deps, diags, prefix, upto);
    let before = children_upto(attests, deps, diags, prefix, (upto - 1) as nat);
    if solution[rank] == upto - 1 {
        lemma_solution_step(attests, deps, diags, vocab_size, solution, rank);
        let longer = prefix.push((upto - 1) as u32);
        assert(solution.take(rank + 1) =~= longer);
        assert(all[all.len() - 1] == longer);
    } else {
        lemma_children_cover(
            attests,
            deps,
            diags,
            vocab_size,
            prefix,
            solution,
            (upto - 1) as nat,
        );
        let j = choose|j: int|
            0 <= j < before.len() && (#[trigger] before[j]).len() <= solution.len()
                && solution.take(before[j].len() as int) == before[j];
        assert(all[j] == before[j]);
    }
}

/// The work that waits on a stack is the work of its parts together.
pub proof fn lemma_pending_concat(
    first: Seq<Seq<u32>>,
    second: Seq<Seq<u32>>,
    vocab_size: nat,
    cells: nat,
)
    ensures
        pending_work(first + second, vocab_size, cells) == pending_work(first, vocab_size, cells)
            + pending_work(second, vocab_size, cells),
    decreases second.len(),
{
    if second.len() > 0 {
        lemma_pending_concat(first, second.drop_last(), vocab_size, cells);
        assert((first + second).drop_last() =~= first + second.drop_last());
    }
}

/// The children of an assignment are less work than the assignment.
pub proof fn lemma_children_work(
    attests: spec_fn(Seq<u32>) -> bool,
    deps: Seq<Seq<Seq<usize>>>,
    diags: Seq<Seq<usize>>,
    prefix: Seq<u32>,
    upto: nat,
    vocab_size: nat,
    cells: nat,
)
    requires
        prefix.len() < cells,
    ensures
        pending_work(children_upto(attests, deps, diags, prefix, upto), vocab_size, cells) <= upto
            * subtree_size(vocab_size, (cells - prefix.len() - 1) as nat),
    decreases upto,
{
    let below = subtree_size(vocab_size, (cells - prefix.len() - 1) as nat);
    if upto > 0 {
        let before = children_upto(attests, deps, diags, prefix, (upto - 1) as nat);
        lemma_children_work(attests, deps, diags, prefix, (upto - 1) as nat, vocab_size, cells);
        lemma_pending_push(before, prefix.push((upto - 1) as u32), vocab_size, cells);
        assert(upto * below == (upto - 1) * below + below) by (nonlinear_arith);
    } else {
    }
}

/// Whether `low` comes before `high` where both are read rank by rank: at
/// the first rank at which they differ, `low` holds the smaller word.
pub open spec fn diverges_below(low: Seq<u32>, high: Seq<u32>) -> bool {
    exists|p: int|
        0 <= p < low.len() && p < high.len() && #[trigger] low.take(p) == high.take(p) && low[p]
            < high[p]
}

/// Whether each assignment that waits comes before every one above it.
pub open spec fn stack_ordered(waiting: Seq<Seq<u32>>) -> bool {
    forall|i: int, j: int|
        #![trigger waiting[i], waiting[j]]
        0 <= i < j < waiting.len() ==> diverges_below(waiting[i], waiting[j])
}

/// What comes before an assignment comes before whatever the assignment is
/// extended to, however it is extended itself.
pub proof fn lemma_diverges_extends(low: Seq<u32>, high: Seq<u32>, lower: Seq<u32>, higher: Seq<u32>)
    requires
        diverges_below(low, high),
        low.len() <= lower.len(),
        lower.take(low.len() as int) == low,
        high.len() <= higher.len(),
        higher.take(high.len() as int) == high,
    ensures
        diverges_below(lower, higher),
{
    let p = choose|p: int|
        0 <= p < low.len() && p < high.len() && #[trigger] low.take(p) == high.take(p) && low[p]
            < high[p];
    assert(lower.take(p) =~= low.take(p));
    assert(higher.take(p) =~= high.take(p));
}

/// Each child of an assignment is the assignment with a word below the bound
/// added.
pub proof fn lemma_child_word(
    attests: spec_fn(Seq<u32>) -> bool,
    deps: Seq<Seq<Seq<usize>>>,
    diags: Seq<Seq<usize>>,
    prefix: Seq<u32>,
    upto: nat,
    k: int,
) -> (word: u32)
    requires
        upto <= u32::MAX,
        0 <= k < children_upto(attests, deps, diags, prefix, upto).len(),
    ensures
        word < upto,
        children_upto(attests, deps, diags, prefix, upto)[k] == prefix.push(word),
    decreases upto,
{
    let before = children_upto(attests, deps, diags, prefix, (upto - 1) as nat);
    if k < before.len() {
        lemma_child_word(attests, deps, diags, prefix, (upto - 1) as nat, k)
    } else {
        (upto - 1) as u32
    }
}

/// The children of an assignment are pushed in ascending order.
pub proof fn lemma_children_ordered(
    attests: spec_fn(Seq<u32>) -> bool,
    deps: Seq<Seq<Seq<usize>>>,
    diags: Seq<Seq<usize>>,
    prefix: Seq<u32>,
    upto: nat,
)
    requires
        upto <= u32::MAX,
    ensures
        stack_ordered(children_upto(attests, deps, diags, prefix, upto)),
    decreases upto,
{
    if upto > 0 {
        let all = children_upto(attests, deps, diags, prefix, upto);
        let before = children_upto(attests, deps, diags, prefix, (upto - 1) as nat);
        lemma_children_ordered(attests, deps, diags, prefix, (upto - 1) as nat);
        assert forall|i: int, j: int|
            #![trigger all[i], all[j]]
            0 <= i < j < all.len() implies diverges_below(all[i], all[j]) by {
            if j >= before.len() {
                lemma_child_word(attests, deps, diags, prefix, (upto - 1) as nat, i);
                let p = prefix.len() as int;
                assert(all[i].take(p) =~= all[j].take(p));
            }
        }
    }
}

/// One step of the search: pops the assignment on top of the stack; where
/// it is complete, ends with it; else pushes a copy of it for each word of
/// the vocabulary that fits its first unfilled cell, in ascending order of
/// the words. On an empty stack the search ends without a grid.
///
/// `deps[r][a]` lists the ranks whose words, followed by the word of cell
/// `r`, make the phrase of cell `r` along axis `a`; `diags[r]` lists the ranks
/// whose words cell `r` may not repeat. The words are the ids below
/// `vocab_size`.
pub fn step(
    stack: &mut Vec<Vec<Option<u32>>>,
    deps: &Vec<Vec<Vec<usize>>>,
    diags: &Vec<Vec<usize>>,
    vocab_size: u32,
    dict: &PhraseDictionary,
) -> (ended: Option<Outcome>)
    requires
        links_sound(deps.deep_view(), diags.deep_view()),
        stack_valid(dict.oracle(), deps.deep_view(), diags.deep_view(), vocab_size, old(stack)@),
    ensures
        stack_valid(dict.oracle(), deps.deep_view(), diags.deep_view(), vocab_size, final(stack)@),
        old(stack).len() == 0 ==> (ended matches Some(Outcome::Infeasible)) && final(stack)@
            == old(stack)@,
        old(stack).len() > 0 ==> {
            let top = old(stack)@.last();
            if leading_words(top@).len() == deps.len() {
                &&& ended == Some(Outcome::Success(top))
                &&& final(stack)@ == old(stack)@.drop_last()
            } else {
                &&& ended is None
                &&& waiting_words(final(stack)@) == waiting_words(old(stack)@.drop_last())
                    + children_upto(
                    dict.oracle(),
                    deps.deep_view(),
                    diags.deep_view(),
                    leading_words(top@),
                    vocab_size as nat,
                )
            }
        },
        ended matches Some(Outcome::Success(answer)) ==> {
            &&& answer.len() == deps.len()
            &&& forall|r: int| 0 <= r < answer.len() ==> answer[r] is Some
            &&& is_solution(
                dict.oracle(),
                deps.deep_view(),
                diags.deep_view(),
                vocab_size,
                cell_words(answer@),
            )
        },
        stack_ordered(waiting_words(old(stack)@)) ==> stack_ordered(waiting_words(final(stack)@)),
        ended is None ==> {
            &&& pending_work(waiting_words(final(stack)@), vocab_size as nat, deps.len() as nat)
                < pending_work(waiting_words(old(stack)@), vocab_size as nat, deps.len() as nat)
            &&& forall|words: Seq<u32>| #[trigger]
                is_solution(dict.oracle(), deps.deep_view(), diags.deep_view(), vocab_size, words)
                    && covered(waiting_words(old(stack)@), words) ==> covered(
                    waiting_words(final(stack)@),
                    words,
                )
        },
{
    let cells = deps.len();
    let ghost links = deps.deep_view();
    let ghost shells = diags.deep_view();
    let ghost attests = dict.oracle();
    let ghost before = waiting_words(stack@);
    let answer = match stack.pop() {
        None => {
            return Some(Outcome::Infeasible);
        },
        Some(answer) => answer,
    };
    let ghost prefix = leading_words(answer@);
    let ghost rest = waiting_words(stack@);
    proof {
        assert(before =~= rest.push(prefix));
        lemma_pending_push(rest, prefix, vocab_size as nat, cells as nat);
        lemma_leading_words(answer@);
        if stack_ordered(before) {
            assert forall|i: int, j: int|
                #![trigger rest[i], rest[j]]
                0 <= i < j < rest.len() implies diverges_below(rest[i], rest[j]) by {
                assert(diverges_below(before[i], before[j]));
            }
        }
    }
    if full(&answer) {
        proof {
            assert(cell_words(answer@) =~= prefix);
        }
        return Some(Outcome::Success(answer));
    }
    let rank = next_open_position(&answer);
    proof {
        assert(shells[rank as int] == diags[rank as int]@);
        assert forall|a: int, i: int|
            0 <= a < deps[rank as int].len() && 0 <= i < deps[rank as int][a].len() implies (
        #[trigger] deps[rank as int][a][i]) < rank by {
            assert(links[rank as int][a][i] < rank);
        }
    }
    let axes = &deps[rank];
    let diagonal = &diags[rank];
    let forbidden = forbidden_words(&answer, diagonal);
    let mut candidate: u32 = 0;
    while candidate < vocab_size
        invariant
            candidate <= vocab_size,
            cells == deps.len(),
            rank < cells,
            rank == prefix.len(),
            links == deps.deep_view(),
            shells == diags.deep_view(),
            attests == dict.oracle(),
            links_sound(links, shells),
            axes == &deps[rank as int],
            diagonal == &diags[rank as int],
            answer@ == padded(prefix, cells as nat),
            valid_prefix(attests, links, shells, vocab_size, prefix),
            forall|a: int| 0 <= a < axes.len() ==> all_filled(answer@, (#[trigger] axes[a])@),
            forall|w: u32|
                word_set_contents(forbidden).contains(w) <==> exists|i: int|
                    0 <= i < diagonal.len() && cell_words(answer@)[#[trigger] diagonal[i] as int]
                        == w,
            stack_valid(attests, links, shells, vocab_size, stack@),
            waiting_words(stack@) == rest + children_upto(
                attests,
                links,
                shells,
                prefix,
                candidate as nat,
            ),
        decreases vocab_size - candidate,
    {
        let admitted = admits(dict, &answer, axes, &forbidden, candidate);
        proof {
            lemma_fits_agrees(
                attests,
                cell_words(answer@),
                prefix,
                links[rank as int],
                shells[rank as int],
                candidate,
                rank as int,
            );
            assert(admitted == fits_at(
                attests,
                cell_words(answer@),
                links[rank as int],
                shells[rank as int],
                candidate,
            )) by {
                assert forall|a: int| 0 <= a < axes.len() implies (#[trigger] axes[a])@
                    == links[rank as int][a] by {}
                if word_set_contents(forbidden).contains(candidate) {
                    let i = choose|i: int|
                        0 <= i < diagonal.len() && cell_words(answer@)[#[trigger] diagonal[i] as int]
                            == candidate;
                    assert(shells[rank as int][i] == diagonal[i]);
                }
            }
        }
        let ghost seen = stack@;
        if admitted {
            let child = with_word(&answer, rank, candidate);
            proof {
                let longer = prefix.push(candidate);
                lemma_valid_extend(attests, links, shells, vocab_size, prefix, candidate);
                assert(child@ =~= padded(longer, cells as nat));
                lemma_leading_of_padded(longer, cells as nat);
            }
            stack.push(child);
            proof {
                let longer = prefix.push(candidate);
                assert(waiting_words(stack@) =~= waiting_words(seen).push(longer));
            }
        }
        proof {
            assert(waiting_words(stack@) =~= rest + children_upto(
                attests,
                links,
                shells,
                prefix,
                (candidate + 1) as nat,
            ));
        }
        candidate += 1;
    }
    proof {
        let kids = children_upto(attests, links, shells, prefix, vocab_size as nat);
        lemma_children_work(
            attests,
            links,
            shells,
            prefix,
            vocab_size as nat,
            vocab_size as nat,
            cells as nat,
        );
        lemma_pending_concat(rest, kids, vocab_size as nat, cells as nat);
        if stack_ordered(before) {
            let all = rest + kids;
            lemma_children_ordered(attests, links, shells, prefix, vocab_size as nat);
            assert forall|i: int, j: int|
                #![trigger all[i], all[j]]
                0 <= i < j < all.len() implies diverges_below(all[i], all[j]) by {
                if i < rest.len() <= j {
                    lemma_child_word(
                        attests,
                        links,
                        shells,
                        prefix,
                        vocab_size as nat,
                        j - rest.len(),
                    );
                    assert(diverges_below(before[i], before[rest.len() as int]));
                    assert(all[j].take(prefix.len() as int) =~= prefix);
                    assert(rest[i].take(rest[i].len() as int) =~= rest[i]);
                    lemma_diverges_extends(rest[i], prefix, rest[i], all[j]);
                }
            }
        }
        assert forall|words: Seq<u32>| #[trigger]
            is_solution(attests, links, shells, vocab_size, words) && covered(
                before,
                words,
            ) implies covered(waiting_words(stack@), words) by {
            lemma_covered_concat(rest, kids, words);
            if !covered(rest, words) {
                let j = choose|j: int|
                    0 <= j < before.len() && (#[trigger] before[j]).len() <= words.len()
                        && words.take(before[j].len() as int) == before[j];
                lemma_children_cover(
                    attests,
                    links,
                    shells,
                    vocab_size,
                    prefix,
                    words,
                    vocab_size as nat,
                );
            }
        }
    }
    None
}

/// An assignment of `cells` cells, all unfilled.
pub fn unfilled(cells: usize) -> (blank: Vec<Option<u32>>)
    ensures
        blank@ == padded(Seq::<u32>::empty(), cells as nat),
{
    let mut blank: Vec<Option<u32>> = Vec::with_capacity(cells);
    let mut r: usize = 0;
    while r < cells
        invariant
            r <= cells,
            blank.len() == r,
            forall|q: int| 0 <= q < r ==> blank[q] is None,
        decreases cells - r,
    {
        blank.push(None);
        r += 1;
    }
    blank
}

/// What a search owes: a completed grid where one exists, and then the last
/// of them in the order of `diverges_below`; no grid only where none exists.
pub open spec fn search_result(
    attests: spec_fn(Seq<u32>) -> bool,
    deps: Seq<Seq<Seq<usize>>>,
    diags: Seq<Seq<usize>>,
    vocab_size: u32,
    outcome: Outcome,
) -> bool {
    match outcome {
        Outcome::Success(answer) => {
            &&& answer.len() == deps.len()
            &&& forall|r: int| 0 <= r < answer.len() ==> answer[r] is Some
            &&& is_solution(attests, deps, diags, vocab_size, cell_words(answer@))
            &&& forall|words: Seq<u32>| #[trigger]
                is_solution(attests, deps, diags, vocab_size, words) ==> words == cell_words(
                    answer@,
                ) || diverges_below(words, cell_words(answer@))
        },
        Outcome::Infeasible => forall|words: Seq<u32>|
            !is_solution(attests, deps, diags, vocab_size, words),
    }
}

/// Where the stack is ordered and holds a prefix of every completed grid, a
/// completed grid on top of it comes after every other completed grid.
pub proof fn lemma_top_is_last(
    attests: spec_fn(Seq<u32>) -> bool,
    deps: Seq<Seq<Seq<usize>>>,
    diags: Seq<Seq<usize>>,
    vocab_size: u32,
    waiting: Seq<Seq<u32>>,
)
    requires
        waiting.len() > 0,
        waiting.last().len() == deps.len(),
        stack_ordered(waiting),
        forall|words: Seq<u32>| #[trigger]
            is_solution(attests, deps, diags, vocab_size, words) ==> covered(waiting, words),
    ensures
        forall|words: Seq<u32>| #[trigger]
            is_solution(attests, deps, diags, vocab_size, words) ==> words == waiting.last()
                || diverges_below(words, waiting.last()),
{
    let found = waiting.last();
    let top = waiting.len() - 1;
    assert forall|words: Seq<u32>| #[trigger]
        is_solution(attests, deps, diags, vocab_size, words) implies words == found
        || diverges_below(words, found) by {
        let j = choose|j: int|
            0 <= j < waiting.len() && (#[trigger] waiting[j]).len() <= words.len() && words.take(
                waiting[j].len() as int,
            ) == waiting[j];
        if j == top {
            assert(words.take(words.len() as int) =~= words);
        } else {
            assert(diverges_below(waiting[j], waiting[top]));
            assert(found.take(found.len() as int) =~= found);
            lemma_diverges_extends(waiting[j], found, words, found);
        }
    }
}

/// The search starts with as much pending work as the tree of assignments
/// has nodes: `1 + V + V^2 + ... + V^cells`.
pub proof fn lemma_work_at_start(vocab_size: nat, cells: nat)
    ensures
        pending_work(seq![Seq::<u32>::empty()], vocab_size, cells) == subtree_size(
            vocab_size,
            cells,
        ),
{
    let none = Seq::<Seq<u32>>::empty();
    lemma_pending_push(none, Seq::<u32>::empty(), vocab_size, cells);
    assert(none.push(Seq::<u32>::empty()) =~= seq![Seq::<u32>::empty()]);
}

/// Looks for a completed grid, depth first, for no more than `budget` steps:
/// starts from the assignment without a filled cell, and takes steps until
/// one ends the search or the budget is spent. `None` says that the search
/// was cut short, which is no answer on whether a grid exists. Each step
/// that does not end the search pops one assignment of the tree of
/// `1 + V + V^2 + ... + V^cells` assignments, and none twice, so a budget
/// above that number is never spent.
pub fn search_within(
    deps: &Vec<Vec<Vec<usize>>>,
    diags: &Vec<Vec<usize>>,
    vocab_size: u32,
    dict: &PhraseDictionary,
    budget: usize,
) -> (ended: Option<Outcome>)
    requires
        links_sound(deps.deep_view(), diags.deep_view()),
    ensures
        ended matches Some(outcome) ==> search_result(
            dict.oracle(),
            deps.deep_view(),
            diags.deep_view(),
            vocab_size,
            outcome,
        ),
        ended is None ==> budget <= subtree_size(vocab_size as nat, deps.len() as nat),
{
    let ghost links = deps.deep_view();
    let ghost shells = diags.deep_view();
    let ghost attests = dict.oracle();
    let mut stack: Vec<Vec<Option<u32>>> = Vec::new();
    stack.push(unfilled(deps.len()));
    proof {
        lemma_leading_of_padded(Seq::<u32>::empty(), deps.len() as nat);
        assert(waiting_words(stack@) =~= seq![Seq::<u32>::empty()]);
        lemma_work_at_start(vocab_size as nat, deps.len() as nat);
        assert forall|words: Seq<u32>| #[trigger]
            is_solution(attests, links, shells, vocab_size, words) implies covered(
            waiting_words(stack@),
            words,
        ) by {
            assert(words.take(0) =~= waiting_words(stack@)[0]);
        }
    }
    let mut taken: usize = 0;
    while taken < budget
        invariant
            taken <= budget,
            links == deps.deep_view(),
            shells == diags.deep_view(),
            attests == dict.oracle(),
            links_sound(links, shells),
            stack_valid(attests, links, shells, vocab_size, stack@),
            stack_ordered(waiting_words(stack@)),
            forall|words: Seq<u32>| #[trigger]
                is_solution(attests, links, shells, vocab_size, words) ==> covered(
                    waiting_words(stack@),
                    words,
                ),
            pending_work(waiting_words(stack@), vocab_size as nat, deps.len() as nat) + taken
                <= subtree_size(vocab_size as nat, deps.len() as nat),
        decreases budget - taken,
    {
        let ghost before = stack@;
        match step(&mut stack, deps, diags, vocab_size, dict) {
            Some(outcome) => {
                proof {
                    if outcome is Success {
                        let answer = outcome->Success_0;
                        lemma_leading_words(answer@);
                        assert(waiting_words(before).last() =~= cell_words(answer@));
                        lemma_top_is_last(
                            attests,
                            links,
                            shells,
                            vocab_size,
                            waiting_words(before),
                        );
                    }
                }
                return Some(outcome);
            },
            None => {
                proof {
                    assert forall|words: Seq<u32>| #[trigger]
                        is_solution(attests, links, shells, vocab_size, words) implies covered(
                        waiting_words(stack@),
                        words,
                    ) by {
                        assert(covered(waiting_words(before), words));
                    }
                }
                taken += 1;
            },
        }
    }
    None
}

/// Looks for a completed grid, depth first: starts from the assignment
/// without a filled cell, and takes steps until one ends the search.
pub fn search(
    deps: &Vec<Vec<Vec<usize>>>,
    diags: &Vec<Vec<usize>>,
    vocab_size: u32,
    dict: &PhraseDictionary,
) -> (outcome: Outcome)
    requires
        links_sound(deps.deep_view(), diags.deep_view()),
    ensures
        search_result(dict.oracle(), deps.deep_view(), diags.deep_view(), vocab_size, outcome),
{
    let ghost links = deps.deep_view();
    let ghost shells = diags.deep_view();
    let ghost attests = dict.oracle();
    let mut stack: Vec<Vec<Option<u32>>> = Vec::new();
    stack.push(unfilled(deps.len()));
    proof {
        lemma_leading_of_padded(Seq::<u32>::empty(), deps.len() as nat);
        assert forall|words: Seq<u32>| #[trigger]
            is_solution(attests, links, shells, vocab_size, words) implies covered(
            waiting_words(stack@),
            words,
        ) by {
            assert(words.take(0) =~= waiting_words(stack@)[0]);
        }
    }
    loop
        invariant
            links == deps.deep_view(),
            shells == diags.deep_view(),
            attests == dict.oracle(),
            links_sound(links, shells),
            stack_valid(attests, links, shells, vocab_size, stack@),
            stack_ordered(waiting_words(stack@)),
            forall|words: Seq<u32>| #[trigger]
                is_solution(attests, links, shells, vocab_size, words) ==> covered(
                    waiting_words(stack@),
                    words,
                ),
        decreases pending_work(waiting_words(stack@), vocab_size as nat, deps.len() as nat),
    {
        let ghost before = stack@;
        match step(&mut stack, deps, diags, vocab_size, dict) {
            Some(outcome) => {
                proof {
                    if outcome is Success {
                        let answer = outcome->Success_0;
                        lemma_leading_words(answer@);
                        assert(waiting_words(before).last() =~= cell_words(answer@));
                        lemma_top_is_last(
                            attests,
                            links,
                            shells,
                            vocab_size,
                            waiting_words(before),
                        );
                    }
                }
                return outcome;
            },
            None => {
                proof {
                    assert forall|words: Seq<u32>| #[trigger]
                        is_solution(attests, links, shells, vocab_size, words) implies covered(
                        waiting_words(stack@),
                        words,
                    ) by {
                        assert(covered(waiting_words(before), words));
                    }
                }
            },
        }
    }
}

} // verus!
