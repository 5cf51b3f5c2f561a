//! The words of a corpus and its vocabulary.

use crate::string_handlers::{split_corpus, split_sentence};
use crate::text::{sentences, strings, tokens};
use vstd::prelude::*;

verus! {

/// The items of a sequence in the order in which each is first seen, every
/// later occurrence left out.
pub open spec fn first_occurrences<T>(items: Seq<T>) -> Seq<T>
    decreases items.len(),
{
    if items.len() == 0 {
        Seq::empty()
    } else {
        let before = first_occurrences(items.drop_last());
        if before.contains(items.last()) {
            before
        } else {
            before.push(items.last())
        }
    }
}

/// The first occurrences hold every item of the sequence, each once, and
/// nothing else.
pub proof fn lemma_first_occurrences<T>(items: Seq<T>)
    ensures
        first_occurrences(items).no_duplicates(),
        forall|x: T| first_occurrences(items).contains(x) <==> items.contains(x),
    decreases items.len(),
{
    let all = first_occurrences(items);
    if items.len() > 0 {
        let before = first_occurrences(items.drop_last());
        lemma_first_occurrences(items.drop_last());
        assert forall|x: T| all.contains(x) <==> items.contains(x) by {
            if items.contains(x) {
                let i = choose|i: int| 0 <= i < items.len() && items[i] == x;
                if i < items.len() - 1 {
                    assert(items.drop_last()[i] == x);
                    assert(items.drop_last().contains(x));
                    let k = choose|k: int| 0 <= k < before.len() && before[k] == x;
                    assert(all[k] == x);
                } else if !before.contains(x) {
                    assert(all[all.len() - 1] == x);
                }
            }
            if all.contains(x) {
                let k = choose|k: int| 0 <= k < all.len() && all[k] == x;
                if k < before.len() {
                    assert(items.drop_last().contains(x));
                    let i = choose|i: int|
                        0 <= i < items.drop_last().len() && items.drop_last()[i] == x;
                } else {
                }
            }
        }
    }
}

/// The words of the first `upto` sentences, in their order.
pub open spec fn words_upto(found: Seq<Seq<char>>, upto: nat) -> Seq<Seq<char>>
    decreases upto,
{
    if upto == 0 {
        Seq::empty()
    } else {
        words_upto(found, (upto - 1) as nat) + tokens(found[upto - 1])
    }
}

/// Every word of a corpus, in the order of the text.
pub open spec fn corpus_words(corpus: Seq<char>) -> Seq<Seq<char>> {
    words_upto(sentences(corpus), sentences(corpus).len())
}

/// The vocabulary of a corpus: its distinct words, in the order in which
/// each is first seen.
pub open spec fn vocabulary(corpus: Seq<char>) -> Seq<Seq<char>> {
    first_occurrences(corpus_words(corpus))
}

/// Every word of every sentence is among the words up to that sentence.
pub proof fn lemma_words_upto_holds(found: Seq<Seq<char>>, upto: nat, n: int, j: int)
    requires
        0 <= n < upto,
        0 <= j < tokens(found[n]).len(),
    ensures
        words_upto(found, upto).contains(tokens(found[n])[j]),
    decreases upto,
{
    let before = words_upto(found, (upto - 1) as nat);
    if n == upto - 1 {
        assert(words_upto(found, upto)[before.len() + j] == tokens(found[n])[j]);
    } else {
        lemma_words_upto_holds(found, (upto - 1) as nat, n, j);
        let k = choose|k: int| 0 <= k < before.len() && before[k] == tokens(found[n])[j];
        assert(words_upto(found, upto)[k] == tokens(found[n])[j]);
    }
}

/// The vocabulary of a corpus holds every word of every sentence of it.
pub proof fn lemma_vocabulary_complete(corpus: Seq<char>, n: int, j: int)
    requires
        0 <= n < sentences(corpus).len(),
        0 <= j < tokens(sentences(corpus)[n]).len(),
    ensures
        vocabulary(corpus).contains(tokens(sentences(corpus)[n])[j]),
{
    lemma_words_upto_holds(sentences(corpus), sentences(corpus).len(), n, j);
    lemma_first_occurrences(corpus_words(corpus));
}

/// Where `word` first stands among `words`, if it does.
pub fn find_word(words: &Vec<String>, word: &String) -> (found: Option<usize>)
    ensures
        match found {
            Some(i) => i < words.len() && words[i as int]@ == word@ && forall|j: int|
                0 <= j < i ==> words[j]@ != word@,
            None => !strings(words@).contains(word@),
        },
{
    let mut i: usize = 0;
    while i < words.len()
        invariant
            i <= words.len(),
            forall|j: int| 0 <= j < i ==> words[j]@ != word@,
        decreases words.len() - i,
    {
        if words[i].eq(word) {
            return Some(i);
        }
        i += 1;
    }
    None
}

/// The vocabulary of a corpus: its distinct words, in the order in which
/// each is first seen.
pub fn vocabulary_of(corpus: &str) -> (words: Vec<String>)
    ensures
        strings(words@) == vocabulary(corpus@),
{
    let found = split_corpus(corpus);
    let ghost all = sentences(corpus@);
    let mut vocab: Vec<String> = Vec::new();
    let mut n: usize = 0;
    while n < found.len()
        invariant
            n <= found.len(),
            found.len() == all.len(),
            all == sentences(corpus@),
            strings(found@) == all,
            strings(vocab@) == first_occurrences(words_upto(all, n as nat)),
        decreases found.len() - n,
    {
        let words = split_sentence(found[n].clone());
        let ghost before = words_upto(all, n as nat);
        let ghost added = tokens(all[n as int]);
        let mut j: usize = 0;
        while j < words.len()
            invariant
                j <= words.len(),
                words.len() == added.len(),
                strings(words@) == added,
                strings(vocab@) == first_occurrences(before + added.take(j as int)),
            decreases words.len() - j,
        {
            proof {
                let longer = before + added.take(j + 1);
                assert(longer.drop_last() =~= before + added.take(j as int));
            }
            let ghost seen = strings(vocab@);
            match find_word(&vocab, &words[j]) {
                None => {
                    vocab.push(words[j].clone());
                },
                Some(at) => {
                    assert(seen[at as int] == words[j as int]@);
                },
            }
            j += 1;
        }
        assert(added.take(j as int) =~= added);
        n += 1;
    }
    vocab
}

} // verus!
