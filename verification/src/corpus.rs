//! The phrases that a corpus attests, as sequences of word ids.

use crate::string_handlers::{phrases, runs_of, runs_upto, split_corpus, split_sentence, texts, Codec};
use crate::text::{sentences, strings, tokens};
use crate::vocabulary::{
    corpus_words, lemma_first_occurrences, lemma_words_upto_holds, vocabulary,
};
use vstd::prelude::*;

verus! {

/// The ids of the words of a phrase.
pub open spec fn encoded(vocab: Seq<Seq<char>>, phrase: Seq<Seq<char>>) -> Seq<u32> {
    phrase.map_values(|word: Seq<char>| vocab.index_of(word) as u32)
}

/// Of the runs, those of at most `max` words, each as the ids of its words.
pub open spec fn short_encoded(vocab: Seq<Seq<char>>, runs: Seq<Seq<Seq<char>>>, max: nat) -> Seq<
    Seq<u32>,
>
    decreases runs.len(),
{
    if runs.len() == 0 {
        Seq::empty()
    } else {
        let before = short_encoded(vocab, runs.drop_last(), max);
        if runs.last().len() <= max {
            before.push(encoded(vocab, runs.last()))
        } else {
            before
        }
    }
}

/// The phrases of the first `upto` sentences: of each sentence in turn, the
/// runs of at most `max` words, as ids.
pub open spec fn phrases_upto(
    vocab: Seq<Seq<char>>,
    found: Seq<Seq<char>>,
    max: nat,
    upto: nat,
) -> Seq<Seq<u32>>
    decreases upto,
{
    if upto == 0 {
        Seq::empty()
    } else {
        phrases_upto(vocab, found, max, (upto - 1) as nat) + short_encoded(
            vocab,
            runs_of(tokens(found[upto - 1])),
            max,
        )
    }
}

/// The phrases that a corpus attests: every run of one to `max` words of
/// every sentence, as ids, in the order of the text.
pub open spec fn corpus_phrases(corpus: Seq<char>, vocab: Seq<Seq<char>>, max: nat) -> Seq<
    Seq<u32>,
> {
    phrases_upto(vocab, sentences(corpus), max, sentences(corpus).len())
}

/// Whether the vocabulary holds every word of the corpus.
pub open spec fn holds_words(vocab: Seq<Seq<char>>, corpus: Seq<char>) -> bool {
    forall|word: Seq<char>| #[trigger] corpus_words(corpus).contains(word) ==> vocab.contains(word)
}

/// Whether the codec has an id for every word of the corpus.
pub open spec fn covers(codec: &Codec, corpus: Seq<char>) -> bool {
    holds_words(codec.vocabulary(), corpus)
}

/// The codec of a corpus has an id for every word of it.
pub proof fn lemma_own_codec_covers(codec: &Codec, corpus: Seq<char>)
    requires
        codec.vocabulary() == vocabulary(corpus),
    ensures
        covers(codec, corpus),
{
    lemma_first_occurrences(corpus_words(corpus));
}

/// A run of a sequence has at least one item, at most as many as the
/// sequence, and each of its items is an item of the sequence.
pub proof fn lemma_runs_items<T>(xs: Seq<T>, upto: nat, k: int)
    requires
        upto <= xs.len(),
        0 <= k < runs_upto(xs, upto).len(),
    ensures
        1 <= runs_upto(xs, upto)[k].len() <= xs.len(),
        forall|i: int|
            0 <= i < runs_upto(xs, upto)[k].len() ==> xs.contains(
                #[trigger] runs_upto(xs, upto)[k][i],
            ),
    decreases upto,
{
    let before = runs_upto(xs, (upto - 1) as nat);
    if k < before.len() {
        lemma_runs_items(xs, (upto - 1) as nat, k);
    } else {
        let run = runs_upto(xs, upto)[k];
    }
}

/// Every stretch of a sequence is among its runs.
pub proof fn lemma_runs_complete<T>(xs: Seq<T>, upto: nat, from: int, to: int)
    requires
        0 <= from < to <= upto <= xs.len(),
    ensures
        runs_upto(xs, upto).contains(xs.subrange(from, to)),
    decreases upto,
{
    let before = runs_upto(xs, (upto - 1) as nat);
    let all = runs_upto(xs, upto);
    if to == upto {
        assert(all[before.len() + from] == xs.take(upto as int).skip(from));
        assert(xs.take(upto as int).skip(from) =~= xs.subrange(from, to));
    } else {
        lemma_runs_complete(xs, (upto - 1) as nat, from, to);
        let k = choose|k: int| 0 <= k < before.len() && before[k] == xs.subrange(from, to);
        assert(all[k] == xs.subrange(from, to));
    }
}

/// A run of at most `max` words is kept, as ids.
pub proof fn lemma_short_encoded_holds(
    vocab: Seq<Seq<char>>,
    runs: Seq<Seq<Seq<char>>>,
    max: nat,
    k: int,
)
    requires
        0 <= k < runs.len(),
        runs[k].len() <= max,
    ensures
        short_encoded(vocab, runs, max).contains(encoded(vocab, runs[k])),
    decreases runs.len(),
{
    let before = short_encoded(vocab, runs.drop_last(), max);
    let all = short_encoded(vocab, runs, max);
    if k == runs.len() - 1 {
        assert(all[all.len() - 1] == encoded(vocab, runs[k]));
    } else {
        lemma_short_encoded_holds(vocab, runs.drop_last(), max, k);
        let at = choose|at: int| 0 <= at < before.len() && before[at] == encoded(vocab, runs[k]);
        assert(all[at] == encoded(vocab, runs[k]));
    }
}

/// The phrases of a sentence are among the phrases up to that sentence.
pub proof fn lemma_phrases_upto_holds(
    vocab: Seq<Seq<char>>,
    found: Seq<Seq<char>>,
    max: nat,
    upto: nat,
    n: int,
    phrase: Seq<u32>,
)
    requires
        0 <= n < upto,
        short_encoded(vocab, runs_of(tokens(found[n])), max).contains(phrase),
    ensures
        phrases_upto(vocab, found, max, upto).contains(phrase),
    decreases upto,
{
    let before = phrases_upto(vocab, found, max, (upto - 1) as nat);
    let all = phrases_upto(vocab, found, max, upto);
    let here = short_encoded(vocab, runs_of(tokens(found[upto - 1])), max);
    if n == upto - 1 {
        let k = choose|k: int| 0 <= k < here.len() && here[k] == phrase;
        assert(all[before.len() + k] == phrase);
    } else {
        lemma_phrases_upto_holds(vocab, found, max, (upto - 1) as nat, n, phrase);
        let k = choose|k: int| 0 <= k < before.len() && before[k] == phrase;
        assert(all[k] == phrase);
    }
}

/// Every stretch of one to `max` words of every sentence of a corpus is
/// among the phrases that the corpus attests.
pub proof fn lemma_stretch_attested(
    corpus: Seq<char>,
    vocab: Seq<Seq<char>>,
    max: nat,
    n: int,
    from: int,
    to: int,
)
    requires
        0 <= n < sentences(corpus).len(),
        0 <= from < to <= tokens(sentences(corpus)[n]).len(),
        to - from <= max,
    ensures
        corpus_phrases(corpus, vocab, max).contains(
            encoded(vocab, tokens(sentences(corpus)[n]).subrange(from, to)),
        ),
{
    let words = tokens(sentences(corpus)[n]);
    let runs = runs_of(words);
    lemma_runs_complete(words, words.len(), from, to);
    let k = choose|k: int| 0 <= k < runs.len() && runs[k] == words.subrange(from, to);
    lemma_short_encoded_holds(vocab, runs, max, k);
    lemma_phrases_upto_holds(
        vocab,
        sentences(corpus),
        max,
        sentences(corpus).len(),
        n,
        encoded(vocab, words.subrange(from, to)),
    );
}

/// A kept phrase is the ids of one of the runs, one of at most `max` words.
pub proof fn lemma_short_encoded_from(
    vocab: Seq<Seq<char>>,
    runs: Seq<Seq<Seq<char>>>,
    max: nat,
    k: int,
) -> (j: int)
    requires
        0 <= k < short_encoded(vocab, runs, max).len(),
    ensures
        0 <= j < runs.len(),
        runs[j].len() <= max,
        short_encoded(vocab, runs, max)[k] == encoded(vocab, runs[j]),
    decreases runs.len(),
{
    let before = short_encoded(vocab, runs.drop_last(), max);
    if k < before.len() {
        lemma_short_encoded_from(vocab, runs.drop_last(), max, k)
    } else {
        runs.len() - 1
    }
}

/// A phrase up to a sentence is a kept phrase of one of the sentences before
/// it.
pub proof fn lemma_phrases_upto_from(
    vocab: Seq<Seq<char>>,
    found: Seq<Seq<char>>,
    max: nat,
    upto: nat,
    k: int,
) -> (place: (int, int))
    requires
        0 <= k < phrases_upto(vocab, found, max, upto).len(),
    ensures
        0 <= place.0 < upto,
        0 <= place.1 < short_encoded(vocab, runs_of(tokens(found[place.0])), max).len(),
        phrases_upto(vocab, found, max, upto)[k] == short_encoded(
            vocab,
            runs_of(tokens(found[place.0])),
            max,
        )[place.1],
    decreases upto,
{
    let before = phrases_upto(vocab, found, max, (upto - 1) as nat);
    if k < before.len() {
        lemma_phrases_upto_from(vocab, found, max, (upto - 1) as nat, k)
    } else {
        (upto - 1, k - before.len())
    }
}

/// Each phrase that a corpus attests is the ids of a run of one to `max`
/// words of one of its sentences; where the vocabulary holds every word of
/// the corpus, each of its ids is the id of a word.
pub proof fn lemma_attested_is_run(corpus: Seq<char>, vocab: Seq<Seq<char>>, max: nat, k: int) -> (place:
    (int, int))
    requires
        0 <= k < corpus_phrases(corpus, vocab, max).len(),
    ensures
        0 <= place.0 < sentences(corpus).len(),
        0 <= place.1 < runs_of(tokens(sentences(corpus)[place.0])).len(),
        1 <= runs_of(tokens(sentences(corpus)[place.0]))[place.1].len() <= max,
        corpus_phrases(corpus, vocab, max)[k] == encoded(
            vocab,
            runs_of(tokens(sentences(corpus)[place.0]))[place.1],
        ),
        1 <= corpus_phrases(corpus, vocab, max)[k].len() <= max,
        holds_words(vocab, corpus) && vocab.len() <= u32::MAX ==> forall|i: int|
            0 <= i < corpus_phrases(corpus, vocab, max)[k].len() ==> (#[trigger] corpus_phrases(
                corpus,
                vocab,
                max,
            )[k][i]) < vocab.len(),
{
    let found = sentences(corpus);
    let (n, at) = lemma_phrases_upto_from(vocab, found, max, found.len(), k);
    let words = tokens(found[n]);
    let runs = runs_of(words);
    let j = lemma_short_encoded_from(vocab, runs, max, at);
    lemma_runs_items(words, words.len(), j);
    let phrase = corpus_phrases(corpus, vocab, max)[k];
    if holds_words(vocab, corpus) && vocab.len() <= u32::MAX {
        assert forall|i: int| 0 <= i < phrase.len() implies (#[trigger] phrase[i]) < vocab.len() by {
            let word = runs[j][i];
            let t = choose|t: int| 0 <= t < words.len() && words[t] == word;
            lemma_words_upto_holds(found, found.len(), n, t);
            assert(corpus_words(corpus).contains(word));
        }
    }
    (n, j)
}

/// The ids of the words of a phrase.
pub fn encode_phrase(codec: &Codec, phrase: &Vec<String>) -> (ids: Vec<u32>)
    requires
        codec.wf(),
        forall|i: int| 0 <= i < phrase.len() ==> codec.knows((#[trigger] phrase[i])@),
    ensures
        ids@ == encoded(codec.vocabulary(), strings(phrase@)),
{
    let mut ids: Vec<u32> = Vec::new();
    let mut i: usize = 0;
    while i < phrase.len()
        invariant
            i <= phrase.len(),
            codec.wf(),
            forall|j: int| 0 <= j < phrase.len() ==> codec.knows((#[trigger] phrase[j])@),
            ids.len() == i,
            forall|j: int| 0 <= j < i ==> ids[j] == codec.id_of(phrase[j]@) as u32,
        decreases phrase.len() - i,
    {
        let id = codec.encode(&phrase[i]).unwrap();
        ids.push(id);
        i += 1;
    }
    ids
}

/// The phrases that the corpus attests: every run of one to `max_length`
/// words of every sentence, as ids, in the order of the text.
pub fn corpus_to_phrases(corpus: &str, max_length: usize, codec: &Codec) -> (found: Vec<Vec<u32>>)
    requires
        codec.wf(),
        covers(codec, corpus@),
    ensures
        found.deep_view() == corpus_phrases(corpus@, codec.vocabulary(), max_length as nat),
{
    let ghost vocab = codec.vocabulary();
    let ghost all = sentences(corpus@);
    let ghost max = max_length as nat;
    let lines = split_corpus(corpus);
    let mut found: Vec<Vec<u32>> = Vec::new();
    let mut n: usize = 0;
    while n < lines.len()
        invariant
            n <= lines.len(),
            lines.len() == all.len(),
            strings(lines@) == all,
            all == sentences(corpus@),
            vocab == codec.vocabulary(),
            max == max_length,
            codec.wf(),
            covers(codec, corpus@),
            found.deep_view() == phrases_upto(vocab, all, max, n as nat),
        decreases lines.len() - n,
    {
        let sentence_vec = split_sentence(lines[n].clone());
        let ghost words = tokens(all[n as int]);
        let runs = phrases(sentence_vec);
        let ghost before = found.deep_view();
        let mut k: usize = 0;
        while k < runs.len()
            invariant
                k <= runs.len(),
                n < all.len(),
                words == tokens(all[n as int]),
                all == sentences(corpus@),
                texts(runs@) == runs_of(words),
                vocab == codec.vocabulary(),
                max == max_length,
                codec.wf(),
                covers(codec, corpus@),
                found.deep_view() == before + short_encoded(
                    vocab,
                    texts(runs@).take(k as int),
                    max,
                ),
            decreases runs.len() - k,
        {
            let phrase = &runs[k];
            let ghost seen = found.deep_view();
            proof {
                assert(texts(runs@).take(k + 1).drop_last() =~= texts(runs@).take(k as int));
            }
            if phrase.len() <= max_length {
                proof {
                    lemma_runs_items(words, words.len(), k as int);
                    assert forall|i: int| 0 <= i < phrase.len() implies codec.knows(
                        (#[trigger] phrase[i])@,
                    ) by {
                        assert(strings(phrase@)[i] == phrase[i]@);
                        let j = choose|j: int| 0 <= j < words.len() && words[j] == phrase[i]@;
                        lemma_words_upto_holds(all, all.len(), n as int, j);
                        assert(corpus_words(corpus@).contains(phrase[i]@));
                    }
                }
                let ids = encode_phrase(codec, phrase);
                assert(ids.deep_view() =~= ids@);
                found.push(ids);
                assert(found.deep_view() =~= seen.push(encoded(vocab, strings(phrase@))));
            }
            k += 1;
        }
        assert(texts(runs@).take(k as int) =~= texts(runs@));
        n += 1;
    }
    found
}

} // verus!
