//! From corpus text to sentences, words, word ids and phrase codes.

use crate::corpus::{
    corpus_phrases, corpus_to_phrases, covers, encoded, lemma_stretch_attested,
};
use crate::dictionary::word_digits;
use crate::phrase_set::{horner, lemma_horner_prefix_le};
use crate::text::{
    chars_of, clean_sentence, keep_nonempty, nonempty, rows, sentences, split_chars, split_on,
    string_from_chars, strings, tokens, Separator,
};
use crate::vocabulary::{
    corpus_words, find_word, first_occurrences, lemma_first_occurrences,
    lemma_vocabulary_complete, vocabulary, vocabulary_of,
};
use itertools::Itertools;
use vstd::prelude::*;

verus! {

/// The sentences of a corpus: its non-empty stretches between sentence
/// terminators, each trimmed, its tokens reduced to their letters in lower
/// case and joined by single spaces.
pub fn split_corpus(x: &str) -> (found: Vec<String>)
    ensures
        strings(found@) == sentences(x@),
{
    let text = chars_of(x);
    let raw = keep_nonempty(split_chars(&text, Separator::SentenceEnd));
    let ghost wanted = sentences(x@);
    let mut found: Vec<String> = Vec::new();
    let mut i: usize = 0;
    while i < raw.len()
        invariant
            i <= raw.len(),
            rows(raw@) == nonempty(split_on(x@, Separator::SentenceEnd)),
            wanted == sentences(x@),
            found.len() == i,
            forall|j: int| 0 <= j < i ==> (#[trigger] found[j])@ == wanted[j],
        decreases raw.len() - i,
    {
        found.push(clean_sentence(&raw[i]));
        i += 1;
    }
    found
}

/// The words of a sentence: its maximal runs without ASCII whitespace.
pub fn split_sentence(sentence: String) -> (words: Vec<String>)
    ensures
        strings(words@) == tokens(sentence@),
{
    let text = chars_of(sentence.as_str());
    let found = keep_nonempty(split_chars(&text, Separator::Space));
    let mut words: Vec<String> = Vec::new();
    let mut i: usize = 0;
    while i < found.len()
        invariant
            i <= found.len(),
            rows(found@) == tokens(sentence@),
            words.len() == i,
            forall|j: int| 0 <= j < i ==> (#[trigger] words[j])@ == tokens(sentence@)[j],
        decreases found.len() - i,
    {
        words.push(string_from_chars(&found[i]));
        i += 1;
    }
    words
}

/// The texts of a sequence of phrases.
pub open spec fn texts(items: Seq<Vec<String>>) -> Seq<Seq<Seq<char>>> {
    items.map_values(|item: Vec<String>| strings(item@))
}

/// The part of `xs` from `from` up to, not including, `to`.
pub fn slice_of(xs: &Vec<String>, from: usize, to: usize) -> (part: Vec<String>)
    requires
        from <= to <= xs.len(),
    ensures
        strings(part@) == strings(xs@).subrange(from as int, to as int),
{
    let mut part: Vec<String> = Vec::new();
    let mut i: usize = from;
    while i < to
        invariant
            from <= i <= to,
            to <= xs.len(),
            strings(part@) == strings(xs@).subrange(from as int, i as int),
        decreases to - i,
    {
        let ghost before = strings(part@);
        part.push(xs[i].clone());
        assert(strings(part@) =~= before.push(xs[i as int]@));
        i += 1;
    }
    part
}

/// The suffixes of a sequence, the longest first; the empty one is left out.
pub open spec fn suffixes_of<T>(xs: Seq<T>) -> Seq<Seq<T>> {
    Seq::new(xs.len(), |i: int| xs.skip(i))
}

/// The prefixes of a sequence, the shortest first; the empty one is left out.
pub open spec fn prefixes_of<T>(xs: Seq<T>) -> Seq<Seq<T>> {
    Seq::new(xs.len(), |i: int| xs.take(i + 1))
}

/// The contiguous runs of a sequence that end within its first `upto` items:
/// for each end, in ascending order, the runs that end there, the longest
/// first.
pub open spec fn runs_upto<T>(xs: Seq<T>, upto: nat) -> Seq<Seq<T>>
    decreases upto,
{
    if upto == 0 {
        Seq::empty()
    } else {
        runs_upto(xs, (upto - 1) as nat) + suffixes_of(xs.take(upto as int))
    }
}

/// Every contiguous run of a sequence, the empty one left out.
pub open spec fn runs_of<T>(xs: Seq<T>) -> Seq<Seq<T>> {
    runs_upto(xs, xs.len())
}

/// The suffixes of the words, the longest first.
pub fn suffixes(xs: Vec<String>) -> (acc: Vec<Vec<String>>)
    ensures
        texts(acc@) == suffixes_of(strings(xs@)),
{
    let mut acc: Vec<Vec<String>> = Vec::new();
    let mut i: usize = 0;
    while i < xs.len()
        invariant
            i <= xs.len(),
            acc.len() == i,
            forall|j: int| 0 <= j < i ==> strings((#[trigger] acc[j])@) == strings(xs@).skip(j),
        decreases xs.len() - i,
    {
        let sliced = slice_of(&xs, i, xs.len());
        acc.push(sliced);
        i += 1;
    }
    acc
}

/// The prefixes of the words, the shortest first.
pub fn prefixes(xs: Vec<String>) -> (acc: Vec<Vec<String>>)
    ensures
        texts(acc@) == prefixes_of(strings(xs@)),
{
    let mut acc: Vec<Vec<String>> = Vec::new();
    let mut i: usize = 0;
    while i < xs.len()
        invariant
            i <= xs.len(),
            acc.len() == i,
            forall|j: int| 0 <= j < i ==> strings((#[trigger] acc[j])@) == strings(xs@).take(j + 1),
        decreases xs.len() - i,
    {
        let sliced = slice_of(&xs, 0, i + 1);
        acc.push(sliced);
        i += 1;
    }
    acc
}

/// Every contiguous run of the words: all the prefixes, and of each prefix
/// all the suffixes.
pub fn phrases(xs: Vec<String>) -> (all: Vec<Vec<String>>)
    ensures
        texts(all@) == runs_of(strings(xs@)),
{
    let ghost words = strings(xs@);
    let firsts = prefixes(xs);
    let mut all: Vec<Vec<String>> = Vec::new();
    let mut i: usize = 0;
    assert(texts(firsts@).len() == firsts.len());
    while i < firsts.len()
        invariant
            i <= firsts.len(),
            firsts.len() == words.len(),
            texts(firsts@) == prefixes_of(words),
            texts(all@) == runs_upto(words, i as nat),
        decreases firsts.len() - i,
    {
        proof {
            assert(texts(firsts@)[i as int] == strings(firsts[i as int]@));
        }
        let first = slice_of(&firsts[i], 0, firsts[i].len());
        assert(strings(first@) =~= words.take(i + 1));
        let mut lasts = suffixes(first);
        let ghost before = texts(all@);
        all.append(&mut lasts);
        i += 1;
    }
    all
}

/// What a codec answers when asked for the id of a word it has never seen.
#[derive(Debug)]
pub enum CodecError {
    UnknownWord,
}

/// The vocabulary of a corpus: each word stands at its id.
pub struct Codec {
    words: Vec<String>,
}

impl Codec {
    /// The words by id.
    pub closed spec fn vocabulary(&self) -> Seq<Seq<char>> {
        strings(self.words@)
    }

    /// No word has two ids, and every id fits in a `u32`.
    pub open spec fn wf(&self) -> bool {
        self.vocabulary().no_duplicates() && self.vocabulary().len() <= u32::MAX
    }

    /// Whether the word has an id.
    pub open spec fn knows(&self, word: Seq<char>) -> bool {
        self.vocabulary().contains(word)
    }

    /// The id of a word that has one.
    pub open spec fn id_of(&self, word: Seq<char>) -> int {
        self.vocabulary().index_of(word)
    }

    /// The number of words.
    pub fn size(&self) -> (count: u32)
        requires
            self.wf(),
        ensures
            count == self.vocabulary().len(),
    {
        self.words.len() as u32
    }

    /// The id of a word, or `UnknownWord` where the vocabulary lacks it.
    pub fn encode(&self, word: &String) -> (id: Result<u32, CodecError>)
        requires
            self.wf(),
        ensures
            id is Ok <==> self.knows(word@),
            id matches Ok(i) ==> i == self.id_of(word@) && i < self.vocabulary().len()
                && self.vocabulary()[i as int] == word@,
    {
        match find_word(&self.words, word) {
            Some(i) => {
                assert(self.vocabulary()[i as int] == word@);
                Ok(i as u32)
            },
            None => Err(CodecError::UnknownWord),
        }
    }

    /// The word of an id, or `None` where no word has the id.
    pub fn decode(&self, id: u32) -> (word: Option<String>)
        ensures
            word is Some <==> id < self.vocabulary().len(),
            word matches Some(w) ==> w@ == self.vocabulary()[id as int],
    {
        if (id as usize) < self.words.len() {
            Some(self.words[id as usize].clone())
        } else {
            None
        }
    }

    /// From a word to its id and back gives the word.
    pub proof fn lemma_word_round_trip(&self, word: Seq<char>)
        requires
            self.knows(word),
        ensures
            0 <= self.id_of(word) < self.vocabulary().len(),
            self.vocabulary()[self.id_of(word)] == word,
    {
    }

    /// From an id to its word and back gives the id.
    pub proof fn lemma_id_round_trip(&self, id: int)
        requires
            self.wf(),
            0 <= id < self.vocabulary().len(),
        ensures
            self.knows(self.vocabulary()[id]),
            self.id_of(self.vocabulary()[id]) == id,
    {
    }
}

/// The codec of a corpus has an id for every word of every sentence of it,
/// and the word of that id is the word.
pub proof fn lemma_corpus_word_round_trip(codec: &Codec, corpus: Seq<char>, n: int, j: int)
    requires
        codec.vocabulary() == vocabulary(corpus),
        0 <= n < sentences(corpus).len(),
        0 <= j < tokens(sentences(corpus)[n]).len(),
    ensures
        codec.knows(tokens(sentences(corpus)[n])[j]),
        0 <= codec.id_of(tokens(sentences(corpus)[n])[j]) < codec.vocabulary().len(),
        codec.vocabulary()[codec.id_of(tokens(sentences(corpus)[n])[j])] == tokens(
            sentences(corpus)[n],
        )[j],
{
    lemma_vocabulary_complete(corpus, n, j);
}

/// The codec of a corpus: the ids of its words are their ranks in the order
/// in which each is first seen.
pub fn make_codec(corpus: &str) -> (codec: Codec)
    requires
        vocabulary(corpus@).len() <= u32::MAX,
    ensures
        codec.wf(),
        codec.vocabulary() == vocabulary(corpus@),
{
    let words = vocabulary_of(corpus);
    proof {
        lemma_first_occurrences(corpus_words(corpus@));
    }
    Codec { words }
}

/// As `make_codec`, or `None` where the corpus has more distinct words than
/// a `u32` can number.
pub fn try_make_codec(corpus: &str) -> (made: Option<Codec>)
    ensures
        made is Some <==> vocabulary(corpus@).len() <= u32::MAX,
        made matches Some(codec) ==> codec.wf() && codec.vocabulary() == vocabulary(corpus@),
{
    let words = vocabulary_of(corpus);
    if words.len() <= u32::MAX as usize {
        proof {
            lemma_first_occurrences(corpus_words(corpus@));
        }
        Some(Codec { words })
    } else {
        None
    }
}

/// A running mixed-radix code in 64 bits: feed it word ids one at a time.
pub struct PhraseHash {
    h: u64,
    offset: u64,
}

impl PhraseHash {
    /// The code accumulated so far.
    pub closed spec fn value(&self) -> u64 {
        self.h
    }

    /// The radix by which the code is shifted before each new word.
    pub closed spec fn radix(&self) -> u64 {
        self.offset
    }

    /// A running code of zero, in the given radix.
    pub fn new(offset: u64) -> (h: Self)
        ensures
            h.value() == 0,
            h.radix() == offset,
    {
        PhraseHash { h: 0, offset }
    }

    /// Whether feeding `arg` keeps the code within 64 bits.
    pub open spec fn fits(&self, arg: u32) -> bool {
        self.value() * self.radix() + arg <= u64::MAX
    }

    /// Feeds `arg` unless the code would leave 64 bits; says whether it fed.
    pub fn try_hash_in(&mut self, arg: u32) -> (fed: bool)
        ensures
            fed == old(self).fits(arg),
            final(self).radix() == old(self).radix(),
            fed ==> final(self).value() == old(self).value() * old(self).radix() + arg,
            !fed ==> final(self).value() == old(self).value(),
    {
        match self.h.checked_mul(self.offset) {
            Some(shifted) => match shifted.checked_add(arg as u64) {
                Some(next) => {
                    self.h = next;
                    true
                },
                None => false,
            },
            None => false,
        }
    }

    /// Shifts the code by the radix and adds `arg`.
    pub fn hash_in(&mut self, arg: u32)
        requires
            old(self).fits(arg),
        ensures
            final(self).value() == old(self).value() * old(self).radix() + arg,
            final(self).radix() == old(self).radix(),
    {
        self.h = (self.h * self.offset) + (arg as u64);
    }

    /// The code accumulated so far.
    pub fn finish(&self) -> (code: u64)
        ensures
            code == self.value(),
    {
        self.h
    }
}

/// The mixed-radix code of a phrase of word ids.
pub open spec fn key_of(radix: int, phrase: Seq<u32>) -> int {
    horner(radix, word_digits(phrase))
}

/// The code of a phrase, or `None` where it does not fit in 64 bits.
pub fn phrase_key(radix: u64, phrase: &Vec<u32>) -> (key: Option<u64>)
    ensures
        key is Some <==> key_of(radix as int, phrase@) <= u64::MAX,
        key matches Some(k) ==> k == key_of(radix as int, phrase@),
{
    let ghost digits = word_digits(phrase@);
    let mut h = PhraseHash::new(radix);
    let mut i: usize = 0;
    while i < phrase.len()
        invariant
            i <= phrase.len(),
            digits == word_digits(phrase@),
            h.radix() == radix,
            h.value() == horner(radix as int, digits.take(i as int)),
        decreases phrase.len() - i,
    {
        let ghost before = h.value();
        let fed = h.try_hash_in(phrase[i]);
        proof {
            let next = digits.take(i + 1);
            assert(next.drop_last() =~= digits.take(i as int));
        }
        if !fed {
            proof {
                if radix >= 1 {
                    lemma_horner_prefix_le(radix as int, digits, i + 1);
                } else {
                    assert(before * radix == 0) by (nonlinear_arith)
                        requires
                            radix == 0,
                    ;
                }
            }
            return None;
        }
        i += 1;
    }
    assert(digits.take(i as int) =~= digits);
    Some(h.finish())
}

/// The codes of the phrases, in their order.
pub open spec fn phrase_keys(radix: int, found: Seq<Seq<u32>>) -> Seq<u64> {
    found.map_values(|phrase: Seq<u32>| key_of(radix, phrase) as u64)
}

/// Whether the code of each of the phrases fits in 64 bits.
pub open spec fn keys_fit(radix: int, found: Seq<Seq<u32>>) -> bool {
    forall|k: int| 0 <= k < found.len() ==> key_of(radix, #[trigger] found[k]) <= u64::MAX
}

/// The codes of the phrases that a corpus attests, each once, in the order
/// in which each is first seen.
pub open spec fn corpus_keys(corpus: Seq<char>, vocab: Seq<Seq<char>>, max: nat, radix: int) -> Seq<
    u64,
> {
    first_occurrences(phrase_keys(radix, corpus_phrases(corpus, vocab, max)))
}

/// `Itertools::unique` of itertools, over the items of a vector and
/// collected again: each item once, in the order in which each is first
/// seen.
#[verifier::external_body]
fn unique_keys(keys: Vec<u64>) -> (distinct: Vec<u64>)
    ensures
        distinct@ == first_occurrences(keys@),
{
    keys.into_iter().unique().collect()
}

/// The codes, in radix `length`, of the phrases of one to `max_length` words
/// that the corpus attests, each once, in the order in which each is first
/// seen; or `None` where one of the codes does not fit in 64 bits.
pub fn try_corpus_to_set(corpus: &str, max_length: usize, codec: &Codec, length: usize) -> (keys:
    Option<Vec<u64>>)
    requires
        codec.wf(),
        covers(codec, corpus@),
    ensures
        keys is Some <==> keys_fit(
            length as int,
            corpus_phrases(corpus@, codec.vocabulary(), max_length as nat),
        ),
        keys matches Some(k) ==> k@ == corpus_keys(
            corpus@,
            codec.vocabulary(),
            max_length as nat,
            length as int,
        ),
{
    let found = corpus_to_phrases(corpus, max_length, codec);
    let ghost wanted = corpus_phrases(corpus@, codec.vocabulary(), max_length as nat);
    let mut s: Vec<u64> = Vec::new();
    let mut k: usize = 0;
    while k < found.len()
        invariant
            k <= found.len(),
            found.deep_view() == wanted,
            wanted == corpus_phrases(corpus@, codec.vocabulary(), max_length as nat),
            s.len() == k,
            forall|j: int| 0 <= j < k ==> key_of(length as int, #[trigger] wanted[j]) == s[j],
        decreases found.len() - k,
    {
        proof {
            assert(found.deep_view()[k as int] == found[k as int].deep_view());
            assert(found[k as int].deep_view() =~= found[k as int]@);
        }
        match phrase_key(length as u64, &found[k]) {
            Some(to_add) => {
                s.push(to_add);
            },
            None => {
                return None;
            },
        }
        k += 1;
    }
    assert(s@ =~= phrase_keys(length as int, wanted));
    Some(unique_keys(s))
}

/// The codes, in radix `length`, of the phrases of one to `max_length` words
/// that the corpus attests, each once, in the order in which each is first
/// seen.
pub fn corpus_to_set(corpus: &str, max_length: usize, codec: &Codec, length: usize) -> (keys: Vec<
    u64,
>)
    requires
        codec.wf(),
        covers(codec, corpus@),
        keys_fit(length as int, corpus_phrases(corpus@, codec.vocabulary(), max_length as nat)),
    ensures
        keys@ == corpus_keys(corpus@, codec.vocabulary(), max_length as nat, length as int),
{
    try_corpus_to_set(corpus, max_length, codec, length).unwrap()
}

/// The keys of a corpus hold the code of every stretch of one to `max` words
/// of every sentence of it, where the code of each attested phrase fits in
/// 64 bits.
pub proof fn lemma_corpus_keys_hold_stretch(
    corpus: Seq<char>,
    vocab: Seq<Seq<char>>,
    max: nat,
    radix: int,
    n: int,
    from: int,
    to: int,
)
    requires
        keys_fit(radix, corpus_phrases(corpus, vocab, max)),
        0 <= n < sentences(corpus).len(),
        0 <= from < to <= tokens(sentences(corpus)[n]).len(),
        to - from <= max,
    ensures
        key_of(radix, encoded(vocab, tokens(sentences(corpus)[n]).subrange(from, to)))
            <= u64::MAX,
        corpus_keys(corpus, vocab, max, radix).contains(
            key_of(radix, encoded(vocab, tokens(sentences(corpus)[n]).subrange(from, to))) as u64,
        ),
{
    let found = corpus_phrases(corpus, vocab, max);
    let phrase = encoded(vocab, tokens(sentences(corpus)[n]).subrange(from, to));
    lemma_stretch_attested(corpus, vocab, max, n, from, to);
    let k = choose|k: int| 0 <= k < found.len() && found[k] == phrase;
    assert(phrase_keys(radix, found)[k] == key_of(radix, phrase) as u64);
    assert(phrase_keys(radix, found).contains(key_of(radix, phrase) as u64));
    lemma_first_occurrences(phrase_keys(radix, found));
}

} // verus!
