//! The phrase dictionary: which sequences of word ids count as attested.

use crate::phrase_set::{
    digits_of, lemma_horner_nonnegative, lemma_horner_within_table, table_size, PhraseSet,
};
use crate::corpus::{
    corpus_phrases, corpus_to_phrases, covers, encoded, holds_words, lemma_attested_is_run,
    lemma_stretch_attested,
};
use crate::string_handlers::{
    key_of, keys_fit, phrase_key, phrase_keys, try_corpus_to_set, Codec,
};
use crate::text::{sentences, tokens};
use crate::vocabulary::lemma_first_occurrences;
use std::collections::HashSet;
use vstd::prelude::*;

verus! {

/// The digits of a phrase of `u32` word ids.
pub open spec fn word_digits(key: Seq<u32>) -> Seq<int> {
    key.map_values(|w: u32| w as int)
}

/// The encodings in which a dictionary can be kept.
#[derive(Clone, Copy)]
pub enum Backend {
    /// The attested phrases themselves.
    Sequences,
    /// The 64-bit mixed-radix codes of the attested phrases, in a hash set.
    Codes,
    /// One bit for each mixed-radix code, in a flat table.
    Table,
}

/// A membership oracle over phrases, in one of its encodings.
pub enum PhraseDictionary {
    /// The attested phrases themselves, each as its word ids.
    Sequences(Vec<Vec<u32>>),
    /// The mixed-radix codes of the attested phrases.
    Codes { radix: u64, keys: HashSet<u64> },
    /// A flat table of flags addressed by the mixed-radix code of a phrase.
    Table(PhraseSet),
}

/// What a dictionary built from the phrases `found` answers: in the encoding
/// by sequences, whether the phrase is one of them; in the encodings by
/// code, whether one of them has the code of the phrase in the given radix.
pub open spec fn attested(backend: Backend, found: Seq<Seq<u32>>, radix: int) -> spec_fn(
    Seq<u32>,
) -> bool {
    match backend {
        Backend::Sequences => |key: Seq<u32>| found.contains(key),
        _ => |key: Seq<u32>|
            exists|k: int|
                0 <= k < found.len() && key_of(radix, #[trigger] found[k]) == key_of(radix, key),
    }
}

/// Whether a dictionary in the given encoding can hold the phrases: for a
/// list of codes their codes must fit in 64 bits, and for a table a `usize`
/// must be able to count its slots.
pub open spec fn buildable(backend: Backend, found: Seq<Seq<u32>>, radix: int, max: nat) -> bool {
    match backend {
        Backend::Sequences => true,
        Backend::Codes => keys_fit(radix, found),
        Backend::Table => table_size(radix, max) <= usize::MAX,
    }
}

impl PhraseDictionary {
    /// Whether the dictionary answers that `key` is attested.
    pub open spec fn holds(&self, key: Seq<u32>) -> bool {
        match self {
            PhraseDictionary::Sequences(phrases) => exists|i: int|
                0 <= i < phrases.len() && (#[trigger] phrases[i])@ == key,
            PhraseDictionary::Codes { radix, keys } => key_of(*radix as int, key) <= u64::MAX
                && keys@.contains(key_of(*radix as int, key) as u64),
            PhraseDictionary::Table(table) => table@.contains(key_of(table.radix() as int, key)),
        }
    }

    /// The dictionary as a predicate on phrases.
    pub open spec fn oracle(&self) -> spec_fn(Seq<u32>) -> bool {
        |key: Seq<u32>| self.holds(key)
    }

    /// Whether the dictionary answers that `key` is attested.
    #[verifier::loop_isolation(false)]
    pub fn contains(&self, key: &Vec<u32>) -> (present: bool)
        ensures
            present == self.holds(key@),
    {
        match self {
            PhraseDictionary::Sequences(phrases) => {
                let mut i: usize = 0;
                while i < phrases.len()
                    invariant
                        i <= phrases.len(),
                        forall|j: int| 0 <= j < i ==> (#[trigger] phrases[j])@ != key@,
                    decreases phrases.len() - i,
                {
                    if same_words(&phrases[i], key) {
                        return true;
                    }
                    i += 1;
                }
                false
            },
            PhraseDictionary::Codes { radix, keys } => {
                match phrase_key(*radix, key) {
                    None => false,
                    Some(code) => keys.contains(&code),
                }
            },
            PhraseDictionary::Table(table) => {
                let digits = widened(key);
                table.contains_phrase(&digits)
            },
        }
    }

    /// The dictionary of the phrases of one to `max_length` words that the
    /// corpus attests, in the given encoding and with the size of the
    /// vocabulary as radix; or `None` where that encoding cannot hold them.
    #[verifier::loop_isolation(false)]
    pub fn build(backend: Backend, corpus: &str, max_length: usize, codec: &Codec) -> (built: Option<
        PhraseDictionary,
    >)
        requires
            codec.wf(),
            covers(codec, corpus@),
        ensures
            built is Some <==> buildable(
                backend,
                corpus_phrases(corpus@, codec.vocabulary(), max_length as nat),
                codec.vocabulary().len() as int,
                max_length as nat,
            ),
            built matches Some(dict) ==> dict.oracle() == attested(
                backend,
                corpus_phrases(corpus@, codec.vocabulary(), max_length as nat),
                codec.vocabulary().len() as int,
            ),
    {
        let ghost found = corpus_phrases(corpus@, codec.vocabulary(), max_length as nat);
        let ghost radix = codec.vocabulary().len() as int;
        match backend {
            Backend::Sequences => {
                let phrases = corpus_to_phrases(corpus, max_length, codec);
                proof {
                    assert forall|i: int| 0 <= i < phrases.len() implies (#[trigger] phrases[i])@
                        == found[i] by {}
                }
                let ghost listed = phrases@;
                let dict = PhraseDictionary::Sequences(phrases);
                proof {
                    assert forall|key: Seq<u32>|
                        dict.holds(key) == attested(backend, found, radix)(key) by {
                        if dict.holds(key) {
                            let i = choose|i: int|
                                0 <= i < listed.len() && (#[trigger] listed[i])@ == key;
                        }
                        if found.contains(key) {
                            let i = choose|i: int| 0 <= i < found.len() && found[i] == key;
                            assert(dict->Sequences_0[i]@ == key);
                        }
                    }
                }
                Some(dict)
            },
            Backend::Codes => {
                let size = codec.size();
                match try_corpus_to_set(corpus, max_length, codec, size as usize) {
                    None => None,
                    Some(listed) => {
                        let keys = key_set(&listed);
                        let dict = PhraseDictionary::Codes { radix: size as u64, keys };
                        proof {
                            lemma_first_occurrences(phrase_keys(radix, found));
                            assert forall|key: Seq<u32>|
                                dict.holds(key) == attested(backend, found, radix)(key) by {
                                let code = key_of(radix, key);
                                lemma_horner_nonnegative(radix, word_digits(key));
                                assert forall|k: int| 0 <= k < found.len() implies 0 <= key_of(
                                    radix,
                                    #[trigger] found[k],
                                ) <= u64::MAX by {
                                    lemma_horner_nonnegative(radix, word_digits(found[k]));
                                }
                                if dict.holds(key) {
                                    assert(phrase_keys(radix, found).contains(code as u64));
                                    let k = choose|k: int|
                                        0 <= k < found.len() && phrase_keys(radix, found)[k]
                                            == code as u64;
                                }
                                if attested(backend, found, radix)(key) {
                                    let k = choose|k: int|
                                        0 <= k < found.len() && key_of(radix, #[trigger] found[k])
                                            == code;
                                    assert(phrase_keys(radix, found)[k] == code as u64);
                                    assert(phrase_keys(radix, found).contains(code as u64));
                                }
                            }
                        }
                        Some(dict)
                    },
                }
            },
            Backend::Table => {
                let size = codec.size();
                let phrases = corpus_to_phrases(corpus, max_length, codec);
                let mut table = match PhraseSet::try_new(size as usize, max_length) {
                    None => {
                        return None;
                    },
                    Some(table) => table,
                };
                let mut n: usize = 0;
                while n < phrases.len()
                    invariant
                        n <= phrases.len(),
                        table.radix() == radix,
                        table.slots() == table_size(radix, max_length as nat),
                        forall|code: int|
                            table@.contains(code) <==> exists|k: int|
                                0 <= k < n && key_of(radix, #[trigger] found[k]) == code,
                    decreases phrases.len() - n,
                {
                    proof {
                        assert(phrases[n as int].deep_view() =~= phrases[n as int]@);
                        lemma_attested_is_run(
                            corpus@,
                            codec.vocabulary(),
                            max_length as nat,
                            n as int,
                        );
                        lemma_horner_within_table(
                            radix,
                            word_digits(found[n as int]),
                            max_length as nat,
                        );
                    }
                    let digits = widened(&phrases[n]);
                    let ghost before = table@;
                    table.insert(digits);
                    proof {
                        assert forall|code: int|
                            table@.contains(code) <==> exists|k: int|
                                0 <= k < n + 1 && key_of(radix, #[trigger] found[k]) == code by {
                            if before.contains(code) {
                                let k = choose|k: int|
                                    0 <= k < n && key_of(radix, #[trigger] found[k]) == code;
                            }
                            if exists|k: int|
                                0 <= k < n + 1 && key_of(radix, #[trigger] found[k]) == code {
                                let k = choose|k: int|
                                    0 <= k < n + 1 && key_of(radix, #[trigger] found[k]) == code;
                            }
                        }
                    }
                    n += 1;
                }
                let dict = PhraseDictionary::Table(table);
                proof {
                    assert forall|key: Seq<u32>|
                        dict.holds(key) == attested(backend, found, radix)(key) by {
                        let code = key_of(radix, key);
                        if table@.contains(code) {
                            let k = choose|k: int|
                                0 <= k < n && key_of(radix, #[trigger] found[k]) == code;
                        }
                    }
                }
                Some(dict)
            },
        }
    }
}

/// The codes of a list as a set.
pub fn key_set(listed: &Vec<u64>) -> (keys: HashSet<u64>)
    ensures
        forall|code: u64| keys@.contains(code) <==> listed@.contains(code),
{
    let mut keys: HashSet<u64> = HashSet::new();
    let mut i: usize = 0;
    while i < listed.len()
        invariant
            i <= listed.len(),
            forall|code: u64| keys@.contains(code) <==> listed@.take(i as int).contains(code),
        decreases listed.len() - i,
    {
        let ghost before = keys@;
        keys.insert(listed[i]);
        proof {
            let longer = listed@.take(i + 1);
            assert forall|code: u64| keys@.contains(code) <==> longer.contains(code) by {
                if before.contains(code) {
                    let j = choose|j: int|
                        0 <= j < i && listed@.take(i as int)[j] == code;
                }
                if code == listed[i as int] {
                    assert(longer[i as int] == code);
                }
                if longer.contains(code) {
                    let j = choose|j: int| 0 <= j < longer.len() && longer[j] == code;
                }
            }
        }
        i += 1;
    }
    assert(listed@.take(i as int) =~= listed@);
    keys
}

/// The word ids as `usize` digits.
pub fn widened(key: &Vec<u32>) -> (digits: Vec<usize>)
    ensures
        digits_of(digits@) == word_digits(key@),
{
    let mut digits: Vec<usize> = Vec::with_capacity(key.len());
    let mut i: usize = 0;
    while i < key.len()
        invariant
            i <= key.len(),
            digits.len() == i,
            forall|j: int| 0 <= j < i ==> digits[j] == key[j],
        decreases key.len() - i,
    {
        digits.push(key[i] as usize);
        i += 1;
    }
    digits
}

/// Whether two phrases hold the same word ids in the same order.
pub fn same_words(a: &Vec<u32>, b: &Vec<u32>) -> (same: bool)
    ensures
        same == (a@ == b@),
{
    if a.len() != b.len() {
        return false;
    }
    let mut i: usize = 0;
    while i < a.len()
        invariant
            i <= a.len(),
            a.len() == b.len(),
            forall|j: int| 0 <= j < i ==> a[j] == b[j],
        decreases a.len() - i,
    {
        if a[i] != b[i] {
            return false;
        }
        i += 1;
    }
    assert(a@ =~= b@);
    true
}

/// Every stretch of one to `max` words of every sentence of a corpus is
/// attested by a dictionary built from the corpus, whatever its encoding.
pub proof fn lemma_corpus_stretch_held(
    backend: Backend,
    corpus: Seq<char>,
    vocab: Seq<Seq<char>>,
    max: nat,
    n: int,
    from: int,
    to: int,
)
    requires
        0 <= n < sentences(corpus).len(),
        0 <= from < to <= tokens(sentences(corpus)[n]).len(),
        to - from <= max,
    ensures
        attested(backend, corpus_phrases(corpus, vocab, max), vocab.len() as int)(
            encoded(vocab, tokens(sentences(corpus)[n]).subrange(from, to)),
        ),
{
    let found = corpus_phrases(corpus, vocab, max);
    let key = encoded(vocab, tokens(sentences(corpus)[n]).subrange(from, to));
    lemma_stretch_attested(corpus, vocab, max, n, from, to);
    let k = choose|k: int| 0 <= k < found.len() && found[k] == key;
}

/// A phrase that holds an id that is no word's is not among the phrases
/// that a corpus attests, where the vocabulary holds every word of the
/// corpus.
pub proof fn lemma_foreign_word_unattested(
    corpus: Seq<char>,
    vocab: Seq<Seq<char>>,
    max: nat,
    key: Seq<u32>,
    i: int,
)
    requires
        holds_words(vocab, corpus),
        vocab.len() <= u32::MAX,
        0 <= i < key.len(),
        key[i] >= vocab.len(),
    ensures
        !attested(Backend::Sequences, corpus_phrases(corpus, vocab, max), vocab.len() as int)(key),
{
    let found = corpus_phrases(corpus, vocab, max);
    if found.contains(key) {
        let k = choose|k: int| 0 <= k < found.len() && found[k] == key;
        lemma_attested_is_run(corpus, vocab, max, k);
    }
}

} // verus!
