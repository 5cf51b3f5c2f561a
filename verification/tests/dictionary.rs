use bnb_fold::dictionary::{key_set, same_words, widened, Backend, PhraseDictionary};
use bnb_fold::digest::DigestSet;
use bnb_fold::phrase_set::{PhraseHash, PhraseSet};
use bnb_fold::corpus::corpus_to_phrases;
use bnb_fold::string_handlers::{
    corpus_to_set, make_codec, phrase_key, try_corpus_to_set, try_make_codec, CodecError,
};
use bnb_fold::vocabulary::vocabulary_of;

#[test]
fn codec_numbers_words_as_first_seen() {
    let codec = make_codec("The cat. the DOG, the cat!");
    assert_eq!(codec.size(), 3);
    assert_eq!(codec.encode(&"the".to_string()).unwrap(), 0);
    assert_eq!(codec.encode(&"cat".to_string()).unwrap(), 1);
    assert_eq!(codec.encode(&"dog".to_string()).unwrap(), 2);
    assert_eq!(codec.decode(2), Some("dog".to_string()));
    assert_eq!(codec.decode(3), None);
    assert_eq!(
        vocabulary_of("b a b c a."),
        vec!["b".to_string(), "a".to_string(), "c".to_string()]
    );
}

#[test]
fn codec_refuses_unknown_words() {
    let codec = make_codec("a b.");
    assert!(matches!(
        codec.encode(&"c".to_string()),
        Err(CodecError::UnknownWord)
    ));
    assert!(matches!(
        codec.encode(&"A".to_string()),
        Err(CodecError::UnknownWord)
    ));
    let empty = make_codec("");
    assert_eq!(empty.size(), 0);
    assert!(empty.encode(&"a".to_string()).is_err());
}

#[test]
fn decoding_an_encoded_word_gives_the_word() {
    let corpus = "Some words, some Other words; and more.";
    let codec = try_make_codec(corpus).unwrap();
    for word in ["some", "words", "other", "and", "more"] {
        let id = codec.encode(&word.to_string()).unwrap();
        assert_eq!(codec.decode(id), Some(word.to_string()));
    }
    for id in 0..codec.size() {
        let word = codec.decode(id).unwrap();
        assert_eq!(codec.encode(&word).unwrap(), id);
    }
}

#[test]
fn corpus_phrases_are_the_short_runs_of_each_sentence() {
    let corpus = "a b c. b a.";
    let codec = make_codec(corpus);
    assert_eq!(
        corpus_to_phrases(corpus, 2, &codec),
        vec![
            vec![0],
            vec![0, 1],
            vec![1],
            vec![1, 2],
            vec![2],
            vec![1],
            vec![1, 0],
            vec![0]
        ]
    );
    assert_eq!(
        corpus_to_phrases(corpus, 3, &codec).len(),
        9
    );
    let nothing: Vec<Vec<u32>> = vec![];
    assert_eq!(corpus_to_phrases(corpus, 0, &codec), nothing);
}

#[test]
fn corpus_to_set_codes_each_phrase_once() {
    let corpus = "a b. b a.";
    let codec = make_codec(corpus);
    assert_eq!(corpus_to_set(corpus, 2, &codec, 2), vec![0, 1, 2]);
    assert_eq!(corpus_to_set(corpus, 2, &codec, 10), vec![0, 1, 10]);
    assert_eq!(corpus_to_set(corpus, 1, &codec, 10), vec![0, 1]);
    let corpus = "a b c d. a c b d.";
    let codec = make_codec(corpus);
    assert_eq!(
        corpus_to_set(corpus, 2, &codec, 4),
        vec![0, 1, 6, 2, 11, 3, 9, 7]
    );
}

#[test]
fn codes_beyond_sixty_four_bits_are_reported() {
    let text = format!("a{}.", " b".repeat(33));
    let corpus = text.as_str();
    let codec = make_codec(corpus);
    assert_eq!(try_corpus_to_set(corpus, 33, &codec, 4), None);
    assert_eq!(try_corpus_to_set(corpus, 32, &codec, 4).unwrap().len(), 33);
    assert_eq!(phrase_key(10, &vec![1, 2, 3]), Some(123));
    assert_eq!(phrase_key(0, &vec![1, 2, 3]), Some(3));
    assert_eq!(phrase_key(1 << 32, &vec![1, 0, 0]), None);
    assert_eq!(phrase_key(1 << 32, &vec![0, u32::MAX, u32::MAX]), Some(u64::MAX));
}

#[test]
fn every_run_of_the_corpus_is_attested() {
    let corpus = "we few we happy few. we band of brothers.";
    let codec = make_codec(corpus);
    let sentences = [
        vec!["we", "few", "we", "happy", "few"],
        vec!["we", "band", "of", "brothers"],
    ];
    for backend in [Backend::Sequences, Backend::Codes, Backend::Table] {
        let dict = PhraseDictionary::build(backend, corpus, 3, &codec).unwrap();
        for sentence in &sentences {
            for from in 0..sentence.len() {
                for to in from + 1..=sentence.len().min(from + 3) {
                    let key: Vec<u32> = sentence[from..to]
                        .iter()
                        .map(|w| codec.encode(&w.to_string()).unwrap())
                        .collect();
                    assert!(dict.contains(&key));
                }
            }
        }
    }
}

#[test]
fn unattested_phrases_are_not_held() {
    let corpus = "we few we happy few. we band of brothers.";
    let codec = make_codec(corpus);
    let few = codec.encode(&"few".to_string()).unwrap();
    let band = codec.encode(&"band".to_string()).unwrap();
    let of = codec.encode(&"of".to_string()).unwrap();
    for backend in [Backend::Sequences, Backend::Codes, Backend::Table] {
        let dict = PhraseDictionary::build(backend, corpus, 3, &codec).unwrap();
        assert!(dict.contains(&vec![band, of]));
        assert!(!dict.contains(&vec![band, few]));
        assert!(!dict.contains(&vec![of, band]));
        assert!(!dict.contains(&vec![band, of, few]));
        assert!(!dict.contains(&vec![band, of, 99]));
        assert!(!dict.contains(&vec![]) || !matches!(backend, Backend::Sequences));
    }
}

#[test]
fn sequences_tell_apart_what_codes_identify() {
    // "a" has id 0, so "a c" and "c" have the same mixed-radix code
    let corpus = "a b c.";
    let codec = make_codec(corpus);
    let exact = PhraseDictionary::build(Backend::Sequences, corpus, 2, &codec).unwrap();
    let codes = PhraseDictionary::build(Backend::Codes, corpus, 2, &codec).unwrap();
    let table = PhraseDictionary::build(Backend::Table, corpus, 2, &codec).unwrap();
    assert!(!exact.contains(&vec![0, 2]));
    assert!(codes.contains(&vec![0, 2]));
    assert!(table.contains(&vec![0, 2]));
    assert!(!exact.contains(&vec![2, 1]));
    assert!(!codes.contains(&vec![2, 1]));
    assert!(!table.contains(&vec![2, 1]));
}

#[test]
fn dictionaries_can_be_put_together_by_hand() {
    let listed = PhraseDictionary::Codes {
        radix: 10,
        keys: key_set(&vec![12, 7, 12]),
    };
    assert!(listed.contains(&vec![1, 2]));
    assert!(listed.contains(&vec![7]));
    assert!(listed.contains(&vec![0, 7]));
    assert!(!listed.contains(&vec![2, 1]));
    let mut table = PhraseSet::new(10, 2);
    table.insert(vec![1, 2]);
    let flagged = PhraseDictionary::Table(table);
    assert!(flagged.contains(&vec![1, 2]));
    assert!(!flagged.contains(&vec![2, 1]));
    assert!(!flagged.contains(&vec![9, 9, 9]));
    assert!(!flagged.contains(&vec![u32::MAX, u32::MAX, u32::MAX]));
}

#[test]
fn table_sizes_and_slots() {
    let table = PhraseSet::new(3, 3);
    assert_eq!(table.len(), 3 + 9 + 27);
    assert_eq!(PhraseSet::new(0, 4).len(), 0);
    assert_eq!(PhraseSet::new(1, 4).len(), 4);
    assert_eq!(PhraseSet::new(7, 0).len(), 0);
    assert!(PhraseSet::try_new(usize::MAX, 2).is_none());
    assert_eq!(PhraseSet::try_new(10, 3).unwrap().len(), 1110);
}

#[test]
fn table_marks_within_its_slots_only() {
    let mut table = PhraseSet::new(4, 2);
    assert_eq!(table.len(), 20);
    assert_eq!(table.code_within(&vec![3, 3]), Some(15));
    assert_eq!(table.code_within(&vec![4, 3]), Some(19));
    assert_eq!(table.code_within(&vec![4, 4]), None);
    assert_eq!(table.code_within(&vec![usize::MAX, usize::MAX]), None);
    assert!(table.try_insert(&vec![4, 3]));
    assert!(!table.try_insert(&vec![4, 4]));
    let mut h = table.produce_empty_hash();
    h.hash_in(19);
    assert!(table.contains(h));
    for code in 0..19 {
        let mut h = table.produce_empty_hash();
        h.hash_in(code);
        assert!(!table.contains(h));
    }
    let mut beyond = table.produce_empty_hash();
    beyond.hash_in(20);
    assert!(!table.contains(beyond));
}

#[test]
fn table_keeps_neighbouring_flags_apart() {
    let mut table = PhraseSet::new(200, 1);
    table.insert(vec![63]);
    table.insert(vec![64]);
    table.insert(vec![130]);
    for code in 0..200 {
        let mut h = table.produce_empty_hash();
        h.hash_in(code);
        assert_eq!(table.contains(h), code == 63 || code == 64 || code == 130);
    }
}

#[test]
fn running_code_reports_overflow() {
    let mut h = PhraseHash::new(usize::MAX);
    assert!(h.try_hash_in(1));
    assert!(h.try_hash_in(0));
    assert_eq!(h.finish(), usize::MAX);
    assert!(!h.try_hash_in(0));
    assert_eq!(h.finish(), usize::MAX);
    let mut h = PhraseHash::new(1);
    assert!(h.try_hash_in(usize::MAX));
    assert!(!h.try_hash_in(1));
    assert!(h.try_hash_in(0));
}

#[test]
fn sixty_four_bit_running_code() {
    let mut h = bnb_fold::string_handlers::PhraseHash::new(100);
    h.hash_in(1);
    h.hash_in(2);
    h.hash_in(3);
    assert_eq!(h.finish(), 10203);
    let mut h = bnb_fold::string_handlers::PhraseHash::new(u64::MAX);
    assert!(h.try_hash_in(1));
    assert!(!h.try_hash_in(1));
    assert!(h.try_hash_in(0));
    assert_eq!(h.finish(), u64::MAX);
}

#[test]
fn helpers_compare_and_widen() {
    let keys = key_set(&vec![3, 1, 3]);
    assert_eq!(keys.len(), 2);
    assert!(keys.contains(&1) && keys.contains(&3));
    assert!(same_words(&vec![1, 2], &vec![1, 2]));
    assert!(!same_words(&vec![1, 2], &vec![1, 2, 3]));
    assert!(!same_words(&vec![1, 2], &vec![2, 1]));
    assert_eq!(widened(&vec![0, 5, u32::MAX]), vec![0, 5, u32::MAX as usize]);
}

#[test]
fn digests_hold_every_run_of_the_corpus() {
    let corpus = "we few we happy few. we band of brothers.";
    let codec = make_codec(corpus);
    let digests = DigestSet::build(corpus, 3, &codec);
    for phrase in corpus_to_phrases(corpus, 3, &codec) {
        assert!(digests.contains(&phrase));
    }
    assert!(!DigestSet::build("", 3, &make_codec("")).contains(&vec![0]));
}

#[test]
fn digests_tell_phrases_apart() {
    let mut digests = DigestSet::new();
    assert!(!digests.contains(&vec![1, 2]));
    digests.insert(&vec![1, 2]);
    assert!(digests.contains(&vec![1, 2]));
    assert!(!digests.contains(&vec![2, 1]));
    assert!(!digests.contains(&vec![1]));
    assert!(!digests.contains(&vec![1, 2, 0]));
    assert!(!digests.holds_digest(41));
    digests.record(41);
    assert!(digests.holds_digest(41));
    assert!(!digests.holds_digest(42));
}
