use bnb_fold::string_handlers::{phrases, prefixes, split_corpus, split_sentence, suffixes};

#[test]
fn it_calculates_suffixes() {
    assert_eq!(
        suffixes(vec![
            "a".to_string(),
            "b".to_string(),
            "c".to_string(),
            "d".to_string()
        ]),
        vec![
            vec![
                "a".to_string(),
                "b".to_string(),
                "c".to_string(),
                "d".to_string()
            ],
            vec!["b".to_string(), "c".to_string(), "d".to_string()],
            vec!["c".to_string(), "d".to_string()],
            vec!["d".to_string()]
        ]
    )
}

#[test]
fn it_calculates_prefixes() {
    assert_eq!(
        prefixes(vec![
            "a".to_string(),
            "b".to_string(),
            "c".to_string(),
            "d".to_string()
        ]),
        vec![
            vec!["a".to_string(),],
            vec!["a".to_string(), "b".to_string()],
            vec!["a".to_string(), "b".to_string(), "c".to_string()],
            vec![
                "a".to_string(),
                "b".to_string(),
                "c".to_string(),
                "d".to_string()
            ]
        ]
    )
}

#[test]
fn it_calculates_phrases() {
    assert_eq!(
        phrases(vec![
            "a".to_string(),
            "b".to_string(),
            "c".to_string(),
            "d".to_string()
        ]),
        [
            vec!["a"],
            vec!["a", "b"],
            vec!["b"],
            vec!["a", "b", "c"],
            vec!["b", "c"],
            vec!["c"],
            vec!["a", "b", "c", "d"],
            vec!["b", "c", "d"],
            vec!["c", "d"],
            vec!["d"]
        ]
    )
}

#[test]
fn it_splits_a_corpus_to_sentences() {
    assert_eq!(
        split_corpus(&"a b! c d. e, f? g: h;".to_string()),
        vec![
            "a b".to_string(),
            "c d".to_string(),
            "e f".to_string(),
            "g h".to_string()
        ]
    );
}

#[test]
fn it_splits_a_sentence_to_words() {
    assert_eq!(
        split_sentence("a b c d".to_string()),
        vec![
            "a".to_string(),
            "b".to_string(),
            "c".to_string(),
            "d".to_string()
        ]
    );
}

#[test]
fn empty_corpus_has_no_sentences() {
    let none: Vec<String> = vec![];
    assert_eq!(split_corpus(""), none);
    assert_eq!(split_corpus("..!;?"), none);
    assert_eq!(split_sentence("".to_string()), none);
    assert_eq!(split_sentence(" \t\n ".to_string()), none);
}

#[test]
fn sentences_are_trimmed_lowered_and_stripped() {
    assert_eq!(
        split_corpus("  Hello,   World!It's 42 o'clock.\u{a0}\u{c9}t\u{e9} \u{a0}"),
        vec![
            "hello world".to_string(),
            "its  oclock".to_string(),
            "\u{e9}t\u{e9}".to_string()
        ]
    );
}

#[test]
fn whitespace_only_sentence_is_kept_empty() {
    assert_eq!(
        split_corpus("a.  .b"),
        vec!["a".to_string(), "".to_string(), "b".to_string()]
    );
}

#[test]
fn inner_non_ascii_space_does_not_split_a_token() {
    assert_eq!(split_corpus("a\u{a0}b c"), vec!["ab c".to_string()]);
    assert_eq!(
        split_sentence("x\u{a0}y\tz\r\nw\u{c}v".to_string()),
        vec![
            "x\u{a0}y".to_string(),
            "z".to_string(),
            "w".to_string(),
            "v".to_string()
        ]
    );
}
