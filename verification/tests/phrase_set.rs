use bnb_fold::phrase_set::{PhraseHash, PhraseSet};

#[test]
fn it_hashes_in_one() {
    let mut h = PhraseHash::new(10);
    h.hash_in(2);

    assert_eq!(h.finish(), 2);
}

#[test]
fn it_hashes_shifts_first_by_range_then_adds_second() {
    let mut h = PhraseHash::new(10);
    h.hash_in(2);
    h.hash_in(3);

    assert_eq!(h.finish(), 23);

    let mut h_2 = PhraseHash::new(10);
    h_2.hash_in(1);
    h_2.hash_in(4);

    assert_eq!(h_2.finish(), 14);

    let mut h_3 = PhraseHash::new(10);
    h_3.hash_in(3);
    h_3.hash_in(2);

    assert_eq!(h_3.finish(), 32);

    let mut h = PhraseHash::new(12);
    h.hash_in(2);
    h.hash_in(3);

    assert_eq!(h.finish(), 27);

    let mut h_2 = PhraseHash::new(12);
    h_2.hash_in(1);
    h_2.hash_in(4);

    assert_eq!(h_2.finish(), 16);

    let mut h_3 = PhraseHash::new(12);
    h_3.hash_in(3);
    h_3.hash_in(2);

    assert_eq!(h_3.finish(), 38);

    let mut h_4 = PhraseHash::new(100);
    h_4.hash_in(1);
    h_4.hash_in(1);
    h_4.hash_in(1);

    assert_eq!(h_4.finish(), 10101);

    let mut h_5 = PhraseHash::new(10);
    h_5.hash_in(2);
    h_5.hash_in(3);
    h_5.hash_in(4);

    assert_eq!(h_5.finish(), 234);

    let mut h_6 = PhraseHash::new(100);
    h_6.hash_in(99);
    h_6.hash_in(99);
    h_6.hash_in(99);

    assert_eq!(h_6.finish(), 999999);
}

#[test]
fn it_stores_phrases() {
    let s = 100;
    let mut subject = PhraseSet::new(s, 5);
    let mut h = subject.produce_empty_hash();

    subject.insert(vec![1, 2, 3]);

    h.hash_in(1);
    h.hash_in(2);
    h.hash_in(3);

    assert!(subject.contains(h));

    let mut other_h = subject.produce_empty_hash();
    other_h.hash_in(1);
    other_h.hash_in(2);
    other_h.hash_in(3);
    other_h.hash_in(4);
    assert!(!subject.contains(other_h));

    let mut third_h = subject.produce_empty_hash();
    third_h.hash_in(1);
    third_h.hash_in(2);
    third_h.hash_in(4);
    assert!(!subject.contains(third_h));
}

#[test]
fn it_does_not_overflow_if_initialized_correctly() {
    let s = 101;
    let mut subject = PhraseSet::new(s, 2);
    let mut h = subject.produce_empty_hash();

    subject.insert(vec![100, 100]);

    h.hash_in(100);
    h.hash_in(100);

    assert!(subject.contains(h));
}

#[test]
fn an_inserted_phrase_is_found_by_its_words() {
    let mut subject = PhraseSet::new(7, 3);
    let phrases = vec![vec![1, 2, 3], vec![6, 6, 6], vec![0, 5], vec![4]];
    for phrase in &phrases {
        subject.insert(phrase.clone());
    }
    for phrase in &phrases {
        assert!(subject.contains_phrase(phrase));
        let mut h = subject.produce_empty_hash();
        for word in phrase {
            h.hash_in(*word);
        }
        assert!(subject.contains(h));
    }
    assert!(!subject.contains_phrase(&vec![3, 2, 1]));
    assert!(!subject.contains_phrase(&vec![1, 2]));
    assert!(!subject.contains_phrase(&vec![6, 6, 6, 6]));
    assert!(!subject.contains_phrase(&vec![usize::MAX, usize::MAX]));
    assert_eq!(subject.hash_of(&vec![1, 2, 3]).unwrap().finish(), 66);
    assert!(subject.hash_of(&vec![usize::MAX, usize::MAX]).is_none());
}
