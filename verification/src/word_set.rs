//! A compact set of word ids.

use tinyset::Set64;
use vstd::prelude::*;

verus! {

/// A set of word ids, kept in a `tinyset::Set64<u32>`. Nothing of its layout
/// is known here; `word_set_contents` names what it holds.
#[verifier::external_body]
pub struct WordSet {
    inner: Set64<u32>,
}

/// The word ids that a `WordSet` holds.
pub uninterp spec fn word_set_contents(set: WordSet) -> Set<u32>;

/// `Set64::new`: a set that holds nothing.
#[verifier::external_body]
pub(crate) fn word_set_new() -> (set: WordSet)
    ensures
        word_set_contents(set) == Set::<u32>::empty(),
{
    WordSet { inner: Set64::new() }
}

/// `Set64::insert`: afterwards the set holds `word` besides what it held.
#[verifier::external_body]
pub(crate) fn word_set_insert(set: &mut WordSet, word: u32)
    ensures
        word_set_contents(*final(set)) == word_set_contents(*old(set)).insert(word),
{
    set.inner.insert(word);
}

/// `Set64::contains`: whether the set holds `word`.
#[verifier::external_body]
pub(crate) fn word_set_contains(set: &WordSet, word: u32) -> (held: bool)
    ensures
        held == word_set_contents(*set).contains(word),
{
    set.inner.contains(word)
}

} // verus!
