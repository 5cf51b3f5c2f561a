//! The phrase dictionary as a set of 64-bit digests: small and fast, and
//! right but for the chance that two phrases share a digest.

use crate::corpus::{corpus_phrases, corpus_to_phrases, covers};
use crate::string_handlers::Codec;
use std::collections::HashSet;
use std::hash::Hasher;
use vstd::prelude::*;

verus! {

/// The digest that `ahash::AHasher` gives a phrase: a hasher from
/// `AHasher::default`, each word id written to it with `write_u32`, then
/// `finish`. The hasher draws its keys once for each process, so nothing is
/// claimed of the digest.
#[verifier::external_body]
fn digest_of(key: &Vec<u32>) -> (digest: u64) {
    let mut h = ahash::AHasher::default();
    for word in key {
        h.write_u32(*word);
    }
    h.finish()
}

/// Whether the set holds the digests of some sequence of `count` digests,
/// and nothing else: one digest for each of `count` phrases, whichever they
/// are.
pub open spec fn one_digest_each(set: Set<u64>, count: nat) -> bool {
    exists|digests: Seq<u64>| #[trigger] digests.to_set() == set && digests.len() == count
}

/// The digests of a sequence with one more are the digests of the sequence
/// and that one.
pub proof fn lemma_digests_push(digests: Seq<u64>, digest: u64)
    ensures
        digests.push(digest).to_set() == digests.to_set().insert(digest),
{
    let longer = digests.push(digest);
    assert forall|d: u64| longer.to_set().contains(d) <==> digests.to_set().insert(
        digest,
    ).contains(d) by {
        if digests.contains(d) {
            let i = choose|i: int| 0 <= i < digests.len() && digests[i] == d;
            assert(longer[i] == d);
        }
        if d == digest {
            assert(longer[digests.len() as int] == d);
        }
        if longer.contains(d) {
            let i = choose|i: int| 0 <= i < longer.len() && longer[i] == d;
            if i < digests.len() {
                assert(digests[i] == d);
            }
        }
    }
    assert(longer.to_set() =~= digests.to_set().insert(digest));
}

/// A set of digests of phrases.
pub struct DigestSet {
    digests: HashSet<u64>,
}

impl View for DigestSet {
    type V = Set<u64>;

    /// The digests that the set holds.
    closed spec fn view(&self) -> Set<u64> {
        self.digests@
    }
}

impl DigestSet {
    /// A set without a digest.
    pub fn new() -> (set: Self)
        ensures
            set@ == Set::<u64>::empty(),
    {
        DigestSet { digests: HashSet::new() }
    }

    /// Adds a digest.
    pub fn record(&mut self, digest: u64)
        ensures
            final(self)@ == old(self)@.insert(digest),
    {
        self.digests.insert(digest);
    }

    /// Whether the set holds the digest.
    pub fn holds_digest(&self, digest: u64) -> (held: bool)
        ensures
            held == self@.contains(digest),
    {
        self.digests.contains(&digest)
    }

    /// Adds the digest of a phrase, whatever it is.
    pub fn insert(&mut self, key: &Vec<u32>)
        ensures
            exists|digest: u64| final(self)@ == old(self)@.insert(digest),
    {
        let digest = digest_of(key);
        self.record(digest);
    }

    /// Whether the set holds the digest of the phrase: the answer of the set
    /// for one digest, whichever the phrase has. Yes is the answer for every
    /// phrase that was added in this process, and for a phrase that shares
    /// its digest with one that was.
    pub fn contains(&self, key: &Vec<u32>) -> (held: bool)
        ensures
            exists|digest: u64| held == #[trigger] self@.contains(digest),
    {
        let digest = digest_of(key);
        let held = self.holds_digest(digest);
        assert(held == self@.contains(digest));
        held
    }

    /// The digests of the phrases of one to `max_length` words that the
    /// corpus attests.
    pub fn build(corpus: &str, max_length: usize, codec: &Codec) -> (set: Self)
        requires
            codec.wf(),
            covers(codec, corpus@),
        ensures
            one_digest_each(
                set@,
                corpus_phrases(corpus@, codec.vocabulary(), max_length as nat).len(),
            ),
            set@.finite(),
            set@.len() <= corpus_phrases(corpus@, codec.vocabulary(), max_length as nat).len(),
    {
        let phrases = corpus_to_phrases(corpus, max_length, codec);
        let mut set = DigestSet::new();
        let ghost mut digests: Seq<u64> = Seq::empty();
        let mut n: usize = 0;
        assert(digests.to_set() =~= set@);
        while n < phrases.len()
            invariant
                n <= phrases.len(),
                digests.len() == n,
                digests.to_set() == set@,
                set@.finite(),
                set@.len() <= n,
            decreases phrases.len() - n,
        {
            let ghost before = set@;
            set.insert(&phrases[n]);
            proof {
                let digest = choose|digest: u64| set@ == before.insert(digest);
                lemma_digests_push(digests, digest);
                digests = digests.push(digest);
            }
            n += 1;
        }
        assert(phrases.deep_view().len() == phrases.len());
        set
    }
}

} // verus!
