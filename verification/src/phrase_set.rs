//! Mixed-radix phrase codes and a flat presence table addressed by them.

use vstd::arithmetic::div_mod::lemma_fundamental_div_mod_converse;
use vstd::prelude::*;

verus! {

/// The value that Horner's rule gives a digit sequence in a radix:
/// `((d0 * radix + d1) * radix + d2) ...`, starting from zero.
pub open spec fn horner(radix: int, digits: Seq<int>) -> int
    decreases digits.len(),
{
    if digits.len() == 0 {
        0
    } else {
        horner(radix, digits.drop_last()) * radix + digits.last()
    }
}

/// The digits of a phrase of `usize` word ids.
pub open spec fn digits_of(phrase: Seq<usize>) -> Seq<int> {
    phrase.map_values(|d: usize| d as int)
}

/// `radix + radix^2 + ... + radix^max_len`: the number of slots of a table
/// for phrases of up to `max_len` words.
pub open spec fn table_size(radix: int, max_len: nat) -> int
    decreases max_len,
{
    if max_len == 0 {
        0
    } else {
        table_size(radix, (max_len - 1) as nat) * radix + radix
    }
}

/// Appending one digit multiplies the code by the radix and adds the digit.
pub proof fn lemma_horner_push(radix: int, digits: Seq<int>, d: int)
    ensures
        horner(radix, digits.push(d)) == horner(radix, digits) * radix + d,
{
    assert(digits.push(d).drop_last() =~= digits);
}

/// With non-negative digits and a non-negative radix a code is never negative.
pub proof fn lemma_horner_nonnegative(radix: int, digits: Seq<int>)
    requires
        0 <= radix,
        forall|i: int| 0 <= i < digits.len() ==> 0 <= digits[i],
    ensures
        0 <= horner(radix, digits),
    decreases digits.len(),
{
    if digits.len() > 0 {
        lemma_horner_nonnegative(radix, digits.drop_last());
        assert(0 <= horner(radix, digits.drop_last()) * radix) by (nonlinear_arith)
            requires
                0 <= horner(radix, digits.drop_last()),
                0 <= radix,
        ;
    }
}

/// With a positive radix the code of a prefix never exceeds the code of the
/// whole sequence.
pub proof fn lemma_horner_prefix_le(radix: int, digits: Seq<int>, n: int)
    requires
        1 <= radix,
        0 <= n <= digits.len(),
        forall|i: int| 0 <= i < digits.len() ==> 0 <= digits[i],
    ensures
        0 <= horner(radix, digits.take(n)) <= horner(radix, digits),
    decreases digits.len() - n,
{
    lemma_horner_nonnegative(radix, digits.take(n));
    if n == digits.len() {
        assert(digits.take(n) =~= digits);
    } else {
        lemma_horner_prefix_le(radix, digits, n + 1);
        assert(digits.take(n + 1).drop_last() =~= digits.take(n));
        let h = horner(radix, digits.take(n));
        assert(h <= h * radix) by (nonlinear_arith)
            requires
                0 <= h,
                1 <= radix,
        ;
    }
}

/// A running mixed-radix code: feed it word ids one at a time.
pub struct PhraseHash {
    h: usize,
    offset: usize,
}

impl PhraseHash {
    /// The code accumulated so far.
    pub closed spec fn value(&self) -> usize {
        self.h
    }

    /// The radix by which the code is shifted before each new word.
    pub closed spec fn radix(&self) -> usize {
        self.offset
    }

    /// A running code of zero, in the given radix.
    pub fn new(offset: usize) -> (h: Self)
        ensures
            h.value() == 0,
            h.radix() == offset,
    {
        PhraseHash { h: 0, offset }
    }

    /// Whether feeding `arg` keeps the code within `usize`.
    pub open spec fn fits(&self, arg: usize) -> bool {
        self.value() * self.radix() + arg <= usize::MAX
    }

    /// Feeds `arg` unless the code would leave `usize`; says whether it fed.
    pub fn try_hash_in(&mut self, arg: usize) -> (fed: bool)
        ensures
            fed == old(self).fits(arg),
            final(self).radix() == old(self).radix(),
            fed ==> final(self).value() == old(self).value() * old(self).radix() + arg,
            !fed ==> final(self).value() == old(self).value(),
    {
        match self.h.checked_mul(self.offset) {
            Some(shifted) => match shifted.checked_add(arg) {
                Some(next) => {
                    self.h = next;
                    true
                },
                None => false,
            },
            None => false,
        }
    }

    /// Shifts the code by the radix and adds `arg`.
    pub fn hash_in(&mut self, arg: usize)
        requires
            old(self).fits(arg),
        ensures
            final(self).value() == old(self).value() * old(self).radix() + arg,
            final(self).radix() == old(self).radix(),
    {
        self.h = (self.h * self.offset) + arg;
    }

    /// The code accumulated so far.
    pub fn finish(&self) -> (code: usize)
        ensures
            code == self.value(),
    {
        self.h
    }
}

/// Table sizes never shrink as the phrase length grows.
pub proof fn lemma_table_size_monotonic(radix: int, a: nat, b: nat)
    requires
        0 <= radix,
        a <= b,
    ensures
        0 <= table_size(radix, a) <= table_size(radix, b),
    decreases b,
{
    if radix == 0 || b == 0 {
    } else if a == b {
        lemma_table_size_monotonic(radix, (a - 1) as nat, (b - 1) as nat);
        assert(0 <= table_size(radix, (a - 1) as nat) * radix) by (nonlinear_arith)
            requires
                0 <= table_size(radix, (a - 1) as nat),
                0 <= radix,
        ;
    } else {
        lemma_table_size_monotonic(radix, a, (b - 1) as nat);
        let t = table_size(radix, (b - 1) as nat);
        assert(t <= t * radix + radix) by (nonlinear_arith)
            requires
                0 <= t,
                1 <= radix,
        ;
    }
}

/// Whether every digit is at least zero and less than the radix.
pub open spec fn digits_below(radix: int, digits: Seq<int>) -> bool {
    forall|i: int| 0 <= i < digits.len() ==> 0 <= #[trigger] digits[i] < radix
}

/// Two phrases of the same length, of digits below the radix, have the same
/// code only where they are the same phrase.
pub proof fn lemma_horner_injective(radix: int, first: Seq<int>, second: Seq<int>)
    requires
        first.len() == second.len(),
        digits_below(radix, first),
        digits_below(radix, second),
        horner(radix, first) == horner(radix, second),
    ensures
        first == second,
    decreases first.len(),
{
    if first.len() > 0 {
        let a = first.drop_last();
        let b = second.drop_last();
        lemma_fundamental_div_mod_converse(
            horner(radix, first),
            radix,
            horner(radix, a),
            first.last(),
        );
        lemma_fundamental_div_mod_converse(
            horner(radix, second),
            radix,
            horner(radix, b),
            second.last(),
        );
        lemma_horner_injective(radix, a, b);
        assert(first =~= a.push(first.last()));
    }
}

/// The code of a phrase of one to `max_len` digits below the radix lies
/// within a table made for phrases of that length.
pub proof fn lemma_horner_within_table(radix: int, digits: Seq<int>, max_len: nat)
    requires
        1 <= digits.len() <= max_len,
        digits_below(radix, digits),
    ensures
        0 <= horner(radix, digits) < table_size(radix, max_len),
    decreases digits.len(),
{
    let len = digits.len();
    let before = horner(radix, digits.drop_last());
    let smaller = table_size(radix, (len - 1) as nat);
    assert(0 <= digits.last() < radix);
    if len > 1 {
        lemma_horner_within_table(radix, digits.drop_last(), (len - 1) as nat);
        assert(0 <= before * radix + digits.last() < smaller * radix + radix) by (nonlinear_arith)
            requires
                0 <= before < smaller,
                0 <= digits.last() < radix,
        ;
    }
    lemma_table_size_monotonic(radix, len, max_len);
}

/// Whether bit `bit` of `word` is set.
pub open spec fn flag(word: u64, bit: u64) -> bool {
    (word >> bit) & 1 == 1
}

/// No bit of zero is set.
proof fn lemma_no_flag(bit: u64)
    requires
        bit < 64,
    ensures
        !flag(0, bit),
{
    assert((0u64 >> bit) & 1 != 1) by (bit_vector)
        requires
            bit < 64,
    ;
}

/// Setting one bit of a word leaves its other bits as they were.
proof fn lemma_set_flag(word: u64, set: u64, bit: u64)
    requires
        set < 64,
        bit < 64,
    ensures
        flag(word | (1u64 << set), bit) == (bit == set || flag(word, bit)),
{
    assert((((word | (1u64 << set)) >> bit) & 1 == 1) == (bit == set || (word >> bit) & 1 == 1))
        by (bit_vector)
        requires
            set < 64,
            bit < 64,
    ;
}

/// A presence table over phrase codes: one bit per code below its length,
/// sixty-four to a word.
pub struct PhraseSet {
    base: Vec<u64>,
    slots: usize,
    offset: usize,
}

impl View for PhraseSet {
    type V = Set<int>;

    /// The codes that are marked present.
    closed spec fn view(&self) -> Set<int> {
        Set::new(
            |code: int|
                0 <= code < self.slots && flag(self.base[code / 64], (code % 64) as u64),
        )
    }
}

impl PhraseSet {
    /// The table has a word for every sixty-four slots, and one more.
    #[verifier::type_invariant]
    spec fn well_formed(&self) -> bool {
        self.base.len() == self.slots / 64 + 1
    }

    /// The radix of the codes that address the table.
    pub closed spec fn radix(&self) -> usize {
        self.offset
    }

    /// The number of codes the table has a flag for.
    pub closed spec fn slots(&self) -> usize {
        self.slots
    }

    /// The code under which the table files a phrase.
    pub open spec fn code_of(&self, phrase: Seq<usize>) -> int {
        horner(self.radix() as int, digits_of(phrase))
    }

    /// Every marked code has a flag.
    pub proof fn lemma_view_in_range(&self)
        ensures
            forall|code: int| self@.contains(code) ==> 0 <= code < self.slots(),
    {
    }

    /// An empty table for a vocabulary of `vocab_size` words and phrases of
    /// up to `max_phrase_length` words.
    pub fn new(vocab_size: usize, max_phrase_length: usize) -> (table: Self)
        requires
            table_size(vocab_size as int, max_phrase_length as nat) <= usize::MAX,
        ensures
            table@ == Set::<int>::empty(),
            table.radix() == vocab_size,
            table.slots() == table_size(vocab_size as int, max_phrase_length as nat),
    {
        let mut h = PhraseHash::new(vocab_size);
        let mut i: usize = 0;
        while i < max_phrase_length
            invariant
                i <= max_phrase_length,
                h.radix() == vocab_size,
                h.value() == table_size(vocab_size as int, i as nat),
                table_size(vocab_size as int, max_phrase_length as nat) <= usize::MAX,
            decreases max_phrase_length - i,
        {
            proof {
                lemma_table_size_monotonic(
                    vocab_size as int,
                    (i + 1) as nat,
                    max_phrase_length as nat,
                );
            }
            h.hash_in(vocab_size);
            i += 1;
        }
        let total = h.finish();
        let table = PhraseSet { base: vec![0u64; total / 64 + 1], slots: total, offset: vocab_size };
        proof {
            assert forall|code: int| !table@.contains(code) by {
                if 0 <= code < total {
                    lemma_no_flag((code % 64) as u64);
                }
            }
        }
        table
    }

    /// As `new`, or `None` where the table would have more slots than a
    /// `usize` can count.
    pub fn try_new(vocab_size: usize, max_phrase_length: usize) -> (made: Option<Self>)
        ensures
            made is Some <==> table_size(vocab_size as int, max_phrase_length as nat)
                <= usize::MAX,
            made matches Some(table) ==> {
                &&& table@ == Set::<int>::empty()
                &&& table.radix() == vocab_size
                &&& table.slots() == table_size(vocab_size as int, max_phrase_length as nat)
            },
    {
        let mut h = PhraseHash::new(vocab_size);
        let mut i: usize = 0;
        while i < max_phrase_length
            invariant
                i <= max_phrase_length,
                h.radix() == vocab_size,
                h.value() == table_size(vocab_size as int, i as nat),
            decreases max_phrase_length - i,
        {
            if !h.try_hash_in(vocab_size) {
                proof {
                    lemma_table_size_monotonic(
                        vocab_size as int,
                        (i + 1) as nat,
                        max_phrase_length as nat,
                    );
                }
                return None;
            }
            i += 1;
        }
        Some(PhraseSet::new(vocab_size, max_phrase_length))
    }

    /// A running code of the table's radix, fed the words of the phrase one
    /// by one; or `None` where the code leaves `usize`.
    pub fn hash_of(&self, phrase: &Vec<usize>) -> (fed: Option<PhraseHash>)
        ensures
            fed is Some <==> self.code_of(phrase@) <= usize::MAX,
            fed matches Some(h) ==> h.value() == self.code_of(phrase@) && h.radix()
                == self.radix(),
    {
        let ghost digits = digits_of(phrase@);
        let mut h = self.produce_empty_hash();
        let mut i: usize = 0;
        while i < phrase.len()
            invariant
                i <= phrase.len(),
                digits == digits_of(phrase@),
                h.radix() == self.offset,
                h.value() == horner(self.offset as int, digits.take(i as int)),
            decreases phrase.len() - i,
        {
            let ghost before = h.value();
            let fed = h.try_hash_in(phrase[i]);
            proof {
                let next = digits.take(i + 1);
                assert(next.drop_last() =~= digits.take(i as int));
            }
            if !fed {
                proof {
                    if self.offset >= 1 {
                        lemma_horner_prefix_le(self.offset as int, digits, i + 1);
                    } else {
                        assert(before * self.offset == 0) by (nonlinear_arith)
                            requires
                                self.offset == 0,
                        ;
                    }
                }
                return None;
            }
            i += 1;
        }
        assert(digits.take(i as int) =~= digits);
        Some(h)
    }

    /// The code of `phrase`, or `None` where the table has no flag for it.
    pub fn code_within(&self, phrase: &Vec<usize>) -> (found: Option<usize>)
        ensures
            found is Some <==> self.code_of(phrase@) < self.slots(),
            found matches Some(code) ==> code == self.code_of(phrase@),
    {
        match self.hash_of(phrase) {
            None => None,
            Some(h) => {
                let code = h.finish();
                if code < self.slots {
                    Some(code)
                } else {
                    None
                }
            },
        }
    }

    /// Whether the phrase is marked present: the answer of `contains` for a
    /// running code that was fed the words of the phrase one by one.
    pub fn contains_phrase(&self, phrase: &Vec<usize>) -> (present: bool)
        ensures
            present == self@.contains(self.code_of(phrase@)),
    {
        match self.hash_of(phrase) {
            None => {
                proof {
                    self.lemma_view_in_range();
                }
                false
            },
            Some(h) => self.contains(h),
        }
    }

    /// Marks the code of `phrase` present where the table has a flag for
    /// it; says whether it has.
    pub fn try_insert(&mut self, phrase: &Vec<usize>) -> (marked: bool)
        ensures
            marked == (old(self).code_of(phrase@) < old(self).slots()),
            marked ==> final(self)@ == old(self)@.insert(old(self).code_of(phrase@)),
            !marked ==> final(self)@ == old(self)@,
            final(self).radix() == old(self).radix(),
            final(self).slots() == old(self).slots(),
    {
        proof {
            use_type_invariant(&*self);
        }
        match self.code_within(phrase) {
            None => false,
            Some(code) => {
                let word = self.base[code / 64];
                let set = (code % 64) as u64;
                self.base[code / 64] = word | (1u64 << set);
                proof {
                    assert forall|other: int|
                        self@.contains(other) == old(self)@.insert(code as int).contains(other) by {
                        if 0 <= other < self.slots {
                            if other / 64 == code / 64 {
                                lemma_set_flag(word, set, (other % 64) as u64);
                            }
                        }
                    }
                }
                true
            },
        }
    }

    /// Marks the code of `phrase` present.
    pub fn insert(&mut self, phrase: Vec<usize>)
        requires
            old(self).code_of(phrase@) < old(self).slots(),
        ensures
            final(self)@ == old(self)@.insert(old(self).code_of(phrase@)),
            final(self).radix() == old(self).radix(),
            final(self).slots() == old(self).slots(),
    {
        self.try_insert(&phrase);
    }

    /// Whether the code that `h` has accumulated is marked present.
    pub fn contains(&self, h: PhraseHash) -> (present: bool)
        ensures
            present == self@.contains(h.value() as int),
    {
        proof {
            use_type_invariant(self);
        }
        let code = h.finish();
        if code < self.slots {
            (self.base[code / 64] >> ((code % 64) as u64)) & 1 == 1
        } else {
            false
        }
    }

    /// The number of codes the table has a flag for.
    pub fn len(&self) -> (n: usize)
        ensures
            n == self.slots(),
    {
        self.slots
    }

    /// A fresh running code with this table's radix.
    pub fn produce_empty_hash(&self) -> (h: PhraseHash)
        ensures
            h.value() == 0,
            h.radix() == self.radix(),
    {
        PhraseHash::new(self.offset)
    }
}

} // verus!
