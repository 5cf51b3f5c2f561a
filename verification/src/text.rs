//! Text as characters: sentences, tokens, and what makes a token a word.

use crate::rule::duplicate;
use vstd::prelude::*;

verus! {


/// Whether `char::is_alphabetic` holds of a character: whether Unicode gives
/// it the property `Alphabetic`.
pub uninterp spec fn is_alphabetic(c: char) -> bool;

/// Whether `char::is_whitespace` holds of a character: whether Unicode gives
/// it the property `White_Space`.
pub uninterp spec fn is_whitespace(c: char) -> bool;

/// What `str::to_lowercase` makes of a string.
pub uninterp spec fn lowercase(text: Seq<char>) -> Seq<char>;

/// `char::is_alphabetic` of std.
#[verifier::external_body]
fn char_is_alphabetic(c: char) -> (alphabetic: bool)
    ensures
        alphabetic == is_alphabetic(c),
{
    c.is_alphabetic()
}

/// `char::is_whitespace` of std.
#[verifier::external_body]
fn char_is_whitespace(c: char) -> (white: bool)
    ensures
        white == is_whitespace(c),
{
    c.is_whitespace()
}

/// `str::to_lowercase` of std.
#[verifier::external_body]
fn string_to_lowercase(text: &String) -> (lower: String)
    ensures
        lower@ == lowercase(text@),
{
    text.to_lowercase()
}

/// `String::from_iter` of std, over the characters of a vector: the string
/// that holds them in their order.
#[verifier::external_body]
pub(crate) fn string_from_chars(chars: &Vec<char>) -> (text: String)
    ensures
        text@ == chars@,
{
    String::from_iter(chars.iter())
}

/// The characters of a string.
pub fn chars_of(text: &str) -> (chars: Vec<char>)
    ensures
        chars@ == text@,
{
    let mut chars: Vec<char> = Vec::new();
    for c in it: text.chars()
        invariant
            chars@ == it.seq().take(it.index() as int),
            it.seq() == text@,
    {
        chars.push(c);
    }
    chars
}

/// The texts of a sequence of strings.
pub open spec fn strings(items: Seq<String>) -> Seq<Seq<char>> {
    items.map_values(|item: String| item@)
}

/// The rows of a vector of character vectors.
pub open spec fn rows(items: Seq<Vec<char>>) -> Seq<Seq<char>> {
    items.map_values(|item: Vec<char>| item@)
}

/// What parts a text: the end of a sentence, or the space between words.
#[derive(Clone, Copy)]
pub enum Separator {
    /// One of `.`, `!`, `?`, `;`.
    SentenceEnd,
    /// An ASCII whitespace character: space, tab, line feed, form feed or
    /// carriage return.
    Space,
}

/// Whether a character ends a sentence.
pub open spec fn is_terminator(c: char) -> bool {
    c == '.' || c == '!' || c == '?' || c == ';'
}

/// Whether a character is ASCII whitespace.
pub open spec fn is_ascii_space(c: char) -> bool {
    c == ' ' || c == '\t' || c == '\n' || c == '\x0C' || c == '\r'
}

/// Whether `c` is a separator of the given kind.
pub open spec fn separates(kind: Separator, c: char) -> bool {
    match kind {
        Separator::SentenceEnd => is_terminator(c),
        Separator::Space => is_ascii_space(c),
    }
}

/// Whether `c` is a separator of the given kind.
pub fn is_separator(kind: Separator, c: char) -> (yes: bool)
    ensures
        yes == separates(kind, c),
{
    match kind {
        Separator::SentenceEnd => c == '.' || c == '!' || c == '?' || c == ';',
        Separator::Space => c == ' ' || c == '\t' || c == '\n' || c == '\x0C' || c == '\r',
    }
}

/// The pieces of a text between its separators, empty ones included: one
/// piece more than there are separators.
pub open spec fn split_on(text: Seq<char>, kind: Separator) -> Seq<Seq<char>>
    decreases text.len(),
{
    if text.len() == 0 {
        seq![Seq::empty()]
    } else {
        let before = split_on(text.drop_last(), kind);
        if separates(kind, text.last()) {
            before.push(Seq::empty())
        } else {
            before.drop_last().push(before.last().push(text.last()))
        }
    }
}

/// The pieces that are not empty, in their order.
pub open spec fn nonempty(pieces: Seq<Seq<char>>) -> Seq<Seq<char>>
    decreases pieces.len(),
{
    if pieces.len() == 0 {
        Seq::empty()
    } else if pieces.last().len() == 0 {
        nonempty(pieces.drop_last())
    } else {
        nonempty(pieces.drop_last()).push(pieces.last())
    }
}

/// The text without the whitespace at its start.
pub open spec fn trim_start(text: Seq<char>) -> Seq<char>
    decreases text.len(),
{
    if text.len() > 0 && is_whitespace(text.first()) {
        trim_start(text.drop_first())
    } else {
        text
    }
}

/// The text without the whitespace at its end.
pub open spec fn trim_end(text: Seq<char>) -> Seq<char>
    decreases text.len(),
{
    if text.len() > 0 && is_whitespace(text.last()) {
        trim_end(text.drop_last())
    } else {
        text
    }
}

/// The text without the whitespace at either end.
pub open spec fn trimmed(text: Seq<char>) -> Seq<char> {
    trim_end(trim_start(text))
}

/// The alphabetic characters of a token, in their order.
pub open spec fn letters(token: Seq<char>) -> Seq<char>
    decreases token.len(),
{
    if token.len() == 0 {
        Seq::empty()
    } else if is_alphabetic(token.last()) {
        letters(token.drop_last()).push(token.last())
    } else {
        letters(token.drop_last())
    }
}

/// A token as a word of the vocabulary: its letters, in lower case.
pub open spec fn normalized(token: Seq<char>) -> Seq<char> {
    lowercase(letters(token))
}

/// The words with one space between each two.
pub open spec fn joined(words: Seq<Seq<char>>) -> Seq<char>
    decreases words.len(),
{
    if words.len() == 0 {
        Seq::empty()
    } else if words.len() == 1 {
        words[0]
    } else {
        joined(words.drop_last()).push(' ') + words.last()
    }
}

/// The tokens of a text: its maximal runs without ASCII whitespace.
pub open spec fn tokens(text: Seq<char>) -> Seq<Seq<char>> {
    nonempty(split_on(text, Separator::Space))
}

/// A raw sentence made clean: trimmed, each token normalized, one space
/// between each two.
pub open spec fn cleaned(raw: Seq<char>) -> Seq<char> {
    joined(tokens(trimmed(raw)).map_values(|token: Seq<char>| normalized(token)))
}

/// The sentences of a corpus: its non-empty stretches between sentence
/// terminators, each made clean.
pub open spec fn sentences(corpus: Seq<char>) -> Seq<Seq<char>> {
    nonempty(split_on(corpus, Separator::SentenceEnd)).map_values(|raw: Seq<char>| cleaned(raw))
}

/// The pieces of a text between its separators.
pub fn split_chars(text: &Vec<char>, kind: Separator) -> (pieces: Vec<Vec<char>>)
    ensures
        rows(pieces@) == split_on(text@, kind),
{
    let mut pieces: Vec<Vec<char>> = Vec::new();
    let mut piece: Vec<char> = Vec::new();
    let mut i: usize = 0;
    while i < text.len()
        invariant
            i <= text.len(),
            rows(pieces@).push(piece@) == split_on(text@.take(i as int), kind),
        decreases text.len() - i,
    {
        let c = text[i];
        proof {
            assert(text@.take(i + 1).drop_last() =~= text@.take(i as int));
        }
        if is_separator(kind, c) {
            pieces.push(piece);
            piece = Vec::new();
        } else {
            piece.push(c);
        }
        i += 1;
    }
    assert(text@.take(i as int) =~= text@);
    pieces.push(piece);
    pieces
}

/// The pieces that are not empty.
pub fn keep_nonempty(pieces: Vec<Vec<char>>) -> (kept: Vec<Vec<char>>)
    ensures
        rows(kept@) == nonempty(rows(pieces@)),
{
    let mut kept: Vec<Vec<char>> = Vec::new();
    let mut i: usize = 0;
    while i < pieces.len()
        invariant
            i <= pieces.len(),
            rows(kept@) == nonempty(rows(pieces@).take(i as int)),
        decreases pieces.len() - i,
    {
        proof {
            assert(rows(pieces@).take(i + 1).drop_last() =~= rows(pieces@).take(i as int));
        }
        if pieces[i].len() > 0 {
            let piece = duplicate(&pieces[i]);
            kept.push(piece);
        }
        i += 1;
    }
    assert(rows(pieces@).take(i as int) =~= rows(pieces@));
    kept
}

/// The text without the whitespace at either end.
pub fn trim_chars(text: &Vec<char>) -> (out: Vec<char>)
    ensures
        out@ == trimmed(text@),
{
    let mut start: usize = 0;
    assert(text@.skip(0) =~= text@);
    while start < text.len() && char_is_whitespace(text[start])
        invariant
            start <= text.len(),
            trim_start(text@) == trim_start(text@.skip(start as int)),
        decreases text.len() - start,
    {
        proof {
            assert(text@.skip(start as int).drop_first() =~= text@.skip(start + 1));
        }
        start += 1;
    }
    let ghost rest = text@.skip(start as int);
    let mut end: usize = text.len();
    while end > start && char_is_whitespace(text[end - 1])
        invariant
            start <= end <= text.len(),
            trim_end(rest) == trim_end(text@.subrange(start as int, end as int)),
        decreases end,
    {
        proof {
            assert(text@.subrange(start as int, end as int).drop_last() =~= text@.subrange(
                start as int,
                end - 1,
            ));
        }
        end -= 1;
    }
    let mut out: Vec<char> = Vec::new();
    let mut i: usize = start;
    while i < end
        invariant
            start <= i <= end,
            end <= text.len(),
            out@ == text@.subrange(start as int, i as int),
        decreases end - i,
    {
        out.push(text[i]);
        i += 1;
    }
    out
}

/// A token as a word of the vocabulary: its letters, in lower case.
pub fn normalize_word(token: &Vec<char>) -> (word: String)
    ensures
        word@ == normalized(token@),
{
    let mut kept: Vec<char> = Vec::new();
    let mut i: usize = 0;
    while i < token.len()
        invariant
            i <= token.len(),
            kept@ == letters(token@.take(i as int)),
        decreases token.len() - i,
    {
        proof {
            assert(token@.take(i + 1).drop_last() =~= token@.take(i as int));
        }
        if char_is_alphabetic(token[i]) {
            kept.push(token[i]);
        }
        i += 1;
    }
    assert(token@.take(i as int) =~= token@);
    let plain = string_from_chars(&kept);
    string_to_lowercase(&plain)
}

/// The words with one space between each two.
pub fn join_words(words: &Vec<String>) -> (text: String)
    ensures
        text@ == joined(strings(words@)),
{
    let mut text = String::new();
    let mut i: usize = 0;
    while i < words.len()
        invariant
            i <= words.len(),
            text@ == joined(strings(words@).take(i as int)),
        decreases words.len() - i,
    {
        proof {
            reveal_strlit(" ");
            assert(strings(words@).take(i + 1).drop_last() =~= strings(words@).take(i as int));
        }
        if i > 0 {
            text.append(" ");
        } else {
        }
        text.append(words[i].as_str());
        i += 1;
    }
    assert(strings(words@).take(i as int) =~= strings(words@));
    text
}

/// A raw sentence made clean: trimmed, each token normalized, one space
/// between each two.
pub fn clean_sentence(raw: &Vec<char>) -> (clean: String)
    ensures
        clean@ == cleaned(raw@),
{
    let text = trim_chars(raw);
    let found = keep_nonempty(split_chars(&text, Separator::Space));
    let ghost wanted = tokens(trimmed(raw@)).map_values(|token: Seq<char>| normalized(token));
    let mut words: Vec<String> = Vec::new();
    let mut i: usize = 0;
    while i < found.len()
        invariant
            i <= found.len(),
            rows(found@) == tokens(trimmed(raw@)),
            wanted == tokens(trimmed(raw@)).map_values(|token: Seq<char>| normalized(token)),
            words.len() == i,
            forall|j: int| 0 <= j < i ==> (#[trigger] words[j])@ == wanted[j],
        decreases found.len() - i,
    {
        words.push(normalize_word(&found[i]));
        i += 1;
    }
    assert(strings(words@) =~= wanted);
    join_words(&words)
}

} // verus!
