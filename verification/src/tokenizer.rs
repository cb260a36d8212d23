//! The tokenizer: scans a line of text for words, the contiguous runs of
//! alphabetic characters, and case-folds them to lowercase. Everything else
//! separates words.

use vstd::prelude::*;

verus! {

use vstd::string::StrSliceExecFns;
use vstd::string::StringExecFns;

/// Whether a character belongs to a word. Names the result of
/// `char::is_alphabetic`, a fixed function of the character that the Unicode
/// tables define.
pub uninterp spec fn is_word_char(c: char) -> bool;

/// Whether a character is uppercase. Names the result of
/// `char::is_uppercase`, a fixed function of the character.
pub uninterp spec fn is_upper_char(c: char) -> bool;

/// The lowercase mapping of a character. Names the result of
/// `char::to_lowercase`, a fixed function of the character.
pub uninterp spec fn lower_chars(c: char) -> Seq<char>;

/// Relies on char::is_alphabetic: whether `c` is a letter, by the Unicode
/// Alphabetic property; a function of the character alone.
#[verifier::external_body]
fn char_is_word(c: char) -> (r: bool)
    ensures
        r == is_word_char(c),
{
    c.is_alphabetic()
}

/// Relies on char::is_uppercase: whether `c` has the Unicode Uppercase
/// property; a function of the character alone.
#[verifier::external_body]
fn char_is_upper(c: char) -> (r: bool)
    ensures
        r == is_upper_char(c),
{
    c.is_uppercase()
}

/// Relies on char::to_lowercase: the lowercase mapping of `c`, documented to
/// yield one or more characters; a function of the character alone.
#[verifier::external_body]
fn char_lower(c: char) -> (r: String)
    ensures
        r@ == lower_chars(c),
        r@.len() >= 1,
{
    c.to_lowercase().collect()
}

/// Relies on String::push: appends the given character to the end.
#[verifier::external_body]
fn push_char(s: &mut String, c: char)
    ensures
        final(s)@ == old(s)@.push(c),
{
    s.push(c)
}

/// What one word character contributes to the token: its lowercase mapping
/// when uppercase, otherwise the character itself.
pub open spec fn folded_char(c: char) -> Seq<char> {
    if is_upper_char(c) {
        lower_chars(c)
    } else {
        seq![c]
    }
}

/// A run of word characters case-folded, character by character.
pub open spec fn folded(s: Seq<char>) -> Seq<char>
    decreases s.len(),
{
    if s.len() == 0 {
        Seq::empty()
    } else {
        folded(s.drop_last()) + folded_char(s.last())
    }
}

/// The first word-character position at or after `i`, or the length of `s`
/// when the rest is all separators.
pub open spec fn word_start(s: Seq<char>, i: int) -> int
    decreases s.len() - i,
{
    if !(0 <= i < s.len()) {
        s.len() as int
    } else if is_word_char(s[i]) {
        i
    } else {
        word_start(s, i + 1)
    }
}

/// The first separator position at or after `i`, or the length of `s` when
/// the rest is all word characters.
pub open spec fn word_end(s: Seq<char>, i: int) -> int
    decreases s.len() - i,
{
    if !(0 <= i < s.len()) {
        s.len() as int
    } else if !is_word_char(s[i]) {
        i
    } else {
        word_end(s, i + 1)
    }
}

/// `word_end` never moves backwards and stays within the sequence.
proof fn lemma_word_end_bounds(s: Seq<char>, i: int)
    requires
        0 <= i <= s.len(),
    ensures
        i <= word_end(s, i) <= s.len(),
    decreases s.len() - i,
{
    if i < s.len() && is_word_char(s[i]) {
        lemma_word_end_bounds(s, i + 1);
    }
}

/// Where the next word begins, scanning from `start`.
fn find_word_start(line: &str, start: usize) -> (b: usize)
    requires
        start <= line@.len(),
    ensures
        b as int == word_start(line@, start as int),
        start <= b <= line@.len(),
        b < line@.len() ==> is_word_char(line@[b as int]),
{
    let n = line.unicode_len();
    let mut i = start;
    while i < n
        invariant
            start <= i <= n,
            n == line@.len(),
            word_start(line@, start as int) == word_start(line@, i as int),
        decreases n - i,
    {
        let c = line.get_char(i);
        if char_is_word(c) {
            return i;
        }
        i = i + 1;
    }
    i
}

/// Where the word beginning at `b` ends.
fn find_word_end(line: &str, b: usize) -> (e: usize)
    requires
        b <= line@.len(),
    ensures
        e as int == word_end(line@, b as int),
        b <= e <= line@.len(),
{
    let n = line.unicode_len();
    let mut i = b;
    while i < n
        invariant
            b <= i <= n,
            n == line@.len(),
            word_end(line@, b as int) == word_end(line@, i as int),
        decreases n - i,
    {
        let c = line.get_char(i);
        if !char_is_word(c) {
            return i;
        }
        i = i + 1;
    }
    i
}

/// The next word of `line` at or after position `start` (in characters),
/// case-folded, together with the position just past it; or nothing when
/// only separators remain. Words are maximal runs of alphabetic characters.
pub fn next_word(line: &str, start: usize) -> (r: Option<(String, usize)>)
    requires
        start <= line@.len(),
    ensures
        (match r {
            None => word_start(line@, start as int) == line@.len(),
            Some((w, end)) => {
                let b = word_start(line@, start as int);
                &&& b < line@.len()
                &&& end as int == word_end(line@, b)
                &&& start < end <= line@.len()
                &&& w@ == folded(line@.subrange(b, end as int))
                &&& w@.len() >= 1
            },
        }),
{
    let b = find_word_start(line, start);
    let n = line.unicode_len();
    if b == n {
        return None;
    }
    let end = find_word_end(line, b);
    proof {
        lemma_word_end_bounds(line@, b + 1 as int);
        assert(word_end(line@, b as int) > b as int);
    }
    let mut w = String::new();
    let mut j = b;
    while j < end
        invariant
            b <= j <= end,
            end <= line@.len(),
            w@ == folded(line@.subrange(b as int, j as int)),
            j > b ==> w@.len() >= 1,
        decreases end - j,
    {
        let c = line.get_char(j);
        let ghost before = w@;
        if char_is_upper(c) {
            let l = char_lower(c);
            w.append(l.as_str());
        } else {
            push_char(&mut w, c);
            proof {
                assert(w@ =~= before + folded_char(line@[j as int]));
            }
        }
        proof {
            assert(line@.subrange(b as int, j + 1 as int).drop_last() =~= line@.subrange(
                b as int,
                j as int,
            ));
            assert(line@.subrange(b as int, j + 1 as int).last() == line@[j as int]);
        }
        j = j + 1;
    }
    Some((w, end))
}

} // verus!
