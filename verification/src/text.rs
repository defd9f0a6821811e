//! Searching, trimming and splitting of text.

use vstd::prelude::*;
use vstd::string::*;

verus! {

/// Whether a piece of text stands at a position of another.
pub open spec fn stands_at(text: Seq<char>, piece: Seq<char>, at: int) -> bool {
    0 <= at && at + piece.len() <= text.len() && text.subrange(at, at + piece.len()) == piece
}

/// Whether a piece of text occurs in another.
pub open spec fn has_piece(text: Seq<char>, piece: Seq<char>) -> bool {
    exists|at: int| #[trigger] stands_at(text, piece, at)
}

/// Whether a character is white space: the characters that have the Unicode
/// property White_Space.
pub open spec fn white_space(c: char) -> bool {
    let code = c as int;
    ||| 0x9 <= code <= 0xd
    ||| code == 0x20
    ||| code == 0x85
    ||| code == 0xa0
    ||| code == 0x1680
    ||| 0x2000 <= code <= 0x200a
    ||| code == 0x2028
    ||| code == 0x2029
    ||| code == 0x202f
    ||| code == 0x205f
    ||| code == 0x3000
}

/// Tests whether a character is white space.
pub fn is_white_space(c: char) -> (yes: bool)
    ensures
        yes == white_space(c),
{
    match c {
        '\u{9}'..='\u{d}' | '\u{20}' | '\u{85}' | '\u{a0}' | '\u{1680}' => true,
        '\u{2000}'..='\u{200a}' | '\u{2028}' | '\u{2029}' => true,
        '\u{202f}' | '\u{205f}' | '\u{3000}' => true,
        _ => false,
    }
}

/// A text in quotes, as the standard library's `Debug` writes it.
pub uninterp spec fn quoted(text: Seq<char>) -> Seq<char>;

/// Writes a text with the `Debug` implementation of `str`: in double quotes,
/// and with escapes for what cannot stand there. The claim is only that what
/// is written depends on the text alone; which characters are escaped, and
/// how, is left to the standard library.
#[verifier::external_body]
pub(crate) fn quote(text: &str) -> (out: String)
    ensures
        out@ == quoted(text@),
{
    format!("{text:?}")
}

/// The number of white-space characters that a text starts with.
pub open spec fn leading_space(text: Seq<char>) -> nat
    decreases text.len(),
{
    if text.len() > 0 && white_space(text[0]) {
        1 + leading_space(text.skip(1))
    } else {
        0
    }
}

/// The number of white-space characters that a text ends with.
pub open spec fn trailing_space(text: Seq<char>) -> nat
    decreases text.len(),
{
    if text.len() > 0 && white_space(text.last()) {
        1 + trailing_space(text.drop_last())
    } else {
        0
    }
}

/// A text without the white space at both of its ends.
pub open spec fn trimmed(text: Seq<char>) -> Seq<char> {
    let tail = text.skip(leading_space(text) as int);
    tail.take(tail.len() - trailing_space(tail))
}

/// Trimming leaves a text alone that neither starts nor ends with white space.
pub proof fn trimmed_texts_stay(text: Seq<char>)
    requires
        text.len() > 0,
        !white_space(text[0]),
        !white_space(text.last()),
    ensures
        trimmed(text) == text,
{
    assert(text.skip(0) =~= text);
    assert(text.take(text.len() as int) =~= text);
}

/// The first position at which `..` stands in a text, from `i` on.
pub open spec fn dots_from(text: Seq<char>, i: int) -> Option<int>
    decreases text.len() - i,
{
    if i + 2 > text.len() {
        None
    } else if text[i] == '.' && text[i + 1] == '.' {
        Some(i)
    } else {
        dots_from(text, i + 1)
    }
}

/// The characters of a text.
pub fn to_chars(text: &str) -> (chars: Vec<char>)
    ensures
        chars@ == text@,
{
    let mut chars: Vec<char> = Vec::new();
    for c in it: text.chars()
        invariant
            it.seq() == text@,
            chars@ == it.seq().take(it.index()),
    {
        chars.push(c);
    }
    chars
}

fn is_at(text: &[char], piece: &[char], at: usize) -> (yes: bool)
    requires
        at + piece@.len() <= text@.len(),
    ensures
        yes == stands_at(text@, piece@, at as int),
{
    let size: usize = text.len();
    let mut i: usize = 0;
    while i < piece.len()
        invariant
            i <= piece@.len(),
            size == text@.len(),
            at + piece@.len() <= text@.len(),
            forall|k: int| 0 <= k < i ==> text@[at + k] == piece@[k],
        decreases piece@.len() - i,
    {
        if text[at + i] != piece[i] {
            assert(text@.subrange(at as int, at + piece@.len())[i as int] != piece@[i as int]);
            return false;
        }
        i += 1;
    }
    assert(text@.subrange(at as int, at + piece@.len()) =~= piece@);
    true
}

/// Tests whether a piece of text occurs in another.
pub fn contains(text: &[char], piece: &[char]) -> (yes: bool)
    ensures
        yes == has_piece(text@, piece@),
{
    if piece.len() > text.len() {
        return false;
    }
    let last: usize = text.len() - piece.len();
    let mut at: usize = 0;
    while at <= last
        invariant
            last + piece@.len() == text@.len(),
            at <= last + 1,
            forall|k: int| 0 <= k < at ==> !stands_at(text@, piece@, k),
        decreases last + 1 - at,
    {
        if is_at(text, piece, at) {
            assert(stands_at(text@, piece@, at as int));
            return true;
        }
        if at == last {
            return false;
        }
        at += 1;
    }
    false
}

/// Tests whether a text starts with a piece of text.
pub fn starts_with(text: &[char], piece: &[char]) -> (yes: bool)
    ensures
        yes == stands_at(text@, piece@, 0),
{
    piece.len() <= text.len() && is_at(text, piece, 0)
}

/// Removes the white space at both ends of a text.
pub fn trim(text: &[char]) -> (rest: Vec<char>)
    ensures
        rest@ == trimmed(text@),
{
    let mut start: usize = 0;
    assert(text@.skip(0) =~= text@);
    while start < text.len() && is_white_space(text[start])
        invariant
            start <= text@.len(),
            leading_space(text@) == start + leading_space(text@.skip(start as int)),
        decreases text@.len() - start,
    {
        assert(text@.skip(start as int).skip(1) =~= text@.skip(start + 1));
        start += 1;
    }
    let ghost tail = text@.skip(start as int);
    let mut end: usize = text.len();
    assert(tail.take(end - start) =~= tail);
    while end > start && is_white_space(text[end - 1])
        invariant
            start <= end <= text@.len(),
            tail == text@.skip(start as int),
            trailing_space(tail) == (text@.len() - end) + trailing_space(tail.take(end - start)),
        decreases end,
    {
        assert(tail.take(end - start).drop_last() =~= tail.take(end - 1 - start));
        end -= 1;
    }
    let mut rest: Vec<char> = Vec::new();
    let mut i: usize = start;
    while i < end
        invariant
            start <= i <= end <= text@.len(),
            rest@ =~= text@.subrange(start as int, i as int),
        decreases end - i,
    {
        rest.push(text[i]);
        i += 1;
    }
    assert(rest@ =~= tail.take(end - start));
    rest
}

/// Finds the first position at which `..` stands in a text.
pub fn find_dots(text: &[char]) -> (at: Option<usize>)
    ensures
        match dots_from(text@, 0) {
            Some(i) => at matches Some(k) && k == i && i + 2 <= text@.len(),
            None => at is None,
        },
{
    let size: usize = text.len();
    let mut i: usize = 0;
    while i < size && size - i >= 2
        invariant
            i <= size,
            size == text@.len(),
            dots_from(text@, 0) == dots_from(text@, i as int),
        decreases size - i,
    {
        if text[i] == '.' && text[i + 1] == '.' {
            return Some(i);
        }
        i += 1;
    }
    None
}

} // verus!
