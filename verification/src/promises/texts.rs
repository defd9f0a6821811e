//! Pieces of texts.

use vstd::prelude::*;

use crate::text;
use crate::text::{contains, find_dots, is_white_space, starts_with, to_chars, trim};

verus! {

/// Whether a character is white space: tabulators, line ends, spaces and
/// their kin.
pub open spec fn is_blank(c: char) -> bool {
    ||| '\u{9}' <= c <= '\u{d}'
    ||| c == ' '
    ||| c == '\u{85}'
    ||| c == '\u{a0}'
    ||| c == '\u{1680}'
    ||| '\u{2000}' <= c <= '\u{200a}'
    ||| c == '\u{2028}'
    ||| c == '\u{2029}'
    ||| c == '\u{202f}'
    ||| c == '\u{205f}'
    ||| c == '\u{3000}'
}

/// Whether every character of a text is white space.
pub open spec fn is_all_blank(text: Seq<char>) -> bool {
    forall|i: int| 0 <= i < text.len() ==> is_blank(#[trigger] text[i])
}

/// White space is white space.
pub proof fn white_space_is_known(c: char, yes: bool)
    requires
        call_ensures(is_white_space, (c,), yes),
    ensures
        yes <==> is_blank(c),
{
}

/// The characters of a text are those of the text.
pub proof fn characters_are_kept(text: &str, characters: Vec<char>)
    requires
        call_ensures(to_chars, (text,), characters),
    ensures
        characters@.len() == text@.len(),
        forall|i: int| 0 <= i < text@.len() ==> #[trigger] characters@[i] == text@[i],
{
}

/// A text contains a piece exactly where it is the piece with something, or
/// nothing, around it.
pub proof fn contained_pieces_have_surroundings(text: &[char], piece: &[char], yes: bool)
    requires
        call_ensures(contains, (text, piece), yes),
    ensures
        yes <==> exists|before: Seq<char>, after: Seq<char>|
            text@ == #[trigger] (before + piece@ + after),
{
    if yes {
        let at = choose|at: int| #[trigger] text::stands_at(text@, piece@, at);
        let before = text@.subrange(0, at);
        let after = text@.subrange(at + piece@.len(), text@.len() as int);
        assert(text@ =~= before + piece@ + after);
    }
    if exists|before: Seq<char>, after: Seq<char>|
        text@ == #[trigger] (before + piece@ + after) {
        let (before, after) = choose|before: Seq<char>, after: Seq<char>|
            text@ == #[trigger] (before + piece@ + after);
        let at = before.len() as int;
        assert(text@.subrange(at, at + piece@.len()) =~= piece@);
        assert(text::stands_at(text@, piece@, at));
    }
}

/// A text starts with a piece exactly where it is the piece with something,
/// or nothing, behind it.
pub proof fn starts_have_rests(text: &[char], piece: &[char], yes: bool)
    requires
        call_ensures(starts_with, (text, piece), yes),
    ensures
        yes <==> exists|after: Seq<char>| text@ == #[trigger] (piece@ + after),
{
    if yes {
        let after = text@.subrange(piece@.len() as int, text@.len() as int);
        assert(text@ =~= piece@ + after);
    }
    if exists|after: Seq<char>| text@ == #[trigger] (piece@ + after) {
        let after = choose|after: Seq<char>| text@ == #[trigger] (piece@ + after);
        assert(text@.subrange(0, piece@.len() as int) =~= piece@);
        assert(text::stands_at(text@, piece@, 0));
    }
}

/// Whether a text is another one without the white space around it.
pub open spec fn is_trimmed(text: Seq<char>, rest: Seq<char>) -> bool {
    &&& exists|lead: Seq<char>, trail: Seq<char>|
        is_all_blank(lead) && is_all_blank(trail) && text == #[trigger] (lead + rest + trail)
    &&& rest.len() > 0 ==> !is_blank(rest[0]) && !is_blank(rest[rest.len() - 1])
}

proof fn lemma_leading(text: Seq<char>)
    ensures
        text::leading_space(text) <= text.len(),
        is_all_blank(text.take(text::leading_space(text) as int)),
        text::leading_space(text) < text.len() ==> !is_blank(
            text[text::leading_space(text) as int],
        ),
    decreases text.len(),
{
    if text.len() > 0 && text::white_space(text[0]) {
        let rest = text.skip(1);
        lemma_leading(rest);
        let n = text::leading_space(rest) as int;
        let lead = text.take(n + 1);
        assert forall|i: int| 0 <= i < lead.len() implies is_blank(#[trigger] lead[i]) by {
            if i > 0 {
                assert(rest.take(n)[i - 1] == lead[i]);
            }
        }
    }
}

proof fn lemma_trailing(text: Seq<char>)
    ensures
        text::trailing_space(text) <= text.len(),
        is_all_blank(text.skip(text.len() - text::trailing_space(text))),
        text::trailing_space(text) < text.len() ==> !is_blank(
            text[text.len() - text::trailing_space(text) - 1],
        ),
    decreases text.len(),
{
    if text.len() > 0 && text::white_space(text.last()) {
        let rest = text.drop_last();
        lemma_trailing(rest);
        let n = text::trailing_space(rest) as int;
        let trail = text.skip(text.len() - n - 1);
        assert forall|i: int| 0 <= i < trail.len() implies is_blank(#[trigger] trail[i]) by {
            if i < n {
                assert(rest.skip(rest.len() - n)[i] == trail[i]);
            }
        }
    }
}

pub(crate) proof fn lemma_trimmed(text: Seq<char>)
    ensures
        is_trimmed(text, text::trimmed(text)),
{
    let rest = text::trimmed(text);
    let n = text::leading_space(text) as int;
    let lead = text.take(n);
    let tail = text.skip(n);
    let m = text::trailing_space(tail) as int;
    let trail = tail.skip(tail.len() - m);
    lemma_leading(text);
    lemma_trailing(tail);
    assert(text =~= lead + rest + trail);
    if rest.len() > 0 {
        assert(rest[0] == text[n]);
    }
}

/// There is one text without the white space around it.
pub proof fn trimmed_texts_are_unique(text: Seq<char>, a: Seq<char>, b: Seq<char>)
    requires
        is_trimmed(text, a),
        is_trimmed(text, b),
    ensures
        a == b,
{
    let (lead_a, trail_a) = choose|lead: Seq<char>, trail: Seq<char>|
        is_all_blank(lead) && is_all_blank(trail) && text == #[trigger] (lead + a + trail);
    let (lead_b, trail_b) = choose|lead: Seq<char>, trail: Seq<char>|
        is_all_blank(lead) && is_all_blank(trail) && text == #[trigger] (lead + b + trail);
    lemma_inside(text, lead_a, a, trail_a, lead_b, b, trail_b);
    lemma_inside(text, lead_b, b, trail_b, lead_a, a, trail_a);
    assert forall|k: int| 0 <= k < a.len() && a.len() > 0 implies #[trigger] a[k] == b[k] by {
        let i = lead_a.len() + k;
        assert(a[i - lead_a.len()] == text[i] && b[i - lead_b.len()] == text[i]);
    }
    assert(a =~= b);
}

proof fn lemma_inside(
    text: Seq<char>,
    lead_a: Seq<char>,
    a: Seq<char>,
    trail_a: Seq<char>,
    lead_b: Seq<char>,
    b: Seq<char>,
    trail_b: Seq<char>,
)
    requires
        is_all_blank(lead_a),
        is_all_blank(trail_a),
        is_all_blank(lead_b),
        is_all_blank(trail_b),
        text == lead_a + a + trail_a,
        text == lead_b + b + trail_b,
        a.len() > 0 ==> !is_blank(a[0]) && !is_blank(a[a.len() - 1]),
        b.len() > 0 ==> !is_blank(b[0]) && !is_blank(b[b.len() - 1]),
    ensures
        a.len() > 0 ==> b.len() > 0 && lead_b.len() <= lead_a.len() && lead_a.len() + a.len()
            <= lead_b.len() + b.len(),
        forall|i: int|
            lead_a.len() <= i < lead_a.len() + a.len() ==> a[i - lead_a.len()] == #[trigger] text[i],
{
    assert(text.len() == (lead_a + a).len() + trail_a.len());
    assert(text.len() == (lead_b + b).len() + trail_b.len());
    if a.len() > 0 {
        let (i, j) = (lead_a.len() as int, lead_a.len() + a.len() - 1);
        assert(text[i] == a[0] && text[j] == a[a.len() - 1]);
        if i < lead_b.len() {
            assert(text[i] == lead_b[i]);
        }
        if i >= lead_b.len() + b.len() {
            assert(text[i] == trail_b[i - lead_b.len() - b.len()]);
        }
        if j >= lead_b.len() + b.len() {
            assert(text[j] == trail_b[j - lead_b.len() - b.len()]);
        }
    }
}

/// Trimming takes the white space around a text, all of it and no more.
pub proof fn trimming_takes_the_white_space(text: &[char], rest: Vec<char>)
    requires
        call_ensures(trim, (text,), rest),
    ensures
        is_trimmed(text@, rest@),
{
    lemma_trimmed(text@);
}

pub(crate) proof fn lemma_dots(text: Seq<char>, i: int)
    requires
        0 <= i,
    ensures
        match text::dots_from(text, i) {
            Some(k) => {
                &&& i <= k
                &&& k + 1 < text.len()
                &&& text[k] == '.' && text[k + 1] == '.'
                &&& forall|j: int| i <= j < k ==> !(#[trigger] text[j] == '.' && text[j + 1] == '.')
            },
            None => forall|j: int|
                i <= j < text.len() - 1 ==> !(#[trigger] text[j] == '.' && text[j + 1] == '.'),
        },
    decreases text.len() - i,
{
    if i + 2 <= text.len() && !(text[i] == '.' && text[i + 1] == '.') {
        lemma_dots(text, i + 1);
    }
}

/// The dots of a range are its first two dots in a row.
pub proof fn the_first_dots_are_found(text: &[char], at: Option<usize>)
    requires
        call_ensures(find_dots, (text,), at),
    ensures
        match at {
            Some(k) => {
                &&& k + 1 < text@.len()
                &&& text@[k as int] == '.' && text@[k + 1] == '.'
                &&& forall|j: int|
                    0 <= j < k ==> !(#[trigger] text@[j] == '.' && text@[j + 1] == '.')
            },
            None => forall|j: int|
                0 <= j < text@.len() - 1 ==> !(#[trigger] text@[j] == '.' && text@[j + 1] == '.'),
        },
{
    lemma_dots(text@, 0);
}

} // verus!
