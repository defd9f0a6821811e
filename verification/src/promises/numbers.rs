//! Decimal numerals, and the order of binary numbers.

use vstd::prelude::*;

use crate::decimal;
use crate::decimal::{parse_unsigned, padded_decimal};
use crate::ieee;
use crate::ieee::{
    is_at_most32, is_at_most64, is_finite32, is_less32, is_less64, is_nan32, is_nan64,
};

verus! {

/// Whether a text is made of digits only, and of at least one.
pub open spec fn is_numeral(text: Seq<char>) -> bool {
    text.len() > 0 && forall|i: int| 0 <= i < text.len() ==> '0' <= #[trigger] text[i] <= '9'
}

/// What a numeral is worth.
pub open spec fn worth(text: Seq<char>) -> nat
    decreases text.len(),
{
    if text.len() == 0 {
        0
    } else {
        (10 * worth(text.drop_last()) + (text.last() as int - '0' as int)) as nat
    }
}

pub(crate) proof fn lemma_worth(text: Seq<char>)
    ensures
        worth(text) == decimal::digits_value(text),
        is_numeral(text) <==> text.len() > 0 && decimal::all_digits(text),
    decreases text.len(),
{
    if text.len() > 0 {
        lemma_worth(text.drop_last());
    }
    if decimal::all_digits(text) {
        assert forall|i: int| 0 <= i < text.len() implies '0' <= #[trigger] text[i] <= '9' by {
            assert(decimal::is_digit(text[i]));
        }
    }
    if text.len() > 0 && is_numeral(text) {
        assert forall|i: int| 0 <= i < text.len() implies decimal::is_digit(#[trigger] text[i]) by {
            assert('0' <= text[i] <= '9');
        }
    }
}

pub(crate) proof fn lemma_numeral(n: nat)
    ensures
        is_numeral(decimal::numeral(n)),
        worth(decimal::numeral(n)) == n,
        n > 0 ==> decimal::numeral(n)[0] != '0',
    decreases n,
{
    let text = decimal::numeral(n);
    if n < 10 {
        assert(text.drop_last() =~= Seq::empty());
        assert(worth(Seq::<char>::empty()) == 0);
    } else {
        lemma_numeral(n / 10);
        assert(text.drop_last() =~= decimal::numeral(n / 10));
    }
}

/// What a numeral is written as reads as the number again, and is as long as
/// was asked for, with zeros before it; without need for them it starts with
/// none.
pub proof fn numerals_are_worth_their_number(n: u64, width: usize, text: String)
    requires
        call_ensures(padded_decimal, (n, width), text),
    ensures
        is_numeral(text@),
        worth(text@) == n,
        text@.len() >= width,
        text@.len() > width && text@.len() > 1 ==> text@[0] != '0',
{
    lemma_numeral(n as nat);
    decimal::padded_numeral_reads_back(n as nat, width as nat);
    lemma_worth(text@);
    if text@.len() > width && n == 0 {
        reveal_with_fuel(decimal::numeral, 2);
    }
}

/// A text is read as a number exactly where it is a numeral, perhaps behind a
/// plus sign, that is worth no more than the greatest one asked for; and as
/// the number that it is worth.
pub proof fn numerals_are_read_for_their_worth(text: &[char], max: u64, value: Option<u64>)
    requires
        call_ensures(parse_unsigned, (text, max), value),
    ensures
        ({
            let digits = if text@.len() > 0 && text@[0] == '+' {
                text@.subrange(1, text@.len() as int)
            } else {
                text@
            };
            value == if is_numeral(digits) && worth(digits) <= max {
                Some(worth(digits) as u64)
            } else {
                None
            }
        }),
{
    let digits = if text@.len() > 0 && text@[0] == '+' {
        text@.subrange(1, text@.len() as int)
    } else {
        text@
    };
    lemma_worth(digits);
    assert(text@.skip(1) =~= text@.subrange(1, text@.len() as int) || text@.len() == 0);
}

// ---------------------------------------------------------------------------
// Binary numbers
// ---------------------------------------------------------------------------

/// The fields of a single-precision pattern: sign, exponent and fraction.
pub open spec fn fields32(bits: u32) -> (int, int, int) {
    (bits as int / 0x8000_0000, bits as int / 0x80_0000 % 0x100, bits as int % 0x80_0000)
}

/// The fields of a double-precision pattern: sign, exponent and fraction.
pub open spec fn fields64(bits: u64) -> (int, int, int) {
    (
        bits as int / 0x8000_0000_0000_0000,
        bits as int / 0x10_0000_0000_0000 % 0x800,
        bits as int % 0x10_0000_0000_0000,
    )
}

/// Whether one pair of an exponent and a fraction is less than another.
pub open spec fn is_smaller(a: (int, int, int), b: (int, int, int)) -> bool {
    a.1 < b.1 || a.1 == b.1 && a.2 < b.2
}

/// Whether one number is less than another: by sign, exponent and fraction.
/// The two zeros are equal.
pub open spec fn precedes(a: (int, int, int), b: (int, int, int)) -> bool {
    let zeros = a.1 == 0 && a.2 == 0 && b.1 == 0 && b.2 == 0;
    if a.0 == 0 && b.0 == 0 {
        is_smaller(a, b)
    } else if a.0 == 1 && b.0 == 1 {
        is_smaller(b, a)
    } else {
        a.0 == 1 && b.0 == 0 && !zeros
    }
}

pub(crate) proof fn lemma_fields32(bits: u32)
    ensures
        fields32(bits).0 == 0 || fields32(bits).0 == 1,
        0 <= fields32(bits).1 < 0x100,
        0 <= fields32(bits).2 < 0x80_0000,
        ieee::magnitude32(bits) == 0x80_0000 * fields32(bits).1 + fields32(bits).2,
        bits < 0x8000_0000 <==> fields32(bits).0 == 0,
{
}

proof fn lemma_fields64(bits: u64)
    ensures
        fields64(bits).0 == 0 || fields64(bits).0 == 1,
        0 <= fields64(bits).1 < 0x800,
        0 <= fields64(bits).2 < 0x10_0000_0000_0000,
        ieee::magnitude64(bits) == 0x10_0000_0000_0000 * fields64(bits).1 + fields64(bits).2,
        bits < 0x8000_0000_0000_0000 <==> fields64(bits).0 == 0,
{
}

/// Single-precision patterns are ordered as the numbers that they are, and
/// those that are none are in no order.
pub proof fn single_numbers_are_ordered(
    a: u32,
    b: u32,
    nan: bool,
    finite: bool,
    other_nan: bool,
    less: bool,
    at_most: bool,
)
    requires
        call_ensures(is_nan32, (a,), nan),
        call_ensures(is_nan32, (b,), other_nan),
        call_ensures(is_finite32, (a,), finite),
        call_ensures(is_less32, (a, b), less),
        call_ensures(is_at_most32, (a, b), at_most),
    ensures
        nan <==> fields32(a).1 == 0xff && fields32(a).2 != 0,
        finite <==> fields32(a).1 != 0xff,
        less <==> !nan && !other_nan && precedes(fields32(a), fields32(b)),
        at_most <==> !nan && !other_nan && !precedes(fields32(b), fields32(a)),
{
    lemma_fields32(a);
    lemma_fields32(b);
}

/// Double-precision patterns are ordered as the numbers that they are, and
/// those that are none are in no order.
pub proof fn double_numbers_are_ordered(
    a: u64,
    b: u64,
    nan: bool,
    other_nan: bool,
    less: bool,
    at_most: bool,
)
    requires
        call_ensures(is_nan64, (a,), nan),
        call_ensures(is_nan64, (b,), other_nan),
        call_ensures(is_less64, (a, b), less),
        call_ensures(is_at_most64, (a, b), at_most),
    ensures
        nan <==> fields64(a).1 == 0x7ff && fields64(a).2 != 0,
        less <==> !nan && !other_nan && precedes(fields64(a), fields64(b)),
        at_most <==> !nan && !other_nan && !precedes(fields64(b), fields64(a)),
{
    lemma_fields64(a);
    lemma_fields64(b);
}

} // verus!
