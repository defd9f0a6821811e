//! Unsigned decimal numerals: writing them, zero-padding them and reading
//! them back.

use vstd::prelude::*;
use vstd::string::*;

verus! {

/// The character of a decimal digit.
pub open spec fn digit_char(d: int) -> char {
    (48 + d) as char
}

/// Whether a character is one of `0` to `9`.
pub open spec fn is_digit(c: char) -> bool {
    48 <= c as int <= 57
}

/// The shortest decimal numeral of `n`.
pub open spec fn numeral(n: nat) -> Seq<char>
    decreases n,
{
    if n < 10 {
        seq![digit_char(n as int)]
    } else {
        numeral(n / 10).push(digit_char((n % 10) as int))
    }
}

/// The numeral of `n`, extended on the left with zeros up to `width`
/// characters.
pub open spec fn zero_padded(n: nat, width: nat) -> Seq<char> {
    if numeral(n).len() >= width {
        numeral(n)
    } else {
        Seq::new((width - numeral(n).len()) as nat, |i: int| '0') + numeral(n)
    }
}

/// Whether every character is a digit.
pub open spec fn all_digits(s: Seq<char>) -> bool {
    forall|i: int| 0 <= i < s.len() ==> is_digit(#[trigger] s[i])
}

/// The number that a string of digits writes in base ten.
pub open spec fn digits_value(s: Seq<char>) -> nat
    decreases s.len(),
{
    if s.len() == 0 {
        0
    } else {
        (10 * digits_value(s.drop_last()) + (s.last() as int - 48)) as nat
    }
}

/// What a text says as an unsigned number of at most `max`: an optional plus
/// sign followed by digits and nothing else.
pub open spec fn unsigned_value(s: Seq<char>, max: nat) -> Option<nat> {
    let body = if s.len() > 0 && s[0] == '+' {
        s.skip(1)
    } else {
        s
    };
    if body.len() > 0 && all_digits(body) && digits_value(body) <= max {
        Some(digits_value(body))
    } else {
        None
    }
}

proof fn lemma_numeral(n: nat)
    ensures
        numeral(n).len() >= 1,
        all_digits(numeral(n)),
        digits_value(numeral(n)) == n,
    decreases n,
{
    if n < 10 {
        assert(numeral(n).drop_last() =~= Seq::<char>::empty());
        assert(digits_value(numeral(n).drop_last()) == 0);
    } else {
        lemma_numeral(n / 10);
        assert(numeral(n).drop_last() =~= numeral(n / 10));
    }
}

/// A numeral is made of digits, and of one at least.
pub proof fn numeral_is_digits(n: nat)
    ensures
        numeral(n).len() >= 1,
        all_digits(numeral(n)),
{
    lemma_numeral(n);
}

proof fn lemma_leading_zeros(k: nat, s: Seq<char>)
    requires
        all_digits(s),
    ensures
        all_digits(Seq::new(k, |i: int| '0') + s),
        digits_value(Seq::new(k, |i: int| '0') + s) == digits_value(s),
    decreases k + s.len(),
{
    let zeros = Seq::new(k, |i: int| '0');
    if s.len() == 0 {
        assert(zeros + s =~= zeros);
        if k > 0 {
            let fewer = (k - 1) as nat;
            assert(zeros.drop_last() =~= Seq::new(fewer, |i: int| '0') + s);
            lemma_leading_zeros(fewer, s);
        }
    } else {
        assert((zeros + s).drop_last() =~= zeros + s.drop_last());
        lemma_leading_zeros(k, s.drop_last());
    }
}

/// A padded numeral is made of digits, is at least as long as was asked for,
/// and still writes its number.
pub proof fn padded_numeral_reads_back(n: nat, width: nat)
    ensures
        zero_padded(n, width).len() >= width,
        zero_padded(n, width).len() >= 1,
        all_digits(zero_padded(n, width)),
        digits_value(zero_padded(n, width)) == n,
{
    lemma_numeral(n);
    if numeral(n).len() < width {
        lemma_leading_zeros((width - numeral(n).len()) as nat, numeral(n));
    }
}

/// Numbers below 100 take exactly two digits when padded to two.
pub proof fn two_digits(n: nat)
    requires
        n < 100,
    ensures
        zero_padded(n, 2).len() == 2,
{
    reveal_with_fuel(numeral, 3);
}

/// A number below 1000 has at most three digits.
pub proof fn three_digits(n: nat)
    requires
        n < 1000,
    ensures
        zero_padded(n, 2).len() <= 3,
{
    if n >= 10 {
        if n >= 100 {
            assert(numeral(n / 10 / 10).len() == 1);
        }
        assert(numeral(n / 10).len() <= 2);
    }
    assert(numeral(n).len() <= 3);
}

/// Padded numerals of different numbers differ.
pub proof fn padded_numerals_differ(n: nat, m: nat, width: nat)
    requires
        zero_padded(n, width) == zero_padded(m, width),
    ensures
        n == m,
{
    padded_numeral_reads_back(n, width);
    padded_numeral_reads_back(m, width);
}

/// Reading a numeral, padded or not, gives back the number that was written,
/// as long as it is within the limit of the reader.
pub proof fn unsigned_value_of_padded(n: nat, width: nat, max: nat)
    requires
        n <= max,
    ensures
        unsigned_value(zero_padded(n, width), max) == Some(n),
{
    padded_numeral_reads_back(n, width);
    assert(is_digit(zero_padded(n, width)[0]));
}

proof fn lemma_digits_value_prefix(s: Seq<char>, k: int)
    requires
        0 <= k <= s.len(),
        all_digits(s),
    ensures
        digits_value(s.take(k)) <= digits_value(s),
    decreases s.len() - k,
{
    if k == s.len() {
        assert(s.take(k) =~= s);
    } else {
        lemma_digits_value_prefix(s, k + 1);
        assert(s.take(k + 1).drop_last() =~= s.take(k));
        assert(is_digit(s[k]));
    }
}

fn digit_text(d: u64) -> (text: &'static str)
    requires
        d < 10,
    ensures
        text@ == seq![digit_char(d as int)],
{
    proof {
        reveal_strlit("0");
        reveal_strlit("1");
        reveal_strlit("2");
        reveal_strlit("3");
        reveal_strlit("4");
        reveal_strlit("5");
        reveal_strlit("6");
        reveal_strlit("7");
        reveal_strlit("8");
        reveal_strlit("9");
    }
    match d {
        0 => "0",
        1 => "1",
        2 => "2",
        3 => "3",
        4 => "4",
        5 => "5",
        6 => "6",
        7 => "7",
        8 => "8",
        _ => "9",
    }
}

/// Writes `n` in decimal.
pub fn decimal(n: u64) -> (text: String)
    ensures
        text@ == numeral(n as nat),
    decreases n,
{
    if n < 10 {
        digit_text(n).to_owned()
    } else {
        let mut text = decimal(n / 10);
        text.append(digit_text(n % 10));
        text
    }
}

/// Writes `n` in decimal with at least `width` digits.
pub fn padded_decimal(n: u64, width: usize) -> (text: String)
    ensures
        text@ == zero_padded(n as nat, width as nat),
{
    let digits = decimal(n);
    let count: usize = digits.as_str().unicode_len();
    let mut text = String::new();
    let mut have: usize = count;
    while have < width
        invariant
            count == numeral(n as nat).len(),
            have >= count,
            have <= width || have == count,
            text@ == Seq::new((have - count) as nat, |i: int| '0'),
        decreases width - have,
    {
        proof {
            reveal_strlit("0");
        }
        text.append("0");
        have += 1;
        assert(text@ =~= Seq::new((have - count) as nat, |i: int| '0'));
    }
    text.append(digits.as_str());
    if count >= width {
        assert(text@ =~= numeral(n as nat));
    }
    text
}

/// Reads an unsigned number of at most `max` from a text.
pub fn parse_unsigned(text: &[char], max: u64) -> (value: Option<u64>)
    ensures
        value is Some <==> unsigned_value(text@, max as nat) is Some,
        value is Some ==> value->0 as nat == unsigned_value(text@, max as nat)->0,
{
    let start: usize = if text.len() > 0 && text[0] == '+' { 1 } else { 0 };
    let ghost body = text@.skip(start as int);
    assert(start == 0 ==> body =~= text@);
    if start == text.len() {
        return None;
    }
    let mut value: u64 = 0;
    let mut i: usize = start;
    assert(body.take(0) =~= Seq::<char>::empty());
    while i < text.len()
        invariant
            start <= i <= text.len(),
            body == text@.skip(start as int),
            body.len() > 0,
            unsigned_value(text@, max as nat) == (if all_digits(body) && digits_value(body)
                <= max {
                Some(digits_value(body))
            } else {
                None
            }),
            forall|k: int| 0 <= k < i - start ==> is_digit(#[trigger] body[k]),
            value as nat == digits_value(body.take(i - start)),
            value <= max,
        decreases text.len() - i,
    {
        let c: char = text[i];
        assert(body[i - start] == c);
        if c < '0' || c > '9' {
            assert(!is_digit(body[i - start]));
            return None;
        }
        let digit: u64 = (c as u32 - 48) as u64;
        let next: u128 = value as u128 * 10 + digit as u128;
        assert(body.take(i - start + 1).drop_last() =~= body.take(i - start));
        assert(next == digits_value(body.take(i - start + 1)));
        if next > max as u128 {
            proof {
                if all_digits(body) {
                    lemma_digits_value_prefix(body, i - start + 1);
                }
            }
            return None;
        }
        value = next as u64;
        i += 1;
    }
    assert(body.take(i - start) =~= body);
    Some(value)
}

} // verus!
