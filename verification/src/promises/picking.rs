//! Previews of the candidates, and the choice among them.

use vstd::prelude::*;

use crate::compose::Rgb8Image;
use crate::decimal;
use crate::grid;
use crate::pick;
use crate::pick::{
    after_answer, annotate, parse_choice, read_choice, shrink, AfterAnswer, DIGITS,
};
use crate::promises::{numbers, painting, texts, tracking};
use crate::text;

verus! {

// ---------------------------------------------------------------------------
// Shrinking
// ---------------------------------------------------------------------------

/// The bytes of a channel of an image by column and row.
pub open spec fn channel_bytes(image: Rgb8Image, channel: int) -> spec_fn(int, int) -> int {
    |x: int, y: int| image.data@[3 * (y * image.width + x) + channel] as int
}

/// Whether a byte is the mean of a block of a channel, rounded down.
pub open spec fn is_mean(image: Rgb8Image, factor: int, x: int, y: int, channel: int, mean: u8) -> bool {
    let total = tracking::box_amount(
        channel_bytes(image, channel),
        x * factor,
        y * factor,
        factor as nat,
        factor as nat,
    );
    factor * factor * mean <= total < factor * factor * (mean + 1)
}

proof fn lemma_block_total(image: Rgb8Image, factor: int, x: int, y: int, channel: int, n: nat)
    requires
        0 < factor,
        n <= factor * factor,
    ensures
        pick::block_total(image, factor, y, x, channel, n) == tracking::box_amount(
            channel_bytes(image, channel),
            x * factor,
            y * factor,
            factor as nat,
            (n as int / factor) as nat,
        ) + tracking::row_amount(
            channel_bytes(image, channel),
            x * factor,
            y * factor + n as int / factor,
            (n as int % factor) as nat,
        ),
        pick::block_total(image, factor, y, x, channel, n) <= 255 * n,
    decreases n,
{
    if n > 0 {
        let i = n - 1;
        lemma_block_total(image, factor, x, y, channel, i as nat);
        grid::place_has_cell(factor, factor, i);
        let (row, column) = (i / factor, i % factor);
        if column + 1 < factor {
            grid::cell_has_place(factor, factor, row, column + 1);
            assert(n as int / factor == row && n as int % factor == column + 1);
            assert(x * factor + (column + 1) - 1 == x * factor + column);
        } else {
            assert(n == (row + 1) * factor) by (nonlinear_arith)
                requires
                    n == row * factor + column + 1,
                    column + 1 == factor,
            ;
            vstd::arithmetic::div_mod::lemma_fundamental_div_mod_converse(
                n as int,
                factor,
                row + 1,
                0,
            );
            assert(n as int / factor == row + 1 && n as int % factor == 0);
            assert(y * factor + (row + 1) - 1 == y * factor + row);
            assert(x * factor + factor - 1 == x * factor + column);
        }
    } else {
        vstd::arithmetic::div_mod::lemma_fundamental_div_mod_converse(0, factor, 0, 0);
    }
}

proof fn lemma_mean(image: Rgb8Image, factor: int, x: int, y: int, channel: int)
    requires
        0 < factor,
    ensures
        is_mean(
            image,
            factor,
            x,
            y,
            channel,
            pick::block_mean(image, factor, y, x, channel),
        ),
{
    let n = factor * factor;
    assert(n > 0) by (nonlinear_arith)
        requires
            n == factor * factor,
            factor > 0,
    ;
    lemma_block_total(image, factor, x, y, channel, n as nat);
    vstd::arithmetic::div_mod::lemma_fundamental_div_mod_converse(n, factor, factor, 0);
    let total = pick::block_total(image, factor, y, x, channel, n as nat) as int;
    let mean = total / n;
    assert(n * mean <= total < n * (mean + 1) && 0 <= mean <= 255) by (nonlinear_arith)
        requires
            n > 0,
            mean == total / n,
            0 <= total <= 255 * n,
    ;
}

proof fn lemma_shrunk(image: Rgb8Image, factor: int, x: int, y: int, channel: int)
    requires
        0 < factor,
        0 <= x < image.width as int / factor,
        0 <= y < image.height as int / factor,
        0 <= channel < 3,
    ensures
        ({
            let (w, h) = (image.width as int / factor, image.height as int / factor);
            let k = 3 * (y * w + x) + channel;
            &&& pick::shrunk(image, factor).len() == 3 * (h * w)
            &&& 0 <= k < 3 * (h * w)
            &&& k / 3 == y * w + x
            &&& k % 3 == channel
            &&& is_mean(image, factor, x, y, channel, pick::shrunk(image, factor)[k])
        }),
{
    let (w, h) = (image.width as int / factor, image.height as int / factor);
    grid::cell_has_place(w, h, y, x);
    lemma_mean(image, factor, x, y, channel);
}

/// Each byte of a shrunk image is the mean of its channel in its own block.
pub proof fn shrunk_pixels_are_means(
    image: &Rgb8Image,
    factor: u32,
    small: Rgb8Image,
    x: int,
    y: int,
    channel: int,
)
    requires
        call_ensures(shrink, (image, factor), small),
        0 < factor,
        0 <= x < image.width as int / factor as int,
        0 <= y < image.height as int / factor as int,
        0 <= channel < 3,
    ensures
        small.width == image.width as int / factor as int,
        small.height == image.height as int / factor as int,
        small.data@.len() == 3 * (small.width * small.height),
        is_mean(
            *image,
            factor as int,
            x,
            y,
            channel,
            small.data@[3 * (y * small.width + x) + channel],
        ),
{
    lemma_shrunk(*image, factor as int, x, y, channel);
}

// ---------------------------------------------------------------------------
// Markers
// ---------------------------------------------------------------------------

/// Whether a place around a center is on the outline of its box: three wide,
/// 40 out.
pub open spec fn is_outline(dx: int, dy: int) -> bool {
    let out = tracking::greatest(
        tracking::greatest(dx, -dx),
        tracking::greatest(dy, -dy),
    );
    38 <= out <= 40
}

/// Whether a place around a center is on one of its four ticks: two wide, 8
/// to 20 out.
pub open spec fn is_tick(dx: int, dy: int) -> bool {
    ||| 8 <= tracking::greatest(dx, -dx) <= 20 && (dy == 0 || dy == 1)
    ||| 8 <= tracking::greatest(dy, -dy) <= 20 && (dx == 0 || dx == 1)
}

/// Whether a cell of a digit is set: three columns, five rows, a bit for each
/// column.
pub open spec fn is_lit(digit: int, column: int, row: int) -> bool {
    let bits = DIGITS@[digit]@[row] as int;
    if column == 0 {
        bits / 4 % 2 == 1
    } else if column == 1 {
        bits / 2 % 2 == 1
    } else {
        bits % 2 == 1
    }
}

/// Whether a text is a number as it is written.
pub open spec fn is_written(digits: Seq<char>, number: int) -> bool {
    &&& numbers::is_numeral(digits)
    &&& numbers::worth(digits) == number
    &&& digits.len() > 1 ==> digits[0] != '0'
}

/// Whether a place around a center is on its number: right of the box, cells
/// of 8 by 8, each digit 32 after the one before it.
pub open spec fn is_number_ink(number: int, dx: int, dy: int) -> bool {
    exists|digits: Seq<char>, k: int|
        {
            let (left, top) = (dx - 50 - 32 * k, dy + 40);
            &&& #[trigger] is_written(digits, number)
            &&& 0 <= k < digits.len()
            &&& 0 <= left < 24
            &&& 0 <= top < 40
            &&& is_lit(#[trigger] digits[k] as int - '0' as int, left / 8, top / 8)
        }
}

/// Whether a place around a center is on its marker.
pub open spec fn is_ink(number: int, dx: int, dy: int) -> bool {
    is_outline(dx, dy) || is_tick(dx, dy) || is_number_ink(number, dx, dy)
}

/// Whether a pixel is on the marker of one of the centers. A column and a row
/// are taken modulo 2 to the power of 32.
pub open spec fn is_marked(centers: Seq<(i64, i64)>, x: int, y: int) -> bool {
    exists|k: int, i: int, j: int|
        {
            &&& 0 <= k < centers.len()
            &&& #[trigger] is_ink(k + 1, i - centers[k].0, j - centers[k].1)
            &&& i >= 0 && i % 0x1_0000_0000 == x
            &&& j >= 0 && j % 0x1_0000_0000 == y
        }
}

proof fn lemma_written(digits: Seq<char>)
    requires
        numbers::is_numeral(digits),
        digits.len() > 1 ==> digits[0] != '0',
    ensures
        decimal::numeral(numbers::worth(digits)) == digits,
        digits.len() > 0 && digits[0] != '0' ==> numbers::worth(digits) > 0,
    decreases digits.len(),
{
    let rest = digits.drop_last();
    let d = digits.last() as int - '0' as int;
    assert('0' <= digits[digits.len() - 1] <= '9');
    let n = numbers::worth(digits);
    if rest.len() == 0 {
        assert(numbers::worth(rest) == 0);
        assert(n == d);
        assert(digits =~= seq![decimal::digit_char(d)]);
    } else {
        assert forall|i: int| 0 <= i < rest.len() implies '0' <= #[trigger] rest[i] <= '9' by {
            assert(rest[i] == digits[i]);
        }
        lemma_written(rest);
        assert(rest[0] == digits[0]);
        let m = numbers::worth(rest);
        assert(n == 10 * m + d && n / 10 == m && n % 10 == d);
        assert(digits =~= rest.push(decimal::digit_char(d)));
    }
}

proof fn lemma_number_ink(number: nat, dx: int, dy: int)
    requires
        number > 0,
    ensures
        pick::on_digits(decimal::numeral(number), dx, dy) <==> is_number_ink(
            number as int,
            dx,
            dy,
        ),
{
    let shown = decimal::numeral(number);
    numbers::lemma_numeral(number);
    assert(is_written(shown, number as int));
    if pick::on_digits(shown, dx, dy) {
        let k = choose|k: int|
            0 <= k < shown.len() && pick::on_glyph(
                #[trigger] shown[k] as int - 48,
                dx - (50 + 32 * k),
                dy + 40,
            );
        assert(is_lit(shown[k] as int - '0' as int, (dx - 50 - 32 * k) / 8, (dy + 40) / 8));
    }
    if is_number_ink(number as int, dx, dy) {
        let (digits, k) = choose|digits: Seq<char>, k: int|
            {
                let (left, top) = (dx - 50 - 32 * k, dy + 40);
                &&& #[trigger] is_written(digits, number as int)
                &&& 0 <= k < digits.len()
                &&& 0 <= left < 24
                &&& 0 <= top < 40
                &&& is_lit(#[trigger] digits[k] as int - '0' as int, left / 8, top / 8)
            };
        lemma_written(digits);
        assert(shown == digits);
        assert(pick::on_glyph(shown[k] as int - 48, dx - (50 + 32 * k), dy + 40));
    }
}

proof fn lemma_ink(number: nat, cx: int, cy: int, x: int, y: int)
    requires
        number > 0,
    ensures
        pick::marker_shape(cx, cy, number)(x, y) <==> is_ink(number as int, x - cx, y - cy),
{
    lemma_number_ink(number, x - cx, y - cy);
}

proof fn lemma_marked(
    width: u32,
    height: u32,
    centers: Seq<(i64, i64)>,
    x: int,
    y: int,
)
    requires
        0 <= x < width,
        0 <= y < height,
    ensures
        pick::pixels_under(width, height, pick::markers_shape(centers)).contains(y * width + x)
            <==> is_marked(centers, x, y),
{
    let at = y * width + x;
    grid::cell_has_place(width as int, height as int, y, x);
    let shape = pick::markers_shape(centers);
    if pick::pixels_under(width, height, shape).contains(at) {
        let (i, j) = choose|i: int, j: int|
            shape(i, j) && #[trigger] pick::pixel_under(width, height, i, j) == Some(at);
        let (a, b) = (i % 0x1_0000_0000, j % 0x1_0000_0000);
        grid::cell_has_place(width as int, height as int, b, a);
        assert(a == x && b == y);
        let k = choose|k: int|
            0 <= k < centers.len() && pick::marker_shape(
                (#[trigger] centers[k]).0 as int,
                centers[k].1 as int,
                (k + 1) as nat,
            )(i, j);
        lemma_ink((k + 1) as nat, centers[k].0 as int, centers[k].1 as int, i, j);
        assert(is_ink(k + 1, i - centers[k].0, j - centers[k].1));
    }
    if is_marked(centers, x, y) {
        let (k, i, j) = choose|k: int, i: int, j: int|
            {
                &&& 0 <= k < centers.len()
                &&& #[trigger] is_ink(k + 1, i - centers[k].0, j - centers[k].1)
                &&& i >= 0 && i % 0x1_0000_0000 == x
                &&& j >= 0 && j % 0x1_0000_0000 == y
            };
        lemma_ink((k + 1) as nat, centers[k].0 as int, centers[k].1 as int, i, j);
        assert(shape(i, j));
        assert(pick::pixel_under(width, height, i, j) == Some(at));
    }
}

/// Each pixel of an annotated preview is marked where it is on a marker, and
/// otherwise the mean of its own block of four by four.
pub proof fn previews_show_the_markers(
    preview: &Rgb8Image,
    centers: &[(i64, i64)],
    image: Rgb8Image,
    x: int,
    y: int,
)
    requires
        call_ensures(annotate, (preview, centers), image),
        0 <= x < preview.width as int / 4,
        0 <= y < preview.height as int / 4,
    ensures
        image.width == preview.width as int / 4,
        image.height == preview.height as int / 4,
        is_marked(centers@, x, y) ==> painting::shows(image, x, y, [255, 60, 220]),
        !is_marked(centers@, x, y) ==> forall|channel: int|
            0 <= channel < 3 ==> is_mean(
                *preview,
                4,
                x,
                y,
                channel,
                #[trigger] image.data@[3 * (y * image.width + x) + channel],
            ),
{
    let (w, h) = (preview.width as int / 4, preview.height as int / 4);
    grid::cell_has_place(w, h, y, x);
    lemma_marked(image.width, image.height, centers@, x, y);
    let at = y * w + x;
    lemma_shrunk(*preview, 4, x, y, 0);
    lemma_shrunk(*preview, 4, x, y, 1);
    lemma_shrunk(*preview, 4, x, y, 2);
    let marker: [u8; 3] = [255, 60, 220];
    assert(pick::MARKER@ =~= marker@);
    assert((3 * at) / 3 == at && (3 * at) % 3 == 0);
    assert forall|channel: int| 0 <= channel < 3 && !is_marked(centers@, x, y) implies is_mean(
        *preview,
        4,
        x,
        y,
        channel,
        #[trigger] image.data@[3 * (y * image.width + x) + channel],
    ) by {
        lemma_shrunk(*preview, 4, x, y, channel);
    }
}

// ---------------------------------------------------------------------------
// Choices
// ---------------------------------------------------------------------------

/// Whether a text names a candidate: a numeral, perhaps behind a plus sign,
/// that is worth one more than its place.
pub open spec fn names(text: Seq<char>, candidates: usize, index: int) -> bool {
    let digits = if text.len() > 0 && text[0] == '+' {
        text.subrange(1, text.len() as int)
    } else {
        text
    };
    &&& 0 <= index < candidates
    &&& numbers::is_numeral(digits)
    &&& numbers::worth(digits) == index + 1
}

proof fn lemma_names(text: Seq<char>, candidates: usize)
    ensures
        match pick::named_candidate(text, candidates as nat) {
            Some(index) => names(text, candidates, index),
            None => forall|index: int| !#[trigger] names(text, candidates, index),
        },
{
    let digits = if text.len() > 0 && text[0] == '+' {
        text.subrange(1, text.len() as int)
    } else {
        text
    };
    assert(text.len() > 0 && text[0] == '+' ==> text.skip(1) =~= digits);
    numbers::lemma_worth(digits);
}

/// A candidate is chosen exactly where the text names it.
pub proof fn choices_name_their_candidate(
    text: &[char],
    candidates: usize,
    choice: Option<usize>,
)
    requires
        call_ensures(read_choice, (text, candidates), choice),
    ensures
        match choice {
            Some(index) => names(text@, candidates, index as int),
            None => forall|index: int| !#[trigger] names(text@, candidates, index),
        },
{
    lemma_names(text@, candidates);
}

/// An answer names a candidate with white space around it, or without.
pub open spec fn answers(answer: Seq<char>, candidates: usize, index: int) -> bool {
    exists|rest: Seq<char>|
        #[trigger] texts::is_trimmed(answer, rest) && names(rest, candidates, index)
}

proof fn lemma_answers(answer: Seq<char>, candidates: usize)
    ensures
        match pick::chosen(answer, candidates as nat) {
            Some(index) => answers(answer, candidates, index),
            None => forall|index: int| !#[trigger] answers(answer, candidates, index),
        },
{
    let rest = text::trimmed(answer);
    texts::lemma_trimmed(answer);
    lemma_names(rest, candidates);
    if pick::chosen(answer, candidates as nat) is None {
        assert forall|index: int| !#[trigger] answers(answer, candidates, index) by {
            if answers(answer, candidates, index) {
                let other = choose|other: Seq<char>|
                    #[trigger] texts::is_trimmed(answer, other) && names(other, candidates, index);
                texts::trimmed_texts_are_unique(answer, rest, other);
            }
        }
    }
}

/// A candidate is chosen exactly where the answer names it.
pub proof fn answers_choose_what_they_name(
    answer: &str,
    candidates: usize,
    choice: Option<usize>,
)
    requires
        call_ensures(parse_choice, (answer, candidates), choice),
    ensures
        match choice {
            Some(index) => answers(answer@, candidates, index as int),
            None => forall|index: int| !#[trigger] answers(answer@, candidates, index),
        },
{
    lemma_answers(answer@, candidates);
}

/// After an answer the candidate that it names is chosen. After one that names
/// none the question is asked again, three times in all.
pub proof fn questions_are_asked_three_times(
    answer: &str,
    candidates: usize,
    asked: u32,
    next: AfterAnswer,
)
    requires
        call_ensures(after_answer, (answer, candidates, asked), next),
    ensures
        match next {
            AfterAnswer::Chosen { index } => answers(answer@, candidates, index as int),
            AfterAnswer::AskAgain { asked: now } => {
                &&& forall|index: int| !#[trigger] answers(answer@, candidates, index)
                &&& asked < 2
                &&& now == asked + 1
            },
            AfterAnswer::GiveUp => {
                &&& forall|index: int| !#[trigger] answers(answer@, candidates, index)
                &&& asked >= 2
            },
        },
{
    lemma_answers(answer@, candidates);
}

} // verus!
