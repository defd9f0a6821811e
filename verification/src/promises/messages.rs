//! What errors say, and what files are called.

use vstd::prelude::*;

use crate::band::{AhiBand, Band, IrBand, IrBandError};
use crate::calendar::{Slot, TimeError};
use crate::compose::AssembleError;
use crate::decimal;
use crate::decimal::decimal as decimal_text;
use crate::fetch::{connection_closed, unexpected_contents};
use crate::hsd::HsdError;
use crate::naming::{file_name, listing_prefix, object_url};
use crate::plan::OptionError;
use crate::promises::numbers;
use crate::render::RenderError;
use crate::text;
use crate::timelapse::{FrameError, RangeError};

verus! {

/// A number as it is written.
pub open spec fn written(n: nat) -> Seq<char>
    decreases n,
{
    if n < 10 {
        seq![(n + '0' as int) as char]
    } else {
        written(n / 10) + seq![(n % 10 + '0' as int) as char]
    }
}

proof fn lemma_written(n: nat)
    ensures
        written(n) == decimal::numeral(n),
    decreases n,
{
    if n >= 10 {
        lemma_written(n / 10);
        assert(written(n) =~= decimal::numeral(n));
    }
}

/// A number is written in decimal digits that are worth it, without zeros
/// before it.
pub proof fn numbers_are_written_in_decimal(n: u64, text: String)
    requires
        call_ensures(decimal_text, (n,), text),
    ensures
        numbers::is_numeral(text@),
        numbers::worth(text@) == n,
        text@.len() > 1 ==> text@[0] != '0',
        text@ == written(n as nat),
{
    lemma_written(n as nat);
    numbers::lemma_numeral(n as nat);
    if n == 0 {
        reveal_with_fuel(decimal::numeral, 2);
    }
}

/// An error of a file says what is wrong with it, and with which numbers.
pub proof fn file_errors_say_what_is_wrong(error: HsdError, text: String)
    requires
        call_ensures(HsdError::message, (&error,), text),
    ensures
        text@ == match error {
            HsdError::Truncated { offset, need, have } => "file truncated: need "@ + written(
                need as nat,
            ) + " bytes at offset "@ + written(offset as nat) + ", have "@ + written(have as nat),
            HsdError::NotHsd(number) => "not an HSD file: first header block number is "@ + written(
                number as nat,
            ) + ", expected 1"@,
            HsdError::BigEndian => "big-endian HSD files are not supported"@,
            HsdError::BitsPerPixel(bits) => "unsupported bits per pixel: "@ + written(bits as nat)
                + " (expected 16)"@,
            HsdError::MissingBlock(number) => "missing required header block "@ + written(
                number as nat,
            ),
            HsdError::DataSize { expected, have } => "data block too small: expected "@ + written(
                expected as nat,
            ) + " pixels, have "@ + written(have as nat),
        },
{
    match error {
        HsdError::Truncated { offset, need, have } => {
            lemma_written(offset as nat);
            lemma_written(need as nat);
            lemma_written(have as nat);
        },
        HsdError::NotHsd(number) => lemma_written(number as nat),
        HsdError::BigEndian => {},
        HsdError::BitsPerPixel(bits) => lemma_written(bits as nat),
        HsdError::MissingBlock(number) => lemma_written(number as nat),
        HsdError::DataSize { expected, have } => {
            lemma_written(expected as nat);
            lemma_written(have as nat);
        },
    }
}

/// An error of an assembly says which segment does not fit, and why.
pub proof fn assembly_errors_say_what_is_wrong(error: AssembleError, text: String)
    requires
        call_ensures(AssembleError::message, (&error,), text),
    ensures
        text@ == match error {
            AssembleError::Misaligned { band, segment, first_line, lines } => "band "@ + written(
                band as nat,
            ) + ": segment "@ + written(segment as nat)
                + " not aligned for 2x reduction (first line "@ + written(first_line as nat)
                + ", "@ + written(lines as nat) + " lines)"@,
            AssembleError::Width { band, columns, target_width } => "band "@ + written(band as nat)
                + ": segment width "@ + written(columns as nat) + " fits no multiple of a "@
                + written(target_width as nat) + "-pixel grid"@,
            AssembleError::OutsideDisk { band, segment, first_line, end_line } => "band "@
                + written(band as nat) + ": segment "@ + written(segment as nat)
                + " does not fit the full disk (lines "@ + written(first_line as nat) + ".."@
                + written(end_line as nat) + ")"@,
        },
{
    match error {
        AssembleError::Misaligned { band, segment, first_line, lines } => {
            lemma_written(band as nat);
            lemma_written(segment as nat);
            lemma_written(first_line as nat);
            lemma_written(lines as nat);
        },
        AssembleError::Width { band, columns, target_width } => {
            lemma_written(band as nat);
            lemma_written(columns as nat);
            lemma_written(target_width as nat);
        },
        AssembleError::OutsideDisk { band, segment, first_line, end_line } => {
            lemma_written(band as nat);
            lemma_written(segment as nat);
            lemma_written(first_line as nat);
            lemma_written(end_line as nat);
        },
    }
}

/// An error of a render says which band it lacks.
pub proof fn render_errors_say_what_is_wrong(
    error: RenderError,
    text: String,
    band: Band,
    code: String,
)
    requires
        call_ensures(RenderError::message, (&error,), text),
        call_ensures(<Band as AhiBand>::code, (band,), code),
    ensures
        match error {
            RenderError::NoReflectance(own) => own == band ==> text@ == code@
                + " has no reflectance calibration"@,
            RenderError::CombinedNotThermal => text@ == "combined product needs a thermal band"@,
            RenderError::EnhancementNotThermal => text@ == "band has no thermal calibration"@,
            RenderError::HeightNotThermal => text@ == "cloud-top height needs a thermal band"@,
        },
{
}

/// An error of an option says which one, and what it takes.
pub proof fn option_errors_say_what_is_wrong(error: OptionError, text: &'static str)
    requires
        call_ensures(OptionError::message, (&error,), text),
    ensures
        text@ == match error {
            OptionError::Downsample => "--downsample must divide 11000 (e.g. 1, 2, 4, 5, 8, 10)"@,
            OptionError::WatchWithTime => "--watch cannot be combined with --time or --timelapse"@,
        },
{
}

/// An error of the frames says which size they would have.
pub proof fn frame_errors_say_what_is_wrong(error: FrameError, text: String)
    requires
        call_ensures(FrameError::message, (&error,), text),
    ensures
        text@ == match error {
            FrameError::Fps => "--fps must be between 1 and 120"@,
            FrameError::FrameSize { downsample, frame_size } => "--downsample "@ + written(
                downsample as nat,
            ) + " gives "@ + written(frame_size as nat) + "x"@ + written(frame_size as nat)
                + " frames; video needs even dimensions of at most 5500 (try 4, 5, or 10)"@,
            FrameError::NoneRendered => "no scene in the range could be rendered"@,
        },
{
    if let FrameError::FrameSize { downsample, frame_size } = error {
        lemma_written(downsample as nat);
        lemma_written(frame_size as nat);
    }
}

/// An error of a time says which text was given.
pub proof fn time_errors_say_what_is_wrong(error: TimeError, given: &str, words: String)
    requires
        call_ensures(TimeError::message, (&error, given), words),
    ensures
        words@ == match error {
            TimeError::Unreadable(_) => "invalid --time "@ + text::quoted(given@)
                + ", expected YYYY-MM-DDTHH:MM"@,
            TimeError::BetweenSlots =>
                "--time minutes must be a multiple of 10 (full-disk scenes are 10-minutely)"@,
        },
{
}

/// An error of a range is the one of its start or of its end, or says what is
/// wrong with both.
pub proof fn range_errors_say_what_is_wrong(
    error: RangeError,
    range: &str,
    words: String,
    first: &str,
    second: &str,
    part: TimeError,
    first_words: String,
    second_words: String,
)
    requires
        call_ensures(RangeError::message, (&error, range), words),
        call_ensures(TimeError::message, (&part, first), first_words),
        call_ensures(TimeError::message, (&part, second), second_words),
        crate::promises::times::is_split(range@, first@, second@),
    ensures
        error == RangeError::Start(part) ==> words@ == first_words@,
        error == RangeError::End(part) ==> words@ == second_words@,
        error is NoDots ==> words@
            == "--timelapse expects START..END, e.g. 2026-07-09T00:00..2026-07-09T06:00"@,
        error is Backwards ==> words@ == "--timelapse end is before start"@,
{
    crate::promises::times::lemma_split(range@, first@, second@);
}

/// An error of a thermal band says which text or number was given.
pub proof fn band_errors_say_what_is_wrong(
    number: u8,
    band: Result<IrBand, String>,
    error: IrBandError,
    given: &str,
    words: String,
)
    requires
        call_ensures(IrBand::new, (number,), band),
        call_ensures(IrBandError::message, (error, given), words),
    ensures
        band matches Err(told) ==> told@ == "infrared band number must be 7-16, got "@ + written(
            number as nat,
        ),
        error is NotANumber ==> words@ == "invalid band "@ + text::quoted(given@)
            + ", expected a number like 13 or B13"@,
        error matches IrBandError::NotInfrared(told) ==> words@ == told@,
{
    lemma_written(number as nat);
}

/// What is not the segment asked for is named with what it is, and a
/// connection that closed with how much it gave.
pub proof fn download_errors_say_what_is_wrong(
    name: &str,
    band: u16,
    segment: u8,
    total: u8,
    columns: usize,
    unexpected: String,
    filled: usize,
    size: usize,
    closed: String,
)
    requires
        call_ensures(unexpected_contents, (name, band, segment, total, columns), unexpected),
        call_ensures(connection_closed, (filled, size), closed),
    ensures
        unexpected@ == name@ + ": unexpected contents (band "@ + written(band as nat)
            + ", segment "@ + written(segment as nat) + "/"@ + written(total as nat) + ", "@
            + written(columns as nat) + " columns)"@,
        closed@ == "connection closed after "@ + written(filled as nat) + " of "@ + written(
            size as nat,
        ) + " bytes"@,
{
    lemma_written(band as nat);
    lemma_written(segment as nat);
    lemma_written(total as nat);
    lemma_written(columns as nat);
    lemma_written(filled as nat);
    lemma_written(size as nat);
}

/// A file is called by its satellite, its slot, its band and its segment, of
/// ten; and stands under its slot.
pub proof fn files_are_called_by_what_they_hold<B: AhiBand>(
    slot: Slot,
    band: B,
    segment: u8,
    name: String,
    prefix: String,
    url: String,
    code: String,
    resolution: &'static str,
    format: (&str, &str, &str),
    date: String,
    time: String,
    path: String,
    digits: Seq<char>,
)
    requires
        call_ensures(file_name::<B>, (slot, band, segment), name),
        call_ensures(listing_prefix, (slot,), prefix),
        call_ensures(object_url::<B>, (slot, band, segment), url),
        call_ensures(B::code, (band,), code),
        call_ensures(B::resolution_code, (band,), resolution),
        format.0@ == "%Y%m%d"@,
        format.1@ == "%H%M"@,
        format.2@ == "%Y/%m/%d/%H%M"@,
        call_ensures(Slot::format, (slot, format.0), date),
        call_ensures(Slot::format, (slot, format.1), time),
        call_ensures(Slot::format, (slot, format.2), path),
        segment < 100,
        digits.len() == 2,
        numbers::is_numeral(digits),
        numbers::worth(digits) == segment,
    ensures
        name@ == "HS_H09_"@ + date@ + "_"@ + time@ + "_"@ + code@ + "_FLDK_"@ + resolution@ + "_S"@
            + digits + seq!['1', '0'] + ".DAT.bz2"@,
        prefix@ == "AHI-L1b-FLDK/"@ + path@ + "/"@,
        url@ == "https://noaa-himawari9.s3.amazonaws.com"@ + "/"@ + prefix@ + name@,
{
    decimal::two_digits(segment as nat);
    decimal::padded_numeral_reads_back(segment as nat, 2);
    let own = decimal::zero_padded(segment as nat, 2);
    numbers::lemma_worth(own);
    numbers::lemma_worth(digits);
    lemma_same_two(own, digits);
    let ten = decimal::zero_padded(10, 2);
    decimal::two_digits(10);
    decimal::padded_numeral_reads_back(10, 2);
    numbers::lemma_worth(ten);
    assert(numbers::worth(seq!['1', '0']) == 10) by {
        reveal_with_fuel(numbers::worth, 3);
        assert(seq!['1', '0'].drop_last().drop_last() =~= Seq::empty());
    }
    lemma_same_two(ten, seq!['1', '0']);
    assert(url@ =~= "https://noaa-himawari9.s3.amazonaws.com"@ + "/"@ + prefix@ + name@);
}

proof fn lemma_same_two(a: Seq<char>, b: Seq<char>)
    requires
        a.len() == 2,
        b.len() == 2,
        numbers::is_numeral(a),
        numbers::is_numeral(b),
        numbers::worth(a) == numbers::worth(b),
    ensures
        a == b,
{
    reveal_with_fuel(numbers::worth, 3);
    assert(a.drop_last().drop_last() =~= Seq::empty());
    assert(b.drop_last().drop_last() =~= Seq::empty());
    assert('0' <= a[0] <= '9' && '0' <= a[1] <= '9' && '0' <= b[0] <= '9' && '0' <= b[1] <= '9');
    assert(a =~= b);
}

} // verus!
