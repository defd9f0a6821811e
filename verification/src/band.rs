//! The AHI bands and their names.

use vstd::prelude::*;
use vstd::string::*;

use crate::decimal;
use crate::text;

verus! {

/// Segments that each band's full disk is cut into.
pub const SEGMENTS_PER_DISK: u8 = 10;

/// Any AHI band that can be fetched from the bucket: enough identity to
/// build the HSD file name and validate the parsed geometry against it.
pub trait AhiBand: Copy + Send + Sync {
    /// The band number.
    spec fn band_number(self) -> u16;

    /// The band code used in file names.
    spec fn band_code(self) -> Seq<char>;

    /// The resolution code used in file names.
    spec fn resolution(self) -> Seq<char>;

    /// The full-disk width at the native resolution.
    spec fn disk_width(self) -> usize;

    /// The number of the band.
    fn number(self) -> (number: u16)
        ensures
            number == self.band_number(),
    ;

    /// Band code used in file names, e.g. "B13".
    fn code(self) -> (code: String)
        ensures
            code@ == self.band_code(),
    ;

    /// Resolution code used in file names (R05 = 0.5 km, R10 = 1 km,
    /// R20 = 2 km).
    fn resolution_code(self) -> (code: &'static str)
        ensures
            code@ == self.resolution(),
    ;

    /// Full-disk width in pixels at the band's native resolution.
    fn native_width(self) -> (width: usize)
        ensures
            width == self.disk_width(),
    ;
}

/// The visible / near-IR bands the composites use.
#[derive(Debug, Clone, Copy, PartialEq, Eq, Hash, Structural)]
pub enum Band {
    /// 0.47 um, blue, 1 km
    B01,
    /// 0.51 um, green, 1 km
    B02,
    /// 0.64 um, red, 0.5 km
    B03,
    /// 0.86 um, near-IR (vegetation correction), 1 km
    B04,
    /// 1.6 um, shortwave IR (snow/ice discrimination), 2 km
    B05,
}

impl Band {
    /// The four bands every run fetches for the true-color composite.
    /// B05 is fetched on demand for the natural-color product.
    pub const ALL: [Band; 4] = [Band::B01, Band::B02, Band::B03, Band::B04];

    /// The band code.
    pub open spec fn code_text(self) -> Seq<char> {
        match self {
            Band::B01 => "B01"@,
            Band::B02 => "B02"@,
            Band::B03 => "B03"@,
            Band::B04 => "B04"@,
            Band::B05 => "B05"@,
        }
    }

    /// The full-disk width at the native resolution: 22000 pixels for the
    /// 0.5 km red band, 5500 for the 2 km band, 11000 for the others.
    pub open spec fn width(self) -> usize {
        match self {
            Band::B03 => 22_000,
            Band::B05 => 5_500,
            _ => 11_000,
        }
    }

    /// The band code.
    pub fn code(self) -> (code: &'static str)
        ensures
            code@ == self.code_text(),
    {
        match self {
            Band::B01 => "B01",
            Band::B02 => "B02",
            Band::B03 => "B03",
            Band::B04 => "B04",
            Band::B05 => "B05",
        }
    }

    /// Full-disk width in pixels at the band's native resolution.
    pub fn native_width(self) -> (width: usize)
        ensures
            width == self.width(),
    {
        match self {
            Band::B03 => 22_000,
            Band::B05 => 5_500,
            _ => 11_000,
        }
    }
}

impl AhiBand for Band {
    open spec fn band_number(self) -> u16 {
        match self {
            Band::B01 => 1,
            Band::B02 => 2,
            Band::B03 => 3,
            Band::B04 => 4,
            Band::B05 => 5,
        }
    }

    open spec fn band_code(self) -> Seq<char> {
        self.code_text()
    }

    open spec fn resolution(self) -> Seq<char> {
        match self {
            Band::B03 => "R05"@,
            Band::B05 => "R20"@,
            _ => "R10"@,
        }
    }

    open spec fn disk_width(self) -> usize {
        self.width()
    }

    fn number(self) -> (number: u16) {
        match self {
            Band::B01 => 1,
            Band::B02 => 2,
            Band::B03 => 3,
            Band::B04 => 4,
            Band::B05 => 5,
        }
    }

    fn code(self) -> (code: String) {
        Band::code(self).to_owned()
    }

    fn resolution_code(self) -> (code: &'static str) {
        match self {
            Band::B03 => "R05",
            Band::B05 => "R20",
            _ => "R10",
        }
    }

    fn native_width(self) -> (width: usize) {
        Band::native_width(self)
    }
}

/// A thermal infrared AHI band (B07-B16), all at 2 km resolution.
/// The inner number is validated at construction.
#[derive(Debug, Clone, Copy, PartialEq, Eq, Hash, Structural)]
pub struct IrBand(u8);

impl View for IrBand {
    type V = u8;

    closed spec fn view(&self) -> u8 {
        self.0
    }
}

/// Whether a number is that of a thermal infrared band.
pub open spec fn is_ir_number(number: int) -> bool {
    7 <= number <= 16
}

impl IrBand {
    /// Full-disk width in pixels at 2 km resolution.
    pub const WIDTH: usize = 5_500;

    #[verifier::type_invariant]
    closed spec fn well_formed(self) -> bool {
        is_ir_number(self.0 as int)
    }

    /// The band with a number from 7 to 16, or what is wrong with the number.
    pub fn new(number: u8) -> (band: Result<Self, String>)
        ensures
            match band {
                Ok(b) => is_ir_number(number as int) && b@ == number,
                Err(text) => !is_ir_number(number as int) && text@
                    == "infrared band number must be 7-16, got "@ + decimal::numeral(
                    number as nat,
                ),
            },
    {
        if 7 <= number && number <= 16 {
            Ok(IrBand(number))
        } else {
            let mut text = "infrared band number must be 7-16, got ".to_owned();
            text.append(decimal::decimal(number as u64).as_str());
            Err(text)
        }
    }

    /// B13, the clean infrared window band.
    pub fn b13() -> (band: Self)
        ensures
            band@ == 13,
    {
        IrBand(13)
    }

    /// The number of the band, from 7 to 16.
    pub fn get(self) -> (number: u8)
        ensures
            number == self@,
            is_ir_number(number as int),
    {
        proof {
            use_type_invariant(self);
        }
        self.0
    }

    /// The name of the band: a B and two digits.
    pub open spec fn name(self) -> Seq<char> {
        "B"@ + decimal::zero_padded(self@ as nat, 2)
    }

    /// The name of the band: a B and two digits.
    pub fn to_string(&self) -> (name: String)
        ensures
            name@ == self.name(),
    {
        let mut name = "B".to_owned();
        name.append(decimal::padded_decimal(self.0 as u64, 2).as_str());
        name
    }
}

impl AhiBand for IrBand {
    open spec fn band_number(self) -> u16 {
        self@ as u16
    }

    open spec fn band_code(self) -> Seq<char> {
        self.name()
    }

    open spec fn resolution(self) -> Seq<char> {
        "R20"@
    }

    open spec fn disk_width(self) -> usize {
        5_500
    }

    fn number(self) -> (number: u16) {
        self.0 as u16
    }

    fn code(self) -> (code: String) {
        self.to_string()
    }

    fn resolution_code(self) -> (code: &'static str) {
        "R20"
    }

    fn native_width(self) -> (width: usize) {
        Self::WIDTH
    }
}

/// Why a text does not name a thermal infrared band.
#[derive(Debug)]
pub enum IrBandError {
    /// It is not a number.
    NotANumber,
    /// It is the number of another band; the message says so.
    NotInfrared(String),
}

impl IrBandError {
    /// The error in words, for the text that was given.
    pub open spec fn words(self, text: Seq<char>) -> Seq<char> {
        match self {
            IrBandError::NotANumber => "invalid band "@ + text::quoted(text)
                + ", expected a number like 13 or B13"@,
            IrBandError::NotInfrared(message) => message@,
        }
    }

    /// The error in words, for the text that was given.
    pub fn message(self, text: &str) -> (words: String)
        ensures
            words@ == self.words(text@),
    {
        match self {
            IrBandError::NotANumber => {
                let mut words = "invalid band ".to_owned();
                words.append(text::quote(text).as_str());
                words.append(", expected a number like 13 or B13");
                words
            },
            IrBandError::NotInfrared(message) => message,
        }
    }
}

/// A text without the letters B and b that it starts with.
pub open spec fn without_prefix(text: Seq<char>) -> Seq<char>
    decreases text.len(),
{
    if text.len() > 0 && (text[0] == 'B' || text[0] == 'b') {
        without_prefix(text.skip(1))
    } else {
        text
    }
}

/// The band number that a text without surrounding white space gives: digits,
/// with any number of the letters B and b before them.
pub open spec fn named_number(text: Seq<char>) -> Option<nat> {
    decimal::unsigned_value(without_prefix(text), 255)
}

/// The name of a band is read back as its number.
pub proof fn band_names_read_back(band: IrBand)
    ensures
        named_number(band.name()) == Some(band@ as nat),
        text::trimmed(band.name()) == band.name(),
{
    reveal_strlit("B");
    let digits = decimal::zero_padded(band@ as nat, 2);
    decimal::padded_numeral_reads_back(band@ as nat, 2);
    assert(decimal::is_digit(digits[0]));
    assert(band.name().skip(1) =~= digits);
    assert(without_prefix(digits) == digits);
    assert(without_prefix(band.name()) == digits);
    decimal::unsigned_value_of_padded(band@ as nat, 2, 255);
    assert(digits.last() == digits[digits.len() - 1]);
    assert(band.name().last() == digits.last());
    text::trimmed_texts_stay(band.name());
}

/// Reads a thermal infrared band from a text without surrounding white space.
pub fn read_ir_band(text: &[char]) -> (band: Result<IrBand, IrBandError>)
    ensures
        match (named_number(text@), band) {
            (None, Err(e)) => e is NotANumber,
            (Some(number), Ok(b)) => is_ir_number(number as int) && b@ == number,
            (Some(number), Err(IrBandError::NotInfrared(text))) => !is_ir_number(number as int)
                && text@ == "infrared band number must be 7-16, got "@ + decimal::numeral(number),
            _ => false,
        },
{
    let mut start: usize = 0;
    assert(text@.skip(0) =~= text@);
    while start < text.len() && (text[start] == 'B' || text[start] == 'b')
        invariant
            start <= text@.len(),
            without_prefix(text@) == without_prefix(text@.skip(start as int)),
        decreases text@.len() - start,
    {
        assert(text@.skip(start as int).skip(1) =~= text@.skip(start + 1));
        start += 1;
    }
    let digits = vstd::slice::slice_subrange(text, start, text.len());
    assert(digits@ =~= text@.skip(start as int));
    match decimal::parse_unsigned(digits, 255) {
        Some(number) => match IrBand::new(number as u8) {
            Ok(band) => Ok(band),
            Err(text) => Err(IrBandError::NotInfrared(text)),
        },
        None => Err(IrBandError::NotANumber),
    }
}

/// Reads a thermal infrared band from a text such as "13" or "B13".
pub fn parse_ir_band(text: &str) -> (band: Result<IrBand, IrBandError>)
    ensures
        match (named_number(text::trimmed(text@)), band) {
            (None, Err(e)) => e is NotANumber,
            (Some(number), Ok(b)) => is_ir_number(number as int) && b@ == number,
            (Some(number), Err(IrBandError::NotInfrared(text))) => !is_ir_number(number as int)
                && text@ == "infrared band number must be 7-16, got "@ + decimal::numeral(number),
            _ => false,
        },
{
    let trimmed = text::trim(text::to_chars(text).as_slice());
    read_ir_band(trimmed.as_slice())
}

} // verus!
