//! Options, products and their names.

use vstd::prelude::*;

use crate::band;
use crate::band::{parse_ir_band, read_ir_band, AhiBand, Band, IrBand, IrBandError};
use crate::calendar::Slot;
use crate::compose::BandImage;
use crate::decimal;
use crate::plan;
use crate::plan::{
    check_downsample, choose_mode, find_band, frame_name, frames_dir_name, ir_output_name,
    is_new_scene, natural_color_bands, product_output_name, products_of_scene, rendered_last,
    required_bands, shares_b13, suffixed_output_name, thermal_bands_to_fetch, true_color_bands,
    Mode, OptionError, Product, Products,
};
use crate::promises::{numbers, texts};
use crate::text;

verus! {

// ---------------------------------------------------------------------------
// Options
// ---------------------------------------------------------------------------

/// A reduction is accepted exactly where whole blocks make up the disk.
pub proof fn reductions_divide_the_disk(
    factor: Option<usize>,
    outcome: Result<(), OptionError>,
)
    requires
        call_ensures(check_downsample, (factor,), outcome),
    ensures
        outcome is Ok <==> (factor matches Some(f) ==> exists|blocks: int|
            0 < blocks && #[trigger] (f * blocks) == 11000),
        outcome matches Err(error) ==> error is Downsample,
{
    if let Some(f) = factor {
        if f > 0 && 11000int % f as int == 0 {
            let blocks = 11000int / f as int;
            vstd::arithmetic::div_mod::lemma_fundamental_div_mod(11000, f as int);
            assert(f * blocks == 11000);
            assert(0 < blocks) by (nonlinear_arith)
                requires
                    f * blocks == 11000,
                    f >= 0,
            ;
        }
        if exists|blocks: int| 0 < blocks && #[trigger] (f * blocks) == 11000 {
            let blocks = choose|blocks: int| 0 < blocks && #[trigger] (f * blocks) == 11000;
            assert(f > 0) by (nonlinear_arith)
                requires
                    f * blocks == 11000,
                    f >= 0,
            ;
            assert(blocks * f == f * blocks) by (nonlinear_arith);
            vstd::arithmetic::div_mod::lemma_fundamental_div_mod_converse(
                11000,
                f as int,
                blocks,
                0,
            );
        }
    }
}

/// A run watches, makes a timelapse or renders one scene: it cannot watch a
/// time of its own, and does not reduce what it was not asked to.
pub proof fn runs_have_one_mode(
    downsample: Option<usize>,
    watch: bool,
    has_time: bool,
    has_timelapse: bool,
    mode: Result<Mode, OptionError>,
)
    requires
        call_ensures(choose_mode, (downsample, watch, has_time, has_timelapse), mode),
    ensures
        mode is Err <==> watch && (has_time || has_timelapse),
        mode matches Err(error) ==> error is WatchWithTime,
        mode matches Ok(Mode::Timelapse) ==> has_timelapse,
        mode matches Ok(Mode::Watch { downsample: factor }) ==> watch && factor
            == downsample.unwrap_or(1),
        mode matches Ok(Mode::Scene { downsample: factor }) ==> !watch && !has_timelapse && factor
            == downsample.unwrap_or(1),
        has_timelapse && !watch ==> mode is Ok && mode->Ok_0 is Timelapse,
{
}

/// A scene that was rendered is not new again, one that failed is, and so is
/// any other.
pub proof fn scenes_are_rendered_until_they_succeed(
    found: Slot,
    last: Option<Slot>,
    succeeded: bool,
    after: Option<Slot>,
    other: Slot,
    before_new: bool,
    other_new: bool,
)
    requires
        call_ensures(rendered_last, (found, last, succeeded), after),
        call_ensures(is_new_scene, (other, last), before_new),
        call_ensures(is_new_scene, (other, after), other_new),
    ensures
        last is None ==> before_new,
        succeeded ==> (other_new <==> other@ != found@),
        !succeeded ==> (other_new <==> before_new),
{
}

// ---------------------------------------------------------------------------
// Bands
// ---------------------------------------------------------------------------

/// A visible band's code is `B` and its number, and the finer its resolution
/// the wider its image.
pub proof fn visible_bands_know_themselves(
    band: Band,
    number: u16,
    code: String,
    short: &'static str,
    resolution: &'static str,
    width: usize,
    own_width: usize,
)
    requires
        call_ensures(<Band as AhiBand>::number, (band,), number),
        call_ensures(<Band as AhiBand>::code, (band,), code),
        call_ensures(Band::code, (band,), short),
        call_ensures(<Band as AhiBand>::resolution_code, (band,), resolution),
        call_ensures(<Band as AhiBand>::native_width, (band,), width),
        call_ensures(Band::native_width, (band,), own_width),
    ensures
        1 <= number <= 5,
        code@.len() == 3 && code@[0] == 'B' && numbers::is_numeral(code@.subrange(1, 3))
            && numbers::worth(code@.subrange(1, 3)) == number,
        short@ == code@,
        resolution@.len() == 3 && resolution@[0] == 'R' && numbers::is_numeral(
            resolution@.subrange(1, 3),
        ) && numbers::worth(resolution@.subrange(1, 3)) * width == 110_000,
        width == own_width,
        band is B03 <==> width == 22_000,
        band is B05 <==> width == 5_500,
{
    reveal_strlit("B01");
    reveal_strlit("B02");
    reveal_strlit("B03");
    reveal_strlit("B04");
    reveal_strlit("B05");
    reveal_strlit("R05");
    reveal_strlit("R10");
    reveal_strlit("R20");
    lemma_two_digits(code@.subrange(1, 3));
    lemma_two_digits(resolution@.subrange(1, 3));
}

proof fn lemma_two_digits(digits: Seq<char>)
    requires
        digits.len() == 2,
    ensures
        '0' <= digits[0] <= '9' && '0' <= digits[1] <= '9' ==> numbers::is_numeral(digits)
            && numbers::worth(digits) == 10 * (digits[0] as int - '0' as int) + (digits[1] as int
            - '0' as int),
{
    reveal_with_fuel(numbers::worth, 3);
    assert(digits.drop_last().drop_last() =~= Seq::empty());
}

/// Numbers 7 to 16 are those of thermal bands, and no others.
pub proof fn thermal_bands_have_their_numbers(
    number: u8,
    band: Result<IrBand, String>,
    thirteen: IrBand,
)
    requires
        call_ensures(IrBand::new, (number,), band),
        call_ensures(IrBand::b13, (), thirteen),
    ensures
        band is Ok <==> 7 <= number <= 16,
        band matches Ok(made) ==> made@ == number,
        thirteen@ == 13,
{
}

/// A thermal band's code is `B` and its number in two digits, and its image
/// has 5500 columns of two kilometers.
pub proof fn thermal_bands_know_themselves(
    band: IrBand,
    value: u8,
    number: u16,
    code: String,
    name: String,
    resolution: &'static str,
    width: usize,
)
    requires
        call_ensures(IrBand::get, (band,), value),
        call_ensures(<IrBand as AhiBand>::number, (band,), number),
        call_ensures(<IrBand as AhiBand>::code, (band,), code),
        call_ensures(IrBand::to_string, (&band,), name),
        call_ensures(<IrBand as AhiBand>::resolution_code, (band,), resolution),
        call_ensures(<IrBand as AhiBand>::native_width, (band,), width),
    ensures
        7 <= value <= 16,
        value == band@,
        number == value,
        code@.len() == 3 && code@[0] == 'B' && numbers::is_numeral(code@.subrange(1, 3))
            && numbers::worth(code@.subrange(1, 3)) == number,
        name@ == code@,
        resolution@ == seq!['R', '2', '0'],
        width == 5_500,
{
    reveal_strlit("B");
    reveal_strlit("R20");
    decimal::two_digits(value as nat);
    decimal::padded_numeral_reads_back(value as nat, 2);
    let digits = decimal::zero_padded(value as nat, 2);
    assert(code@.subrange(1, 3) =~= digits);
    numbers::lemma_worth(digits);
    assert(resolution@ =~= seq!['R', '2', '0']);
}

/// Whether a text names a number: after any `B` and `b` at its start, a
/// numeral, perhaps behind a plus sign.
pub open spec fn names_number(text: Seq<char>, number: int) -> bool {
    exists|n: int|
        {
            let rest = text.subrange(n, text.len() as int);
            let digits = if rest.len() > 0 && rest[0] == '+' {
                rest.subrange(1, rest.len() as int)
            } else {
                rest
            };
            &&& 0 <= n <= text.len()
            &&& #[trigger] is_prefix(text, n)
            &&& numbers::is_numeral(digits)
            &&& numbers::worth(digits) == number
        }
}

/// Whether a text starts with so many `B` and `b`, and no more.
pub open spec fn is_prefix(text: Seq<char>, n: int) -> bool {
    &&& forall|i: int| 0 <= i < n ==> #[trigger] text[i] == 'B' || text[i] == 'b'
    &&& n < text.len() ==> text[n] != 'B' && text[n] != 'b'
}

proof fn lemma_prefix(text: Seq<char>) -> (n: int)
    ensures
        0 <= n <= text.len(),
        is_prefix(text, n),
        band::without_prefix(text) == text.subrange(n, text.len() as int),
    decreases text.len(),
{
    if text.len() > 0 && (text[0] == 'B' || text[0] == 'b') {
        let rest = text.skip(1);
        let m = lemma_prefix(rest);
        assert(rest.subrange(m, rest.len() as int) =~= text.subrange(m + 1, text.len() as int));
        assert forall|i: int| 0 <= i < m + 1 implies #[trigger] text[i] == 'B' || text[i] == 'b' by {
            if i > 0 {
                assert(rest[i - 1] == text[i]);
            }
        }
        if m + 1 < text.len() {
            assert(rest[m] == text[m + 1]);
        }
        m + 1
    } else {
        assert(text.subrange(0, text.len() as int) =~= text);
        0
    }
}

proof fn lemma_names_number(text: Seq<char>)
    ensures
        match band::named_number(text) {
            Some(number) => names_number(text, number as int) && number <= 255,
            None => forall|number: int| number <= 255 ==> !#[trigger] names_number(text, number),
        },
{
    let n = lemma_prefix(text);
    let rest = text.subrange(n, text.len() as int);
    let digits = if rest.len() > 0 && rest[0] == '+' {
        rest.subrange(1, rest.len() as int)
    } else {
        rest
    };
    assert(rest.len() > 0 && rest[0] == '+' ==> rest.skip(1) =~= digits);
    numbers::lemma_worth(digits);
    if band::named_number(text) is None {
        assert forall|number: int| number <= 255 implies !#[trigger] names_number(text, number) by {
            if names_number(text, number) {
                let m = choose|m: int|
                    {
                        let rest = text.subrange(m, text.len() as int);
                        let digits = if rest.len() > 0 && rest[0] == '+' {
                            rest.subrange(1, rest.len() as int)
                        } else {
                            rest
                        };
                        &&& 0 <= m <= text.len()
                        &&& #[trigger] is_prefix(text, m)
                        &&& numbers::is_numeral(digits)
                        &&& numbers::worth(digits) == number
                    };
                if m < n {
                    assert(text[m] == 'B' || text[m] == 'b');
                }
                if n < m {
                    assert(text[n] == 'B' || text[n] == 'b');
                }
            }
        }
    }
}

/// Whether a thermal band is read from a text as it should be.
pub open spec fn is_band_read(text: Seq<char>, band: Result<IrBand, IrBandError>) -> bool {
    match band {
        Ok(made) => names_number(text, made@ as int) && 7 <= made@ <= 16,
        Err(IrBandError::NotANumber) => forall|number: int|
            number <= 255 ==> !#[trigger] names_number(text, number),
        Err(IrBandError::NotInfrared(_)) => exists|number: int|
            #[trigger] names_number(text, number) && !(7 <= number <= 16),
    }
}

/// A thermal band is read from a text that names its number.
pub proof fn thermal_bands_are_read_by_number(text: &[char], band: Result<IrBand, IrBandError>)
    requires
        call_ensures(read_ir_band, (text,), band),
    ensures
        is_band_read(text@, band),
{
    lemma_names_number(text@);
}

/// A thermal band is read from a text that names its number, with white space
/// around it or without.
pub proof fn thermal_bands_are_parsed_by_number(
    text: &str,
    rest: Seq<char>,
    band: Result<IrBand, IrBandError>,
)
    requires
        call_ensures(parse_ir_band, (text,), band),
        texts::is_trimmed(text@, rest),
    ensures
        is_band_read(rest, band),
{
    texts::lemma_trimmed(text@);
    texts::trimmed_texts_are_unique(text@, text::trimmed(text@), rest);
    lemma_names_number(rest);
}

// ---------------------------------------------------------------------------
// Products
// ---------------------------------------------------------------------------

/// Whether a list of thermal bands has one of a number.
pub open spec fn lists(bands: Seq<IrBand>, number: u8) -> bool {
    exists|k: int| 0 <= k < bands.len() && (#[trigger] bands[k])@ == number
}

proof fn lemma_lists(bands: Seq<IrBand>, number: u8)
    ensures
        plan::band_numbers(bands).contains(number) <==> lists(bands, number),
{
    let numbers = plan::band_numbers(bands);
    if numbers.contains(number) {
        let k = choose|k: int| 0 <= k < numbers.len() && numbers[k] == number;
        assert(bands[k]@ == number);
    }
    if lists(bands, number) {
        let k = choose|k: int| 0 <= k < bands.len() && (#[trigger] bands[k])@ == number;
        assert(numbers[k] == number);
    }
}

/// The bands that a scene must have are those asked for, band 13 where clouds
/// are asked for, and band 5 where natural color is; and no others.
pub proof fn scenes_have_the_bands_asked_for(
    products: &Products,
    needed: (Vec<Band>, Vec<IrBand>),
    fetched: Vec<IrBand>,
    number: u8,
    band: Band,
)
    requires
        call_ensures(required_bands, (products,), needed),
        call_ensures(thermal_bands_to_fetch, (products,), fetched),
    ensures
        needed.0@.contains(band) <==> products.natural && band is B05,
        lists(needed.1@, number) <==> lists(products.clut_bands@, number) || number == 13 && (
        products.combined || products.cloud_height),
        lists(fetched@, number) <==> lists(needed.1@, number),
{
    lemma_lists(needed.1@, number);
    lemma_lists(fetched@, number);
    lemma_lists(products.clut_bands@, number);
    plan::fetched_bands_are_required(*products, number);
    let listed = plan::band_numbers(products.clut_bands@);
    lemma_lists(products.clut_bands@, 13);
    assert(listed.push(13).contains(number) <==> listed.contains(number) || number == 13) by {
        if listed.contains(number) {
            let k = choose|k: int| 0 <= k < listed.len() && listed[k] == number;
            assert(listed.push(13)[k] == number);
        }
        assert(listed.push(13)[listed.len() as int] == 13);
    }
    if products.natural {
        assert(needed.0@[0] == Band::B05);
    }
}

/// Where clouds are asked for band 13 is fetched first, and once.
pub proof fn band_13_is_fetched_once(products: &Products, fetched: Vec<IrBand>)
    requires
        call_ensures(thermal_bands_to_fetch, (products,), fetched),
    ensures
        products.combined || products.cloud_height ==> fetched@.len() > 0 && fetched@[0]@ == 13
            && forall|k: int| 0 < k < fetched@.len() ==> (#[trigger] fetched@[k])@ != 13,
        !products.combined && !products.cloud_height ==> fetched@.len()
            == products.clut_bands@.len() && forall|k: int|
            0 <= k < fetched@.len() ==> (#[trigger] fetched@[k])@ == products.clut_bands@[k]@,
{
    let numbers = plan::band_numbers(fetched@);
    assert(numbers == products.thermal_fetched());
    if products.uses_b13() {
        assert(numbers.len() > 0);
        assert(numbers[0] == fetched@[0]@);
        assert forall|k: int| 0 < k < fetched@.len() implies (#[trigger] fetched@[k])@ != 13 by {
            plan::shared_b13_is_fetched_once(*products, k);
            assert(numbers[k] == fetched@[k]@);
        }
    } else {
        assert forall|k: int| 0 <= k < fetched@.len() implies (#[trigger] fetched@[k])@
            == products.clut_bands@[k]@ by {
            assert(numbers[k] == fetched@[k]@);
        }
    }
}

/// A thermal band is the shared one where it is band 13 and clouds are asked
/// for.
pub proof fn clouds_share_band_13(products: &Products, band: IrBand, shares: bool)
    requires
        call_ensures(shares_b13, (products, band), shares),
    ensures
        shares <==> band@ == 13 && (products.combined || products.cloud_height),
{
}

/// True color is red, green, blue and near infrared; natural color is
/// short-wave infrared, near infrared and red.
pub proof fn colors_have_their_bands(first: [Band; 4], second: [Band; 3])
    requires
        call_ensures(true_color_bands, (), first),
        call_ensures(natural_color_bands, (), second),
    ensures
        first@[0] is B03,
        first@[1] is B02,
        first@[2] is B01,
        first@[3] is B04,
        second@[0] is B05,
        second@[1] is B04,
        second@[2] is B03,
{
}

/// A scene is rendered to true color first, and to each other product that
/// was asked for.
pub proof fn scenes_are_rendered_to_what_was_asked_for(
    products: &Products,
    list: Vec<Product>,
    band: IrBand,
)
    requires
        call_ensures(products_of_scene, (products,), list),
    ensures
        list@.len() > 0 && list@[0] is TrueColor,
        list@.contains(Product::Combined) <==> products.combined,
        list@.contains(Product::Natural) <==> products.natural,
        list@.contains(Product::CloudHeight) <==> products.cloud_height,
        list@.contains(Product::Clut(band)) <==> products.clut_bands@.contains(band),
        list@.len() == 1 + (if products.combined {
            1int
        } else {
            0
        }) + (if products.natural {
            1int
        } else {
            0
        }) + (if products.cloud_height {
            1int
        } else {
            0
        }) + products.clut_bands@.len(),
{
    let a = if products.combined {
        seq![Product::Combined]
    } else {
        Seq::empty()
    };
    let b = if products.natural {
        seq![Product::Natural]
    } else {
        Seq::empty()
    };
    let c = if products.cloud_height {
        seq![Product::CloudHeight]
    } else {
        Seq::empty()
    };
    let d = products.clut_bands@.map_values(|band: IrBand| Product::Clut(band));
    let all = seq![Product::TrueColor] + a + b + c + d;
    assert(list@ == all);
    let (x, y, z) = (1 + a.len(), 1 + a.len() + b.len(), 1 + a.len() + b.len() + c.len());
    assert(all[0] == Product::TrueColor);
    if products.combined {
        assert(all[1] == a[0]);
    }
    if products.natural {
        assert(all[x as int] == b[0]);
    }
    if products.cloud_height {
        assert(all[y as int] == c[0]);
    }
    if products.clut_bands@.contains(band) {
        let k = choose|k: int| 0 <= k < products.clut_bands@.len() && products.clut_bands@[k] == band;
        assert(all[z + k] == d[k]);
    }
    if list@.contains(Product::Clut(band)) {
        let k = choose|k: int| 0 <= k < all.len() && all[k] == Product::Clut(band);
        assert(k >= z);
        assert(all[k] == d[k - z]);
        assert(products.clut_bands@[k - z] == band);
    }
}

/// The image of a band is the first of that band.
pub proof fn images_are_found_by_band(images: &[BandImage], band: Band, found: Option<usize>)
    requires
        call_ensures(find_band, (images, band), found),
    ensures
        found is Some <==> exists|k: int|
            0 <= k < images@.len() && (#[trigger] images@[k]).band == band,
        found matches Some(k) ==> k < images@.len() && images@[k as int].band == band && forall|
            j: int,
        |
            0 <= j < images@.len() && (#[trigger] images@[j]).band == band ==> k <= j,
{
    if let Some(k) = found {
        assert(images@[k as int].band == band);
    }
}

// ---------------------------------------------------------------------------
// Names
// ---------------------------------------------------------------------------

/// Whether a name has a stem, and a suffix behind it; without a stem it is
/// `earth`.
pub open spec fn is_name(stem: Option<&str>, name: Seq<char>, suffix: Seq<char>) -> bool {
    name == match stem {
        Some(text) => text@,
        None => seq!['e', 'a', 'r', 't', 'h'],
    } + seq!['_'] + suffix + seq!['.', 'p', 'n', 'g']
}

proof fn lemma_name(stem: Option<&str>, suffix: Seq<char>)
    ensures
        is_name(stem, plan::suffixed(plan::stem_view(stem), suffix), suffix),
{
    reveal_strlit("earth");
    reveal_strlit("_");
    reveal_strlit(".png");
    assert("earth"@ =~= seq!['e', 'a', 'r', 't', 'h']);
    assert("_"@ =~= seq!['_']);
    assert(".png"@ =~= seq!['.', 'p', 'n', 'g']);
}

/// Beside the main image each product has a name of its own, with its suffix
/// behind the stem.
pub proof fn products_have_their_names(
    stem: Option<&str>,
    product: Product,
    name: Option<String>,
    suffix: &str,
    suffixed: String,
    band: IrBand,
    code: String,
    thermal: String,
)
    requires
        call_ensures(product_output_name, (stem, product), name),
        call_ensures(suffixed_output_name, (stem, suffix), suffixed),
        call_ensures(<IrBand as AhiBand>::code, (band,), code),
        call_ensures(ir_output_name, (stem, band), thermal),
    ensures
        name is None <==> product is TrueColor,
        name matches Some(text) ==> match product {
            Product::TrueColor => false,
            Product::Combined => is_name(
                stem,
                text@,
                seq!['c', 'o', 'm', 'b', 'i', 'n', 'e', 'd'],
            ),
            Product::Natural => is_name(stem, text@, seq!['n', 'a', 't', 'u', 'r', 'a', 'l']),
            Product::CloudHeight => is_name(stem, text@, seq!['h', 'e', 'i', 'g', 'h', 't']),
            Product::Clut(own) => own@ == band@ ==> is_name(stem, text@, code@),
        },
        is_name(stem, suffixed@, suffix@),
        is_name(stem, thermal@, code@),
{
    reveal_strlit("combined");
    reveal_strlit("natural");
    reveal_strlit("height");
    assert("combined"@ =~= seq!['c', 'o', 'm', 'b', 'i', 'n', 'e', 'd']);
    assert("natural"@ =~= seq!['n', 'a', 't', 'u', 'r', 'a', 'l']);
    assert("height"@ =~= seq!['h', 'e', 'i', 'g', 'h', 't']);
    lemma_name(stem, suffix@);
    lemma_name(stem, code@);
    lemma_name(stem, seq!['c', 'o', 'm', 'b', 'i', 'n', 'e', 'd']);
    lemma_name(stem, seq!['n', 'a', 't', 'u', 'r', 'a', 'l']);
    lemma_name(stem, seq!['h', 'e', 'i', 'g', 'h', 't']);
}

/// Two different products of a scene have two different names.
pub proof fn different_products_have_different_names(
    stem: Option<&str>,
    a: Product,
    b: Product,
    a_name: Option<String>,
    b_name: Option<String>,
)
    requires
        call_ensures(product_output_name, (stem, a), a_name),
        call_ensures(product_output_name, (stem, b), b_name),
        a_name is Some,
        b_name is Some,
        a_name->0@ == b_name->0@,
    ensures
        match (a, b) {
            (Product::Combined, Product::Combined) => true,
            (Product::Natural, Product::Natural) => true,
            (Product::CloudHeight, Product::CloudHeight) => true,
            (Product::Clut(x), Product::Clut(y)) => x@ == y@,
            _ => false,
        },
{
    plan::products_write_apart(plan::stem_view(stem), a, b);
}

/// Whether a name is that of a frame with a number.
pub open spec fn is_frame_name(name: Seq<char>, digits: Seq<char>) -> bool {
    name == seq!['f', 'r', 'a', 'm', 'e', '_'] + digits + seq!['.', 'p', 'n', 'g']
}

/// A frame's name has its number in at least five digits, so that later
/// frames sort behind earlier ones.
pub proof fn frames_are_named_by_number(number: u64, name: String, stem: Option<&str>, dir: String)
    requires
        call_ensures(frame_name, (number,), name),
        call_ensures(frames_dir_name, (stem,), dir),
    ensures
        exists|digits: Seq<char>|
            {
                &&& #[trigger] is_frame_name(name@, digits)
                &&& numbers::is_numeral(digits)
                &&& numbers::worth(digits) == number
                &&& digits.len() >= 5
                &&& digits.len() > 5 ==> digits[0] != '0'
            },
        dir@ == match stem {
            Some(text) => text@,
            None => seq!['e', 'a', 'r', 't', 'h'],
        } + seq!['_', 'f', 'r', 'a', 'm', 'e', 's'],
{
    reveal_strlit("earth");
    reveal_strlit("frame_");
    reveal_strlit("_frames");
    reveal_strlit(".png");
    assert("earth"@ =~= seq!['e', 'a', 'r', 't', 'h']);
    assert("frame_"@ =~= seq!['f', 'r', 'a', 'm', 'e', '_']);
    assert("_frames"@ =~= seq!['_', 'f', 'r', 'a', 'm', 'e', 's']);
    assert(".png"@ =~= seq!['.', 'p', 'n', 'g']);
    let digits = decimal::zero_padded(number as nat, 5);
    decimal::padded_numeral_reads_back(number as nat, 5);
    numbers::lemma_worth(digits);
    numbers::lemma_numeral(number as nat);
    assert(is_frame_name(name@, digits));
    if digits.len() > 5 && number == 0 {
        reveal_with_fuel(decimal::numeral, 2);
    }
}

} // verus!
