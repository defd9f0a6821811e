//! What a run does: its mode, the bands it needs, the products it renders
//! and the names of the files it writes.

use vstd::prelude::*;
use vstd::string::*;

use crate::band::{Band, IrBand};
use crate::calendar::Slot;
use crate::compose::{BandImage, FULL_DISK_SIZE};
use crate::decimal;

verus! {

// ---------------------------------------------------------------------------
// Mode
// ---------------------------------------------------------------------------

/// What is wrong with the options of a run.
#[derive(Debug, Clone, Copy, PartialEq, Eq, Structural)]
pub enum OptionError {
    /// The box-average factor does not divide the grid.
    Downsample,
    /// Watching for new scenes leaves no choice of a time.
    WatchWithTime,
}

impl OptionError {
    /// The error in words.
    pub open spec fn words(self) -> Seq<char> {
        match self {
            OptionError::Downsample => "--downsample must divide 11000 (e.g. 1, 2, 4, 5, 8, 10)"@,
            OptionError::WatchWithTime => "--watch cannot be combined with --time or --timelapse"@,
        }
    }

    /// The error in words.
    pub fn message(&self) -> (text: &'static str)
        ensures
            text@ == self.words(),
    {
        match *self {
            OptionError::Downsample => "--downsample must divide 11000 (e.g. 1, 2, 4, 5, 8, 10)",
            OptionError::WatchWithTime => "--watch cannot be combined with --time or --timelapse",
        }
    }
}

/// Whether a factor divides the 1 km grid into whole blocks.
pub open spec fn divides_disk(factor: int) -> bool {
    factor > 0 && FULL_DISK_SIZE as int % factor == 0
}

/// Checks the box-average factor, if one is given.
pub fn check_downsample(factor: Option<usize>) -> (outcome: Result<(), OptionError>)
    ensures
        match outcome {
            Ok(()) => factor matches Some(f) ==> divides_disk(f as int),
            Err(error) => error == OptionError::Downsample && factor is Some && !divides_disk(
                factor->0 as int,
            ),
        },
{
    match factor {
        Some(f) => if f == 0 || FULL_DISK_SIZE % f != 0 {
            Err(OptionError::Downsample)
        } else {
            Ok(())
        },
        None => Ok(()),
    }
}

/// What a run does.
#[derive(Debug, Clone, Copy, PartialEq, Eq, Structural)]
pub enum Mode {
    /// Render a timelapse video.
    Timelapse,
    /// Render every new scene as it appears.
    Watch { downsample: usize },
    /// Render a single scene.
    Scene { downsample: usize },
}

/// Chooses what a run does. A timelapse comes before the rest; the factor
/// defaults to 1 (full native resolution) in the other modes.
pub fn choose_mode(
    downsample: Option<usize>,
    watch: bool,
    has_time: bool,
    has_timelapse: bool,
) -> (mode: Result<Mode, OptionError>)
    ensures
        mode == if watch && (has_time || has_timelapse) {
            Err::<Mode, OptionError>(OptionError::WatchWithTime)
        } else if has_timelapse {
            Ok(Mode::Timelapse)
        } else {
            let factor = match downsample {
                Some(f) => f,
                None => 1,
            };
            if watch {
                Ok(Mode::Watch { downsample: factor })
            } else {
                Ok(Mode::Scene { downsample: factor })
            }
        },
{
    if watch && (has_time || has_timelapse) {
        return Err(OptionError::WatchWithTime);
    }
    if has_timelapse {
        return Ok(Mode::Timelapse);
    }
    let factor: usize = match downsample {
        Some(f) => f,
        None => 1,
    };
    if watch {
        Ok(Mode::Watch { downsample: factor })
    } else {
        Ok(Mode::Scene { downsample: factor })
    }
}

/// Whether a scene that was found is rendered while watching: only if it is
/// not the one that was rendered last.
pub open spec fn is_new(found: Slot, last_rendered: Option<Slot>) -> bool {
    match last_rendered {
        Some(last) => last@ != found@,
        None => true,
    }
}

/// Which scene counts as rendered last after an attempt to render the one
/// that was found.
pub open spec fn last_after(
    found: Slot,
    last_rendered: Option<Slot>,
    succeeded: bool,
) -> Option<Slot> {
    if succeeded {
        Some(found)
    } else {
        last_rendered
    }
}

/// A scene is rendered once: while it stays the latest one, it is not
/// rendered again after a success, and it is tried again after a failure.
pub proof fn scenes_are_rendered_once(found: Slot, last_rendered: Option<Slot>, succeeded: bool)
    requires
        is_new(found, last_rendered),
    ensures
        is_new(found, last_after(found, last_rendered, succeeded)) == !succeeded,
{
}

/// Tests whether a scene that was found is rendered while watching.
pub fn is_new_scene(found: Slot, last_rendered: Option<Slot>) -> (new: bool)
    ensures
        new == is_new(found, last_rendered),
{
    match last_rendered {
        Some(last) => last.secs() != found.secs(),
        None => true,
    }
}

/// Which scene counts as rendered last after an attempt to render the one
/// that was found: a scene that failed is tried again.
pub fn rendered_last(found: Slot, last_rendered: Option<Slot>, succeeded: bool) -> (last: Option<
    Slot,
>)
    ensures
        last == last_after(found, last_rendered, succeeded),
{
    if succeeded {
        Some(found)
    } else {
        last_rendered
    }
}

// ---------------------------------------------------------------------------
// Products
// ---------------------------------------------------------------------------

/// The products that are asked for beside the true-color image.
#[derive(Debug)]
pub struct Products {
    pub combined: bool,
    pub natural: bool,
    pub cloud_height: bool,
    /// Thermal bands to render through a color lookup table.
    pub clut_bands: Vec<IrBand>,
}

/// The numbers of thermal bands.
pub open spec fn band_numbers(bands: Seq<IrBand>) -> Seq<u8> {
    bands.map_values(|band: IrBand| band@)
}

impl Products {
    /// Whether B13 is needed whatever bands are listed.
    pub open spec fn uses_b13(self) -> bool {
        self.combined || self.cloud_height
    }

    /// The numbers of the thermal bands that a scene must hold: the listed
    /// ones, and B13 where it is needed and not listed.
    pub open spec fn thermal_needed(self) -> Seq<u8> {
        let listed = band_numbers(self.clut_bands@);
        if self.uses_b13() && !listed.contains(13) {
            listed.push(13)
        } else {
            listed
        }
    }

    /// The reflective bands beyond the core four that a scene must hold.
    pub open spec fn reflective_needed(self) -> Seq<Band> {
        if self.natural {
            seq![Band::B05]
        } else {
            Seq::empty()
        }
    }

    /// The numbers of the thermal bands that are fetched, in order: B13 once
    /// where it is needed, then every listed band that cannot share it.
    pub open spec fn thermal_fetched(self) -> Seq<u8> {
        let listed = band_numbers(self.clut_bands@);
        if self.uses_b13() {
            seq![13u8] + listed.filter(|number: u8| number != 13)
        } else {
            listed
        }
    }
}

/// Whether a band is among some.
fn lists_band(bands: &[IrBand], number: u8) -> (listed: bool)
    ensures
        listed == band_numbers(bands@).contains(number),
{
    let mut i: usize = 0;
    while i < bands.len()
        invariant
            i <= bands@.len(),
            forall|k: int| 0 <= k < i ==> (#[trigger] bands@[k])@ != number,
        decreases bands@.len() - i,
    {
        if bands[i].get() == number {
            assert(band_numbers(bands@)[i as int] == number);
            return true;
        }
        i += 1;
    }
    proof {
        assert forall|k: int| 0 <= k < band_numbers(bands@).len() implies band_numbers(bands@)[k]
            != number by {
            assert(bands@[k]@ != number);
        }
    }
    false
}

/// Copies a list of bands.
fn copy_bands(bands: &[IrBand]) -> (copy: Vec<IrBand>)
    ensures
        copy@ == bands@,
{
    let mut copy: Vec<IrBand> = Vec::with_capacity(bands.len());
    let mut i: usize = 0;
    while i < bands.len()
        invariant
            i <= bands@.len(),
            copy@ =~= bands@.take(i as int),
        decreases bands@.len() - i,
    {
        copy.push(bands[i]);
        i += 1;
    }
    assert(bands@.take(bands@.len() as int) =~= bands@);
    copy
}

/// The bands beyond the core four that a run requires, for scene
/// completeness probing.
pub fn required_bands(products: &Products) -> (needed: (Vec<Band>, Vec<IrBand>))
    ensures
        needed.0@ == products.reflective_needed(),
        band_numbers(needed.1@) == products.thermal_needed(),
{
    let mut thermal: Vec<IrBand> = copy_bands(products.clut_bands.as_slice());
    if (products.combined || products.cloud_height) && !lists_band(
        products.clut_bands.as_slice(),
        13,
    ) {
        thermal.push(IrBand::b13());
        assert(band_numbers(thermal@) =~= products.thermal_needed());
    }
    let mut extra: Vec<Band> = Vec::new();
    if products.natural {
        extra.push(Band::B05);
    }
    assert(extra@ =~= products.reflective_needed());
    (extra, thermal)
}

/// The bands of the true-color image, and of the visible imagery under the
/// combined product: red, green, blue, and the near infrared that the green
/// is mixed with.
pub fn true_color_bands() -> (bands: [Band; 4])
    ensures
        bands@ == seq![Band::B03, Band::B02, Band::B01, Band::B04],
{
    let bands: [Band; 4] = [Band::B03, Band::B02, Band::B01, Band::B04];
    assert(bands@ =~= seq![Band::B03, Band::B02, Band::B01, Band::B04]);
    bands
}

/// The bands of the natural-color image, as red, green and blue: short-wave
/// infrared, near infrared and red.
pub fn natural_color_bands() -> (bands: [Band; 3])
    ensures
        bands@ == seq![Band::B05, Band::B04, Band::B03],
{
    let bands: [Band; 3] = [Band::B05, Band::B04, Band::B03];
    assert(bands@ =~= seq![Band::B05, Band::B04, Band::B03]);
    bands
}

/// Whether a listed band is rendered from the B13 data that another product
/// needs anyway, instead of being fetched by itself.
pub fn shares_b13(products: &Products, band: IrBand) -> (shares: bool)
    ensures
        shares == (products.uses_b13() && band@ == 13),
{
    (products.combined || products.cloud_height) && band.get() == 13
}

/// The thermal bands that are fetched for a scene, in order.
pub fn thermal_bands_to_fetch(products: &Products) -> (fetched: Vec<IrBand>)
    ensures
        band_numbers(fetched@) == products.thermal_fetched(),
{
    let bands = products.clut_bands.as_slice();
    if !(products.combined || products.cloud_height) {
        return copy_bands(bands);
    }
    let ghost listed = band_numbers(bands@);
    let ghost apart = |number: u8| number != 13;
    let mut fetched: Vec<IrBand> = Vec::new();
    fetched.push(IrBand::b13());
    let mut i: usize = 0;
    assert(listed.take(0).filter(apart) =~= Seq::empty()) by {
        reveal(Seq::filter);
    }
    while i < bands.len()
        invariant
            i <= bands@.len(),
            products.uses_b13(),
            bands@ == products.clut_bands@,
            listed == band_numbers(bands@),
            apart == (|number: u8| number != 13),
            band_numbers(fetched@) =~= seq![13u8] + listed.take(i as int).filter(apart),
        decreases bands@.len() - i,
    {
        proof {
            crate::compose::lemma_filter_step(listed, i as int, apart);
        }
        let ghost before = fetched@;
        if !shares_b13(products, bands[i]) {
            fetched.push(bands[i]);
            assert(band_numbers(fetched@) =~= band_numbers(before).push(listed[i as int]));
        }
        i += 1;
    }
    assert(listed.take(listed.len() as int) =~= listed);
    fetched
}

/// A scene that is complete holds what is fetched: the thermal bands that are
/// fetched for a scene are those that it is required to hold.
pub proof fn fetched_bands_are_required(products: Products, number: u8)
    ensures
        products.thermal_fetched().contains(number) == products.thermal_needed().contains(number),
{
    let listed = band_numbers(products.clut_bands@);
    let apart = |n: u8| n != 13;
    if products.uses_b13() {
        let rest = listed.filter(apart);
        let fetched = products.thermal_fetched();
        assert(fetched == seq![13u8] + rest);
        assert(fetched[0] == 13);
        if rest.contains(number) {
            listed.lemma_filter_contains_rev(apart, number);
            let k = choose|k: int| 0 <= k < rest.len() && rest[k] == number;
            assert(fetched[k + 1] == number);
        }
        if listed.contains(number) && number != 13 {
            let k = choose|k: int| 0 <= k < listed.len() && listed[k] == number;
            listed.lemma_filter_contains(apart, k);
            assert(rest.contains(number));
            let j = choose|j: int| 0 <= j < rest.len() && rest[j] == number;
            assert(fetched[j + 1] == number);
        }
        if fetched.contains(number) {
            let k = choose|k: int| 0 <= k < fetched.len() && fetched[k] == number;
            if k > 0 {
                assert(rest[k - 1] == number);
                assert(rest.contains(number));
                listed.lemma_filter_contains_rev(apart, number);
            }
        }
        if !listed.contains(13) {
            let needed = listed.push(13u8);
            assert(needed[listed.len() as int] == 13);
            if listed.contains(number) {
                let k = choose|k: int| 0 <= k < listed.len() && listed[k] == number;
                assert(needed[k] == number);
            }
            if needed.contains(number) {
                let k = choose|k: int| 0 <= k < needed.len() && needed[k] == number;
                if k < listed.len() {
                    assert(listed[k] == number);
                }
            }
        }
    }
}

/// B13 is fetched once where a product beside the listed bands needs it,
/// however often it is listed.
pub proof fn shared_b13_is_fetched_once(products: Products, k: int)
    requires
        products.uses_b13(),
        0 <= k < products.thermal_fetched().len(),
    ensures
        (products.thermal_fetched()[k] == 13) == (k == 0),
{
    broadcast use vstd::seq_lib::group_filter_ensures;

    let listed = band_numbers(products.clut_bands@);
    let apart = |n: u8| n != 13;
    if k > 0 {
        assert(apart(listed.filter(apart)[k - 1]));
    }
}

/// One image that a run writes for a scene.
#[derive(Debug, Clone, Copy)]
pub enum Product {
    TrueColor,
    Combined,
    Natural,
    CloudHeight,
    Clut(IrBand),
}

/// The images that a run writes for a scene, in order.
pub open spec fn scene_products(products: Products) -> Seq<Product> {
    seq![Product::TrueColor] + (if products.combined {
        seq![Product::Combined]
    } else {
        Seq::empty()
    }) + (if products.natural {
        seq![Product::Natural]
    } else {
        Seq::empty()
    }) + (if products.cloud_height {
        seq![Product::CloudHeight]
    } else {
        Seq::empty()
    }) + products.clut_bands@.map_values(|band: IrBand| Product::Clut(band))
}

/// The images that a run writes for a scene, in order.
pub fn products_of_scene(products: &Products) -> (list: Vec<Product>)
    ensures
        list@ == scene_products(*products),
{
    let mut list: Vec<Product> = Vec::new();
    list.push(Product::TrueColor);
    if products.combined {
        list.push(Product::Combined);
    }
    if products.natural {
        list.push(Product::Natural);
    }
    if products.cloud_height {
        list.push(Product::CloudHeight);
    }
    let ghost first = list@;
    let mut i: usize = 0;
    while i < products.clut_bands.len()
        invariant
            i <= products.clut_bands@.len(),
            list@ =~= first + products.clut_bands@.take(i as int).map_values(
                |band: IrBand| Product::Clut(band),
            ),
        decreases products.clut_bands@.len() - i,
    {
        list.push(Product::Clut(products.clut_bands[i]));
        i += 1;
    }
    assert(products.clut_bands@.take(products.clut_bands@.len() as int)
        =~= products.clut_bands@);
    assert(list@ =~= scene_products(*products));
    list
}

/// Where the image of a band stands: the first of that band.
pub fn find_band(images: &[BandImage], band: Band) -> (found: Option<usize>)
    ensures
        match found {
            Some(k) => k < images@.len() && images@[k as int].band == band && forall|j: int|
                0 <= j < k ==> (#[trigger] images@[j]).band != band,
            None => forall|j: int| 0 <= j < images@.len() ==> (#[trigger] images@[j]).band != band,
        },
{
    let mut k: usize = 0;
    while k < images.len()
        invariant
            k <= images@.len(),
            forall|j: int| 0 <= j < k ==> (#[trigger] images@[j]).band != band,
        decreases images@.len() - k,
    {
        if images[k].band == band {
            return Some(k);
        }
        k += 1;
    }
    None
}

// ---------------------------------------------------------------------------
// File names
// ---------------------------------------------------------------------------

/// The stem that names of files are made from: that of the output path, or
/// "earth" where it has none.
pub open spec fn stem_text(stem: Option<Seq<char>>) -> Seq<char> {
    match stem {
        Some(text) => text,
        None => "earth"@,
    }
}

/// The name of a file next to the main output.
pub open spec fn suffixed(stem: Option<Seq<char>>, suffix: Seq<char>) -> Seq<char> {
    stem_text(stem) + "_"@ + suffix + ".png"@
}

/// What a stem is, as text.
pub open spec fn stem_view(stem: Option<&str>) -> Option<Seq<char>> {
    match stem {
        Some(text) => Some(text@),
        None => None,
    }
}

/// "earth" + "natural" -> "earth_natural.png", next to the main output.
pub fn suffixed_output_name(stem: Option<&str>, suffix: &str) -> (name: String)
    ensures
        name@ == suffixed(stem_view(stem), suffix@),
{
    let mut name = stem_or_default(stem).to_owned();
    name.append("_");
    name.append(suffix);
    name.append(".png");
    name
}

/// The stem, or "earth" where there is none.
fn stem_or_default<'a>(stem: Option<&'a str>) -> (text: &'a str)
    ensures
        text@ == stem_text(stem_view(stem)),
{
    match stem {
        Some(text) => text,
        None => "earth",
    }
}

impl Product {
    /// What the name of the product's file is suffixed with; the true-color
    /// image is the main output itself.
    pub open spec fn suffix(self) -> Option<Seq<char>> {
        match self {
            Product::TrueColor => None,
            Product::Combined => Some("combined"@),
            Product::Natural => Some("natural"@),
            Product::CloudHeight => Some("height"@),
            Product::Clut(band) => Some(band.name()),
        }
    }
}

/// The name of a product's file next to the main output; none for the main
/// output itself.
pub fn product_output_name(stem: Option<&str>, product: Product) -> (name: Option<String>)
    ensures
        match product.suffix() {
            Some(suffix) => name matches Some(text) && text@ == suffixed(stem_view(stem), suffix),
            None => name is None,
        },
{
    match product {
        Product::TrueColor => None,
        Product::Combined => Some(suffixed_output_name(stem, "combined")),
        Product::Natural => Some(suffixed_output_name(stem, "natural")),
        Product::CloudHeight => Some(suffixed_output_name(stem, "height")),
        Product::Clut(band) => Some(ir_output_name(stem, band)),
    }
}

/// The name of the file of a thermal band.
pub fn ir_output_name(stem: Option<&str>, band: IrBand) -> (name: String)
    ensures
        name@ == suffixed(stem_view(stem), band.name()),
{
    let code = band.to_string();
    suffixed_output_name(stem, code.as_str())
}

/// Different suffixes give different names.
pub proof fn suffixed_names_differ(stem: Option<Seq<char>>, a: Seq<char>, b: Seq<char>)
    requires
        suffixed(stem, a) == suffixed(stem, b),
    ensures
        a == b,
{
    let head = stem_text(stem) + "_"@;
    let tail = ".png"@;
    let (left, right) = (head + a + tail, head + b + tail);
    assert(left.len() == right.len());
    assert(left.subrange(head.len() as int, (head.len() + a.len()) as int) =~= a);
    assert(right.subrange(head.len() as int, (head.len() + b.len()) as int) =~= b);
}

/// No two products of a scene write to the same file, but for a band that is
/// listed twice.
pub proof fn products_write_apart(stem: Option<Seq<char>>, a: Product, b: Product)
    requires
        a.suffix() is Some,
        b.suffix() is Some,
        suffixed(stem, a.suffix()->0) == suffixed(stem, b.suffix()->0),
    ensures
        match (a, b) {
            (Product::Combined, Product::Combined) => true,
            (Product::Natural, Product::Natural) => true,
            (Product::CloudHeight, Product::CloudHeight) => true,
            (Product::Clut(x), Product::Clut(y)) => x@ == y@,
            _ => false,
        },
{
    suffixed_names_differ(stem, a.suffix()->0, b.suffix()->0);
    reveal_strlit("combined");
    reveal_strlit("natural");
    reveal_strlit("height");
    reveal_strlit("B");
    if let Product::Clut(x) = a {
        lemma_band_name(x);
        if let Product::Clut(y) = b {
            lemma_band_name(y);
            let (p, q) = (decimal::zero_padded(x@ as nat, 2), decimal::zero_padded(y@ as nat, 2));
            assert(x.name().skip(1) =~= p);
            assert(y.name().skip(1) =~= q);
            decimal::padded_numerals_differ(x@ as nat, y@ as nat, 2);
        }
    }
    if let Product::Clut(y) = b {
        lemma_band_name(y);
    }
}

proof fn lemma_band_name(band: IrBand)
    ensures
        band.name().len() >= 1,
        band.name()[0] == 'B',
{
    reveal_strlit("B");
}

/// The name of the directory of a timelapse's frames.
pub fn frames_dir_name(stem: Option<&str>) -> (name: String)
    ensures
        name@ == stem_text(stem_view(stem)) + "_frames"@,
{
    let mut name = stem_or_default(stem).to_owned();
    name.append("_frames");
    name
}

/// The name of a timelapse's frame.
pub open spec fn frame_file(number: nat) -> Seq<char> {
    "frame_"@ + decimal::zero_padded(number, 5) + ".png"@
}

/// The name of a timelapse's frame.
pub fn frame_name(number: u64) -> (name: String)
    ensures
        name@ == frame_file(number as nat),
{
    let mut name = "frame_".to_owned();
    name.append(decimal::padded_decimal(number, 5).as_str());
    name.append(".png");
    name
}

/// Every frame has a file of its own.
pub proof fn frames_write_apart(a: nat, b: nat)
    requires
        frame_file(a) == frame_file(b),
    ensures
        a == b,
{
    let (p, q) = (decimal::zero_padded(a, 5), decimal::zero_padded(b, 5));
    let (head, tail) = ("frame_"@, ".png"@);
    assert((head + p + tail).len() == (head + q + tail).len());
    assert((head + p + tail).subrange(head.len() as int, (head.len() + p.len()) as int) =~= p);
    assert((head + q + tail).subrange(head.len() as int, (head.len() + q.len()) as int) =~= q);
    decimal::padded_numerals_differ(a, b, 5);
}

} // verus!
