//! Product rendering.
//!
//! Layout of this file:
//!   - pixels and image data
//!   - the products that map each count to a color: `ir_enhancement`,
//!     `cloud_top_height`
//!   - `render_disk`: the per-pixel scaffold that the other products share
//!   - `true_color`, `natural_color`
//!
//! The color arithmetic is floating-point and comes in through the callers'
//! functions; what is decided here is which samples enter a pixel, which
//! pixels stay black, and where each color goes.

use vstd::prelude::*;
use vstd::string::*;

use crate::band::Band;
use crate::compose;
use crate::compose::{BandImage, Rgb8Image, FULL_DISK_SIZE};
use crate::grid;
use crate::hsd;
use crate::hsd::{Calibration, CalibrationKind};
use crate::ieee;
use crate::palette;
use crate::palette::ClutStyle;
use crate::tuning::{BLACK, HEIGHT_CLEAR_RGB, HEIGHT_CLUT};

verus! {

// ---------------------------------------------------------------------------
// Pixels and image data
// ---------------------------------------------------------------------------

/// Why a product cannot be rendered.
#[derive(Debug, Clone, Copy, PartialEq, Eq, Structural)]
pub enum RenderError {
    /// A band of a visible composite is a thermal one.
    NoReflectance(Band),
    /// The infrared band of the combined product is a reflective one.
    CombinedNotThermal,
    /// The band of an infrared enhancement is a reflective one.
    EnhancementNotThermal,
    /// The band of a cloud-top height render is a reflective one.
    HeightNotThermal,
}

impl RenderError {
    /// The error in words.
    pub open spec fn words(self) -> Seq<char> {
        match self {
            RenderError::NoReflectance(band) => band.code_text()
                + " has no reflectance calibration"@,
            RenderError::CombinedNotThermal => "combined product needs a thermal band"@,
            RenderError::EnhancementNotThermal => "band has no thermal calibration"@,
            RenderError::HeightNotThermal => "cloud-top height needs a thermal band"@,
        }
    }

    /// The error in words.
    pub fn message(&self) -> (text: String)
        ensures
            text@ == self.words(),
    {
        match *self {
            RenderError::NoReflectance(band) => {
                let mut text = band.code().to_owned();
                text.append(" has no reflectance calibration");
                text
            },
            RenderError::CombinedNotThermal => "combined product needs a thermal band".to_owned(),
            RenderError::EnhancementNotThermal => "band has no thermal calibration".to_owned(),
            RenderError::HeightNotThermal => "cloud-top height needs a thermal band".to_owned(),
        }
    }
}

/// The bytes of a sequence of pixels.
pub open spec fn pixel_bytes(pixels: Seq<[u8; 3]>) -> Seq<u8> {
    Seq::new(3 * pixels.len(), |k: int| pixels[k / 3]@[k % 3])
}

/// The bytes of a sequence of pixels.
pub(crate) fn to_bytes(pixels: &[[u8; 3]]) -> (data: Vec<u8>)
    requires
        3 * pixels@.len() <= usize::MAX,
    ensures
        data@ == pixel_bytes(pixels@),
{
    let size: usize = pixels.len();
    let mut data: Vec<u8> = Vec::with_capacity(3 * size);
    let mut i: usize = 0;
    while i < size
        invariant
            i <= size,
            size == pixels@.len(),
            data@ =~= pixel_bytes(pixels@.take(i as int)),
        decreases size - i,
    {
        let pixel: [u8; 3] = pixels[i];
        data.push(pixel[0]);
        data.push(pixel[1]);
        data.push(pixel[2]);
        i += 1;
    }
    assert(pixels@.take(size as int) =~= pixels@);
    data
}

// ---------------------------------------------------------------------------
// Products that map each count to a color
// ---------------------------------------------------------------------------

/// The pixels of whole lines of counts, each count mapped to its color.
pub open spec fn mapped_pixels(counts: Seq<u16>, width: int, colors: Seq<[u8; 3]>) -> Seq<[u8; 3]> {
    Seq::new(
        ((counts.len() as int / width) * width) as nat,
        |i: int| colors[counts[i] as int],
    )
}

/// Whether an image shows counts through a table of colors.
pub open spec fn shows_counts(
    image: Rgb8Image,
    counts: Seq<u16>,
    width: usize,
    colors: Seq<[u8; 3]>,
) -> bool {
    &&& image.width == width as u32
    &&& image.height == (counts.len() as int / width as int) as u32
    &&& image.data@ == pixel_bytes(mapped_pixels(counts, width as int, colors))
}

/// An image of a size that its width and height can hold is well-formed.
pub proof fn shown_counts_are_well_formed(
    image: Rgb8Image,
    counts: Seq<u16>,
    width: usize,
    colors: Seq<[u8; 3]>,
)
    requires
        shows_counts(image, counts, width, colors),
        0 < width <= u32::MAX,
        counts.len() as int / width as int <= u32::MAX,
    ensures
        image.wf(),
{
    let (w, h) = (width as int, counts.len() as int / width as int);
    assert(h * w == w * h && 0 <= h * w) by (nonlinear_arith)
        requires
            0 <= h,
            0 <= w,
    ;
    assert(0 <= h) by (nonlinear_arith)
        requires
            h == counts.len() as int / w,
            0 < w,
    ;
}

/// The parallel walk shared by every product that maps each raw count
/// straight to a color.
pub fn render_count_lut(counts: &[u16], width: usize, rgb_lut: &[[u8; 3]]) -> (image: Rgb8Image)
    requires
        width > 0,
        3 * counts@.len() <= usize::MAX,
        forall|i: int| 0 <= i < counts@.len() ==> #[trigger] counts@[i] < rgb_lut@.len(),
    ensures
        shows_counts(image, counts@, width, rgb_lut@),
{
    let height: usize = counts.len() / width;
    proof {
        assert(height * width <= counts@.len()) by (nonlinear_arith)
            requires
                height == counts@.len() / width as nat,
                width > 0,
        ;
    }
    let cell = |y: usize, x: usize| -> (pixel: [u8; 3])
        requires
            y < height,
            x < width,
        ensures
            pixel == rgb_lut@[counts@[grid::place(width as int, y as int, x as int)] as int],
        {
            proof {
                grid::cell_has_place(width as int, height as int, y as int, x as int);
            }
            rgb_lut[counts[y * width + x] as usize]
        };
    let pixels: Vec<[u8; 3]> = grid::par_cells(height, width, cell);
    proof {
        assert forall|i: int| 0 <= i < pixels@.len() implies #[trigger] pixels@[i]
            == mapped_pixels(counts@, width as int, rgb_lut@)[i] by {
            grid::place_has_cell(width as int, height as int, i);
        }
        assert(pixels@ =~= mapped_pixels(counts@, width as int, rgb_lut@));
    }
    Rgb8Image { width: width as u32, height: height as u32, data: to_bytes(pixels.as_slice()) }
}

/// Whether a table holds the brightness temperature of every count.
pub open spec fn is_temperature_table<R, T>(
    cal: Calibration,
    radiance: R,
    temperature: T,
    table: Seq<u32>,
) -> bool where R: Fn(u64, u64, u16) -> u64, T: Fn(&CalibrationKind, u64) -> u32 {
    hsd::is_count_table(
        cal,
        table,
        |count: u16, bits: u32| cal.temperature_of(radiance, temperature, count, bits),
    )
}

/// Whether the temperatures of a thermal band can be asked for.
pub open spec fn gives_temperatures<R, T>(cal: Calibration, radiance: R, temperature: T) -> bool where
    R: Fn(u64, u64, u16) -> u64,
    T: Fn(&CalibrationKind, u64) -> u32,
 {
    cal.kind is Emissive ==> {
        &&& forall|count: u16|
            cal.valid(count) ==> #[trigger] call_requires(radiance, (cal.gain, cal.offset, count))
        &&& forall|level: u64|
            !ieee::at_most64(level, 0) ==> #[trigger] call_requires(
                temperature,
                (&cal.kind, level),
            )
    }
}

/// Whether each color is one of its temperature under a palette.
pub open spec fn is_clut_table<B>(
    style: ClutStyle,
    table: Seq<u32>,
    blend: B,
    colors: Seq<[u8; 3]>,
) -> bool where B: Fn(u32, (u32, [u8; 3]), (u32, [u8; 3])) -> [u8; 3] {
    &&& colors.len() == table.len()
    &&& forall|i: int|
        0 <= i < table.len() ==> palette::is_clut_color(
            style.points(),
            table[i],
            blend,
            #[trigger] colors[i],
        )
}

/// Whether a color is one of a count in the height render: black for a pixel
/// that could not be measured; that of space for one outside the scan or
/// without radiance; and otherwise one of the temperature.
pub open spec fn is_count_height_color<R, T, H, B>(
    cal: Calibration,
    radiance: R,
    temperature: T,
    height: H,
    blend: B,
    count: u16,
    color: [u8; 3],
) -> bool where
    R: Fn(u64, u64, u16) -> u64,
    T: Fn(&CalibrationKind, u64) -> u32,
    H: Fn(u32) -> u32,
    B: Fn(u32, (u32, [u8; 3]), (u32, [u8; 3])) -> [u8; 3],
 {
    if count == cal.error_count {
        color == BLACK
    } else if count == cal.outside_scan_count {
        color == HEIGHT_CLEAR_RGB
    } else {
        exists|level: u64|
            #[trigger] call_ensures(radiance, (cal.gain, cal.offset, count), level)
                && is_level_height_color(cal, temperature, height, blend, level, color)
    }
}

/// Whether a color is one of a radiance in the height render.
pub open spec fn is_level_height_color<T, H, B>(
    cal: Calibration,
    temperature: T,
    height: H,
    blend: B,
    level: u64,
    color: [u8; 3],
) -> bool where
    T: Fn(&CalibrationKind, u64) -> u32,
    H: Fn(u32) -> u32,
    B: Fn(u32, (u32, [u8; 3]), (u32, [u8; 3])) -> [u8; 3],
 {
    if ieee::at_most64(level, 0) {
        color == HEIGHT_CLEAR_RGB
    } else {
        exists|bits: u32|
            #[trigger] call_ensures(temperature, (&cal.kind, level), bits)
                && palette::is_height_color(bits, height, blend, color)
    }
}

/// Whether a table holds a color of every count in the height render.
pub open spec fn is_height_table<R, T, H, B>(
    cal: Calibration,
    radiance: R,
    temperature: T,
    height: H,
    blend: B,
    colors: Seq<[u8; 3]>,
) -> bool where
    R: Fn(u64, u64, u16) -> u64,
    T: Fn(&CalibrationKind, u64) -> u32,
    H: Fn(u32) -> u32,
    B: Fn(u32, (u32, [u8; 3]), (u32, [u8; 3])) -> [u8; 3],
 {
    &&& colors.len() == 0x1_0000
    &&& forall|count: u16|
        is_count_height_color(
            cal,
            radiance,
            temperature,
            height,
            blend,
            count,
            #[trigger] colors[count as int],
        )
}

/// Render an assembled thermal band through a brightness-temperature palette
/// at its native resolution. `radiance` and `temperature` convert counts as
/// in [`Calibration::brightness_temperature_lut`], `blend` mixes colors as in
/// [`palette::table_color`].
pub fn ir_enhancement<R, T, B>(
    calibration: &Calibration,
    counts: &[u16],
    width: usize,
    style: ClutStyle,
    radiance: R,
    temperature: T,
    blend: B,
) -> (image: Result<Rgb8Image, RenderError>) where
    R: Fn(u64, u64, u16) -> u64,
    T: Fn(&CalibrationKind, u64) -> u32,
    B: Fn(u32, (u32, [u8; 3]), (u32, [u8; 3])) -> [u8; 3] + Copy,

    requires
        width > 0,
        3 * counts@.len() <= usize::MAX,
        gives_temperatures(*calibration, radiance, temperature),
        palette::blends(style.points(), blend),
    ensures
        match image {
            Ok(image) => calibration.kind is Emissive && exists|
                table: Seq<u32>,
                colors: Seq<[u8; 3]>,
            |
                is_temperature_table(*calibration, radiance, temperature, table)
                    && #[trigger] is_clut_table(style, table, blend, colors) && shows_counts(
                    image,
                    counts@,
                    width,
                    colors,
                ),
            Err(error) => !(calibration.kind is Emissive) && error
                == RenderError::EnhancementNotThermal,
        },
{
    let table: Vec<u32> = match calibration.brightness_temperature_lut(radiance, temperature) {
        Some(table) => table,
        None => {
            return Err(RenderError::EnhancementNotThermal);
        },
    };
    let points = style.table();
    proof {
        palette::palettes_ascend(style);
    }
    let size: usize = table.len();
    let mut colors: Vec<[u8; 3]> = Vec::with_capacity(size);
    let mut i: usize = 0;
    while i < size
        invariant
            i <= size,
            size == table@.len(),
            points@ == style.points(),
            points@.len() > 0,
            palette::ascending(points@),
            palette::blends(points@, blend),
            is_clut_table(style, table@.take(i as int), blend, colors@),
        decreases size - i,
    {
        let ghost before = colors@;
        colors.push(palette::clut_color(points, table[i], blend));
        proof {
            assert forall|k: int| 0 <= k < i + 1 implies palette::is_clut_color(
                style.points(),
                table@.take(i + 1)[k],
                blend,
                #[trigger] colors@[k],
            ) by {
                if k < i {
                    assert(colors@[k] == before[k] && table@.take(i as int)[k] == table@[k]);
                }
            }
        }
        i += 1;
    }
    proof {
        assert(table@.take(size as int) =~= table@);
        assert(is_temperature_table(*calibration, radiance, temperature, table@));
        assert(is_clut_table(style, table@, blend, colors@));
    }
    Ok(render_count_lut(counts, width, colors.as_slice()))
}

/// Cloud-top height render: brightness temperature converted to height by
/// `height` and drawn through the hypsometric palette. Warm (cloud-free)
/// pixels and space render near-black, pixels that could not be measured
/// black. Note that the estimate reads any cold surface as cloud too.
pub fn cloud_top_height<R, T, H, B>(
    calibration: &Calibration,
    counts: &[u16],
    width: usize,
    radiance: R,
    temperature: T,
    height: H,
    blend: B,
) -> (image: Result<Rgb8Image, RenderError>) where
    R: Fn(u64, u64, u16) -> u64,
    T: Fn(&CalibrationKind, u64) -> u32,
    H: Fn(u32) -> u32 + Copy,
    B: Fn(u32, (u32, [u8; 3]), (u32, [u8; 3])) -> [u8; 3] + Copy,

    requires
        width > 0,
        3 * counts@.len() <= usize::MAX,
        gives_temperatures(*calibration, radiance, temperature),
        palette::gives_heights(height),
        palette::blends(HEIGHT_CLUT@, blend),
    ensures
        match image {
            Ok(image) => calibration.kind is Emissive && exists|colors: Seq<[u8; 3]>|
                #[trigger] is_height_table(
                    *calibration,
                    radiance,
                    temperature,
                    height,
                    blend,
                    colors,
                ) && shows_counts(image, counts@, width, colors),
            Err(error) => !(calibration.kind is Emissive) && error
                == RenderError::HeightNotThermal,
        },
{
    if let CalibrationKind::Reflective { .. } = calibration.kind {
        return Err(RenderError::HeightNotThermal);
    }
    let mut colors: Vec<[u8; 3]> = Vec::with_capacity(0x1_0000);
    let mut next: u32 = 0;
    while next <= 0xffff
        invariant
            next <= 0x1_0000,
            calibration.kind is Emissive,
            gives_temperatures(*calibration, radiance, temperature),
            palette::gives_heights(height),
            palette::blends(HEIGHT_CLUT@, blend),
            colors@.len() == next,
            forall|count: u16|
                count < next ==> is_count_height_color(
                    *calibration,
                    radiance,
                    temperature,
                    height,
                    blend,
                    count,
                    #[trigger] colors@[count as int],
                ),
        decreases 0x1_0000 - next,
    {
        let count: u16 = next as u16;
        let color: [u8; 3] = if count == calibration.error_count {
            BLACK
        } else if count == calibration.outside_scan_count {
            HEIGHT_CLEAR_RGB
        } else {
            assert(calibration.valid(count));
            let level: u64 = radiance(calibration.gain, calibration.offset, count);
            assert(call_ensures(radiance, (calibration.gain, calibration.offset, count), level));
            if ieee::is_at_most64(level, 0) {
                HEIGHT_CLEAR_RGB
            } else {
                let bits: u32 = temperature(&calibration.kind, level);
                assert(call_ensures(temperature, (&calibration.kind, level), bits));
                palette::height_color(bits, height, blend)
            }
        };
        colors.push(color);
        next += 1;
    }
    assert(is_height_table(*calibration, radiance, temperature, height, blend, colors@));
    Ok(render_count_lut(counts, width, colors.as_slice()))
}

// ---------------------------------------------------------------------------
// Shared per-pixel scaffold
// ---------------------------------------------------------------------------

/// Four of a kind, one for each band of a composite.
pub type Quad<T> = (T, T, T, T);

/// What a product's shader gets to see for one output pixel.
#[derive(Debug, Clone, Copy)]
pub struct PixelSample {
    pub out_x: usize,
    pub out_y: usize,
    /// The sums of the linear reflectances of the four bands over the block
    /// of the 1 km grid that the pixel covers.
    pub sum: Quad<u32>,
    /// How many samples entered the sums: more than none.
    pub valid: u32,
}

/// The reflectances of the four bands at one place of the 1 km grid.
pub open spec fn reflectances(
    counts: Quad<Seq<u16>>,
    luts: Quad<Seq<u32>>,
    i: int,
) -> Quad<u32> {
    (
        luts.0[counts.0[i] as int],
        luts.1[counts.1[i] as int],
        luts.2[counts.2[i] as int],
        luts.3[counts.3[i] as int],
    )
}

/// Whether all four are finite numbers.
pub open spec fn all_finite(sample: Quad<u32>) -> bool {
    &&& ieee::finite32(sample.0)
    &&& ieee::finite32(sample.1)
    &&& ieee::finite32(sample.2)
    &&& ieee::finite32(sample.3)
}

/// The place on the 1 km grid of sample `k` of the block that the output
/// pixel at row `y` and column `x` covers.
pub open spec fn block_place(factor: int, y: int, x: int, k: int) -> int {
    grid::place(FULL_DISK_SIZE as int, y * factor + k / factor, x * factor + k % factor)
}

/// All samples of the block that an output pixel covers, line by line.
pub open spec fn block_samples(
    counts: Quad<Seq<u16>>,
    luts: Quad<Seq<u32>>,
    factor: int,
    y: int,
    x: int,
) -> Seq<Quad<u32>> {
    Seq::new(
        (factor * factor) as nat,
        |k: int| reflectances(counts, luts, block_place(factor, y, x, k)),
    )
}

/// The samples of the block that have a reflectance in all four bands.
pub open spec fn usable_samples(
    counts: Quad<Seq<u16>>,
    luts: Quad<Seq<u32>>,
    factor: int,
    y: int,
    x: int,
) -> Seq<Quad<u32>> {
    block_samples(counts, luts, factor, y, x).filter(|sample: Quad<u32>| all_finite(sample))
}

/// Whether adding up samples one after the other, from zeros on, may give
/// `sum`.
pub open spec fn sums_to<G: Fn(Quad<u32>, Quad<u32>) -> Quad<u32>>(
    plus: G,
    samples: Seq<Quad<u32>>,
    sum: Quad<u32>,
) -> bool
    decreases samples.len(),
{
    if samples.len() == 0 {
        sum == (0u32, 0u32, 0u32, 0u32)
    } else {
        exists|before: Quad<u32>|
            #[trigger] call_ensures(plus, (before, samples.last()), sum) && sums_to(
                plus,
                samples.drop_last(),
                before,
            )
    }
}

/// Whether a pixel is what the color that a shader gives is quantized to.
pub open spec fn is_quantized<A, C, S, Q>(
    shader: S,
    quantize: Q,
    px: PixelSample,
    angles: A,
    pixel: [u8; 3],
) -> bool where S: Fn(&PixelSample, &A) -> C, Q: Fn(C) -> [u8; 3] {
    exists|color: C|
        #[trigger] call_ensures(shader, (&px, &angles), color) && call_ensures(
            quantize,
            (color,),
            pixel,
        )
}

/// The pixels that a shader may give for a sample.
pub open spec fn shades_by<A, C, S, Q>(shader: S, quantize: Q) -> spec_fn(
    PixelSample,
    A,
    [u8; 3],
) -> bool where S: Fn(&PixelSample, &A) -> C, Q: Fn(C) -> [u8; 3] {
    |px: PixelSample, angles: A, pixel: [u8; 3]| is_quantized(shader, quantize, px, angles, pixel)
}

/// Whether a pixel is one that the shader gives for its block: black where
/// the block holds no usable sample, and where the line of sight goes past
/// the limb.
pub open spec fn is_disk_pixel<G, L, A>(
    counts: Quad<Seq<u16>>,
    luts: Quad<Seq<u32>>,
    factor: int,
    plus: G,
    locate: L,
    shades: spec_fn(PixelSample, A, [u8; 3]) -> bool,
    y: usize,
    x: usize,
    pixel: [u8; 3],
) -> bool where
    G: Fn(Quad<u32>, Quad<u32>) -> Quad<u32>,
    L: Fn(usize, usize) -> Option<A>,
 {
    let samples = usable_samples(counts, luts, factor, y as int, x as int);
    if samples.len() == 0 {
        pixel@ == seq![0u8, 0u8, 0u8]
    } else {
        exists|angles: Option<A>|
            {
                &&& #[trigger] call_ensures(locate, (x, y), angles)
                &&& match angles {
                    None => pixel@ == seq![0u8, 0u8, 0u8],
                    Some(angles) => is_shaded(plus, samples, y, x, shades, angles, pixel),
                }
            }
    }
}

/// Whether a pixel is one that the shader gives for the sum of its samples.
pub open spec fn is_shaded<G, A>(
    plus: G,
    samples: Seq<Quad<u32>>,
    y: usize,
    x: usize,
    shades: spec_fn(PixelSample, A, [u8; 3]) -> bool,
    angles: A,
    pixel: [u8; 3],
) -> bool where G: Fn(Quad<u32>, Quad<u32>) -> Quad<u32> {
    exists|sum: Quad<u32>|
        #[trigger] sums_to(plus, samples, sum) && shades(
            sample_of(y, x, sum, samples.len()),
            angles,
            pixel,
        )
}

/// What the shader sees of the output pixel at row `y` and column `x`.
pub open spec fn sample_of(y: usize, x: usize, sum: Quad<u32>, valid: nat) -> PixelSample {
    PixelSample { out_x: x, out_y: y, sum, valid: valid as u32 }
}

/// Whether an image shows a full-disk product: one pixel for each block of
/// the 1 km grid.
pub open spec fn shows_disk<G, L, A>(
    image: Rgb8Image,
    counts: Quad<Seq<u16>>,
    luts: Quad<Seq<u32>>,
    factor: int,
    plus: G,
    locate: L,
    shades: spec_fn(PixelSample, A, [u8; 3]) -> bool,
) -> bool where
    G: Fn(Quad<u32>, Quad<u32>) -> Quad<u32>,
    L: Fn(usize, usize) -> Option<A>,
 {
    let size = FULL_DISK_SIZE as int / factor;
    &&& image.wf()
    &&& image.width == size
    &&& image.height == size
    &&& forall|i: int|
        0 <= i < size * size ==> #[trigger] is_disk_pixel(
            counts,
            luts,
            factor,
            plus,
            locate,
            shades,
            (i / size) as usize,
            (i % size) as usize,
            image_pixel(image, i),
        )
}

/// Pixel `i` of an image.
pub open spec fn image_pixel(image: Rgb8Image, i: int) -> [u8; 3] {
    [image.data@[3 * i], image.data@[3 * i + 1], image.data@[3 * i + 2]]
}

proof fn lemma_block_place(factor: int, y: int, x: int, k: int)
    requires
        1 <= factor,
        FULL_DISK_SIZE as int % factor == 0,
        0 <= y < FULL_DISK_SIZE as int / factor,
        0 <= x < FULL_DISK_SIZE as int / factor,
        0 <= k < factor * factor,
    ensures
        0 <= y * factor + k / factor < FULL_DISK_SIZE,
        0 <= x * factor + k % factor < FULL_DISK_SIZE,
        0 <= block_place(factor, y, x, k) < FULL_DISK_SIZE * FULL_DISK_SIZE,
{
    let full = FULL_DISK_SIZE as int;
    let size = full / factor;
    grid::place_has_cell(factor, factor, k);
    vstd::arithmetic::div_mod::lemma_fundamental_div_mod(full, factor);
    assert(0 <= y * factor && y * factor + factor <= full && 0 <= x * factor && x * factor + factor
        <= full) by (nonlinear_arith)
        requires
            full == factor * size,
            0 <= y < size,
            0 <= x < size,
            1 <= factor,
    ;
    grid::cell_has_place(full, full, y * factor + k / factor, x * factor + k % factor);
}

/// Adds up the usable samples of one block.
fn block_sum<G>(
    counts: Quad<&[u16]>,
    luts: Quad<&[u32]>,
    factor: usize,
    y: usize,
    x: usize,
    plus: &G,
) -> (total: (Quad<u32>, u32)) where G: Fn(Quad<u32>, Quad<u32>) -> Quad<u32>
    requires
        1 <= factor,
        FULL_DISK_SIZE as int % factor as int == 0,
        y < FULL_DISK_SIZE as int / factor as int,
        x < FULL_DISK_SIZE as int / factor as int,
        counts.0@.len() == FULL_DISK_SIZE * FULL_DISK_SIZE,
        counts.1@.len() == FULL_DISK_SIZE * FULL_DISK_SIZE,
        counts.2@.len() == FULL_DISK_SIZE * FULL_DISK_SIZE,
        counts.3@.len() == FULL_DISK_SIZE * FULL_DISK_SIZE,
        luts.0@.len() == 0x1_0000,
        luts.1@.len() == 0x1_0000,
        luts.2@.len() == 0x1_0000,
        luts.3@.len() == 0x1_0000,
        forall|sum: Quad<u32>, sample: Quad<u32>| #[trigger] call_requires(*plus, (sum, sample)),
    ensures
        ({
            let samples = usable_samples(
                (counts.0@, counts.1@, counts.2@, counts.3@),
                (luts.0@, luts.1@, luts.2@, luts.3@),
                factor as int,
                y as int,
                x as int,
            );
            total.1 == samples.len() && sums_to(*plus, samples, total.0)
        }),
{
    let ghost all = block_samples(
        (counts.0@, counts.1@, counts.2@, counts.3@),
        (luts.0@, luts.1@, luts.2@, luts.3@),
        factor as int,
        y as int,
        x as int,
    );
    let ghost usable = |sample: Quad<u32>| all_finite(sample);
    let mut sum: Quad<u32> = (0, 0, 0, 0);
    let mut valid: u32 = 0;
    let mut sub_y: usize = 0;
    proof {
        vstd::arithmetic::div_mod::lemma_fundamental_div_mod(
            FULL_DISK_SIZE as int,
            factor as int,
        );
        let size = FULL_DISK_SIZE as int / factor as int;
        assert(factor <= FULL_DISK_SIZE) by (nonlinear_arith)
            requires
                FULL_DISK_SIZE as int == factor as int * size,
                0 < size,
                0 < factor,
        ;
        assert(factor * factor <= 11_000 * 11_000) by (nonlinear_arith)
            requires
                factor <= 11_000,
        ;
        assert(all.take(0).filter(usable) =~= Seq::empty()) by {
            reveal(Seq::filter);
        }
        assert(0 * factor == 0) by (nonlinear_arith);
    }
    while sub_y < factor
        invariant
            sub_y <= factor,
            1 <= factor,
            FULL_DISK_SIZE as int % factor as int == 0,
            y < FULL_DISK_SIZE as int / factor as int,
            x < FULL_DISK_SIZE as int / factor as int,
            counts.0@.len() == FULL_DISK_SIZE * FULL_DISK_SIZE,
            counts.1@.len() == FULL_DISK_SIZE * FULL_DISK_SIZE,
            counts.2@.len() == FULL_DISK_SIZE * FULL_DISK_SIZE,
            counts.3@.len() == FULL_DISK_SIZE * FULL_DISK_SIZE,
            luts.0@.len() == 0x1_0000,
            luts.1@.len() == 0x1_0000,
            luts.2@.len() == 0x1_0000,
            luts.3@.len() == 0x1_0000,
            forall|sum: Quad<u32>, sample: Quad<u32>| #[trigger] call_requires(*plus, (sum, sample)),
            usable == (|sample: Quad<u32>| all_finite(sample)),
            factor * factor <= 11_000 * 11_000,
            all == block_samples(
                (counts.0@, counts.1@, counts.2@, counts.3@),
                (luts.0@, luts.1@, luts.2@, luts.3@),
                factor as int,
                y as int,
                x as int,
            ),
            all.len() == factor * factor,
            valid == all.take(sub_y * factor).filter(usable).len(),
            sums_to(*plus, all.take(sub_y * factor).filter(usable), sum),
        decreases factor - sub_y,
    {
        let mut sub_x: usize = 0;
        proof {
            grid::cell_has_place(factor as int, factor as int, sub_y as int, 0);
            lemma_block_place(factor as int, y as int, x as int, sub_y * factor);
            assert((sub_y + 1) * factor == sub_y * factor + factor) by (nonlinear_arith);
            assert((sub_y + 1) * factor <= factor * factor) by (nonlinear_arith)
                requires
                    sub_y + 1 <= factor,
            ;
        }
        let row: usize = (y * factor + sub_y) * FULL_DISK_SIZE + x * factor;
        while sub_x < factor
            invariant
                sub_x <= factor,
                sub_y < factor,
                1 <= factor,
                FULL_DISK_SIZE as int % factor as int == 0,
                y < FULL_DISK_SIZE as int / factor as int,
                x < FULL_DISK_SIZE as int / factor as int,
                row == (y * factor + sub_y) * FULL_DISK_SIZE + x * factor,
                (sub_y + 1) * factor == sub_y * factor + factor,
                (sub_y + 1) * factor <= factor * factor,
                counts.0@.len() == FULL_DISK_SIZE * FULL_DISK_SIZE,
                counts.1@.len() == FULL_DISK_SIZE * FULL_DISK_SIZE,
                counts.2@.len() == FULL_DISK_SIZE * FULL_DISK_SIZE,
                counts.3@.len() == FULL_DISK_SIZE * FULL_DISK_SIZE,
                luts.0@.len() == 0x1_0000,
                luts.1@.len() == 0x1_0000,
                luts.2@.len() == 0x1_0000,
                luts.3@.len() == 0x1_0000,
                forall|sum: Quad<u32>, sample: Quad<u32>|
                    #[trigger] call_requires(*plus, (sum, sample)),
                usable == (|sample: Quad<u32>| all_finite(sample)),
                factor * factor <= 11_000 * 11_000,
                all == block_samples(
                    (counts.0@, counts.1@, counts.2@, counts.3@),
                    (luts.0@, luts.1@, luts.2@, luts.3@),
                    factor as int,
                    y as int,
                    x as int,
                ),
                all.len() == factor * factor,
                valid == all.take(sub_y * factor + sub_x).filter(usable).len(),
                sums_to(*plus, all.take(sub_y * factor + sub_x).filter(usable), sum),
            decreases factor - sub_x,
        {
            let ghost k = sub_y * factor + sub_x;
            proof {
                grid::cell_has_place(factor as int, factor as int, sub_y as int, sub_x as int);
                lemma_block_place(factor as int, y as int, x as int, k);
                compose::lemma_filter_step(all, k, usable);
                broadcast use vstd::seq_lib::group_filter_ensures;

                assert(all.take(k).filter(usable).len() <= k);
            }
            let i: usize = row + sub_x;
            assert(i == block_place(factor as int, y as int, x as int, k));
            let sample: Quad<u32> = (
                luts.0[counts.0[i] as usize],
                luts.1[counts.1[i] as usize],
                luts.2[counts.2[i] as usize],
                luts.3[counts.3[i] as usize],
            );
            assert(sample == all[k]);
            if ieee::is_finite32(sample.0) && ieee::is_finite32(sample.1) && ieee::is_finite32(
                sample.2,
            ) && ieee::is_finite32(sample.3) {
                let ghost before = sum;
                let ghost so_far = all.take(k).filter(usable);
                sum = plus(sum, sample);
                valid += 1;
                proof {
                    let now = so_far.push(sample);
                    assert(now.drop_last() =~= so_far && now.last() == sample);
                    assert(call_ensures(*plus, (before, now.last()), sum));
                    assert(sums_to(*plus, now.drop_last(), before));
                    assert(sums_to(*plus, now, sum));
                }
            }
            sub_x += 1;
        }
        sub_y += 1;
    }
    assert(all.take(factor * factor) =~= all);
    (sum, valid)
}

/// Whether a table holds the reflectance of every count.
pub open spec fn is_reflectance_table<F: Fn(u64, u64, u64, u16) -> u32>(
    cal: Calibration,
    reflectance: F,
    table: Seq<u32>,
) -> bool {
    hsd::is_count_table(
        cal,
        table,
        |count: u16, bits: u32|
            call_ensures(
                reflectance,
                (cal.kind->albedo_coeff, cal.gain, cal.offset, count),
                bits,
            ),
    )
}

/// Whether four tables hold the reflectances of four bands.
pub open spec fn are_reflectance_tables<F: Fn(u64, u64, u64, u16) -> u32>(
    bands: [&BandImage; 4],
    reflectance: F,
    luts: Quad<Seq<u32>>,
) -> bool {
    &&& is_reflectance_table(bands@[0].calibration, reflectance, luts.0)
    &&& is_reflectance_table(bands@[1].calibration, reflectance, luts.1)
    &&& is_reflectance_table(bands@[2].calibration, reflectance, luts.2)
    &&& is_reflectance_table(bands@[3].calibration, reflectance, luts.3)
}

/// Whether the reflectances of a reflective band can be asked for.
pub open spec fn gives_reflectances<F: Fn(u64, u64, u64, u16) -> u32>(
    cal: Calibration,
    reflectance: F,
) -> bool {
    cal.kind matches CalibrationKind::Reflective { albedo_coeff } ==> forall|count: u16|
        cal.valid(count) ==> #[trigger] call_requires(
            reflectance,
            (albedo_coeff, cal.gain, cal.offset, count),
        )
}

/// The counts of four bands.
pub open spec fn band_counts(bands: [&BandImage; 4]) -> Quad<Seq<u16>> {
    (bands@[0].counts@, bands@[1].counts@, bands@[2].counts@, bands@[3].counts@)
}

/// The first of four bands that is not a reflective one.
pub open spec fn first_thermal(bands: [&BandImage; 4]) -> Option<Band> {
    if !(bands@[0].calibration.kind is Reflective) {
        Some(bands@[0].band)
    } else if !(bands@[1].calibration.kind is Reflective) {
        Some(bands@[1].band)
    } else if !(bands@[2].calibration.kind is Reflective) {
        Some(bands@[2].band)
    } else if !(bands@[3].calibration.kind is Reflective) {
        Some(bands@[3].band)
    } else {
        None
    }
}

/// Whether the image of a composite is the one that its bands make.
pub open spec fn is_composite<F, G, L, A>(
    image: Rgb8Image,
    bands: [&BandImage; 4],
    factor: int,
    reflectance: F,
    plus: G,
    locate: L,
    shades: spec_fn(PixelSample, A, [u8; 3]) -> bool,
) -> bool where
    F: Fn(u64, u64, u64, u16) -> u32,
    G: Fn(Quad<u32>, Quad<u32>) -> Quad<u32>,
    L: Fn(usize, usize) -> Option<A>,
 {
    exists|luts: Quad<Seq<u32>>|
        #[trigger] are_reflectance_tables(bands, reflectance, luts) && shows_disk(
            image,
            band_counts(bands),
            luts,
            factor,
            plus,
            locate,
            shades,
        )
}

/// Whether the pixel of a sample lies on an image of the given size.
pub open spec fn on_image(px: PixelSample, size: int) -> bool {
    px.out_x < size && px.out_y < size && px.valid > 0
}

proof fn lemma_image_pixel(image: Rgb8Image, pixels: Seq<[u8; 3]>, i: int)
    requires
        image.data@ == pixel_bytes(pixels),
        0 <= i < pixels.len(),
    ensures
        image_pixel(image, i) == pixels[i],
{
    assert((3 * i) / 3 == i && (3 * i + 1) / 3 == i && (3 * i + 2) / 3 == i);
    assert(image_pixel(image, i)@ =~= pixels[i]@);
    assert(image_pixel(image, i) =~= pixels[i]);
}

/// The parallel walk every RGB disk product shares: add up the reflectances
/// of the four bands over `factor` x `factor` blocks, look up the pixel's
/// geometry, hand the result to a product-specific shader, and quantize the
/// color that it gives. Space, missing-data, and past-the-limb pixels stay
/// black.
///
/// `reflectance` converts counts as in [`Calibration::reflectance_lut`],
/// `plus` adds a sample to a sum, `locate` is given the column and the row of
/// an output pixel.
pub fn render_disk<F, G, L, A, C, S, Q>(
    bands: [&BandImage; 4],
    factor: usize,
    reflectance: F,
    plus: G,
    locate: L,
    shader: S,
    quantize: Q,
) -> (image: Result<Rgb8Image, RenderError>) where
    F: Fn(u64, u64, u64, u16) -> u32 + Copy,
    G: Fn(Quad<u32>, Quad<u32>) -> Quad<u32> + Sync,
    L: Fn(usize, usize) -> Option<A> + Sync,
    S: Fn(&PixelSample, &A) -> C + Sync,
    Q: Fn(C) -> [u8; 3] + Sync,

    requires
        1 <= factor,
        FULL_DISK_SIZE as int % factor as int == 0,
        forall|k: int| 0 <= k < 4 ==> (#[trigger] bands@[k]).wf(),
        forall|k: int|
            0 <= k < 4 ==> gives_reflectances((#[trigger] bands@[k]).calibration, reflectance),
        forall|sum: Quad<u32>, sample: Quad<u32>| #[trigger] call_requires(plus, (sum, sample)),
        forall|x: usize, y: usize|
            x < FULL_DISK_SIZE as int / factor as int && y < FULL_DISK_SIZE as int / factor as int
                ==> #[trigger] call_requires(locate, (x, y)),
        forall|px: PixelSample, angles: A|
            on_image(px, FULL_DISK_SIZE as int / factor as int) ==> #[trigger] call_requires(
                shader,
                (&px, &angles),
            ),
        forall|color: C| #[trigger] call_requires(quantize, (color,)),
    ensures
        match first_thermal(bands) {
            Some(band) => image == Err::<Rgb8Image, RenderError>(RenderError::NoReflectance(band)),
            None => image matches Ok(image) && is_composite(
                image,
                bands,
                factor as int,
                reflectance,
                plus,
                locate,
                shades_by::<A, C, S, Q>(shader, quantize),
            ),
        },
{
    assert(bands@[0].wf() && bands@[1].wf() && bands@[2].wf() && bands@[3].wf());
    let lut0: Vec<u32> = match bands[0].calibration.reflectance_lut(reflectance) {
        Some(lut) => lut,
        None => {
            return Err(RenderError::NoReflectance(bands[0].band));
        },
    };
    let lut1: Vec<u32> = match bands[1].calibration.reflectance_lut(reflectance) {
        Some(lut) => lut,
        None => {
            return Err(RenderError::NoReflectance(bands[1].band));
        },
    };
    let lut2: Vec<u32> = match bands[2].calibration.reflectance_lut(reflectance) {
        Some(lut) => lut,
        None => {
            return Err(RenderError::NoReflectance(bands[2].band));
        },
    };
    let lut3: Vec<u32> = match bands[3].calibration.reflectance_lut(reflectance) {
        Some(lut) => lut,
        None => {
            return Err(RenderError::NoReflectance(bands[3].band));
        },
    };
    let luts: Quad<&[u32]> = (lut0.as_slice(), lut1.as_slice(), lut2.as_slice(), lut3.as_slice());
    let counts: Quad<&[u16]> = (
        bands[0].counts.as_slice(),
        bands[1].counts.as_slice(),
        bands[2].counts.as_slice(),
        bands[3].counts.as_slice(),
    );
    let ghost tables = (lut0@, lut1@, lut2@, lut3@);
    let ghost shades = shades_by::<A, C, S, Q>(shader, quantize);
    assert(are_reflectance_tables(bands, reflectance, tables));
    let size: usize = FULL_DISK_SIZE / factor;
    proof {
        assert(size * size <= 11_000 * 11_000) by (nonlinear_arith)
            requires
                size <= 11_000,
        ;
    }
    let cell = |y: usize, x: usize| -> (pixel: [u8; 3])
        requires
            y < size,
            x < size,
        ensures
            is_pixel_by(counts, luts, factor, &plus, &locate, &shader, &quantize, y, x, pixel),
        { disk_pixel(counts, luts, factor, &plus, &locate, &shader, &quantize, y, x) };
    let pixels: Vec<[u8; 3]> = grid::par_cells(size, size, cell);
    let image = Rgb8Image {
        width: size as u32,
        height: size as u32,
        data: to_bytes(pixels.as_slice()),
    };
    proof {
        assert forall|i: int| 0 <= i < size * size implies #[trigger] is_disk_pixel(
            band_counts(bands),
            tables,
            factor as int,
            plus,
            locate,
            shades,
            (i / size as int) as usize,
            (i % size as int) as usize,
            image_pixel(image, i),
        ) by {
            grid::place_has_cell(size as int, size as int, i);
            lemma_image_pixel(image, pixels@, i);
            assert(call_ensures(
                cell,
                ((i / size as int) as usize, (i % size as int) as usize),
                pixels@[i],
            ));
        }
    }
    Ok(image)
}

/// Whether a pixel is one that a shader gives for its block.
spec fn is_pixel_by<G, L, A, C, S, Q>(
    counts: Quad<&[u16]>,
    luts: Quad<&[u32]>,
    factor: usize,
    plus: &G,
    locate: &L,
    shader: &S,
    quantize: &Q,
    y: usize,
    x: usize,
    pixel: [u8; 3],
) -> bool where
    G: Fn(Quad<u32>, Quad<u32>) -> Quad<u32>,
    L: Fn(usize, usize) -> Option<A>,
    S: Fn(&PixelSample, &A) -> C,
    Q: Fn(C) -> [u8; 3],
 {
    is_disk_pixel(
        (counts.0@, counts.1@, counts.2@, counts.3@),
        (luts.0@, luts.1@, luts.2@, luts.3@),
        factor as int,
        *plus,
        *locate,
        shades_by::<A, C, S, Q>(*shader, *quantize),
        y,
        x,
        pixel,
    )
}

/// One pixel of a full-disk product.
fn disk_pixel<G, L, A, C, S, Q>(
    counts: Quad<&[u16]>,
    luts: Quad<&[u32]>,
    factor: usize,
    plus: &G,
    locate: &L,
    shader: &S,
    quantize: &Q,
    y: usize,
    x: usize,
) -> (pixel: [u8; 3]) where
    G: Fn(Quad<u32>, Quad<u32>) -> Quad<u32>,
    L: Fn(usize, usize) -> Option<A>,
    S: Fn(&PixelSample, &A) -> C,
    Q: Fn(C) -> [u8; 3],

    requires
        1 <= factor,
        FULL_DISK_SIZE as int % factor as int == 0,
        y < FULL_DISK_SIZE as int / factor as int,
        x < FULL_DISK_SIZE as int / factor as int,
        counts.0@.len() == FULL_DISK_SIZE * FULL_DISK_SIZE,
        counts.1@.len() == FULL_DISK_SIZE * FULL_DISK_SIZE,
        counts.2@.len() == FULL_DISK_SIZE * FULL_DISK_SIZE,
        counts.3@.len() == FULL_DISK_SIZE * FULL_DISK_SIZE,
        luts.0@.len() == 0x1_0000,
        luts.1@.len() == 0x1_0000,
        luts.2@.len() == 0x1_0000,
        luts.3@.len() == 0x1_0000,
        forall|sum: Quad<u32>, sample: Quad<u32>| #[trigger] call_requires(*plus, (sum, sample)),
        call_requires(*locate, (x, y)),
        forall|px: PixelSample, angles: A|
            on_image(px, FULL_DISK_SIZE as int / factor as int) ==> #[trigger] call_requires(
                *shader,
                (&px, &angles),
            ),
        forall|color: C| #[trigger] call_requires(*quantize, (color,)),
    ensures
        is_pixel_by(counts, luts, factor, plus, locate, shader, quantize, y, x, pixel),
{
    let black: [u8; 3] = [0, 0, 0];
    assert(black@ =~= seq![0u8, 0u8, 0u8]);
    let (sum, valid): (Quad<u32>, u32) = block_sum(counts, luts, factor, y, x, plus);
    if valid == 0 {
        return black;
    }
    let found = locate(x, y);
    assert(call_ensures(*locate, (x, y), found));
    match found {
        None => black,
        Some(angles) => {
            let px = PixelSample { out_x: x, out_y: y, sum, valid };
            assert(on_image(px, FULL_DISK_SIZE as int / factor as int));
            let color = shader(&px, &angles);
            assert(call_ensures(*shader, (&px, &angles), color));
            let pixel: [u8; 3] = quantize(color);
            assert(is_quantized(*shader, *quantize, px, angles, pixel));
            pixel
        },
    }
}

/// Missing data stay black: a block in which every place lacks a measurement
/// in one of the bands has no usable sample.
pub proof fn blocks_without_data_are_black<F: Fn(u64, u64, u64, u16) -> u32>(
    bands: [&BandImage; 4],
    reflectance: F,
    luts: Quad<Seq<u32>>,
    factor: int,
    y: int,
    x: int,
)
    requires
        are_reflectance_tables(bands, reflectance, luts),
        1 <= factor,
        forall|k: int|
            0 <= k < factor * factor ==> {
                let i = #[trigger] block_place(factor, y, x, k);
                ||| !bands@[0].calibration.valid(bands@[0].counts@[i])
                ||| !bands@[1].calibration.valid(bands@[1].counts@[i])
                ||| !bands@[2].calibration.valid(bands@[2].counts@[i])
                ||| !bands@[3].calibration.valid(bands@[3].counts@[i])
            },
    ensures
        usable_samples(band_counts(bands), luts, factor, y, x).len() == 0,
{
    let samples = block_samples(band_counts(bands), luts, factor, y, x);
    let usable = |sample: Quad<u32>| all_finite(sample);
    assert(0 <= factor * factor) by (nonlinear_arith);
    assert forall|k: int| 0 <= k < samples.len() implies !usable(#[trigger] samples[k]) by {
        let i = block_place(factor, y, x, k);
        assert(luts.0[bands@[0].counts@[i] as int] == samples[k].0);
        assert(luts.1[bands@[1].counts@[i] as int] == samples[k].1);
        assert(luts.2[bands@[2].counts@[i] as int] == samples[k].2);
        assert(luts.3[bands@[3].counts@[i] as int] == samples[k].3);
        assert(!ieee::finite32(ieee::NAN32));
    }
    samples.lemma_all_neg_filter_empty(usable);
}

// ---------------------------------------------------------------------------
// Products
// ---------------------------------------------------------------------------

/// Composite the four bands into a true-color image, one output pixel for
/// each `factor` x `factor` block of the 1 km grid. Space and missing pixels
/// come out black.
pub fn true_color<F, G, L, A, C, S, Q>(
    red: &BandImage,
    green: &BandImage,
    blue: &BandImage,
    nir: &BandImage,
    factor: usize,
    reflectance: F,
    plus: G,
    locate: L,
    shader: S,
    quantize: Q,
) -> (image: Result<Rgb8Image, RenderError>) where
    F: Fn(u64, u64, u64, u16) -> u32 + Copy,
    G: Fn(Quad<u32>, Quad<u32>) -> Quad<u32> + Sync,
    L: Fn(usize, usize) -> Option<A> + Sync,
    S: Fn(&PixelSample, &A) -> C + Sync,
    Q: Fn(C) -> [u8; 3] + Sync,

    requires
        1 <= factor,
        FULL_DISK_SIZE as int % factor as int == 0,
        red.wf(),
        green.wf(),
        blue.wf(),
        nir.wf(),
        gives_reflectances(red.calibration, reflectance),
        gives_reflectances(green.calibration, reflectance),
        gives_reflectances(blue.calibration, reflectance),
        gives_reflectances(nir.calibration, reflectance),
        forall|sum: Quad<u32>, sample: Quad<u32>| #[trigger] call_requires(plus, (sum, sample)),
        forall|x: usize, y: usize|
            x < FULL_DISK_SIZE as int / factor as int && y < FULL_DISK_SIZE as int / factor as int
                ==> #[trigger] call_requires(locate, (x, y)),
        forall|px: PixelSample, angles: A|
            on_image(px, FULL_DISK_SIZE as int / factor as int) ==> #[trigger] call_requires(
                shader,
                (&px, &angles),
            ),
        forall|color: C| #[trigger] call_requires(quantize, (color,)),
    ensures
        match first_thermal([red, green, blue, nir]) {
            Some(band) => image == Err::<Rgb8Image, RenderError>(RenderError::NoReflectance(band)),
            None => image matches Ok(image) && is_composite(
                image,
                [red, green, blue, nir],
                factor as int,
                reflectance,
                plus,
                locate,
                shades_by::<A, C, S, Q>(shader, quantize),
            ),
        },
{
    render_disk([red, green, blue, nir], factor, reflectance, plus, locate, shader, quantize)
}

/// Natural-color composite: 1.6 um / 0.86 um / 0.64 um as RGB. Snow, ice,
/// and ice-topped cloud absorb at 1.6 um and come out cyan; water cloud
/// stays white; vegetation, strongly reflective in the near-IR, goes vivid
/// green.
pub fn natural_color<F, G, L, A, C, S, Q>(
    swir: &BandImage,
    nir: &BandImage,
    red: &BandImage,
    factor: usize,
    reflectance: F,
    plus: G,
    locate: L,
    shader: S,
    quantize: Q,
) -> (image: Result<Rgb8Image, RenderError>) where
    F: Fn(u64, u64, u64, u16) -> u32 + Copy,
    G: Fn(Quad<u32>, Quad<u32>) -> Quad<u32> + Sync,
    L: Fn(usize, usize) -> Option<A> + Sync,
    S: Fn(&PixelSample, &A) -> C + Sync,
    Q: Fn(C) -> [u8; 3] + Sync,

    requires
        1 <= factor,
        FULL_DISK_SIZE as int % factor as int == 0,
        swir.wf(),
        nir.wf(),
        red.wf(),
        gives_reflectances(swir.calibration, reflectance),
        gives_reflectances(nir.calibration, reflectance),
        gives_reflectances(red.calibration, reflectance),
        forall|sum: Quad<u32>, sample: Quad<u32>| #[trigger] call_requires(plus, (sum, sample)),
        forall|x: usize, y: usize|
            x < FULL_DISK_SIZE as int / factor as int && y < FULL_DISK_SIZE as int / factor as int
                ==> #[trigger] call_requires(locate, (x, y)),
        forall|px: PixelSample, angles: A|
            on_image(px, FULL_DISK_SIZE as int / factor as int) ==> #[trigger] call_requires(
                shader,
                (&px, &angles),
            ),
        forall|color: C| #[trigger] call_requires(quantize, (color,)),
    ensures
        match first_thermal([swir, nir, red, red]) {
            Some(band) => image == Err::<Rgb8Image, RenderError>(RenderError::NoReflectance(band)),
            None => image matches Ok(image) && is_composite(
                image,
                [swir, nir, red, red],
                factor as int,
                reflectance,
                plus,
                locate,
                shades_by::<A, C, S, Q>(shader, quantize),
            ),
        },
{
    render_disk([swir, nir, red, red], factor, reflectance, plus, locate, shader, quantize)
}

/// What is weaker than the shader of a composite holds of it too.
pub(crate) proof fn lemma_composite_weakens<F, G, L, A>(
    image: Rgb8Image,
    bands: [&BandImage; 4],
    factor: int,
    reflectance: F,
    plus: G,
    locate: L,
    shades: spec_fn(PixelSample, A, [u8; 3]) -> bool,
    other: spec_fn(PixelSample, A, [u8; 3]) -> bool,
) where
    F: Fn(u64, u64, u64, u16) -> u32,
    G: Fn(Quad<u32>, Quad<u32>) -> Quad<u32>,
    L: Fn(usize, usize) -> Option<A>,

    requires
        is_composite(image, bands, factor, reflectance, plus, locate, shades),
        forall|px: PixelSample, angles: A, pixel: [u8; 3]|
            #[trigger] shades(px, angles, pixel) ==> other(px, angles, pixel),
    ensures
        is_composite(image, bands, factor, reflectance, plus, locate, other),
{
    let counts = band_counts(bands);
    let luts = choose|luts: Quad<Seq<u32>>|
        #[trigger] are_reflectance_tables(bands, reflectance, luts) && shows_disk(
            image,
            counts,
            luts,
            factor,
            plus,
            locate,
            shades,
        );
    let size = FULL_DISK_SIZE as int / factor;
    assert forall|i: int| 0 <= i < size * size implies #[trigger] is_disk_pixel(
        counts,
        luts,
        factor,
        plus,
        locate,
        other,
        (i / size) as usize,
        (i % size) as usize,
        image_pixel(image, i),
    ) by {
        assert(is_disk_pixel(
            counts,
            luts,
            factor,
            plus,
            locate,
            shades,
            (i / size) as usize,
            (i % size) as usize,
            image_pixel(image, i),
        ));
    }
    assert(are_reflectance_tables(bands, reflectance, luts));
}

// ---------------------------------------------------------------------------
// Images are determined
// ---------------------------------------------------------------------------

/// Whether the arithmetic under a composite is a function of its arguments:
/// the same arguments always give the same result.
pub open spec fn are_functions<F, G, L, A>(reflectance: F, plus: G, locate: L) -> bool where
    F: Fn(u64, u64, u64, u16) -> u32,
    G: Fn(Quad<u32>, Quad<u32>) -> Quad<u32>,
    L: Fn(usize, usize) -> Option<A>,
 {
    &&& forall|albedo: u64, gain: u64, offset: u64, count: u16, a: u32, b: u32|
        #[trigger] call_ensures(reflectance, (albedo, gain, offset, count), a)
            && #[trigger] call_ensures(reflectance, (albedo, gain, offset, count), b) ==> a == b
    &&& forall|sum: Quad<u32>, sample: Quad<u32>, a: Quad<u32>, b: Quad<u32>|
        #[trigger] call_ensures(plus, (sum, sample), a) && #[trigger] call_ensures(
            plus,
            (sum, sample),
            b,
        ) ==> a == b
    &&& forall|x: usize, y: usize, a: Option<A>, b: Option<A>|
        #[trigger] call_ensures(locate, (x, y), a) && #[trigger] call_ensures(
            locate,
            (x, y),
            b,
        ) ==> a == b
}

/// Whether the colors of a shader and the pixels that they are quantized to
/// are functions of their arguments.
pub open spec fn shading_is_function<A, C, S, Q>(shader: S, quantize: Q) -> bool where
    S: Fn(&PixelSample, &A) -> C,
    Q: Fn(C) -> [u8; 3],
 {
    &&& forall|px: PixelSample, angles: A, a: C, b: C|
        #[trigger] call_ensures(shader, (&px, &angles), a) && #[trigger] call_ensures(
            shader,
            (&px, &angles),
            b,
        ) ==> a == b
    &&& forall|color: C, a: [u8; 3], b: [u8; 3]|
        #[trigger] call_ensures(quantize, (color,), a) && #[trigger] call_ensures(
            quantize,
            (color,),
            b,
        ) ==> a == b
}

/// Whether a shader gives no more than one pixel for a sample.
pub open spec fn gives_one_pixel<A>(shades: spec_fn(PixelSample, A, [u8; 3]) -> bool) -> bool {
    forall|px: PixelSample, angles: A, a: [u8; 3], b: [u8; 3]|
        #[trigger] shades(px, angles, a) && #[trigger] shades(px, angles, b) ==> a == b
}

proof fn lemma_sums_are_determined<G: Fn(Quad<u32>, Quad<u32>) -> Quad<u32>>(
    plus: G,
    samples: Seq<Quad<u32>>,
    a: Quad<u32>,
    b: Quad<u32>,
)
    requires
        sums_to(plus, samples, a),
        sums_to(plus, samples, b),
        forall|sum: Quad<u32>, sample: Quad<u32>, a: Quad<u32>, b: Quad<u32>|
            #[trigger] call_ensures(plus, (sum, sample), a) && #[trigger] call_ensures(
                plus,
                (sum, sample),
                b,
            ) ==> a == b,
    ensures
        a == b,
    decreases samples.len(),
{
    if samples.len() > 0 {
        let rest = samples.drop_last();
        let one = choose|before: Quad<u32>|
            #[trigger] call_ensures(plus, (before, samples.last()), a) && sums_to(
                plus,
                rest,
                before,
            );
        let two = choose|before: Quad<u32>|
            #[trigger] call_ensures(plus, (before, samples.last()), b) && sums_to(
                plus,
                rest,
                before,
            );
        lemma_sums_are_determined(plus, rest, one, two);
    }
}

proof fn lemma_table_is_determined<F: Fn(u64, u64, u64, u16) -> u32>(
    cal: Calibration,
    reflectance: F,
    a: Seq<u32>,
    b: Seq<u32>,
)
    requires
        is_reflectance_table(cal, reflectance, a),
        is_reflectance_table(cal, reflectance, b),
        forall|albedo: u64, gain: u64, offset: u64, count: u16, a: u32, b: u32|
            #[trigger] call_ensures(reflectance, (albedo, gain, offset, count), a)
                && #[trigger] call_ensures(reflectance, (albedo, gain, offset, count), b) ==> a
                == b,
    ensures
        a == b,
{
    assert forall|i: int| 0 <= i < a.len() implies #[trigger] a[i] == b[i] by {
        let count = i as u16;
        assert(a[count as int] == a[i] && b[count as int] == b[i]);
        if cal.valid(count) {
            let args = (cal.kind->albedo_coeff, cal.gain, cal.offset, count);
            assert(call_ensures(reflectance, args, a[count as int]));
            assert(call_ensures(reflectance, args, b[count as int]));
        }
    }
    assert(a =~= b);
}

/// Two pixels of composites of the same bands are the same, or they are what
/// two shaders give for one sample.
proof fn lemma_pixels_pair<G, L, A>(
    counts: Quad<Seq<u16>>,
    luts: Quad<Seq<u32>>,
    factor: int,
    plus: G,
    locate: L,
    shades: spec_fn(PixelSample, A, [u8; 3]) -> bool,
    others: spec_fn(PixelSample, A, [u8; 3]) -> bool,
    y: usize,
    x: usize,
    a: [u8; 3],
    b: [u8; 3],
) where
    G: Fn(Quad<u32>, Quad<u32>) -> Quad<u32>,
    L: Fn(usize, usize) -> Option<A>,

    requires
        is_disk_pixel(counts, luts, factor, plus, locate, shades, y, x, a),
        is_disk_pixel(counts, luts, factor, plus, locate, others, y, x, b),
        forall|sum: Quad<u32>, sample: Quad<u32>, a: Quad<u32>, b: Quad<u32>|
            #[trigger] call_ensures(plus, (sum, sample), a) && #[trigger] call_ensures(
                plus,
                (sum, sample),
                b,
            ) ==> a == b,
        forall|x: usize, y: usize, a: Option<A>, b: Option<A>|
            #[trigger] call_ensures(locate, (x, y), a) && #[trigger] call_ensures(
                locate,
                (x, y),
                b,
            ) ==> a == b,
    ensures
        are_pair(locate, shades, others, y, x, a, b),
{
    let samples = usable_samples(counts, luts, factor, y as int, x as int);
    if samples.len() > 0 {
        let one = choose|found: Option<A>|
            {
                &&& #[trigger] call_ensures(locate, (x, y), found)
                &&& match found {
                    None => a@ == seq![0u8, 0u8, 0u8],
                    Some(angles) => is_shaded(plus, samples, y, x, shades, angles, a),
                }
            };
        let two = choose|found: Option<A>|
            {
                &&& #[trigger] call_ensures(locate, (x, y), found)
                &&& match found {
                    None => b@ == seq![0u8, 0u8, 0u8],
                    Some(angles) => is_shaded(plus, samples, y, x, others, angles, b),
                }
            };
        assert(one == two);
        if let Some(angles) = one {
            let first = choose|sum: Quad<u32>|
                #[trigger] sums_to(plus, samples, sum) && shades(
                    sample_of(y, x, sum, samples.len()),
                    angles,
                    a,
                );
            let second = choose|sum: Quad<u32>|
                #[trigger] sums_to(plus, samples, sum) && others(
                    sample_of(y, x, sum, samples.len()),
                    angles,
                    b,
                );
            lemma_sums_are_determined(plus, samples, first, second);
            assert(shades(sample_of(y, x, first, samples.len()), angles, a));
        }
    }
}

/// Whether two pixels are the same, or what two shaders give for one sample
/// at a place of the image.
pub open spec fn are_pair<L, A>(
    locate: L,
    shades: spec_fn(PixelSample, A, [u8; 3]) -> bool,
    others: spec_fn(PixelSample, A, [u8; 3]) -> bool,
    y: usize,
    x: usize,
    a: [u8; 3],
    b: [u8; 3],
) -> bool where L: Fn(usize, usize) -> Option<A> {
    a@ == b@ || exists|px: PixelSample, angles: A|
        {
            &&& call_ensures(locate, (x, y), Some(angles))
            &&& #[trigger] shades(px, angles, a)
            &&& others(px, angles, b)
        }
}

/// Two composites of the same bands are of one size and pair up pixel by
/// pixel, where the arithmetic under them is a function of its arguments.
pub proof fn composites_pair_up<F, G, L, A>(
    image: Rgb8Image,
    other: Rgb8Image,
    bands: [&BandImage; 4],
    factor: int,
    reflectance: F,
    plus: G,
    locate: L,
    shades: spec_fn(PixelSample, A, [u8; 3]) -> bool,
    others: spec_fn(PixelSample, A, [u8; 3]) -> bool,
) where
    F: Fn(u64, u64, u64, u16) -> u32,
    G: Fn(Quad<u32>, Quad<u32>) -> Quad<u32>,
    L: Fn(usize, usize) -> Option<A>,

    requires
        is_composite(image, bands, factor, reflectance, plus, locate, shades),
        is_composite(other, bands, factor, reflectance, plus, locate, others),
        are_functions(reflectance, plus, locate),
    ensures
        image.wf(),
        other.wf(),
        image.width == FULL_DISK_SIZE as int / factor,
        image.height == FULL_DISK_SIZE as int / factor,
        image.width == other.width,
        image.height == other.height,
        forall|i: int|
            0 <= i < image.width * image.height ==> are_pair(
                locate,
                shades,
                others,
                (i / image.width as int) as usize,
                (i % image.width as int) as usize,
                #[trigger] image_pixel(image, i),
                image_pixel(other, i),
            ),
{
    let counts = band_counts(bands);
    let one = choose|luts: Quad<Seq<u32>>|
        #[trigger] are_reflectance_tables(bands, reflectance, luts) && shows_disk(
            image,
            counts,
            luts,
            factor,
            plus,
            locate,
            shades,
        );
    let two = choose|luts: Quad<Seq<u32>>|
        #[trigger] are_reflectance_tables(bands, reflectance, luts) && shows_disk(
            other,
            counts,
            luts,
            factor,
            plus,
            locate,
            others,
        );
    lemma_table_is_determined(bands@[0].calibration, reflectance, one.0, two.0);
    lemma_table_is_determined(bands@[1].calibration, reflectance, one.1, two.1);
    lemma_table_is_determined(bands@[2].calibration, reflectance, one.2, two.2);
    lemma_table_is_determined(bands@[3].calibration, reflectance, one.3, two.3);
    assert(one == two);
    let size = FULL_DISK_SIZE as int / factor;
    assert forall|i: int| 0 <= i < image.width * image.height implies are_pair(
        locate,
        shades,
        others,
        (i / image.width as int) as usize,
        (i % image.width as int) as usize,
        #[trigger] image_pixel(image, i),
        image_pixel(other, i),
    ) by {
        let (y, x) = ((i / size) as usize, (i % size) as usize);
        let (a, b) = (image_pixel(image, i), image_pixel(other, i));
        assert(is_disk_pixel(counts, one, factor, plus, locate, shades, y, x, a));
        assert(is_disk_pixel(counts, one, factor, plus, locate, others, y, x, b));
        lemma_pixels_pair(counts, one, factor, plus, locate, shades, others, y, x, a, b);
    }
}

/// Images of one size with the same pixels hold the same bytes.
pub(crate) proof fn lemma_same_pixels(image: Rgb8Image, other: Rgb8Image)
    requires
        image.wf(),
        other.wf(),
        image.width == other.width,
        image.height == other.height,
        forall|i: int|
            0 <= i < image.width * image.height ==> (#[trigger] image_pixel(image, i))@
                == image_pixel(other, i)@,
    ensures
        image.data@ == other.data@,
{
    assert forall|j: int| 0 <= j < image.data@.len() implies #[trigger] image.data@[j]
        == other.data@[j] by {
        let i = j / 3;
        assert(image_pixel(image, i)@[j % 3] == image.data@[j]);
        assert(image_pixel(other, i)@[j % 3] == other.data@[j]);
    }
    assert(image.data@ =~= other.data@);
}

/// Where the arithmetic is a function of its arguments, a composite is one
/// image: two images that its bands make hold the same bytes.
pub proof fn composites_are_determined<F, G, L, A>(
    image: Rgb8Image,
    other: Rgb8Image,
    bands: [&BandImage; 4],
    factor: int,
    reflectance: F,
    plus: G,
    locate: L,
    shades: spec_fn(PixelSample, A, [u8; 3]) -> bool,
) where
    F: Fn(u64, u64, u64, u16) -> u32,
    G: Fn(Quad<u32>, Quad<u32>) -> Quad<u32>,
    L: Fn(usize, usize) -> Option<A>,

    requires
        is_composite(image, bands, factor, reflectance, plus, locate, shades),
        is_composite(other, bands, factor, reflectance, plus, locate, shades),
        are_functions(reflectance, plus, locate),
        gives_one_pixel(shades),
    ensures
        image.width == other.width,
        image.height == other.height,
        image.data@ == other.data@,
{
    composites_pair_up(image, other, bands, factor, reflectance, plus, locate, shades, shades);
    lemma_same_pixels(image, other);
}

/// A shader whose colors are functions of their arguments gives one pixel.
pub proof fn shaders_give_one_pixel<A, C, S, Q>(shader: S, quantize: Q) where
    S: Fn(&PixelSample, &A) -> C,
    Q: Fn(C) -> [u8; 3],

    requires
        shading_is_function::<A, C, S, Q>(shader, quantize),
    ensures
        gives_one_pixel(shades_by::<A, C, S, Q>(shader, quantize)),
{
    let shades = shades_by::<A, C, S, Q>(shader, quantize);
    assert forall|px: PixelSample, angles: A, a: [u8; 3], b: [u8; 3]|
        #[trigger] shades(px, angles, a) && #[trigger] shades(px, angles, b) implies a == b by {
        let one = choose|color: C|
            #[trigger] call_ensures(shader, (&px, &angles), color) && call_ensures(
                quantize,
                (color,),
                a,
            );
        let two = choose|color: C|
            #[trigger] call_ensures(shader, (&px, &angles), color) && call_ensures(
                quantize,
                (color,),
                b,
            );
        assert(one == two);
    }
}

} // verus!
