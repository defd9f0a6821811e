//! Counts as colors: palettes, heights, and the images made of them.

use vstd::prelude::*;

use crate::compose::Rgb8Image;
use crate::grid;
use crate::hsd::{Calibration, CalibrationKind};
use crate::ieee;
use crate::palette;
use crate::palette::{clamp_height, ClutStyle};
use crate::promises::{numbers, sampling};
use crate::render;
use crate::render::{cloud_top_height, ir_enhancement, render_count_lut, RenderError};
use crate::tuning::HEIGHT_CLUT;

verus! {

// ---------------------------------------------------------------------------
// Colors
// ---------------------------------------------------------------------------

/// Whether a double-precision pattern is zero or a number below it.
pub open spec fn is_not_above_zero(level: u64) -> bool {
    level == 0 || 0x8000_0000_0000_0000 <= level <= 0xfff0_0000_0000_0000
}

/// Whether a count has a temperature, or none: none where the count is a
/// sentinel or its radiance is not above zero.
pub open spec fn may_have<R, T>(
    cal: Calibration,
    radiance: R,
    temperature: T,
    count: u16,
    bits: u32,
) -> bool where R: Fn(u64, u64, u16) -> u64, T: Fn(&CalibrationKind, u64) -> u32 {
    if count == cal.error_count || count == cal.outside_scan_count {
        bits == 0x7fc0_0000
    } else {
        exists|level: u64|
            #[trigger] call_ensures(radiance, (cal.gain, cal.offset, count), level) && if
                is_not_above_zero(level) {
                bits == 0x7fc0_0000
            } else {
                call_ensures(temperature, (&cal.kind, level), bits)
            }
    }
}

/// Whether a color is that of a position of a palette of positive positions:
/// the first color up to the first point, the last from the last point on,
/// and in between a mix of the colors of the two points around it.
pub open spec fn is_palette_color<B>(
    points: Seq<(u32, [u8; 3])>,
    x: u32,
    blend: B,
    color: [u8; 3],
) -> bool where B: Fn(u32, (u32, [u8; 3]), (u32, [u8; 3])) -> [u8; 3] {
    if x <= points[0].0 {
        color == points[0].1
    } else if x >= points[points.len() - 1].0 {
        color == points[points.len() - 1].1
    } else {
        exists|k: int|
            0 < k < points.len() && points[k - 1].0 <= x < points[k].0 && #[trigger] call_ensures(
                blend,
                (x, points[k - 1], points[k]),
                color,
            )
    }
}

/// Whether a color is that of a temperature in a style: black where it is not
/// a number or below 160 K.
pub open spec fn is_style_color<B>(
    points: Seq<(u32, [u8; 3])>,
    bits: u32,
    blend: B,
    color: [u8; 3],
) -> bool where B: Fn(u32, (u32, [u8; 3]), (u32, [u8; 3])) -> [u8; 3] {
    if !sampling::is_number(bits) || bits < 0x4320_0000 || bits >= 0x8000_0000 {
        color@ == seq![0u8, 0u8, 0u8]
    } else {
        is_palette_color(points, bits, blend, color)
    }
}

pub(crate) proof fn lemma_palette_color<B>(
    points: Seq<(u32, [u8; 3])>,
    x: u32,
    blend: B,
    color: [u8; 3],
) where B: Fn(u32, (u32, [u8; 3]), (u32, [u8; 3])) -> [u8; 3]
    requires
        points.len() > 0,
        forall|k: int| 0 <= k < points.len() ==> (#[trigger] points[k]).0 <= 0x7f80_0000,
        x <= 0x7f80_0000,
        palette::is_table_color(points, x, blend, color),
    ensures
        is_palette_color(points, x, blend, color),
{
    assert(points[0].0 <= 0x7f80_0000 && points[points.len() - 1].0 <= 0x7f80_0000);
    if x > points[0].0 && x < points[points.len() - 1].0 {
        let k = choose|k: int|
            #[trigger] palette::between(points, x, k) && call_ensures(
                blend,
                (x, points[k - 1], points[k]),
                color,
            );
        assert(points[k - 1].0 <= 0x7f80_0000 && points[k].0 <= 0x7f80_0000);
    }
}

proof fn lemma_points_are_positive(style: ClutStyle)
    ensures
        forall|k: int|
            0 <= k < style.points().len() ==> (#[trigger] style.points()[k]).0 <= 0x7f80_0000,
        style.points().len() > 0,
        forall|k: int| 0 <= k < HEIGHT_CLUT@.len() ==> (#[trigger] HEIGHT_CLUT@[k]).0
            <= 0x7f80_0000,
        HEIGHT_CLUT@.len() > 0,
{
}

pub(crate) proof fn lemma_style_color<B>(
    style: ClutStyle,
    bits: u32,
    blend: B,
    color: [u8; 3],
) where B: Fn(u32, (u32, [u8; 3]), (u32, [u8; 3])) -> [u8; 3]
    requires
        palette::is_clut_color(style.points(), bits, blend, color),
    ensures
        is_style_color(style.points(), bits, blend, color),
{
    sampling::lemma_number(bits);
    lemma_points_are_positive(style);
    if ieee::finite32(bits) && 0x4320_0000 <= bits < 0x8000_0000 {
        lemma_palette_color(style.points(), bits, blend, color);
    }
}

/// Each style has a palette of its own; that in gray is gray everywhere, and
/// without a style the one for convection is used.
pub proof fn styles_have_palettes_of_their_own(
    style: ClutStyle,
    other: ClutStyle,
    points: &'static [(u32, [u8; 3])],
    other_points: &'static [(u32, [u8; 3])],
    default: ClutStyle,
)
    requires
        call_ensures(ClutStyle::table, (style,), points),
        call_ensures(ClutStyle::table, (other,), other_points),
        call_ensures(<ClutStyle as Default>::default, (), default),
    ensures
        points@ == other_points@ <==> style == other,
        style is Convection ==> points@ == crate::tuning::CLUT_CONVECTION@,
        style is Grayscale ==> forall|k: int|
            0 <= k < points@.len() ==> (#[trigger] points@[k]).1@[0] == points@[k].1@[1]
                && points@[k].1@[1] == points@[k].1@[2],
        style is Rainbow ==> points@ == crate::tuning::CLUT_RAINBOW@,
        style is WaterVapor ==> points@ == crate::tuning::CLUT_WATER_VAPOR@,
        default is Convection,
{
    assert(crate::tuning::CLUT_CONVECTION@.len() == 8);
    assert(crate::tuning::CLUT_GRAYSCALE@.len() == 2);
    assert(crate::tuning::CLUT_RAINBOW@.len() == 9);
    assert(crate::tuning::CLUT_WATER_VAPOR@.len() == 10);
}

/// A palette color is the same for every style function of the same points:
/// the color of a temperature that is not a number, or below 160 K, is black,
/// and otherwise it is that of the two points around it.
pub proof fn colors_follow_the_palette<B>(
    style: ClutStyle,
    points: &'static [(u32, [u8; 3])],
    bits: u32,
    blend: B,
    color: [u8; 3],
) where B: Fn(u32, (u32, [u8; 3]), (u32, [u8; 3])) -> [u8; 3]
    requires
        call_ensures(ClutStyle::table, (style,), points),
        call_ensures(palette::clut_color::<B>, (points, bits, blend), color),
    ensures
        is_style_color(points@, bits, blend, color),
{
    lemma_style_color(style, bits, blend, color);
}

/// Whether one number is at most another.
pub open spec fn is_up_to(a: u32, b: u32) -> bool {
    !numbers::precedes(numbers::fields32(b), numbers::fields32(a))
}

proof fn lemma_up_to(a: u32, b: u32)
    requires
        !ieee::nan32(a),
        !ieee::nan32(b),
    ensures
        ieee::at_most32(a, b) <==> is_up_to(a, b),
        ieee::less32(a, b) <==> !is_up_to(b, a),
{
    numbers::lemma_fields32(a);
    numbers::lemma_fields32(b);
}

/// The color of a number in a table is the first color up to the first point,
/// the last from the last point on, and in between a mix of the colors of the
/// two points around it.
pub proof fn tables_mix_their_neighbors<B>(
    points: &[(u32, [u8; 3])],
    x: u32,
    blend: B,
    color: [u8; 3],
) where B: Fn(u32, (u32, [u8; 3]), (u32, [u8; 3])) -> [u8; 3]
    requires
        call_ensures(palette::table_color::<B>, (points, x, blend), color),
        points@.len() > 0,
        palette::ascending(points@),
        !ieee::nan32(x),
    ensures
        is_up_to(x, points@[0].0) ==> color == points@[0].1,
        !is_up_to(x, points@[0].0) && is_up_to(points@[points@.len() - 1].0, x) ==> color
            == points@[points@.len() - 1].1,
        !is_up_to(x, points@[0].0) && !is_up_to(points@[points@.len() - 1].0, x) ==> exists|k: int|
            {
                &&& 0 < k < points@.len()
                &&& is_up_to(points@[k - 1].0, x)
                &&& !is_up_to(points@[k].0, x)
                &&& #[trigger] call_ensures(blend, (x, points@[k - 1], points@[k]), color)
            },
{
    let last = points@.len() - 1;
    assert(!ieee::nan32(points@[0].0) && !ieee::nan32(points@[last].0));
    lemma_up_to(x, points@[0].0);
    lemma_up_to(points@[last].0, x);
    if !is_up_to(x, points@[0].0) && !is_up_to(points@[last].0, x) {
        let k = choose|k: int|
            #[trigger] palette::between(points@, x, k) && call_ensures(
                blend,
                (x, points@[k - 1], points@[k]),
                color,
            );
        assert(!ieee::nan32(points@[k - 1].0) && !ieee::nan32(points@[k].0));
        lemma_up_to(points@[k - 1].0, x);
        lemma_up_to(points@[k].0, x);
        lemma_up_to(x, points@[k].0);
        assert(call_ensures(blend, (x, points@[k - 1], points@[k]), color));
    }
}

/// The color of a temperature in the height render is that of the height of
/// its cloud top.
pub proof fn heights_have_their_color<H, B>(
    bits: u32,
    height: H,
    blend: B,
    color: [u8; 3],
) where H: Fn(u32) -> u32, B: Fn(u32, (u32, [u8; 3]), (u32, [u8; 3])) -> [u8; 3]
    requires
        call_ensures(palette::height_color::<H, B>, (bits, height, blend), color),
        palette::gives_heights(height),
    ensures
        is_relief_color(bits, height, blend, color),
{
    lemma_relief_color(bits, height, blend, color);
}

/// A height is held between 0 and 16 km, and unchanged where it is there.
pub proof fn heights_are_held(height: u32, clamped: u32)
    requires
        call_ensures(clamp_height, (height,), clamped),
    ensures
        height <= 0x4180_0000 ==> clamped == height,
        0x4180_0000 < height <= 0x7f80_0000 ==> clamped == 0x4180_0000,
        0x8000_0000 < height <= 0xff80_0000 ==> clamped == 0,
{
}

// ---------------------------------------------------------------------------
// Images
// ---------------------------------------------------------------------------

/// Each cell of a grid is what was computed for its row and its column.
pub proof fn cells_stand_at_their_place<T, F>(
    rows: usize,
    width: usize,
    cell: F,
    cells: Vec<T>,
    x: usize,
    y: usize,
) where T: Copy + Send, F: Fn(usize, usize) -> T + Sync + Send
    requires
        call_ensures(grid::par_cells::<T, F>, (rows, width, cell), cells),
        x < width,
        y < rows,
    ensures
        cells@.len() == rows * width,
        call_ensures(cell, (y, x), cells@[y * width + x]),
{
    grid::cell_has_place(width as int, rows as int, y as int, x as int);
    let i = y * width + x;
    assert(call_ensures(
        cell,
        ((i / width as int) as usize, (i % width as int) as usize),
        cells@[i],
    ));
}

/// Whether the pixel of an image at a column and a row has a color.
pub open spec fn shows(image: Rgb8Image, x: int, y: int, color: [u8; 3]) -> bool {
    let at = 3 * (y * image.width + x);
    &&& image.data@[at] == color@[0]
    &&& image.data@[at + 1] == color@[1]
    &&& image.data@[at + 2] == color@[2]
}

pub(crate) proof fn lemma_mapped(
    image: Rgb8Image,
    counts: Seq<u16>,
    width: usize,
    colors: Seq<[u8; 3]>,
    x: int,
    y: int,
)
    requires
        render::shows_counts(image, counts, width, colors),
        0 < width <= u32::MAX,
        0 <= x < width,
        0 <= y < counts.len() as int / width as int,
    ensures
        image.width == width,
        image.data@.len() == 3 * ((counts.len() as int / width as int) * width),
        0 <= y * width + x < counts.len(),
        shows(image, x, y, colors[counts[y * width + x] as int]),
{
    let h = counts.len() as int / width as int;
    grid::cell_has_place(width as int, h, y, x);
    assert(h * width <= counts.len()) by (nonlinear_arith)
        requires
            h == counts.len() as int / width as int,
            width > 0,
    ;
    assert(0 <= h * width);
    let i = y * width + x;
    assert((3 * i) / 3 == i && (3 * i + 1) / 3 == i && (3 * i + 2) / 3 == i);
    assert((3 * i) % 3 == 0 && (3 * i + 1) % 3 == 1 && (3 * i + 2) % 3 == 2);
}

/// Each pixel of an image made of counts has the color of the count at its
/// own column and row.
pub proof fn pixels_show_their_own_count(
    counts: &[u16],
    width: usize,
    colors: &[[u8; 3]],
    image: Rgb8Image,
    x: int,
    y: int,
)
    requires
        call_ensures(render_count_lut, (counts, width, colors), image),
        0 < width <= u32::MAX,
        0 <= x < width,
        0 <= y < counts@.len() as int / width as int,
    ensures
        image.width == width,
        image.data@.len() == 3 * ((counts@.len() as int / width as int) * width),
        shows(image, x, y, colors@[counts@[y * width + x] as int]),
{
    lemma_mapped(image, counts@, width, colors@, x, y);
}

/// Changing one count changes no other pixel, and changes its own where the
/// colors differ.
pub proof fn counts_color_their_own_pixel(
    counts: &[u16],
    other_counts: &[u16],
    width: usize,
    colors: &[[u8; 3]],
    image: Rgb8Image,
    other: Rgb8Image,
    x: int,
    y: int,
    at: int,
)
    requires
        call_ensures(render_count_lut, (counts, width, colors), image),
        call_ensures(render_count_lut, (other_counts, width, colors), other),
        0 < width <= u32::MAX,
        other_counts@.len() == counts@.len(),
        forall|i: int|
            0 <= i < counts@.len() && i != at ==> #[trigger] other_counts@[i] == counts@[i],
        0 <= x < width,
        0 <= y < counts@.len() as int / width as int,
    ensures
        y * width + x != at ==> forall|c: int|
            0 <= c < 3 ==> #[trigger] other.data@[3 * (y * width + x) + c] == image.data@[3 * (y
                * width + x) + c],
        y * width + x == at && colors@[counts@[at] as int]@ != colors@[other_counts@[at] as int]@
            ==> exists|c: int|
            0 <= c < 3 && #[trigger] other.data@[3 * at + c] != image.data@[3 * at + c],
{
    lemma_mapped(image, counts@, width, colors@, x, y);
    lemma_mapped(other, other_counts@, width, colors@, x, y);
    let i = y * width + x;
    if i != at {
        assert(other_counts@[i] == counts@[i]);
        assert forall|c: int| 0 <= c < 3 implies #[trigger] other.data@[3 * i + c] == image.data@[3
            * i + c] by {
            assert(c == 0 || c == 1 || c == 2);
        }
    } else {
        let (a, b) = (colors@[counts@[at] as int], colors@[other_counts@[at] as int]);
        if a@ != b@ {
            if a@[0] == b@[0] && a@[1] == b@[1] && a@[2] == b@[2] {
                assert(a@ =~= b@);
            }
            assert(other.data@[3 * at + 0] == b@[0] && image.data@[3 * at + 0] == a@[0]);
            assert(other.data@[3 * at + 1] == b@[1] && image.data@[3 * at + 1] == a@[1]);
            assert(other.data@[3 * at + 2] == b@[2] && image.data@[3 * at + 2] == a@[2]);
        }
    }
}

pub(crate) proof fn lemma_may_have<R, T>(
    cal: Calibration,
    radiance: R,
    temperature: T,
    table: Seq<u32>,
    count: u16,
) where R: Fn(u64, u64, u16) -> u64, T: Fn(&CalibrationKind, u64) -> u32
    requires
        render::is_temperature_table(cal, radiance, temperature, table),
    ensures
        may_have(cal, radiance, temperature, count, table[count as int]),
{
    let bits = table[count as int];
    if cal.valid(count) {
        assert(cal.temperature_of(radiance, temperature, count, bits));
        let level = choose|level: u64|
            {
                &&& #[trigger] call_ensures(radiance, (cal.gain, cal.offset, count), level)
                &&& if ieee::at_most64(level, 0) {
                    bits == ieee::NAN32
                } else {
                    call_ensures(temperature, (&cal.kind, level), bits)
                }
            };
        lemma_not_above_zero(level);
        assert(call_ensures(radiance, (cal.gain, cal.offset, count), level));
    }
}

proof fn lemma_not_above_zero(level: u64)
    ensures
        ieee::at_most64(level, 0) <==> is_not_above_zero(level),
{
}

/// Each pixel of an enhanced band has the palette color of a temperature of
/// the count at its own column and row.
pub proof fn enhanced_pixels_show_their_temperature<R, T, B>(
    cal: &Calibration,
    counts: &[u16],
    width: usize,
    style: ClutStyle,
    points: &'static [(u32, [u8; 3])],
    radiance: R,
    temperature: T,
    blend: B,
    outcome: Result<Rgb8Image, RenderError>,
    x: int,
    y: int,
) where
    R: Fn(u64, u64, u16) -> u64,
    T: Fn(&CalibrationKind, u64) -> u32,
    B: Fn(u32, (u32, [u8; 3]), (u32, [u8; 3])) -> [u8; 3] + Copy,

    requires
        call_ensures(
            ir_enhancement::<R, T, B>,
            (cal, counts, width, style, radiance, temperature, blend),
            outcome,
        ),
        call_ensures(ClutStyle::table, (style,), points),
        0 < width <= u32::MAX,
        0 <= x < width,
        0 <= y < counts@.len() as int / width as int,
    ensures
        outcome is Ok <==> cal.kind is Emissive,
        outcome matches Err(error) ==> error is EnhancementNotThermal,
        outcome matches Ok(image) ==> image.width == width && exists|bits: u32, color: [u8; 3]|
            {
                &&& #[trigger] is_style_color(points@, bits, blend, color)
                &&& may_have(*cal, radiance, temperature, counts@[y * width + x], bits)
                &&& shows(image, x, y, color)
            },
{
    if let Ok(image) = outcome {
        let (table, colors) = choose|table: Seq<u32>, colors: Seq<[u8; 3]>|
            render::is_temperature_table(*cal, radiance, temperature, table)
                && #[trigger] render::is_clut_table(style, table, blend, colors)
                && render::shows_counts(image, counts@, width, colors);
        lemma_mapped(image, counts@, width, colors, x, y);
        let count = counts@[y * width + x];
        let (bits, color) = (table[count as int], colors[count as int]);
        assert(palette::is_clut_color(style.points(), bits, blend, color));
        lemma_style_color(style, bits, blend, color);
        lemma_may_have(*cal, radiance, temperature, table, count);
        assert(is_style_color(points@, bits, blend, color));
    }
}

/// Whether a color is that of a temperature in the height render: black where
/// it is not a number; near-black where it is below 160 K, or the cloud top
/// lower than half a kilometer; and otherwise that of the height, which is no
/// more than 16 km.
pub open spec fn is_relief_color<H, B>(bits: u32, height: H, blend: B, color: [u8; 3]) -> bool where
    H: Fn(u32) -> u32,
    B: Fn(u32, (u32, [u8; 3]), (u32, [u8; 3])) -> [u8; 3],
 {
    if !sampling::is_number(bits) {
        color@ == seq![0u8, 0u8, 0u8]
    } else if bits < 0x4320_0000 || bits >= 0x8000_0000 {
        color@ == seq![10u8, 10u8, 14u8]
    } else {
        exists|top: u32|
            #[trigger] call_ensures(height, (bits,), top) && if top >= 0x8000_0000 || top
                < 0x3f00_0000 {
                color@ == seq![10u8, 10u8, 14u8]
            } else {
                is_palette_color(
                    HEIGHT_CLUT@,
                    if top > 0x4180_0000 {
                        0x4180_0000u32
                    } else {
                        top
                    },
                    blend,
                    color,
                )
            }
    }
}

/// Whether a color is that of a count in the height render: black where the
/// pixel could not be measured; near-black outside the scan and without
/// radiance; and otherwise that of a temperature.
pub open spec fn is_relief_count<R, T, H, B>(
    cal: Calibration,
    radiance: R,
    temperature: T,
    height: H,
    blend: B,
    count: u16,
    color: [u8; 3],
) -> bool where
    R: Fn(u64, u64, u16) -> u64,
    T: Fn(&CalibrationKind, u64) -> u32,
    H: Fn(u32) -> u32,
    B: Fn(u32, (u32, [u8; 3]), (u32, [u8; 3])) -> [u8; 3],
 {
    if count == cal.error_count {
        color@ == seq![0u8, 0u8, 0u8]
    } else if count == cal.outside_scan_count {
        color@ == seq![10u8, 10u8, 14u8]
    } else {
        exists|level: u64|
            #[trigger] call_ensures(radiance, (cal.gain, cal.offset, count), level) && if
                is_not_above_zero(level) {
                color@ == seq![10u8, 10u8, 14u8]
            } else {
                exists|bits: u32|
                    #[trigger] call_ensures(temperature, (&cal.kind, level), bits)
                        && is_relief_color(bits, height, blend, color)
            }
    }
}

proof fn lemma_relief_color<H, B>(bits: u32, height: H, blend: B, color: [u8; 3]) where
    H: Fn(u32) -> u32,
    B: Fn(u32, (u32, [u8; 3]), (u32, [u8; 3])) -> [u8; 3],

    requires
        palette::gives_heights(height),
        palette::is_height_color(bits, height, blend, color),
    ensures
        is_relief_color(bits, height, blend, color),
{
    sampling::lemma_number(bits);
    let clear: [u8; 3] = crate::tuning::HEIGHT_CLEAR_RGB;
    assert(clear@ =~= seq![10u8, 10u8, 14u8]);
    let black: [u8; 3] = crate::tuning::BLACK;
    assert(black@ =~= seq![0u8, 0u8, 0u8]);
    if ieee::finite32(bits) && 0x4320_0000 <= bits < 0x8000_0000 {
        let top = choose|top: u32|
            {
                &&& #[trigger] call_ensures(height, (bits,), top)
                &&& if ieee::less32(
                    palette::clamped_height(top),
                    crate::tuning::CLOUD_MIN_HEIGHT_KM,
                ) {
                    color == clear
                } else {
                    palette::is_table_color(
                        HEIGHT_CLUT@,
                        palette::clamped_height(top),
                        blend,
                        color,
                    )
                }
            };
        assert(!ieee::nan32(top));
        lemma_points_are_positive(ClutStyle::Convection);
        if 0x3f00_0000 <= top < 0x8000_0000 {
            lemma_palette_color(HEIGHT_CLUT@, palette::clamped_height(top), blend, color);
        }
        assert(call_ensures(height, (bits,), top));
    }
}

/// Each pixel of the height render has the color of the height of the count
/// at its own column and row.
pub proof fn relief_pixels_show_their_height<R, T, H, B>(
    cal: &Calibration,
    counts: &[u16],
    width: usize,
    radiance: R,
    temperature: T,
    height: H,
    blend: B,
    outcome: Result<Rgb8Image, RenderError>,
    x: int,
    y: int,
) where
    R: Fn(u64, u64, u16) -> u64,
    T: Fn(&CalibrationKind, u64) -> u32,
    H: Fn(u32) -> u32 + Copy,
    B: Fn(u32, (u32, [u8; 3]), (u32, [u8; 3])) -> [u8; 3] + Copy,

    requires
        call_ensures(
            cloud_top_height::<R, T, H, B>,
            (cal, counts, width, radiance, temperature, height, blend),
            outcome,
        ),
        palette::gives_heights(height),
        0 < width <= u32::MAX,
        0 <= x < width,
        0 <= y < counts@.len() as int / width as int,
    ensures
        outcome is Ok <==> cal.kind is Emissive,
        outcome matches Err(error) ==> error is HeightNotThermal,
        outcome matches Ok(image) ==> image.width == width && exists|color: [u8; 3]|
            #[trigger] is_relief_count(
                *cal,
                radiance,
                temperature,
                height,
                blend,
                counts@[y * width + x],
                color,
            ) && shows(image, x, y, color),
{
    if let Ok(image) = outcome {
        let colors = choose|colors: Seq<[u8; 3]>|
            #[trigger] render::is_height_table(
                *cal,
                radiance,
                temperature,
                height,
                blend,
                colors,
            ) && render::shows_counts(image, counts@, width, colors);
        lemma_mapped(image, counts@, width, colors, x, y);
        let count = counts@[y * width + x];
        let color = colors[count as int];
        assert(render::is_count_height_color(
            *cal,
            radiance,
            temperature,
            height,
            blend,
            count,
            color,
        ));
        lemma_relief_count(*cal, radiance, temperature, height, blend, count, color);
    }
}

proof fn lemma_relief_count<R, T, H, B>(
    cal: Calibration,
    radiance: R,
    temperature: T,
    height: H,
    blend: B,
    count: u16,
    color: [u8; 3],
) where
    R: Fn(u64, u64, u16) -> u64,
    T: Fn(&CalibrationKind, u64) -> u32,
    H: Fn(u32) -> u32,
    B: Fn(u32, (u32, [u8; 3]), (u32, [u8; 3])) -> [u8; 3],

    requires
        palette::gives_heights(height),
        render::is_count_height_color(
            cal,
            radiance,
            temperature,
            height,
            blend,
            count,
            color,
        ),
    ensures
        is_relief_count(cal, radiance, temperature, height, blend, count, color),
{
    let clear: [u8; 3] = crate::tuning::HEIGHT_CLEAR_RGB;
    assert(clear@ =~= seq![10u8, 10u8, 14u8]);
    let black: [u8; 3] = crate::tuning::BLACK;
    assert(black@ =~= seq![0u8, 0u8, 0u8]);
    if count != cal.error_count && count != cal.outside_scan_count {
        let level = choose|level: u64|
            #[trigger] call_ensures(radiance, (cal.gain, cal.offset, count), level)
                && render::is_level_height_color(cal, temperature, height, blend, level, color);
        lemma_not_above_zero(level);
        if !is_not_above_zero(level) {
            let bits = choose|bits: u32|
                #[trigger] call_ensures(temperature, (&cal.kind, level), bits)
                    && palette::is_height_color(bits, height, blend, color);
            lemma_relief_color(bits, height, blend, color);
        }
        assert(call_ensures(radiance, (cal.gain, cal.offset, count), level));
    }
}

} // verus!
