//! The combined product: true color with the clean-IR band on top.
//!
//! Layout of this file:
//!   - the grid of brightness temperatures and its bilinear samples
//!   - the temperature of the cloud that a pixel shows
//!   - the layers over the visible imagery
//!   - `combined`
//!
//! As in the other products the arithmetic comes in through the caller's
//! functions; what is decided here is where the grid is sampled, which
//! samples count, and which layers a pixel gets.

use vstd::prelude::*;

use crate::compose;
use crate::compose::{BandImage, Rgb8Image, FULL_DISK_SIZE};
use crate::grid;
use crate::hsd::{Calibration, CalibrationKind};
use crate::ieee;
use crate::palette;
use crate::palette::ClutStyle;
use crate::render;
use crate::render::{PixelSample, Quad, RenderError};
use crate::tuning::{PARALLAX_MIN_HEIGHT_KM, SANDWICH_START, SPACE_BT_CUTOFF};

verus! {

// ---------------------------------------------------------------------------
// The grid of brightness temperatures
// ---------------------------------------------------------------------------

/// Whether a grid holds the brightness temperatures of counts.
pub open spec fn is_temperature_grid<R, T>(
    cal: Calibration,
    radiance: R,
    temperature: T,
    counts: Seq<u16>,
    temperatures: Seq<u32>,
) -> bool where R: Fn(u64, u64, u16) -> u64, T: Fn(&CalibrationKind, u64) -> u32 {
    exists|table: Seq<u32>|
        #[trigger] render::is_temperature_table(cal, radiance, temperature, table) && temperatures
            == counts.map_values(|count: u16| table[count as int])
}

/// The brightness temperatures of counts, from a table of all of them.
fn temperature_grid(table: &[u32], counts: &[u16]) -> (temperatures: Vec<u32>)
    requires
        table@.len() == 0x1_0000,
    ensures
        temperatures@ == counts@.map_values(|count: u16| table@[count as int]),
{
    let size: usize = counts.len();
    let mut temperatures: Vec<u32> = Vec::with_capacity(size);
    let mut i: usize = 0;
    while i < size
        invariant
            i <= size,
            size == counts@.len(),
            table@.len() == 0x1_0000,
            temperatures@ =~= counts@.take(i as int).map_values(|count: u16| table@[count as int]),
        decreases size - i,
    {
        temperatures.push(table[counts[i] as usize]);
        i += 1;
    }
    assert(counts@.take(size as int) =~= counts@);
    temperatures
}

/// The coordinate after `i`, clamped at the edge.
pub open spec fn next_within(i: int, size: int) -> int {
    if i + 1 < size {
        i + 1
    } else {
        size - 1
    }
}

/// The four neighbors of a fractional position and their weights: top left,
/// top right, bottom left, bottom right.
pub open spec fn taps(
    temperatures: Seq<u32>,
    width: int,
    x0: int,
    y0: int,
    weights: Quad<u32>,
) -> Seq<(u32, u32)> {
    let x1 = next_within(x0, width);
    let y1 = next_within(y0, temperatures.len() as int / width);
    seq![
        (temperatures[grid::place(width, y0, x0)], weights.0),
        (temperatures[grid::place(width, y0, x1)], weights.1),
        (temperatures[grid::place(width, y1, x0)], weights.2),
        (temperatures[grid::place(width, y1, x1)], weights.3),
    ]
}

/// Whether adding weighted values one after the other, from zeros on, may
/// give a pair of the weighted sum and the total weight.
pub open spec fn mixes_to<M: Fn((u32, u32), (u32, u32)) -> (u32, u32)>(
    mix: M,
    taps: Seq<(u32, u32)>,
    total: (u32, u32),
) -> bool
    decreases taps.len(),
{
    if taps.len() == 0 {
        total == (0u32, 0u32)
    } else {
        exists|before: (u32, u32)|
            #[trigger] call_ensures(mix, (before, taps.last()), total) && mixes_to(
                mix,
                taps.drop_last(),
                before,
            )
    }
}

/// The taps whose value is a finite number.
pub open spec fn finite_taps(taps: Seq<(u32, u32)>) -> Seq<(u32, u32)> {
    taps.filter(|tap: (u32, u32)| ieee::finite32(tap.0))
}

/// Whether `bits` may be the bilinear sample of the given taps: those that
/// are not finite are dropped, and the sum of the others is divided by their
/// weight, if they have any.
pub open spec fn is_bilinear_sample<M, D>(
    taps: Seq<(u32, u32)>,
    mix: M,
    divide: D,
    bits: u32,
) -> bool where M: Fn((u32, u32), (u32, u32)) -> (u32, u32), D: Fn(u32, u32) -> u32 {
    exists|total: (u32, u32)|
        {
            &&& #[trigger] mixes_to(mix, finite_taps(taps), total)
            &&& if ieee::less32(0, total.1) {
                call_ensures(divide, (total.0, total.1), bits)
            } else {
                bits == ieee::NAN32
            }
        }
}

/// Bilinear sample of a grid at a fractional position, clamped at the edges.
/// Neighbors that are not finite are dropped and the remaining weights
/// renormalized; NaN if no neighbor is valid.
///
/// `x0` and `y0` are the whole part of the position; `mix` adds a weighted
/// value to a pair of the weighted sum and the total weight, `divide` divides
/// the one by the other.
pub fn sample_bilinear<M, D>(
    temperatures: &[u32],
    width: usize,
    x0: usize,
    y0: usize,
    weights: Quad<u32>,
    mix: M,
    divide: D,
) -> (bits: u32) where
    M: Fn((u32, u32), (u32, u32)) -> (u32, u32),
    D: Fn(u32, u32) -> u32,

    requires
        x0 < width,
        y0 < temperatures@.len() as int / width as int,
        forall|total: (u32, u32), tap: (u32, u32)| #[trigger] call_requires(mix, (total, tap)),
        forall|sum: u32, weight: u32|
            ieee::less32(0, weight) ==> #[trigger] call_requires(divide, (sum, weight)),
    ensures
        is_bilinear_sample(
            taps(temperatures@, width as int, x0 as int, y0 as int, weights),
            mix,
            divide,
            bits,
        ),
{
    let height: usize = temperatures.len() / width;
    let x1: usize = if x0 + 1 < width {
        x0 + 1
    } else {
        width - 1
    };
    let y1: usize = if y0 + 1 < height {
        y0 + 1
    } else {
        height - 1
    };
    proof {
        assert(height * width <= temperatures@.len()) by (nonlinear_arith)
            requires
                height == temperatures@.len() / width as nat,
                width > 0,
        ;
        grid::cell_has_place(width as int, height as int, y0 as int, x0 as int);
        grid::cell_has_place(width as int, height as int, y0 as int, x1 as int);
        grid::cell_has_place(width as int, height as int, y1 as int, x0 as int);
        grid::cell_has_place(width as int, height as int, y1 as int, x1 as int);
    }
    let four: [(u32, u32); 4] = [
        (temperatures[y0 * width + x0], weights.0),
        (temperatures[y0 * width + x1], weights.1),
        (temperatures[y1 * width + x0], weights.2),
        (temperatures[y1 * width + x1], weights.3),
    ];
    let ghost finite = |tap: (u32, u32)| ieee::finite32(tap.0);
    let mut total: (u32, u32) = (0, 0);
    let mut k: usize = 0;
    assert(four@ =~= taps(temperatures@, width as int, x0 as int, y0 as int, weights));
    assert(four@.take(0).filter(finite) =~= Seq::empty()) by {
        reveal(Seq::filter);
    }
    while k < 4
        invariant
            k <= 4,
            finite == (|tap: (u32, u32)| ieee::finite32(tap.0)),
            forall|total: (u32, u32), tap: (u32, u32)| #[trigger] call_requires(mix, (total, tap)),
            mixes_to(mix, four@.take(k as int).filter(finite), total),
        decreases 4 - k,
    {
        proof {
            compose::lemma_filter_step(four@, k as int, finite);
        }
        let tap: (u32, u32) = four[k];
        if ieee::is_finite32(tap.0) {
            let ghost before = total;
            let ghost so_far = four@.take(k as int).filter(finite);
            total = mix(total, tap);
            proof {
                let now = so_far.push(tap);
                assert(now.drop_last() =~= so_far && now.last() == tap);
                assert(call_ensures(mix, (before, now.last()), total));
                assert(mixes_to(mix, now, total));
            }
        }
        k += 1;
    }
    assert(four@.take(4) =~= four@);
    assert(mixes_to(mix, finite_taps(four@), total));
    if ieee::is_less32(0, total.1) {
        divide(total.0, total.1)
    } else {
        ieee::NAN32
    }
}

// ---------------------------------------------------------------------------
// The temperature of a cloud
// ---------------------------------------------------------------------------

/// Whether `bits` may be the temperature of the cloud seen at a pixel whose
/// own sample is `first`. `heights` relates a temperature to the heights that
/// may be estimated from it, `resamples` a height to what may be sampled at
/// the apparent position of a cloud top of that height.
pub open spec fn is_cloud_temperature(
    first: u32,
    heights: spec_fn(u32, u32) -> bool,
    resamples: spec_fn(u32, Option<u32>) -> bool,
    bits: u32,
) -> bool {
    if !ieee::finite32(first) {
        bits == first
    } else {
        exists|top: u32|
            {
                &&& #[trigger] heights(first, top)
                &&& if ieee::less32(PARALLAX_MIN_HEIGHT_KM, palette::clamped_height(top)) {
                    is_shifted_temperature(first, palette::clamped_height(top), resamples, bits)
                } else {
                    bits == first
                }
            }
    }
}

/// Whether `bits` is what was sampled at the apparent position of a cloud top
/// of the given height, or `first` where nothing valid was.
pub open spec fn is_shifted_temperature(
    first: u32,
    top: u32,
    resamples: spec_fn(u32, Option<u32>) -> bool,
    bits: u32,
) -> bool {
    exists|shifted: Option<u32>|
        {
            &&& #[trigger] resamples(top, shifted)
            &&& match shifted {
                Some(sample) => bits == if ieee::finite32(sample) {
                    sample
                } else {
                    first
                },
                None => bits == first,
            }
        }
}

/// Parallax: a tall cloud top appears displaced away from the sub-satellite
/// point, so a pixel's cloud lives elsewhere in the IR grid. Its height is
/// estimated from the first sample, and the grid is sampled again at its
/// apparent position; that sample is taken where it is valid.
pub fn cloud_temperature<H, P>(first: u32, height: H, resample: P) -> (bits: u32) where
    H: Fn(u32) -> u32,
    P: Fn(u32) -> Option<u32>,

    requires
        ieee::finite32(first) ==> call_requires(height, (first,)),
        forall|top: u32|
            ieee::less32(PARALLAX_MIN_HEIGHT_KM, top) ==> #[trigger] call_requires(
                resample,
                (top,),
            ),
    ensures
        is_cloud_temperature(
            first,
            |temperature: u32, top: u32| call_ensures(height, (temperature,), top),
            |top: u32, shifted: Option<u32>| call_ensures(resample, (top,), shifted),
            bits,
        ),
{
    let ghost heights = |temperature: u32, top: u32| call_ensures(height, (temperature,), top);
    let ghost resamples = |top: u32, shifted: Option<u32>|
        call_ensures(resample, (top,), shifted);
    if !ieee::is_finite32(first) {
        return first;
    }
    let top: u32 = height(first);
    assert(heights(first, top));
    let clamped: u32 = palette::clamp_height(top);
    if !ieee::is_less32(PARALLAX_MIN_HEIGHT_KM, clamped) {
        return first;
    }
    let shifted: Option<u32> = resample(clamped);
    assert(resamples(clamped, shifted));
    match shifted {
        Some(sample) => if ieee::is_finite32(sample) {
            sample
        } else {
            first
        },
        None => first,
    }
}

proof fn lemma_cloud_temperature_weakens(
    first: u32,
    heights: spec_fn(u32, u32) -> bool,
    resamples: spec_fn(u32, Option<u32>) -> bool,
    other_heights: spec_fn(u32, u32) -> bool,
    other_resamples: spec_fn(u32, Option<u32>) -> bool,
    bits: u32,
)
    requires
        is_cloud_temperature(first, heights, resamples, bits),
        forall|temperature: u32, top: u32|
            #[trigger] heights(temperature, top) ==> other_heights(temperature, top),
        forall|top: u32, shifted: Option<u32>|
            #[trigger] resamples(top, shifted) ==> other_resamples(top, shifted),
    ensures
        is_cloud_temperature(first, other_heights, other_resamples, bits),
{
    if ieee::finite32(first) {
        let top = choose|top: u32|
            {
                &&& #[trigger] heights(first, top)
                &&& if ieee::less32(PARALLAX_MIN_HEIGHT_KM, palette::clamped_height(top)) {
                    is_shifted_temperature(first, palette::clamped_height(top), resamples, bits)
                } else {
                    bits == first
                }
            };
        assert(other_heights(first, top));
        let clamped = palette::clamped_height(top);
        if ieee::less32(PARALLAX_MIN_HEIGHT_KM, clamped) {
            let shifted = choose|shifted: Option<u32>|
                {
                    &&& #[trigger] resamples(clamped, shifted)
                    &&& match shifted {
                        Some(sample) => bits == if ieee::finite32(sample) {
                            sample
                        } else {
                            first
                        },
                        None => bits == first,
                    }
                };
            assert(other_resamples(clamped, shifted));
        }
    }
}

// ---------------------------------------------------------------------------
// The layers
// ---------------------------------------------------------------------------

/// A fractional position on the grid of temperatures: its whole part, and the
/// weights of the four neighbors.
#[derive(Debug, Clone, Copy)]
pub struct Spot {
    pub x0: usize,
    pub y0: usize,
    pub weights: Quad<u32>,
}

/// Whether a spot lies on a grid of so many temperatures.
pub open spec fn on_grid(spot: Spot, width: int, size: int) -> bool {
    spot.x0 < width && spot.y0 < size / width
}

/// The arithmetic of the IR layers.
pub struct IrShading<X, Y, H, M, D, N, W, B, O> {
    /// Where the grid is sampled for a pixel.
    pub here: X,
    /// Where the cloud of a pixel appears, given the height of its top.
    pub apparent: Y,
    /// The height of a cloud top of a temperature.
    pub height: H,
    /// Adds a weighted value, as in [`sample_bilinear`].
    pub mix: M,
    /// Divides by the total weight, as in [`sample_bilinear`].
    pub divide: D,
    /// How far the sun has set at a pixel.
    pub night: N,
    /// Lays the grayscale clouds of the night side over a color, given their
    /// temperature and how far the sun has set.
    pub clouds: W,
    /// Mixes colors, as in [`palette::table_color`].
    pub blend: B,
    /// Lays the palette color of a cold cloud top over a color, given the
    /// pixel and the temperature.
    pub overlay: O,
}

/// What the functions of an [`IrShading`] may give.
#[verifier::reject_recursive_types(A)]
#[verifier::reject_recursive_types(C)]
pub ghost struct Layers<A, C, M, D> {
    pub here: spec_fn(PixelSample, Spot) -> bool,
    pub apparent: spec_fn(PixelSample, u32, Option<Spot>) -> bool,
    pub height: spec_fn(u32, u32) -> bool,
    pub mix: M,
    pub divide: D,
    pub night: spec_fn(A, u32) -> bool,
    pub clouds: spec_fn(C, u32, u32, C) -> bool,
    pub clut: spec_fn(ClutStyle, u32, [u8; 3]) -> bool,
    pub overlay: spec_fn(C, PixelSample, u32, [u8; 3], C) -> bool,
}

/// What the functions of a shading may give.
pub open spec fn layers_of<A, C, X, Y, H, M, D, N, W, B, O>(
    ir: &IrShading<X, Y, H, M, D, N, W, B, O>,
) -> Layers<A, C, M, D> where
    X: Fn(&PixelSample) -> Spot,
    Y: Fn(&PixelSample, u32) -> Option<Spot>,
    H: Fn(u32) -> u32,
    N: Fn(&A) -> u32,
    W: Fn(C, u32, u32) -> C,
    B: Fn(u32, (u32, [u8; 3]), (u32, [u8; 3])) -> [u8; 3],
    O: Fn(C, &PixelSample, u32, [u8; 3]) -> C,
 {
    Layers {
        here: |px: PixelSample, spot: Spot| call_ensures(ir.here, (&px,), spot),
        apparent: |px: PixelSample, top: u32, spot: Option<Spot>|
            call_ensures(ir.apparent, (&px, top), spot),
        height: |temperature: u32, top: u32| call_ensures(ir.height, (temperature,), top),
        mix: ir.mix,
        divide: ir.divide,
        night: |angles: A, night: u32| call_ensures(ir.night, (&angles,), night),
        clouds: |base: C, temperature: u32, night: u32, color: C|
            call_ensures(ir.clouds, (base, temperature, night), color),
        clut: |style: ClutStyle, temperature: u32, color: [u8; 3]|
            palette::is_clut_color(style.points(), temperature, ir.blend, color),
        overlay: |base: C, px: PixelSample, temperature: u32, clut: [u8; 3], color: C|
            call_ensures(ir.overlay, (base, &px, temperature, clut), color),
    }
}

/// Whether a grid gives `bits` when it is sampled at a spot.
pub open spec fn is_sample_at<A, C, M, D>(
    layers: Layers<A, C, M, D>,
    temperatures: Seq<u32>,
    width: int,
    spot: Spot,
    bits: u32,
) -> bool where M: Fn((u32, u32), (u32, u32)) -> (u32, u32), D: Fn(u32, u32) -> u32 {
    is_bilinear_sample(
        taps(temperatures, width, spot.x0 as int, spot.y0 as int, spot.weights),
        layers.mix,
        layers.divide,
        bits,
    )
}

/// Whether a grid gives `sample` at the apparent position of the cloud of a
/// pixel whose top has the given height.
pub open spec fn is_sample_above<A, C, M, D>(
    layers: Layers<A, C, M, D>,
    temperatures: Seq<u32>,
    width: int,
    px: PixelSample,
    top: u32,
    sample: Option<u32>,
) -> bool where M: Fn((u32, u32), (u32, u32)) -> (u32, u32), D: Fn(u32, u32) -> u32 {
    exists|spot: Option<Spot>|
        {
            &&& #[trigger] (layers.apparent)(px, top, spot)
            &&& match (spot, sample) {
                (Some(spot), Some(bits)) => is_sample_at(layers, temperatures, width, spot, bits),
                (None, None) => true,
                _ => false,
            }
        }
}

/// Whether `bits` may be the temperature of the cloud that a pixel shows,
/// where the grid gives `first` at the pixel itself.
pub open spec fn is_pixel_temperature_from<A, C, M, D>(
    layers: Layers<A, C, M, D>,
    temperatures: Seq<u32>,
    width: int,
    px: PixelSample,
    first: u32,
    bits: u32,
) -> bool where M: Fn((u32, u32), (u32, u32)) -> (u32, u32), D: Fn(u32, u32) -> u32 {
    is_cloud_temperature(
        first,
        layers.height,
        |top: u32, sample: Option<u32>|
            is_sample_above(layers, temperatures, width, px, top, sample),
        bits,
    )
}

/// Whether `bits` may be the temperature of the cloud that a pixel shows.
pub open spec fn is_pixel_temperature<A, C, M, D>(
    layers: Layers<A, C, M, D>,
    temperatures: Seq<u32>,
    width: int,
    px: PixelSample,
    bits: u32,
) -> bool where M: Fn((u32, u32), (u32, u32)) -> (u32, u32), D: Fn(u32, u32) -> u32 {
    exists|spot: Spot, first: u32|
        {
            &&& (layers.here)(px, spot)
            &&& #[trigger] is_sample_at(layers, temperatures, width, spot, first)
            &&& is_pixel_temperature_from(layers, temperatures, width, px, first, bits)
        }
}

/// Whether a color is another one with the clouds of the night side over it,
/// as far as the sun has set.
pub open spec fn is_clouded<A, C, M, D>(
    layers: Layers<A, C, M, D>,
    temperature: u32,
    night: u32,
    base: C,
    color: C,
) -> bool {
    if ieee::less32(0, night) {
        (layers.clouds)(base, temperature, night, color)
    } else {
        color == base
    }
}

/// Whether a color is another one with the palette color over it that a cold
/// cloud top has in a style.
pub open spec fn is_sandwiched<A, C, M, D>(
    layers: Layers<A, C, M, D>,
    style: ClutStyle,
    px: PixelSample,
    temperature: u32,
    base: C,
    color: C,
) -> bool {
    if ieee::less32(temperature, SANDWICH_START) {
        exists|clut: [u8; 3]|
            #[trigger] (layers.clut)(style, temperature, clut) && (layers.overlay)(
                base,
                px,
                temperature,
                clut,
                color,
            )
    } else {
        color == base
    }
}

/// Whether a color is another one with the IR layers over it: none where the
/// temperature is not that of a cloud top, the night side as the sun sets,
/// and the sandwich overlay on cold tops, day and night alike.
pub open spec fn is_layered<A, C, M, D>(
    layers: Layers<A, C, M, D>,
    style: ClutStyle,
    px: PixelSample,
    angles: A,
    temperature: u32,
    base: C,
    color: C,
) -> bool {
    if !ieee::finite32(temperature) || ieee::less32(temperature, SPACE_BT_CUTOFF) {
        color == base
    } else {
        exists|night: u32, clouded: C|
            {
                &&& (layers.night)(angles, night)
                &&& #[trigger] is_clouded(layers, temperature, night, base, clouded)
                &&& is_sandwiched(layers, style, px, temperature, clouded, color)
            }
    }
}

/// Whether a color is one that a pixel may have in the combined product whose
/// color in the visible imagery is `base`.
pub open spec fn is_combined_over<A, C, M, D>(
    layers: Layers<A, C, M, D>,
    temperatures: Seq<u32>,
    width: int,
    style: ClutStyle,
    px: PixelSample,
    angles: A,
    base: C,
    color: C,
) -> bool where M: Fn((u32, u32), (u32, u32)) -> (u32, u32), D: Fn(u32, u32) -> u32 {
    exists|bits: u32|
        #[trigger] is_pixel_temperature(layers, temperatures, width, px, bits) && is_layered(
            layers,
            style,
            px,
            angles,
            bits,
            base,
            color,
        )
}

/// Whether a color is one that a pixel may have in the combined product.
pub open spec fn is_combined_color<A, C, V, M, D>(
    visible: V,
    layers: Layers<A, C, M, D>,
    temperatures: Seq<u32>,
    width: int,
    style: ClutStyle,
    px: PixelSample,
    angles: A,
    color: C,
) -> bool where
    V: Fn(&PixelSample, &A) -> C,
    M: Fn((u32, u32), (u32, u32)) -> (u32, u32),
    D: Fn(u32, u32) -> u32,
 {
    exists|base: C|
        #[trigger] call_ensures(visible, (&px, &angles), base) && is_combined_over(
            layers,
            temperatures,
            width,
            style,
            px,
            angles,
            base,
            color,
        )
}

/// Whether the functions of a shading stay on a grid of so many temperatures.
pub open spec fn stays_on_grid<A, C, M, D>(
    layers: Layers<A, C, M, D>,
    width: int,
    size: int,
) -> bool {
    &&& forall|px: PixelSample, spot: Spot|
        #[trigger] (layers.here)(px, spot) ==> on_grid(spot, width, size)
    &&& forall|px: PixelSample, top: u32, spot: Spot|
        #[trigger] (layers.apparent)(px, top, Some(spot)) ==> on_grid(spot, width, size)
}

/// Whether the functions of a shading can be called for a pixel and for a
/// palette.
pub open spec fn can_shade<A, C, X, Y, H, M, D, N, W, B, O>(
    ir: IrShading<X, Y, H, M, D, N, W, B, O>,
    px: PixelSample,
    style: ClutStyle,
) -> bool where
    X: Fn(&PixelSample) -> Spot,
    Y: Fn(&PixelSample, u32) -> Option<Spot>,
    H: Fn(u32) -> u32,
    M: Fn((u32, u32), (u32, u32)) -> (u32, u32),
    D: Fn(u32, u32) -> u32,
    N: Fn(&A) -> u32,
    W: Fn(C, u32, u32) -> C,
    B: Fn(u32, (u32, [u8; 3]), (u32, [u8; 3])) -> [u8; 3],
    O: Fn(C, &PixelSample, u32, [u8; 3]) -> C,
 {
    &&& call_requires(ir.here, (&px,))
    &&& forall|top: u32|
        ieee::less32(PARALLAX_MIN_HEIGHT_KM, top) ==> #[trigger] call_requires(
            ir.apparent,
            (&px, top),
        )
    &&& forall|temperature: u32|
        ieee::finite32(temperature) ==> #[trigger] call_requires(ir.height, (temperature,))
    &&& forall|total: (u32, u32), tap: (u32, u32)| #[trigger] call_requires(ir.mix, (total, tap))
    &&& forall|sum: u32, weight: u32|
        ieee::less32(0, weight) ==> #[trigger] call_requires(ir.divide, (sum, weight))
    &&& forall|angles: A| #[trigger] call_requires(ir.night, (&angles,))
    &&& forall|base: C, temperature: u32, night: u32|
        ieee::less32(0, night) ==> #[trigger] call_requires(
            ir.clouds,
            (base, temperature, night),
        )
    &&& palette::blends(style.points(), ir.blend)
    &&& forall|base: C, temperature: u32, clut: [u8; 3]|
        #[trigger] call_requires(ir.overlay, (base, &px, temperature, clut))
}

/// The temperature of the cloud that a pixel shows.
fn pixel_temperature<A, C, X, Y, H, M, D, N, W, B, O>(
    px: &PixelSample,
    temperatures: &[u32],
    width: usize,
    style: ClutStyle,
    ir: &IrShading<X, Y, H, M, D, N, W, B, O>,
) -> (bits: u32) where
    X: Fn(&PixelSample) -> Spot,
    Y: Fn(&PixelSample, u32) -> Option<Spot>,
    H: Fn(u32) -> u32 + Copy,
    M: Fn((u32, u32), (u32, u32)) -> (u32, u32) + Copy,
    D: Fn(u32, u32) -> u32 + Copy,
    N: Fn(&A) -> u32,
    W: Fn(C, u32, u32) -> C,
    B: Fn(u32, (u32, [u8; 3]), (u32, [u8; 3])) -> [u8; 3],
    O: Fn(C, &PixelSample, u32, [u8; 3]) -> C,

    requires
        can_shade::<A, C, X, Y, H, M, D, N, W, B, O>(*ir, *px, style),
        stays_on_grid(
            layers_of::<A, C, X, Y, H, M, D, N, W, B, O>(ir),
            width as int,
            temperatures@.len() as int,
        ),
    ensures
        is_pixel_temperature(
            layers_of::<A, C, X, Y, H, M, D, N, W, B, O>(ir),
            temperatures@,
            width as int,
            *px,
            bits,
        ),
{
    let ghost layers = layers_of::<A, C, X, Y, H, M, D, N, W, B, O>(ir);
    let spot: Spot = (ir.here)(px);
    assert((layers.here)(*px, spot));
    let first: u32 = sample_bilinear(
        temperatures,
        width,
        spot.x0,
        spot.y0,
        spot.weights,
        ir.mix,
        ir.divide,
    );
    assert(is_sample_at(layers, temperatures@, width as int, spot, first));
    let resample = |top: u32| -> (sample: Option<u32>)
        requires
            ieee::less32(PARALLAX_MIN_HEIGHT_KM, top),
        ensures
            is_sample_above(
                layers_of::<A, C, X, Y, H, M, D, N, W, B, O>(ir),
                temperatures@,
                width as int,
                *px,
                top,
                sample,
            ),
        {
            let found: Option<Spot> = (ir.apparent)(px, top);
            let ghost layers = layers_of::<A, C, X, Y, H, M, D, N, W, B, O>(ir);
            assert((layers.apparent)(*px, top, found));
            match found {
                Some(spot) => {
                    assert((layers.apparent)(*px, top, Some(spot)));
                    Some(
                        sample_bilinear(
                            temperatures,
                            width,
                            spot.x0,
                            spot.y0,
                            spot.weights,
                            ir.mix,
                            ir.divide,
                        ),
                    )
                },
                None => None,
            }
        };
    let bits: u32 = cloud_temperature(first, ir.height, resample);
    proof {
        lemma_cloud_temperature_weakens(
            first,
            |temperature: u32, top: u32| call_ensures(ir.height, (temperature,), top),
            |top: u32, shifted: Option<u32>| call_ensures(resample, (top,), shifted),
            layers.height,
            |top: u32, sample: Option<u32>|
                is_sample_above(layers, temperatures@, width as int, *px, top, sample),
            bits,
        );
        assert(is_pixel_temperature_from(
            layers,
            temperatures@,
            width as int,
            *px,
            first,
            bits,
        ));
    }
    bits
}

/// The color of a pixel of the combined product: that of the visible imagery,
/// with the IR layers over it.
pub fn combined_color<A, C, V, X, Y, H, M, D, N, W, B, O>(
    px: &PixelSample,
    angles: &A,
    temperatures: &[u32],
    width: usize,
    style: ClutStyle,
    visible: &V,
    ir: &IrShading<X, Y, H, M, D, N, W, B, O>,
) -> (color: C) where
    V: Fn(&PixelSample, &A) -> C,
    X: Fn(&PixelSample) -> Spot,
    Y: Fn(&PixelSample, u32) -> Option<Spot>,
    H: Fn(u32) -> u32 + Copy,
    M: Fn((u32, u32), (u32, u32)) -> (u32, u32) + Copy,
    D: Fn(u32, u32) -> u32 + Copy,
    N: Fn(&A) -> u32,
    W: Fn(C, u32, u32) -> C,
    B: Fn(u32, (u32, [u8; 3]), (u32, [u8; 3])) -> [u8; 3] + Copy,
    O: Fn(C, &PixelSample, u32, [u8; 3]) -> C,

    requires
        call_requires(*visible, (px, angles)),
        can_shade::<A, C, X, Y, H, M, D, N, W, B, O>(*ir, *px, style),
        stays_on_grid(
            layers_of::<A, C, X, Y, H, M, D, N, W, B, O>(ir),
            width as int,
            temperatures@.len() as int,
        ),
    ensures
        is_combined_color(
            *visible,
            layers_of::<A, C, X, Y, H, M, D, N, W, B, O>(ir),
            temperatures@,
            width as int,
            style,
            *px,
            *angles,
            color,
        ),
{
    let ghost layers = layers_of::<A, C, X, Y, H, M, D, N, W, B, O>(ir);
    let base = visible(px, angles);
    let ghost plain = base;
    assert(call_ensures(*visible, (px, angles), plain));
    let bits: u32 = pixel_temperature::<A, C, X, Y, H, M, D, N, W, B, O>(
        px,
        temperatures,
        width,
        style,
        ir,
    );
    if !ieee::is_finite32(bits) || ieee::is_less32(bits, SPACE_BT_CUTOFF) {
        assert(is_layered(layers, style, *px, *angles, bits, plain, base));
        return base;
    }
    // Night side: fade in grayscale IR clouds as the sun sets.
    let night: u32 = (ir.night)(angles);
    assert((layers.night)(*angles, night));
    let clouded = if ieee::is_less32(0, night) {
        (ir.clouds)(base, bits, night)
    } else {
        base
    };
    let ghost below = clouded;
    assert(is_clouded(layers, bits, night, plain, below));
    // Sandwich overlay: palette colors for cold convective tops.
    let color = if ieee::is_less32(bits, SANDWICH_START) {
        proof {
            palette::palettes_ascend(style);
        }
        let clut: [u8; 3] = palette::clut_color(style.table(), bits, ir.blend);
        assert((layers.clut)(style, bits, clut));
        (ir.overlay)(clouded, px, bits, clut)
    } else {
        clouded
    };
    assert(is_sandwiched(layers, style, *px, bits, below, color));
    assert(is_layered(layers, style, *px, *angles, bits, plain, color));
    color
}

// ---------------------------------------------------------------------------
// The product
// ---------------------------------------------------------------------------

/// Whether a color is one that a shading may give.
spec fn is_color_by<A, C, V, X, Y, H, M, D, N, W, B, O>(
    visible: &V,
    ir: &IrShading<X, Y, H, M, D, N, W, B, O>,
    temperatures: Seq<u32>,
    width: int,
    style: ClutStyle,
    px: &PixelSample,
    angles: &A,
    color: C,
) -> bool where
    V: Fn(&PixelSample, &A) -> C,
    X: Fn(&PixelSample) -> Spot,
    Y: Fn(&PixelSample, u32) -> Option<Spot>,
    H: Fn(u32) -> u32,
    M: Fn((u32, u32), (u32, u32)) -> (u32, u32),
    D: Fn(u32, u32) -> u32,
    N: Fn(&A) -> u32,
    W: Fn(C, u32, u32) -> C,
    B: Fn(u32, (u32, [u8; 3]), (u32, [u8; 3])) -> [u8; 3],
    O: Fn(C, &PixelSample, u32, [u8; 3]) -> C,
 {
    is_combined_color(
        *visible,
        layers_of::<A, C, X, Y, H, M, D, N, W, B, O>(ir),
        temperatures,
        width,
        style,
        *px,
        *angles,
        color,
    )
}

/// Whether a pixel is what a color of the combined product is quantized to.
pub open spec fn is_combined_pixel<A, C, V, Q, M, D>(
    visible: V,
    quantize: Q,
    layers: Layers<A, C, M, D>,
    temperatures: Seq<u32>,
    width: int,
    style: ClutStyle,
    px: PixelSample,
    angles: A,
    pixel: [u8; 3],
) -> bool where
    V: Fn(&PixelSample, &A) -> C,
    Q: Fn(C) -> [u8; 3],
    M: Fn((u32, u32), (u32, u32)) -> (u32, u32),
    D: Fn(u32, u32) -> u32,
 {
    exists|color: C|
        #[trigger] is_combined_color(
            visible,
            layers,
            temperatures,
            width,
            style,
            px,
            angles,
            color,
        ) && call_ensures(quantize, (color,), pixel)
}

/// The pixels that the combined product may have for a sample.
pub open spec fn combined_shades<A, C, V, Q, M, D>(
    visible: V,
    quantize: Q,
    layers: Layers<A, C, M, D>,
    temperatures: Seq<u32>,
    width: int,
    style: ClutStyle,
) -> spec_fn(PixelSample, A, [u8; 3]) -> bool where
    V: Fn(&PixelSample, &A) -> C,
    Q: Fn(C) -> [u8; 3],
    M: Fn((u32, u32), (u32, u32)) -> (u32, u32),
    D: Fn(u32, u32) -> u32,
 {
    |px: PixelSample, angles: A, pixel: [u8; 3]|
        is_combined_pixel(visible, quantize, layers, temperatures, width, style, px, angles, pixel)
}

/// Whether an image is one that the combined product may be: a composite of
/// its bands with the layers over it that a grid of the temperatures of its
/// counts gives.
pub open spec fn is_combined_image<F, G, L, A, C, R, T, V, Q, M, D>(
    image: Rgb8Image,
    bands: [&BandImage; 4],
    ir_calibration: Calibration,
    ir_counts: Seq<u16>,
    ir_width: int,
    factor: int,
    style: ClutStyle,
    reflectance: F,
    radiance: R,
    temperature: T,
    plus: G,
    locate: L,
    visible: V,
    quantize: Q,
    layers: Layers<A, C, M, D>,
) -> bool where
    F: Fn(u64, u64, u64, u16) -> u32,
    R: Fn(u64, u64, u16) -> u64,
    T: Fn(&CalibrationKind, u64) -> u32,
    G: Fn(Quad<u32>, Quad<u32>) -> Quad<u32>,
    L: Fn(usize, usize) -> Option<A>,
    V: Fn(&PixelSample, &A) -> C,
    Q: Fn(C) -> [u8; 3],
    M: Fn((u32, u32), (u32, u32)) -> (u32, u32),
    D: Fn(u32, u32) -> u32,
 {
    exists|temperatures: Seq<u32>|
        #[trigger] is_temperature_grid(
            ir_calibration,
            radiance,
            temperature,
            ir_counts,
            temperatures,
        ) && render::is_composite(
            image,
            bands,
            factor,
            reflectance,
            plus,
            locate,
            combined_shades(visible, quantize, layers, temperatures, ir_width, style),
        )
}

/// Composite the true-color image with the B13 clean-IR band: a sandwich
/// product where cold cloud tops keep their palette colors on top of the
/// visible imagery, and the night side of the disk shows IR clouds in
/// grayscale instead of going black. The grid of brightness temperatures is
/// computed once.
pub fn combined<F, G, L, A, C, R, T, V, Q, X, Y, H, M, D, N, W, B, O>(
    red: &BandImage,
    green: &BandImage,
    blue: &BandImage,
    nir: &BandImage,
    ir_calibration: &Calibration,
    ir_counts: &[u16],
    ir_width: usize,
    factor: usize,
    style: ClutStyle,
    reflectance: F,
    radiance: R,
    temperature: T,
    plus: G,
    locate: L,
    visible: V,
    quantize: Q,
    ir: IrShading<X, Y, H, M, D, N, W, B, O>,
) -> (image: Result<Rgb8Image, RenderError>) where
    F: Fn(u64, u64, u64, u16) -> u32 + Copy,
    R: Fn(u64, u64, u16) -> u64,
    T: Fn(&CalibrationKind, u64) -> u32,
    G: Fn(Quad<u32>, Quad<u32>) -> Quad<u32> + Sync,
    L: Fn(usize, usize) -> Option<A> + Sync,
    V: Fn(&PixelSample, &A) -> C + Sync,
    Q: Fn(C) -> [u8; 3] + Sync,
    X: Fn(&PixelSample) -> Spot + Sync,
    Y: Fn(&PixelSample, u32) -> Option<Spot> + Sync,
    H: Fn(u32) -> u32 + Copy + Sync,
    M: Fn((u32, u32), (u32, u32)) -> (u32, u32) + Copy + Sync,
    D: Fn(u32, u32) -> u32 + Copy + Sync,
    N: Fn(&A) -> u32 + Sync,
    W: Fn(C, u32, u32) -> C + Sync,
    B: Fn(u32, (u32, [u8; 3]), (u32, [u8; 3])) -> [u8; 3] + Copy + Sync,
    O: Fn(C, &PixelSample, u32, [u8; 3]) -> C + Sync,

    requires
        1 <= factor,
        FULL_DISK_SIZE as int % factor as int == 0,
        red.wf(),
        green.wf(),
        blue.wf(),
        nir.wf(),
        render::gives_reflectances(red.calibration, reflectance),
        render::gives_reflectances(green.calibration, reflectance),
        render::gives_reflectances(blue.calibration, reflectance),
        render::gives_reflectances(nir.calibration, reflectance),
        render::gives_temperatures(*ir_calibration, radiance, temperature),
        forall|sum: Quad<u32>, sample: Quad<u32>| #[trigger] call_requires(plus, (sum, sample)),
        forall|x: usize, y: usize|
            x < FULL_DISK_SIZE as int / factor as int && y < FULL_DISK_SIZE as int / factor as int
                ==> #[trigger] call_requires(locate, (x, y)),
        forall|px: PixelSample, angles: A|
            render::on_image(px, FULL_DISK_SIZE as int / factor as int)
                ==> #[trigger] call_requires(visible, (&px, &angles)),
        forall|color: C| #[trigger] call_requires(quantize, (color,)),
        forall|px: PixelSample|
            render::on_image(px, FULL_DISK_SIZE as int / factor as int) ==> #[trigger] can_shade::<
                A,
                C,
                X,
                Y,
                H,
                M,
                D,
                N,
                W,
                B,
                O,
            >(ir, px, style),
        stays_on_grid(
            layers_of::<A, C, X, Y, H, M, D, N, W, B, O>(&ir),
            ir_width as int,
            ir_counts@.len() as int,
        ),
    ensures
        if !(ir_calibration.kind is Emissive) {
            image == Err::<Rgb8Image, RenderError>(RenderError::CombinedNotThermal)
        } else {
            match render::first_thermal([red, green, blue, nir]) {
                Some(band) => image == Err::<Rgb8Image, RenderError>(
                    RenderError::NoReflectance(band),
                ),
                None => image matches Ok(image) && is_combined_image(
                    image,
                    [red, green, blue, nir],
                    *ir_calibration,
                    ir_counts@,
                    ir_width as int,
                    factor as int,
                    style,
                    reflectance,
                    radiance,
                    temperature,
                    plus,
                    locate,
                    visible,
                    quantize,
                    layers_of::<A, C, X, Y, H, M, D, N, W, B, O>(&ir),
                ),
            }
        },
{
    let table: Vec<u32> = match ir_calibration.brightness_temperature_lut(radiance, temperature) {
        Some(table) => table,
        None => {
            return Err(RenderError::CombinedNotThermal);
        },
    };
    assert(render::is_temperature_table(*ir_calibration, radiance, temperature, table@));
    let temperatures: Vec<u32> = temperature_grid(table.as_slice(), ir_counts);
    let ghost grid = temperatures@;
    assert(is_temperature_grid(*ir_calibration, radiance, temperature, ir_counts@, grid));
    let size: usize = FULL_DISK_SIZE / factor;
    let (sight, layering) = (&visible, &ir);
    let shader = |px: &PixelSample, angles: &A| -> (color: C)
        requires
            render::on_image(*px, size as int),
        ensures
            is_color_by(sight, layering, temperatures@, ir_width as int, style, px, angles, color),
        {
            combined_color(
                px,
                angles,
                temperatures.as_slice(),
                ir_width,
                style,
                sight,
                layering,
            )
        };
    let ghost shown = render::shades_by::<A, C, _, Q>(shader, quantize);
    let ghost shades = combined_shades(
        visible,
        quantize,
        layers_of::<A, C, X, Y, H, M, D, N, W, B, O>(&ir),
        grid,
        ir_width as int,
        style,
    );
    proof {
        assert forall|px: PixelSample, angles: A, pixel: [u8; 3]| #[trigger] shown(
            px,
            angles,
            pixel,
        ) implies shades(px, angles, pixel) by {
            let color = choose|color: C|
                #[trigger] call_ensures(shader, (&px, &angles), color) && call_ensures(
                    quantize,
                    (color,),
                    pixel,
                );
            assert(is_combined_color(
                visible,
                layers_of::<A, C, X, Y, H, M, D, N, W, B, O>(&ir),
                grid,
                ir_width as int,
                style,
                px,
                angles,
                color,
            ));
        }
    }
    let outcome = render::render_disk(
        [red, green, blue, nir],
        factor,
        reflectance,
        plus,
        locate,
        shader,
        quantize,
    );
    proof {
        if outcome is Ok {
            render::lemma_composite_weakens(
                outcome->Ok_0,
                [red, green, blue, nir],
                factor as int,
                reflectance,
                plus,
                locate,
                shown,
                shades,
            );
        }
    }
    outcome
}

} // verus!
