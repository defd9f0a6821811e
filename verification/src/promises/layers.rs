//! The infrared layers over a true-color image.

use vstd::prelude::*;

use crate::compose::{BandImage, Rgb8Image};
use crate::hsd::{Calibration, CalibrationKind};
use crate::ieee;
use crate::palette;
use crate::palette::ClutStyle;
use crate::promises::{disks, painting, sampling};
use crate::render;
use crate::render::{PixelSample, Quad, RenderError};
use crate::sandwich;
use crate::sandwich::{cloud_temperature, combined, combined_color, IrShading, Spot};

verus! {

/// Whether a number is cold enough for a pixel of the Earth to be black: below
/// 160 K.
pub open spec fn is_space(bits: u32) -> bool {
    bits < 0x4320_0000 || bits >= 0x8000_0000
}

/// Whether a temperature is that of the cloud over a pixel: the one at the
/// pixel, and where the cloud is higher than one kilometer, the one where it
/// is seen, if there is one. A cloud is no higher than 16 km.
pub open spec fn is_parallax_free(
    first: u32,
    heights: spec_fn(u32, u32) -> bool,
    resamples: spec_fn(u32, Option<u32>) -> bool,
    bits: u32,
) -> bool {
    if !sampling::is_number(first) {
        bits == first
    } else {
        exists|top: u32|
            #[trigger] heights(first, top) && if 0x3f80_0000 < top <= 0x7f80_0000 {
                exists|held: u32, shifted: Option<u32>|
                    #[trigger] resamples(held, shifted) && held == if top > 0x4180_0000 {
                        0x4180_0000
                    } else {
                        top
                    } && bits == match shifted {
                        Some(sample) => if sampling::is_number(sample) {
                            sample
                        } else {
                            first
                        },
                        None => first,
                    }
            } else {
                bits == first
            }
    }
}

proof fn lemma_parallax_free(
    first: u32,
    heights: spec_fn(u32, u32) -> bool,
    resamples: spec_fn(u32, Option<u32>) -> bool,
    others: spec_fn(u32, Option<u32>) -> bool,
    bits: u32,
)
    requires
        sandwich::is_cloud_temperature(first, heights, resamples, bits),
        forall|top: u32, shifted: Option<u32>|
            #[trigger] resamples(top, shifted) ==> others(top, shifted),
    ensures
        is_parallax_free(first, heights, others, bits),
{
    sampling::lemma_number(first);
    if ieee::finite32(first) {
        let top = choose|top: u32|
            {
                &&& #[trigger] heights(first, top)
                &&& if ieee::less32(0x3f80_0000, palette::clamped_height(top)) {
                    sandwich::is_shifted_temperature(
                        first,
                        palette::clamped_height(top),
                        resamples,
                        bits,
                    )
                } else {
                    bits == first
                }
            };
        let held: u32 = if top > 0x4180_0000 {
            0x4180_0000
        } else {
            top
        };
        assert(ieee::less32(0x3f80_0000, palette::clamped_height(top)) <==> 0x3f80_0000 < top
            <= 0x7f80_0000);
        if 0x3f80_0000 < top <= 0x7f80_0000 {
            assert(palette::clamped_height(top) == held);
            let shifted = choose|shifted: Option<u32>|
                {
                    &&& #[trigger] resamples(held, shifted)
                    &&& match shifted {
                        Some(sample) => bits == if ieee::finite32(sample) {
                            sample
                        } else {
                            first
                        },
                        None => bits == first,
                    }
                };
            if let Some(sample) = shifted {
                sampling::lemma_number(sample);
            }
            assert(others(held, shifted));
        }
        assert(heights(first, top));
    }
}

/// A cloud is found where it is seen, not where it is.
pub proof fn clouds_are_put_where_they_are<H, P>(
    first: u32,
    height: H,
    resample: P,
    bits: u32,
) where H: Fn(u32) -> u32, P: Fn(u32) -> Option<u32>
    requires
        call_ensures(cloud_temperature::<H, P>, (first, height, resample), bits),
    ensures
        is_parallax_free(
            first,
            |temperature: u32, top: u32| call_ensures(height, (temperature,), top),
            |top: u32, shifted: Option<u32>| call_ensures(resample, (top,), shifted),
            bits,
        ),
{
    let resamples = |top: u32, shifted: Option<u32>| call_ensures(resample, (top,), shifted);
    lemma_parallax_free(
        first,
        |temperature: u32, top: u32| call_ensures(height, (temperature,), top),
        resamples,
        resamples,
        bits,
    );
}

/// What the clouds of a combined image are made with.
pub open spec fn is_exact<X, Y, H, M, D, N, W, B, O>(
    ir: &IrShading<X, Y, H, M, D, N, W, B, O>,
    value: spec_fn(u32) -> int,
) -> bool where M: Fn((u32, u32), (u32, u32)) -> (u32, u32), D: Fn(u32, u32) -> u32 {
    &&& sampling::is_reading(value)
    &&& sampling::adds_up(ir.mix, value)
    &&& sampling::divides(ir.divide, value)
}

/// Whether a temperature is that of the cloud seen at a pixel.
pub open spec fn is_cloud<X, Y, H, M, D, N, W, B, O>(
    ir: &IrShading<X, Y, H, M, D, N, W, B, O>,
    temperatures: Seq<u32>,
    width: usize,
    px: PixelSample,
    value: spec_fn(u32) -> int,
    bits: u32,
) -> bool where
    X: Fn(&PixelSample) -> Spot,
    Y: Fn(&PixelSample, u32) -> Option<Spot>,
    H: Fn(u32) -> u32,
 {
    exists|spot: Spot, first: u32|
        {
            &&& call_ensures(ir.here, (&px,), spot)
            &&& #[trigger] sampling::is_mean(
                temperatures,
                width,
                spot.x0,
                spot.y0,
                spot.weights,
                value,
                first,
            )
            &&& is_parallax_free(
                first,
                |temperature: u32, top: u32| call_ensures(ir.height, (temperature,), top),
                |top: u32, shifted: Option<u32>|
                    is_seen(ir, temperatures, width, px, value, top, shifted),
                bits,
            )
        }
}

/// Whether a temperature is the one where a cloud of some height is seen, if
/// it is seen.
pub open spec fn is_seen<X, Y, H, M, D, N, W, B, O>(
    ir: &IrShading<X, Y, H, M, D, N, W, B, O>,
    temperatures: Seq<u32>,
    width: usize,
    px: PixelSample,
    value: spec_fn(u32) -> int,
    top: u32,
    shifted: Option<u32>,
) -> bool where Y: Fn(&PixelSample, u32) -> Option<Spot> {
    exists|spot: Option<Spot>|
        #[trigger] call_ensures(ir.apparent, (&px, top), spot) && match (spot, shifted) {
            (Some(spot), Some(sample)) => sampling::is_mean(
                temperatures,
                width,
                spot.x0,
                spot.y0,
                spot.weights,
                value,
                sample,
            ),
            (None, None) => true,
            _ => false,
        }
}

/// Whether a color is that of a pixel under a cloud: the visible color where
/// there is no temperature, or one below 160 K; otherwise with clouds in the
/// night, and below 235 K with the color of the temperature over it.
pub open spec fn is_layered<A, C, X, Y, H, M, D, N, W, B, O>(
    ir: &IrShading<X, Y, H, M, D, N, W, B, O>,
    points: Seq<(u32, [u8; 3])>,
    px: PixelSample,
    angles: A,
    bits: u32,
    base: C,
    color: C,
) -> bool where
    N: Fn(&A) -> u32,
    W: Fn(C, u32, u32) -> C,
    B: Fn(u32, (u32, [u8; 3]), (u32, [u8; 3])) -> [u8; 3],
    O: Fn(C, &PixelSample, u32, [u8; 3]) -> C,
 {
    if !sampling::is_number(bits) || is_space(bits) {
        color == base
    } else {
        exists|night: u32, clouded: C|
            {
                &&& call_ensures(ir.night, (&angles,), night)
                &&& #[trigger] is_nightly(ir, bits, night, base, clouded)
                &&& if bits < 0x436b_0000 {
                    exists|clut: [u8; 3]|
                        {
                            &&& painting::is_style_color(points, bits, ir.blend, clut)
                            &&& #[trigger] call_ensures(
                                ir.overlay,
                                (clouded, &px, bits, clut),
                                color,
                            )
                        }
                } else {
                    color == clouded
                }
            }
    }
}

/// Whether a color has the clouds of the night, where there is night.
pub open spec fn is_nightly<C, X, Y, H, M, D, N, W, B, O>(
    ir: &IrShading<X, Y, H, M, D, N, W, B, O>,
    bits: u32,
    night: u32,
    base: C,
    clouded: C,
) -> bool where W: Fn(C, u32, u32) -> C {
    if sampling::is_positive(night) {
        call_ensures(ir.clouds, (base, bits, night), clouded)
    } else {
        clouded == base
    }
}

/// Whether a color is that of a pixel of a combined image.
pub open spec fn is_blended<A, C, V, X, Y, H, M, D, N, W, B, O>(
    visible: V,
    ir: &IrShading<X, Y, H, M, D, N, W, B, O>,
    temperatures: Seq<u32>,
    width: usize,
    points: Seq<(u32, [u8; 3])>,
    value: spec_fn(u32) -> int,
    px: PixelSample,
    angles: A,
    color: C,
) -> bool where
    V: Fn(&PixelSample, &A) -> C,
    X: Fn(&PixelSample) -> Spot,
    Y: Fn(&PixelSample, u32) -> Option<Spot>,
    H: Fn(u32) -> u32,
    N: Fn(&A) -> u32,
    W: Fn(C, u32, u32) -> C,
    B: Fn(u32, (u32, [u8; 3]), (u32, [u8; 3])) -> [u8; 3],
    O: Fn(C, &PixelSample, u32, [u8; 3]) -> C,
 {
    exists|base: C, bits: u32|
        {
            &&& call_ensures(visible, (&px, &angles), base)
            &&& is_cloud(ir, temperatures, width, px, value, bits)
            &&& #[trigger] is_layered(ir, points, px, angles, bits, base, color)
        }
}

proof fn lemma_cloud<A, C, X, Y, H, M, D, N, W, B, O>(
    ir: &IrShading<X, Y, H, M, D, N, W, B, O>,
    temperatures: Seq<u32>,
    width: usize,
    px: PixelSample,
    value: spec_fn(u32) -> int,
    bits: u32,
) where
    X: Fn(&PixelSample) -> Spot,
    Y: Fn(&PixelSample, u32) -> Option<Spot>,
    H: Fn(u32) -> u32,
    M: Fn((u32, u32), (u32, u32)) -> (u32, u32),
    D: Fn(u32, u32) -> u32,
    N: Fn(&A) -> u32,
    W: Fn(C, u32, u32) -> C,
    B: Fn(u32, (u32, [u8; 3]), (u32, [u8; 3])) -> [u8; 3],
    O: Fn(C, &PixelSample, u32, [u8; 3]) -> C,

    requires
        is_exact(ir, value),
        sandwich::is_pixel_temperature(
            sandwich::layers_of::<A, C, X, Y, H, M, D, N, W, B, O>(ir),
            temperatures,
            width as int,
            px,
            bits,
        ),
    ensures
        is_cloud(ir, temperatures, width, px, value, bits),
{
    let layers = sandwich::layers_of::<A, C, X, Y, H, M, D, N, W, B, O>(ir);
    let (spot, first) = choose|spot: Spot, first: u32|
        {
            &&& (layers.here)(px, spot)
            &&& #[trigger] sandwich::is_sample_at(layers, temperatures, width as int, spot, first)
            &&& sandwich::is_pixel_temperature_from(
                layers,
                temperatures,
                width as int,
                px,
                first,
                bits,
            )
        };
    sampling::lemma_mean(
        temperatures,
        width,
        spot.x0,
        spot.y0,
        spot.weights,
        ir.mix,
        ir.divide,
        first,
        value,
    );
    let resamples = |top: u32, sample: Option<u32>|
        sandwich::is_sample_above(layers, temperatures, width as int, px, top, sample);
    let others = |top: u32, shifted: Option<u32>|
        is_seen(ir, temperatures, width, px, value, top, shifted);
    assert forall|top: u32, shifted: Option<u32>| #[trigger] resamples(top, shifted) implies others(
        top,
        shifted,
    ) by {
        let there = choose|there: Option<Spot>|
            {
                &&& #[trigger] (layers.apparent)(px, top, there)
                &&& match (there, shifted) {
                    (Some(there), Some(sample)) => sandwich::is_sample_at(
                        layers,
                        temperatures,
                        width as int,
                        there,
                        sample,
                    ),
                    (None, None) => true,
                    _ => false,
                }
            };
        if let (Some(at), Some(sample)) = (there, shifted) {
            sampling::lemma_mean(
                temperatures,
                width,
                at.x0,
                at.y0,
                at.weights,
                ir.mix,
                ir.divide,
                sample,
                value,
            );
        }
        assert(call_ensures(ir.apparent, (&px, top), there));
    }
    let heights = |temperature: u32, top: u32| call_ensures(ir.height, (temperature,), top);
    assert(layers.height =~= heights);
    lemma_parallax_free(first, heights, resamples, others, bits);
    assert(call_ensures(ir.here, (&px,), spot));
}

proof fn lemma_layered<A, C, X, Y, H, M, D, N, W, B, O>(
    ir: &IrShading<X, Y, H, M, D, N, W, B, O>,
    style: ClutStyle,
    px: PixelSample,
    angles: A,
    bits: u32,
    base: C,
    color: C,
) where
    X: Fn(&PixelSample) -> Spot,
    Y: Fn(&PixelSample, u32) -> Option<Spot>,
    H: Fn(u32) -> u32,
    M: Fn((u32, u32), (u32, u32)) -> (u32, u32),
    D: Fn(u32, u32) -> u32,
    N: Fn(&A) -> u32,
    W: Fn(C, u32, u32) -> C,
    B: Fn(u32, (u32, [u8; 3]), (u32, [u8; 3])) -> [u8; 3],
    O: Fn(C, &PixelSample, u32, [u8; 3]) -> C,

    requires
        sandwich::is_layered(
            sandwich::layers_of::<A, C, X, Y, H, M, D, N, W, B, O>(ir),
            style,
            px,
            angles,
            bits,
            base,
            color,
        ),
    ensures
        is_layered(ir, style.points(), px, angles, bits, base, color),
{
    let layers = sandwich::layers_of::<A, C, X, Y, H, M, D, N, W, B, O>(ir);
    sampling::lemma_number(bits);
    if sampling::is_number(bits) && !is_space(bits) {
        let (night, clouded) = choose|night: u32, clouded: C|
            {
                &&& (layers.night)(angles, night)
                &&& #[trigger] sandwich::is_clouded(layers, bits, night, base, clouded)
                &&& sandwich::is_sandwiched(layers, style, px, bits, clouded, color)
            };
        sampling::lemma_positive(night);
        assert(call_ensures(ir.night, (&angles,), night));
        if bits < 0x436b_0000 {
            let clut = choose|clut: [u8; 3]|
                #[trigger] (layers.clut)(style, bits, clut) && (layers.overlay)(
                    clouded,
                    px,
                    bits,
                    clut,
                    color,
                );
            painting::lemma_style_color(style, bits, ir.blend, clut);
            assert(call_ensures(ir.overlay, (clouded, &px, bits, clut), color));
        }
        assert(is_nightly(ir, bits, night, base, clouded));
    }
}

proof fn lemma_blended<A, C, V, X, Y, H, M, D, N, W, B, O>(
    visible: V,
    ir: &IrShading<X, Y, H, M, D, N, W, B, O>,
    temperatures: Seq<u32>,
    width: usize,
    style: ClutStyle,
    value: spec_fn(u32) -> int,
    px: PixelSample,
    angles: A,
    color: C,
) where
    V: Fn(&PixelSample, &A) -> C,
    X: Fn(&PixelSample) -> Spot,
    Y: Fn(&PixelSample, u32) -> Option<Spot>,
    H: Fn(u32) -> u32,
    M: Fn((u32, u32), (u32, u32)) -> (u32, u32),
    D: Fn(u32, u32) -> u32,
    N: Fn(&A) -> u32,
    W: Fn(C, u32, u32) -> C,
    B: Fn(u32, (u32, [u8; 3]), (u32, [u8; 3])) -> [u8; 3],
    O: Fn(C, &PixelSample, u32, [u8; 3]) -> C,

    requires
        is_exact(ir, value),
        sandwich::is_combined_color(
            visible,
            sandwich::layers_of::<A, C, X, Y, H, M, D, N, W, B, O>(ir),
            temperatures,
            width as int,
            style,
            px,
            angles,
            color,
        ),
    ensures
        is_blended(visible, ir, temperatures, width, style.points(), value, px, angles, color),
{
    let layers = sandwich::layers_of::<A, C, X, Y, H, M, D, N, W, B, O>(ir);
    let base = choose|base: C|
        #[trigger] call_ensures(visible, (&px, &angles), base) && sandwich::is_combined_over(
            layers,
            temperatures,
            width as int,
            style,
            px,
            angles,
            base,
            color,
        );
    let bits = choose|bits: u32|
        #[trigger] sandwich::is_pixel_temperature(layers, temperatures, width as int, px, bits)
            && sandwich::is_layered(layers, style, px, angles, bits, base, color);
    lemma_cloud::<A, C, X, Y, H, M, D, N, W, B, O>(ir, temperatures, width, px, value, bits);
    lemma_layered(ir, style, px, angles, bits, base, color);
}

/// The color of a pixel is its visible color under the cloud that is seen
/// there.
pub proof fn colors_are_layered<A, C, V, X, Y, H, M, D, N, W, B, O>(
    px: &PixelSample,
    angles: &A,
    temperatures: &[u32],
    width: usize,
    style: ClutStyle,
    visible: &V,
    ir: &IrShading<X, Y, H, M, D, N, W, B, O>,
    points: &'static [(u32, [u8; 3])],
    value: spec_fn(u32) -> int,
    color: C,
) where
    V: Fn(&PixelSample, &A) -> C,
    X: Fn(&PixelSample) -> Spot,
    Y: Fn(&PixelSample, u32) -> Option<Spot>,
    H: Fn(u32) -> u32 + Copy,
    M: Fn((u32, u32), (u32, u32)) -> (u32, u32) + Copy,
    D: Fn(u32, u32) -> u32 + Copy,
    N: Fn(&A) -> u32,
    W: Fn(C, u32, u32) -> C,
    B: Fn(u32, (u32, [u8; 3]), (u32, [u8; 3])) -> [u8; 3] + Copy,
    O: Fn(C, &PixelSample, u32, [u8; 3]) -> C,

    requires
        call_ensures(
            combined_color::<A, C, V, X, Y, H, M, D, N, W, B, O>,
            (px, angles, temperatures, width, style, visible, ir),
            color,
        ),
        call_ensures(ClutStyle::table, (style,), points),
        is_exact(ir, value),
    ensures
        is_blended(*visible, ir, temperatures@, width, points@, value, *px, *angles, color),
{
    lemma_blended(*visible, ir, temperatures@, width, style, value, *px, *angles, color);
}

/// Whether a grid holds a temperature for each count.
pub open spec fn are_temperatures<R, T>(
    cal: Calibration,
    radiance: R,
    temperature: T,
    counts: Seq<u16>,
    temperatures: Seq<u32>,
) -> bool where R: Fn(u64, u64, u16) -> u64, T: Fn(&CalibrationKind, u64) -> u32 {
    &&& temperatures.len() == counts.len()
    &&& forall|i: int|
        0 <= i < counts.len() ==> painting::may_have(
            cal,
            radiance,
            temperature,
            #[trigger] counts[i],
            temperatures[i],
        )
}

/// What gives the pixels of a combined image.
pub open spec fn blends_and_quantizes<A, C, V, Q, X, Y, H, M, D, N, W, B, O>(
    visible: V,
    quantize: Q,
    ir: &IrShading<X, Y, H, M, D, N, W, B, O>,
    temperatures: Seq<u32>,
    width: usize,
    points: Seq<(u32, [u8; 3])>,
    value: spec_fn(u32) -> int,
) -> spec_fn(PixelSample, A, [u8; 3]) -> bool where
    V: Fn(&PixelSample, &A) -> C,
    Q: Fn(C) -> [u8; 3],
    X: Fn(&PixelSample) -> Spot,
    Y: Fn(&PixelSample, u32) -> Option<Spot>,
    H: Fn(u32) -> u32,
    N: Fn(&A) -> u32,
    W: Fn(C, u32, u32) -> C,
    B: Fn(u32, (u32, [u8; 3]), (u32, [u8; 3])) -> [u8; 3],
    O: Fn(C, &PixelSample, u32, [u8; 3]) -> C,
 {
    |px: PixelSample, angles: A, pixel: [u8; 3]|
        exists|color: C|
            {
                &&& #[trigger] is_blended(
                    visible,
                    ir,
                    temperatures,
                    width,
                    points,
                    value,
                    px,
                    angles,
                    color,
                )
                &&& call_ensures(quantize, (color,), pixel)
            }
}

/// Each pixel of a combined image is made of the pixels of its own block that
/// all four bands measured, under the cloud that is seen there.
pub proof fn combined_pixels_are_layered<
    F,
    G,
    L,
    A,
    C,
    R,
    T,
    V,
    Q,
    X,
    Y,
    H,
    M,
    D,
    N,
    W,
    B,
    O,
>(
    red: &BandImage,
    green: &BandImage,
    blue: &BandImage,
    nir: &BandImage,
    ir_calibration: &Calibration,
    ir_counts: &[u16],
    ir_width: usize,
    factor: usize,
    style: ClutStyle,
    reflectance: F,
    radiance: R,
    temperature: T,
    plus: G,
    locate: L,
    visible: V,
    quantize: Q,
    ir: IrShading<X, Y, H, M, D, N, W, B, O>,
    outcome: Result<Rgb8Image, RenderError>,
    points: &'static [(u32, [u8; 3])],
    reading: spec_fn(u32) -> int,
    value: spec_fn(Quad<u32>) -> int,
    x: int,
    y: int,
) where
    F: Fn(u64, u64, u64, u16) -> u32 + Copy,
    R: Fn(u64, u64, u16) -> u64,
    T: Fn(&CalibrationKind, u64) -> u32,
    G: Fn(Quad<u32>, Quad<u32>) -> Quad<u32> + Sync,
    L: Fn(usize, usize) -> Option<A> + Sync,
    V: Fn(&PixelSample, &A) -> C + Sync,
    Q: Fn(C) -> [u8; 3] + Sync,
    X: Fn(&PixelSample) -> Spot + Sync,
    Y: Fn(&PixelSample, u32) -> Option<Spot> + Sync,
    H: Fn(u32) -> u32 + Copy + Sync,
    M: Fn((u32, u32), (u32, u32)) -> (u32, u32) + Copy + Sync,
    D: Fn(u32, u32) -> u32 + Copy + Sync,
    N: Fn(&A) -> u32 + Sync,
    W: Fn(C, u32, u32) -> C + Sync,
    B: Fn(u32, (u32, [u8; 3]), (u32, [u8; 3])) -> [u8; 3] + Copy + Sync,
    O: Fn(C, &PixelSample, u32, [u8; 3]) -> C + Sync,

    requires
        call_ensures(
            combined::<F, G, L, A, C, R, T, V, Q, X, Y, H, M, D, N, W, B, O>,
            (
                red,
                green,
                blue,
                nir,
                ir_calibration,
                ir_counts,
                ir_width,
                factor,
                style,
                reflectance,
                radiance,
                temperature,
                plus,
                locate,
                visible,
                quantize,
                ir,
            ),
            outcome,
        ),
        call_ensures(ClutStyle::table, (style,), points),
        1 <= factor,
        disks::measures(plus, value),
        is_exact(&ir, reading),
        0 <= x < 11000int / factor as int,
        0 <= y < 11000int / factor as int,
    ensures
        outcome is Ok <==> ir_calibration.kind is Emissive && disks::all_reflect(
            [red, green, blue, nir],
        ),
        match outcome {
            Ok(image) => exists|temperatures: Seq<u32>|
                {
                    &&& #[trigger] are_temperatures(
                        *ir_calibration,
                        radiance,
                        temperature,
                        ir_counts@,
                        temperatures,
                    )
                    &&& disks::is_disk_cell(
                        image,
                        [red, green, blue, nir],
                        factor,
                        reflectance,
                        locate,
                        blends_and_quantizes::<A, C, V, Q, X, Y, H, M, D, N, W, B, O>(
                            visible,
                            quantize,
                            &ir,
                            temperatures,
                            ir_width,
                            points@,
                            reading,
                        ),
                        value,
                        x,
                        y,
                    )
                },
            Err(error) => if ir_calibration.kind is Emissive {
                disks::names_first_thermal([red, green, blue, nir], error)
            } else {
                error == RenderError::CombinedNotThermal
            },
        },
{
    let bands = [red, green, blue, nir];
    disks::lemma_first_thermal(bands);
    if let Ok(image) = outcome {
        let layers = sandwich::layers_of::<A, C, X, Y, H, M, D, N, W, B, O>(&ir);
        let temperatures = choose|temperatures: Seq<u32>|
            #[trigger] sandwich::is_temperature_grid(
                *ir_calibration,
                radiance,
                temperature,
                ir_counts@,
                temperatures,
            ) && render::is_composite(
                image,
                bands,
                factor as int,
                reflectance,
                plus,
                locate,
                sandwich::combined_shades(
                    visible,
                    quantize,
                    layers,
                    temperatures,
                    ir_width as int,
                    style,
                ),
            );
        let shades = sandwich::combined_shades(
            visible,
            quantize,
            layers,
            temperatures,
            ir_width as int,
            style,
        );
        let other = blends_and_quantizes::<A, C, V, Q, X, Y, H, M, D, N, W, B, O>(
            visible,
            quantize,
            &ir,
            temperatures,
            ir_width,
            points@,
            reading,
        );
        assert forall|px: PixelSample, angles: A, pixel: [u8; 3]| #[trigger]
            shades(px, angles, pixel) implies other(px, angles, pixel) by {
            let color = choose|color: C|
                #[trigger] sandwich::is_combined_color(
                    visible,
                    layers,
                    temperatures,
                    ir_width as int,
                    style,
                    px,
                    angles,
                    color,
                ) && call_ensures(quantize, (color,), pixel);
            lemma_blended(visible, &ir, temperatures, ir_width, style, reading, px, angles, color);
            assert(is_blended(
                visible,
                &ir,
                temperatures,
                ir_width,
                points@,
                reading,
                px,
                angles,
                color,
            ));
        }
        render::lemma_composite_weakens(
            image,
            bands,
            factor as int,
            reflectance,
            plus,
            locate,
            shades,
            other,
        );
        disks::lemma_composite(
            image,
            bands,
            factor,
            reflectance,
            plus,
            locate,
            other,
            value,
            x,
            y,
        );
        lemma_temperatures(*ir_calibration, radiance, temperature, ir_counts@, temperatures);
    }
}

proof fn lemma_temperatures<R, T>(
    cal: Calibration,
    radiance: R,
    temperature: T,
    counts: Seq<u16>,
    temperatures: Seq<u32>,
) where R: Fn(u64, u64, u16) -> u64, T: Fn(&CalibrationKind, u64) -> u32
    requires
        sandwich::is_temperature_grid(cal, radiance, temperature, counts, temperatures),
    ensures
        are_temperatures(cal, radiance, temperature, counts, temperatures),
{
    let table = choose|table: Seq<u32>|
        #[trigger] render::is_temperature_table(cal, radiance, temperature, table) && temperatures
            == counts.map_values(|count: u16| table[count as int]);
    assert forall|i: int| 0 <= i < counts.len() implies painting::may_have(
        cal,
        radiance,
        temperature,
        #[trigger] counts[i],
        temperatures[i],
    ) by {
        painting::lemma_may_have(cal, radiance, temperature, table, counts[i]);
    }
}

} // verus!
