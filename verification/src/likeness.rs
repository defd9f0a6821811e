//! How the combined product is like the true-color image: what holds of it on
//! grids without a temperature and without cold cloud.
//!
//! Most of this is said twice. Of any arithmetic: an image of the one product
//! is one that the other may be. And of arithmetic that is a function of its
//! arguments: their bytes are the same.

use vstd::prelude::*;

use crate::compose::{BandImage, Rgb8Image};
use crate::grid;
use crate::hsd::{Calibration, CalibrationKind};
use crate::ieee;
use crate::palette;
use crate::palette::ClutStyle;
use crate::render;
use crate::render::{PixelSample, Quad};
use crate::sandwich;
use crate::sandwich::{Layers, Spot};
use crate::tuning::{PARALLAX_MIN_HEIGHT_KM, SANDWICH_START, SPACE_BT_CUTOFF};

verus! {

// ---------------------------------------------------------------------------
// Grids without a temperature, and without cold cloud
// ---------------------------------------------------------------------------

/// Whether no temperature of a grid is a finite number.
pub open spec fn has_no_temperature(temperatures: Seq<u32>) -> bool {
    forall|i: int| 0 <= i < temperatures.len() ==> !ieee::finite32(#[trigger] temperatures[i])
}

/// Whether a finite number may be the temperature of a count.
pub open spec fn has_temperature<R, T>(
    cal: Calibration,
    radiance: R,
    temperature: T,
    count: u16,
    bits: u32,
) -> bool where R: Fn(u64, u64, u16) -> u64, T: Fn(&CalibrationKind, u64) -> u32 {
    cal.valid(count) && cal.temperature_of(radiance, temperature, count, bits) && ieee::finite32(
        bits,
    )
}

proof fn lemma_grid_temperature<R, T>(
    cal: Calibration,
    radiance: R,
    temperature: T,
    counts: Seq<u16>,
    temperatures: Seq<u32>,
    i: int,
) where R: Fn(u64, u64, u16) -> u64, T: Fn(&CalibrationKind, u64) -> u32
    requires
        sandwich::is_temperature_grid(cal, radiance, temperature, counts, temperatures),
        0 <= i < temperatures.len(),
    ensures
        temperatures.len() == counts.len(),
        ieee::finite32(temperatures[i]) ==> has_temperature(
            cal,
            radiance,
            temperature,
            counts[i],
            temperatures[i],
        ),
{
    let table = choose|table: Seq<u32>|
        #[trigger] render::is_temperature_table(cal, radiance, temperature, table) && temperatures
            == counts.map_values(|count: u16| table[count as int]);
    assert(table[counts[i] as int] == temperatures[i]);
    assert(!ieee::finite32(ieee::NAN32));
}

/// Whether no count has a finite temperature, because it is a sentinel, its
/// radiance is not positive, or there is none for it.
pub open spec fn have_no_temperature<R, T>(
    cal: Calibration,
    radiance: R,
    temperature: T,
    counts: Seq<u16>,
) -> bool where R: Fn(u64, u64, u16) -> u64, T: Fn(&CalibrationKind, u64) -> u32 {
    forall|i: int, bits: u32|
        0 <= i < counts.len() ==> !#[trigger] has_temperature(
            cal,
            radiance,
            temperature,
            counts[i],
            bits,
        )
}

/// A grid of counts without a temperature has none.
pub proof fn counts_without_data_have_no_temperature<R, T>(
    cal: Calibration,
    radiance: R,
    temperature: T,
    counts: Seq<u16>,
    temperatures: Seq<u32>,
) where R: Fn(u64, u64, u16) -> u64, T: Fn(&CalibrationKind, u64) -> u32
    requires
        sandwich::is_temperature_grid(cal, radiance, temperature, counts, temperatures),
        have_no_temperature(cal, radiance, temperature, counts),
    ensures
        has_no_temperature(temperatures),
{
    assert forall|i: int| 0 <= i < temperatures.len() implies !ieee::finite32(
        #[trigger] temperatures[i],
    ) by {
        lemma_grid_temperature(cal, radiance, temperature, counts, temperatures, i);
    }
}

/// Sentinels have no temperature.
pub proof fn sentinels_have_no_temperature<R, T>(
    cal: Calibration,
    radiance: R,
    temperature: T,
    counts: Seq<u16>,
) where R: Fn(u64, u64, u16) -> u64, T: Fn(&CalibrationKind, u64) -> u32
    requires
        forall|i: int| 0 <= i < counts.len() ==> !cal.valid(#[trigger] counts[i]),
    ensures
        have_no_temperature(cal, radiance, temperature, counts),
{
}

/// The values that are sampled at a spot are temperatures of the grid.
proof fn lemma_taps_are_temperatures(
    temperatures: Seq<u32>,
    width: int,
    spot: Spot,
    k: int,
)
    requires
        sandwich::on_grid(spot, width, temperatures.len() as int),
        0 <= k < 4,
    ensures
        temperatures.contains(
            sandwich::taps(temperatures, width, spot.x0 as int, spot.y0 as int, spot.weights)[k].0,
        ),
{
    let (x0, y0) = (spot.x0 as int, spot.y0 as int);
    let height = temperatures.len() as int / width;
    let (x1, y1) = (sandwich::next_within(x0, width), sandwich::next_within(y0, height));
    assert(height * width <= temperatures.len()) by (nonlinear_arith)
        requires
            height == temperatures.len() as int / width,
            width > 0,
    ;
    grid::cell_has_place(width, height, y0, x0);
    grid::cell_has_place(width, height, y0, x1);
    grid::cell_has_place(width, height, y1, x0);
    grid::cell_has_place(width, height, y1, x1);
}

proof fn lemma_no_sample<A, C, M, D>(
    layers: Layers<A, C, M, D>,
    temperatures: Seq<u32>,
    width: int,
    spot: Spot,
    bits: u32,
) where M: Fn((u32, u32), (u32, u32)) -> (u32, u32), D: Fn(u32, u32) -> u32
    requires
        has_no_temperature(temperatures),
        sandwich::on_grid(spot, width, temperatures.len() as int),
        sandwich::is_sample_at(layers, temperatures, width, spot, bits),
    ensures
        bits == ieee::NAN32,
{
    let four = sandwich::taps(temperatures, width, spot.x0 as int, spot.y0 as int, spot.weights);
    let finite = |tap: (u32, u32)| ieee::finite32(tap.0);
    assert forall|k: int| 0 <= k < four.len() implies !finite(#[trigger] four[k]) by {
        lemma_taps_are_temperatures(temperatures, width, spot, k);
        let i = choose|i: int| 0 <= i < temperatures.len() && temperatures[i] == four[k].0;
        assert(!ieee::finite32(temperatures[i]));
    }
    four.lemma_all_neg_filter_empty(finite);
    assert(sandwich::finite_taps(four).len() == 0);
    assert(!ieee::less32(0, 0));
}

/// Without a finite temperature the combined product is the true-color image,
/// whatever the style: each of its pixels is one that the visible imagery
/// alone gives.
pub proof fn without_temperatures_only_the_visible_shows<F, G, L, A, C, V, Q, M, D>(
    image: Rgb8Image,
    bands: [&BandImage; 4],
    factor: int,
    reflectance: F,
    plus: G,
    locate: L,
    visible: V,
    quantize: Q,
    layers: Layers<A, C, M, D>,
    temperatures: Seq<u32>,
    width: int,
    style: ClutStyle,
) where
    F: Fn(u64, u64, u64, u16) -> u32,
    G: Fn(Quad<u32>, Quad<u32>) -> Quad<u32>,
    L: Fn(usize, usize) -> Option<A>,
    V: Fn(&PixelSample, &A) -> C,
    Q: Fn(C) -> [u8; 3],
    M: Fn((u32, u32), (u32, u32)) -> (u32, u32),
    D: Fn(u32, u32) -> u32,

    requires
        has_no_temperature(temperatures),
        sandwich::stays_on_grid(layers, width, temperatures.len() as int),
        render::is_composite(
            image,
            bands,
            factor,
            reflectance,
            plus,
            locate,
            sandwich::combined_shades(visible, quantize, layers, temperatures, width, style),
        ),
    ensures
        render::is_composite(
            image,
            bands,
            factor,
            reflectance,
            plus,
            locate,
            render::shades_by::<A, C, V, Q>(visible, quantize),
        ),
{
    let shades = sandwich::combined_shades(visible, quantize, layers, temperatures, width, style);
    let plain = render::shades_by::<A, C, V, Q>(visible, quantize);
    assert forall|px: PixelSample, angles: A, pixel: [u8; 3]| #[trigger] shades(
        px,
        angles,
        pixel,
    ) implies plain(px, angles, pixel) by {
        let color = choose|color: C|
            #[trigger] sandwich::is_combined_color(
                visible,
                layers,
                temperatures,
                width,
                style,
                px,
                angles,
                color,
            ) && call_ensures(quantize, (color,), pixel);
        let base = choose|base: C|
            #[trigger] call_ensures(visible, (&px, &angles), base) && sandwich::is_combined_over(
                layers,
                temperatures,
                width,
                style,
                px,
                angles,
                base,
                color,
            );
        let bits = choose|bits: u32|
            #[trigger] sandwich::is_pixel_temperature(layers, temperatures, width, px, bits) && sandwich::is_layered(
                layers,
                style,
                px,
                angles,
                bits,
                base,
                color,
            );
        let (spot, first) = choose|spot: Spot, first: u32|
            {
                &&& (layers.here)(px, spot)
                &&& #[trigger] sandwich::is_sample_at(layers, temperatures, width, spot, first)
                &&& sandwich::is_pixel_temperature_from(layers, temperatures, width, px, first, bits)
            };
        lemma_no_sample(layers, temperatures, width, spot, first);
        assert(!ieee::finite32(ieee::NAN32));
        assert(bits == first);
        assert(color == base);
    }
    render::lemma_composite_weakens(
        image,
        bands,
        factor,
        reflectance,
        plus,
        locate,
        shades,
        plain,
    );
}

/// Whether a spot is one at which the grid may be sampled.
pub open spec fn gives_spot<A, C, M, D>(layers: Layers<A, C, M, D>, spot: Spot) -> bool {
    ||| exists|px: PixelSample| #[trigger] (layers.here)(px, spot)
    ||| exists|px: PixelSample, top: u32| #[trigger] (layers.apparent)(px, top, Some(spot))
}

/// Whether no sample of a grid is as cold as the tops that get the sandwich
/// overlay.
pub open spec fn has_no_cold_sample<A, C, M, D>(
    layers: Layers<A, C, M, D>,
    temperatures: Seq<u32>,
    width: int,
) -> bool where M: Fn((u32, u32), (u32, u32)) -> (u32, u32), D: Fn(u32, u32) -> u32 {
    forall|spot: Spot, bits: u32|
        gives_spot(layers, spot) && #[trigger] sandwich::is_sample_at(
            layers,
            temperatures,
            width,
            spot,
            bits,
        ) ==> !ieee::less32(bits, SANDWICH_START)
}

/// Whether a value is below a floor.
pub open spec fn is_below(bits: u32, floor: u32) -> bool {
    ieee::finite32(bits) && ieee::less32(bits, floor)
}

/// Values with their weights.
pub open spec fn weighted(values: Quad<u32>, weights: Quad<u32>) -> Seq<(u32, u32)> {
    seq![
        (values.0, weights.0),
        (values.1, weights.1),
        (values.2, weights.2),
        (values.3, weights.3),
    ]
}

/// Whether the average of temperatures of which none is below a floor is not
/// as cold as the tops that get the sandwich overlay. The floor may stand
/// above those, and so leave room for rounding.
pub open spec fn averages_stay_warm<A, C, M, D>(
    layers: Layers<A, C, M, D>,
    floor: u32,
) -> bool where M: Fn((u32, u32), (u32, u32)) -> (u32, u32), D: Fn(u32, u32) -> u32 {
    forall|spot: Spot, values: Quad<u32>, bits: u32|
        gives_spot(layers, spot) && !is_below(values.0, floor) && !is_below(values.1, floor)
            && !is_below(values.2, floor) && !is_below(values.3, floor)
            && #[trigger] sandwich::is_bilinear_sample(
            weighted(values, spot.weights),
            layers.mix,
            layers.divide,
            bits,
        ) ==> !ieee::less32(bits, SANDWICH_START)
}

/// A grid without a temperature below the floor has no cold sample.
pub proof fn warm_grids_have_no_cold_sample<A, C, M, D>(
    layers: Layers<A, C, M, D>,
    temperatures: Seq<u32>,
    width: int,
    floor: u32,
) where M: Fn((u32, u32), (u32, u32)) -> (u32, u32), D: Fn(u32, u32) -> u32
    requires
        averages_stay_warm(layers, floor),
        sandwich::stays_on_grid(layers, width, temperatures.len() as int),
        forall|i: int| 0 <= i < temperatures.len() ==> !is_below(#[trigger] temperatures[i], floor),
    ensures
        has_no_cold_sample(layers, temperatures, width),
{
    assert forall|spot: Spot, bits: u32|
        gives_spot(layers, spot) && #[trigger] sandwich::is_sample_at(
            layers,
            temperatures,
            width,
            spot,
            bits,
        ) implies !ieee::less32(bits, SANDWICH_START) by {
        assert(sandwich::on_grid(spot, width, temperatures.len() as int));
        let four = sandwich::taps(
            temperatures,
            width,
            spot.x0 as int,
            spot.y0 as int,
            spot.weights,
        );
        assert forall|k: int| 0 <= k < 4 implies !is_below((#[trigger] four[k]).0, floor) by {
            lemma_taps_are_temperatures(temperatures, width, spot, k);
            let i = choose|i: int| 0 <= i < temperatures.len() && temperatures[i] == four[k].0;
            assert(!is_below(temperatures[i], floor));
        }
        let values = (four[0].0, four[1].0, four[2].0, four[3].0);
        assert(four =~= weighted(values, spot.weights));
        assert(sandwich::is_bilinear_sample(
            weighted(values, spot.weights),
            layers.mix,
            layers.divide,
            bits,
        ));
    }
}

proof fn lemma_no_cold_pixel<A, C, M, D>(
    layers: Layers<A, C, M, D>,
    temperatures: Seq<u32>,
    width: int,
    px: PixelSample,
    bits: u32,
) where M: Fn((u32, u32), (u32, u32)) -> (u32, u32), D: Fn(u32, u32) -> u32
    requires
        has_no_cold_sample(layers, temperatures, width),
        sandwich::is_pixel_temperature(layers, temperatures, width, px, bits),
    ensures
        !ieee::less32(bits, SANDWICH_START),
{
    let (spot, first) = choose|spot: Spot, first: u32|
        {
            &&& (layers.here)(px, spot)
            &&& #[trigger] sandwich::is_sample_at(layers, temperatures, width, spot, first)
            &&& sandwich::is_pixel_temperature_from(layers, temperatures, width, px, first, bits)
        };
    assert(gives_spot(layers, spot));
    let resamples = |top: u32, sample: Option<u32>|
        sandwich::is_sample_above(layers, temperatures, width, px, top, sample);
    if bits != first {
        let top = choose|top: u32|
            {
                &&& #[trigger] (layers.height)(first, top)
                &&& if ieee::less32(PARALLAX_MIN_HEIGHT_KM, palette::clamped_height(top)) {
                    sandwich::is_shifted_temperature(first, palette::clamped_height(top), resamples, bits)
                } else {
                    bits == first
                }
            };
        let clamped = palette::clamped_height(top);
        assert(sandwich::is_shifted_temperature(first, clamped, resamples, bits));
        assert(resamples(clamped, Some(bits)));
        let there = choose|there: Option<Spot>|
            {
                &&& #[trigger] (layers.apparent)(px, clamped, there)
                &&& match (there, Some(bits)) {
                    (Some(spot), Some(bits)) => sandwich::is_sample_at(
                        layers,
                        temperatures,
                        width,
                        spot,
                        bits,
                    ),
                    (None, None) => true,
                    _ => false,
                }
            };
        assert((layers.apparent)(px, clamped, Some(there->0)));
        assert(gives_spot(layers, there->0));
    }
}

/// Where no cloud top is cold, a pixel has the color that it has in any other
/// style.
proof fn lemma_style_free<A, C, V, Q, M, D>(
    visible: V,
    quantize: Q,
    layers: Layers<A, C, M, D>,
    temperatures: Seq<u32>,
    width: int,
    style: ClutStyle,
    other: ClutStyle,
    px: PixelSample,
    angles: A,
    pixel: [u8; 3],
) where
    V: Fn(&PixelSample, &A) -> C,
    Q: Fn(C) -> [u8; 3],
    M: Fn((u32, u32), (u32, u32)) -> (u32, u32),
    D: Fn(u32, u32) -> u32,

    requires
        has_no_cold_sample(layers, temperatures, width),
        sandwich::is_combined_pixel(
            visible,
            quantize,
            layers,
            temperatures,
            width,
            style,
            px,
            angles,
            pixel,
        ),
    ensures
        sandwich::is_combined_pixel(
            visible,
            quantize,
            layers,
            temperatures,
            width,
            other,
            px,
            angles,
            pixel,
        ),
        (forall|night: u32|
            #[trigger] (layers.night)(angles, night) ==> !ieee::less32(0, night))
            ==> render::is_quantized(visible, quantize, px, angles, pixel),
{
    let color = choose|color: C|
        #[trigger] sandwich::is_combined_color(
            visible,
            layers,
            temperatures,
            width,
            style,
            px,
            angles,
            color,
        ) && call_ensures(quantize, (color,), pixel);
    let base = choose|base: C|
        #[trigger] call_ensures(visible, (&px, &angles), base) && sandwich::is_combined_over(
            layers,
            temperatures,
            width,
            style,
            px,
            angles,
            base,
            color,
        );
    let bits = choose|bits: u32|
        #[trigger] sandwich::is_pixel_temperature(layers, temperatures, width, px, bits) && sandwich::is_layered(
            layers,
            style,
            px,
            angles,
            bits,
            base,
            color,
        );
    lemma_no_cold_pixel(layers, temperatures, width, px, bits);
    if ieee::finite32(bits) && !ieee::less32(bits, SPACE_BT_CUTOFF) {
        let (night, clouded) = choose|night: u32, clouded: C|
            {
                &&& (layers.night)(angles, night)
                &&& #[trigger] sandwich::is_clouded(layers, bits, night, base, clouded)
                &&& sandwich::is_sandwiched(layers, style, px, bits, clouded, color)
            };
        assert(sandwich::is_clouded(layers, bits, night, base, clouded));
        assert(sandwich::is_sandwiched(layers, other, px, bits, clouded, color));
    }
    assert(sandwich::is_layered(layers, other, px, angles, bits, base, color));
    assert(sandwich::is_combined_over(layers, temperatures, width, other, px, angles, base, color));
    assert(sandwich::is_combined_color(
        visible,
        layers,
        temperatures,
        width,
        other,
        px,
        angles,
        color,
    ));
}

/// Where no cloud top is cold, the combined product does not depend on the
/// style: an image of it in one style is one in every other.
pub proof fn on_warm_grids_the_style_does_not_matter<F, G, L, A, C, V, Q, M, D>(
    image: Rgb8Image,
    bands: [&BandImage; 4],
    factor: int,
    reflectance: F,
    plus: G,
    locate: L,
    visible: V,
    quantize: Q,
    layers: Layers<A, C, M, D>,
    temperatures: Seq<u32>,
    width: int,
    style: ClutStyle,
    other: ClutStyle,
) where
    F: Fn(u64, u64, u64, u16) -> u32,
    G: Fn(Quad<u32>, Quad<u32>) -> Quad<u32>,
    L: Fn(usize, usize) -> Option<A>,
    V: Fn(&PixelSample, &A) -> C,
    Q: Fn(C) -> [u8; 3],
    M: Fn((u32, u32), (u32, u32)) -> (u32, u32),
    D: Fn(u32, u32) -> u32,

    requires
        has_no_cold_sample(layers, temperatures, width),
        render::is_composite(
            image,
            bands,
            factor,
            reflectance,
            plus,
            locate,
            sandwich::combined_shades(visible, quantize, layers, temperatures, width, style),
        ),
    ensures
        render::is_composite(
            image,
            bands,
            factor,
            reflectance,
            plus,
            locate,
            sandwich::combined_shades(visible, quantize, layers, temperatures, width, other),
        ),
{
    let shades = sandwich::combined_shades(visible, quantize, layers, temperatures, width, style);
    let restyled = sandwich::combined_shades(visible, quantize, layers, temperatures, width, other);
    assert forall|px: PixelSample, angles: A, pixel: [u8; 3]| #[trigger] shades(
        px,
        angles,
        pixel,
    ) implies restyled(px, angles, pixel) by {
        lemma_style_free(
            visible,
            quantize,
            layers,
            temperatures,
            width,
            style,
            other,
            px,
            angles,
            pixel,
        );
    }
    render::lemma_composite_weakens(
        image,
        bands,
        factor,
        reflectance,
        plus,
        locate,
        shades,
        restyled,
    );
}

/// Where no cloud top is cold, a pixel in full daylight is the one of the
/// true-color image.
pub proof fn warm_pixels_in_daylight_are_true_color<G, L, A, C, V, Q, M, D>(
    counts: Quad<Seq<u16>>,
    luts: Quad<Seq<u32>>,
    factor: int,
    plus: G,
    locate: L,
    visible: V,
    quantize: Q,
    layers: Layers<A, C, M, D>,
    temperatures: Seq<u32>,
    width: int,
    style: ClutStyle,
    y: usize,
    x: usize,
    pixel: [u8; 3],
) where
    G: Fn(Quad<u32>, Quad<u32>) -> Quad<u32>,
    L: Fn(usize, usize) -> Option<A>,
    V: Fn(&PixelSample, &A) -> C,
    Q: Fn(C) -> [u8; 3],
    M: Fn((u32, u32), (u32, u32)) -> (u32, u32),
    D: Fn(u32, u32) -> u32,

    requires
        has_no_cold_sample(layers, temperatures, width),
        forall|angles: A, night: u32|
            call_ensures(locate, (x, y), Some(angles)) && #[trigger] (layers.night)(angles, night)
                ==> !ieee::less32(0, night),
        render::is_disk_pixel(
            counts,
            luts,
            factor,
            plus,
            locate,
            sandwich::combined_shades(visible, quantize, layers, temperatures, width, style),
            y,
            x,
            pixel,
        ),
    ensures
        render::is_disk_pixel(
            counts,
            luts,
            factor,
            plus,
            locate,
            render::shades_by::<A, C, V, Q>(visible, quantize),
            y,
            x,
            pixel,
        ),
{
    let shades = sandwich::combined_shades(visible, quantize, layers, temperatures, width, style);
    let plain = render::shades_by::<A, C, V, Q>(visible, quantize);
    let samples = render::usable_samples(counts, luts, factor, y as int, x as int);
    if samples.len() > 0 {
        let found = choose|found: Option<A>|
            {
                &&& #[trigger] call_ensures(locate, (x, y), found)
                &&& match found {
                    None => pixel@ == seq![0u8, 0u8, 0u8],
                    Some(angles) => render::is_shaded(
                        plus,
                        samples,
                        y,
                        x,
                        shades,
                        angles,
                        pixel,
                    ),
                }
            };
        if let Some(angles) = found {
            let sum = choose|sum: Quad<u32>|
                #[trigger] render::sums_to(plus, samples, sum) && shades(
                    render::sample_of(y, x, sum, samples.len()),
                    angles,
                    pixel,
                );
            let px = render::sample_of(y, x, sum, samples.len());
            lemma_style_free(
                visible,
                quantize,
                layers,
                temperatures,
                width,
                style,
                style,
                px,
                angles,
                pixel,
            );
            assert(render::sums_to(plus, samples, sum) && plain(px, angles, pixel));
            assert(render::is_shaded(plus, samples, y, x, plain, angles, pixel));
        }
        assert(call_ensures(locate, (x, y), found));
    }
}

// ---------------------------------------------------------------------------
// Arithmetic that is a function of its arguments
// ---------------------------------------------------------------------------

/// Whether the temperatures of counts are functions of their arguments.
pub open spec fn temperatures_are_functions<R, T>(radiance: R, temperature: T) -> bool where
    R: Fn(u64, u64, u16) -> u64,
    T: Fn(&CalibrationKind, u64) -> u32,
 {
    &&& forall|gain: u64, offset: u64, count: u16, a: u64, b: u64|
        #[trigger] call_ensures(radiance, (gain, offset, count), a) && #[trigger] call_ensures(
            radiance,
            (gain, offset, count),
            b,
        ) ==> a == b
    &&& forall|kind: CalibrationKind, level: u64, a: u32, b: u32|
        #[trigger] call_ensures(temperature, (&kind, level), a) && #[trigger] call_ensures(
            temperature,
            (&kind, level),
            b,
        ) ==> a == b
}

/// Whether the sampling of a grid is a function of its arguments.
pub open spec fn sampling_is_function<M, D>(mix: M, divide: D) -> bool where
    M: Fn((u32, u32), (u32, u32)) -> (u32, u32),
    D: Fn(u32, u32) -> u32,
 {
    &&& forall|total: (u32, u32), tap: (u32, u32), a: (u32, u32), b: (u32, u32)|
        #[trigger] call_ensures(mix, (total, tap), a) && #[trigger] call_ensures(
            mix,
            (total, tap),
            b,
        ) ==> a == b
    &&& forall|sum: u32, weight: u32, a: u32, b: u32|
        #[trigger] call_ensures(divide, (sum, weight), a) && #[trigger] call_ensures(
            divide,
            (sum, weight),
            b,
        ) ==> a == b
}

/// Whether the arithmetic of the IR layers is a function of its arguments.
pub open spec fn layers_are_functions<A, C, M, D>(layers: Layers<A, C, M, D>) -> bool where
    M: Fn((u32, u32), (u32, u32)) -> (u32, u32),
    D: Fn(u32, u32) -> u32,
 {
    &&& sampling_is_function(layers.mix, layers.divide)
    &&& forall|px: PixelSample, a: Spot, b: Spot|
        #[trigger] (layers.here)(px, a) && #[trigger] (layers.here)(px, b) ==> a == b
    &&& forall|px: PixelSample, top: u32, a: Option<Spot>, b: Option<Spot>|
        #[trigger] (layers.apparent)(px, top, a) && #[trigger] (layers.apparent)(px, top, b) ==> a
            == b
    &&& forall|temperature: u32, a: u32, b: u32|
        #[trigger] (layers.height)(temperature, a) && #[trigger] (layers.height)(temperature, b)
            ==> a == b
    &&& forall|angles: A, a: u32, b: u32|
        #[trigger] (layers.night)(angles, a) && #[trigger] (layers.night)(angles, b) ==> a == b
    &&& forall|base: C, temperature: u32, night: u32, a: C, b: C|
        #[trigger] (layers.clouds)(base, temperature, night, a) && #[trigger] (layers.clouds)(
            base,
            temperature,
            night,
            b,
        ) ==> a == b
    &&& forall|style: ClutStyle, temperature: u32, a: [u8; 3], b: [u8; 3]|
        #[trigger] (layers.clut)(style, temperature, a) && #[trigger] (layers.clut)(
            style,
            temperature,
            b,
        ) ==> a == b
    &&& forall|base: C, px: PixelSample, temperature: u32, clut: [u8; 3], a: C, b: C|
        #[trigger] (layers.overlay)(base, px, temperature, clut, a)
            && #[trigger] (layers.overlay)(base, px, temperature, clut, b) ==> a == b
}

proof fn lemma_grids_are_determined<R, T>(
    cal: Calibration,
    radiance: R,
    temperature: T,
    counts: Seq<u16>,
    a: Seq<u32>,
    b: Seq<u32>,
) where R: Fn(u64, u64, u16) -> u64, T: Fn(&CalibrationKind, u64) -> u32
    requires
        temperatures_are_functions(radiance, temperature),
        sandwich::is_temperature_grid(cal, radiance, temperature, counts, a),
        sandwich::is_temperature_grid(cal, radiance, temperature, counts, b),
    ensures
        a == b,
{
    let one = choose|table: Seq<u32>|
        #[trigger] render::is_temperature_table(cal, radiance, temperature, table) && a
            == counts.map_values(|count: u16| table[count as int]);
    let two = choose|table: Seq<u32>|
        #[trigger] render::is_temperature_table(cal, radiance, temperature, table) && b
            == counts.map_values(|count: u16| table[count as int]);
    assert forall|i: int| 0 <= i < counts.len() implies #[trigger] a[i] == b[i] by {
        let count = counts[i];
        assert(one[count as int] == a[i] && two[count as int] == b[i]);
        if cal.valid(count) {
            assert(cal.temperature_of(radiance, temperature, count, a[i]));
            assert(cal.temperature_of(radiance, temperature, count, b[i]));
            let p = choose|level: u64|
                {
                    &&& #[trigger] call_ensures(radiance, (cal.gain, cal.offset, count), level)
                    &&& if ieee::at_most64(level, 0) {
                        a[i] == ieee::NAN32
                    } else {
                        call_ensures(temperature, (&cal.kind, level), a[i])
                    }
                };
            let q = choose|level: u64|
                {
                    &&& #[trigger] call_ensures(radiance, (cal.gain, cal.offset, count), level)
                    &&& if ieee::at_most64(level, 0) {
                        b[i] == ieee::NAN32
                    } else {
                        call_ensures(temperature, (&cal.kind, level), b[i])
                    }
                };
            assert(p == q);
        }
    }
    assert(a =~= b);
}

proof fn lemma_mixes_are_determined<M: Fn((u32, u32), (u32, u32)) -> (u32, u32)>(
    mix: M,
    taps: Seq<(u32, u32)>,
    a: (u32, u32),
    b: (u32, u32),
)
    requires
        forall|total: (u32, u32), tap: (u32, u32), a: (u32, u32), b: (u32, u32)|
            #[trigger] call_ensures(mix, (total, tap), a) && #[trigger] call_ensures(
                mix,
                (total, tap),
                b,
            ) ==> a == b,
        sandwich::mixes_to(mix, taps, a),
        sandwich::mixes_to(mix, taps, b),
    ensures
        a == b,
    decreases taps.len(),
{
    if taps.len() > 0 {
        let one = choose|before: (u32, u32)|
            #[trigger] call_ensures(mix, (before, taps.last()), a) && sandwich::mixes_to(
                mix,
                taps.drop_last(),
                before,
            );
        let two = choose|before: (u32, u32)|
            #[trigger] call_ensures(mix, (before, taps.last()), b) && sandwich::mixes_to(
                mix,
                taps.drop_last(),
                before,
            );
        lemma_mixes_are_determined(mix, taps.drop_last(), one, two);
    }
}

proof fn lemma_samples_are_determined<A, C, M, D>(
    layers: Layers<A, C, M, D>,
    temperatures: Seq<u32>,
    width: int,
    spot: Spot,
    a: u32,
    b: u32,
) where M: Fn((u32, u32), (u32, u32)) -> (u32, u32), D: Fn(u32, u32) -> u32
    requires
        sampling_is_function(layers.mix, layers.divide),
        sandwich::is_sample_at(layers, temperatures, width, spot, a),
        sandwich::is_sample_at(layers, temperatures, width, spot, b),
    ensures
        a == b,
{
    let taps = sandwich::finite_taps(
        sandwich::taps(temperatures, width, spot.x0 as int, spot.y0 as int, spot.weights),
    );
    let one = choose|total: (u32, u32)|
        {
            &&& #[trigger] sandwich::mixes_to(layers.mix, taps, total)
            &&& if ieee::less32(0, total.1) {
                call_ensures(layers.divide, (total.0, total.1), a)
            } else {
                a == ieee::NAN32
            }
        };
    let two = choose|total: (u32, u32)|
        {
            &&& #[trigger] sandwich::mixes_to(layers.mix, taps, total)
            &&& if ieee::less32(0, total.1) {
                call_ensures(layers.divide, (total.0, total.1), b)
            } else {
                b == ieee::NAN32
            }
        };
    lemma_mixes_are_determined(layers.mix, taps, one, two);
}

proof fn lemma_samples_above_are_determined<A, C, M, D>(
    layers: Layers<A, C, M, D>,
    temperatures: Seq<u32>,
    width: int,
    px: PixelSample,
    top: u32,
    a: Option<u32>,
    b: Option<u32>,
) where M: Fn((u32, u32), (u32, u32)) -> (u32, u32), D: Fn(u32, u32) -> u32
    requires
        layers_are_functions(layers),
        sandwich::is_sample_above(layers, temperatures, width, px, top, a),
        sandwich::is_sample_above(layers, temperatures, width, px, top, b),
    ensures
        a == b,
{
    let one = choose|spot: Option<Spot>|
        {
            &&& #[trigger] (layers.apparent)(px, top, spot)
            &&& match (spot, a) {
                (Some(spot), Some(bits)) => sandwich::is_sample_at(
                    layers,
                    temperatures,
                    width,
                    spot,
                    bits,
                ),
                (None, None) => true,
                _ => false,
            }
        };
    let two = choose|spot: Option<Spot>|
        {
            &&& #[trigger] (layers.apparent)(px, top, spot)
            &&& match (spot, b) {
                (Some(spot), Some(bits)) => sandwich::is_sample_at(
                    layers,
                    temperatures,
                    width,
                    spot,
                    bits,
                ),
                (None, None) => true,
                _ => false,
            }
        };
    assert(one == two);
    if let Some(spot) = one {
        lemma_samples_are_determined(layers, temperatures, width, spot, a->0, b->0);
    }
}

proof fn lemma_clouds_are_determined<A, C, M, D>(
    layers: Layers<A, C, M, D>,
    temperatures: Seq<u32>,
    width: int,
    px: PixelSample,
    first: u32,
    a: u32,
    b: u32,
) where M: Fn((u32, u32), (u32, u32)) -> (u32, u32), D: Fn(u32, u32) -> u32
    requires
        layers_are_functions(layers),
        sandwich::is_pixel_temperature_from(layers, temperatures, width, px, first, a),
        sandwich::is_pixel_temperature_from(layers, temperatures, width, px, first, b),
    ensures
        a == b,
{
    if ieee::finite32(first) {
        let resamples = |top: u32, sample: Option<u32>|
            sandwich::is_sample_above(layers, temperatures, width, px, top, sample);
        let one = choose|top: u32|
            {
                &&& #[trigger] (layers.height)(first, top)
                &&& if ieee::less32(PARALLAX_MIN_HEIGHT_KM, palette::clamped_height(top)) {
                    sandwich::is_shifted_temperature(
                        first,
                        palette::clamped_height(top),
                        resamples,
                        a,
                    )
                } else {
                    a == first
                }
            };
        let two = choose|top: u32|
            {
                &&& #[trigger] (layers.height)(first, top)
                &&& if ieee::less32(PARALLAX_MIN_HEIGHT_KM, palette::clamped_height(top)) {
                    sandwich::is_shifted_temperature(
                        first,
                        palette::clamped_height(top),
                        resamples,
                        b,
                    )
                } else {
                    b == first
                }
            };
        assert(one == two);
        let top = palette::clamped_height(one);
        if ieee::less32(PARALLAX_MIN_HEIGHT_KM, top) {
            let p = choose|shifted: Option<u32>|
                {
                    &&& #[trigger] resamples(top, shifted)
                    &&& match shifted {
                        Some(sample) => a == if ieee::finite32(sample) {
                            sample
                        } else {
                            first
                        },
                        None => a == first,
                    }
                };
            let q = choose|shifted: Option<u32>|
                {
                    &&& #[trigger] resamples(top, shifted)
                    &&& match shifted {
                        Some(sample) => b == if ieee::finite32(sample) {
                            sample
                        } else {
                            first
                        },
                        None => b == first,
                    }
                };
            lemma_samples_above_are_determined(layers, temperatures, width, px, top, p, q);
        }
    }
}

proof fn lemma_pixel_temperatures_are_determined<A, C, M, D>(
    layers: Layers<A, C, M, D>,
    temperatures: Seq<u32>,
    width: int,
    px: PixelSample,
    a: u32,
    b: u32,
) where M: Fn((u32, u32), (u32, u32)) -> (u32, u32), D: Fn(u32, u32) -> u32
    requires
        layers_are_functions(layers),
        sandwich::is_pixel_temperature(layers, temperatures, width, px, a),
        sandwich::is_pixel_temperature(layers, temperatures, width, px, b),
    ensures
        a == b,
{
    let (spot, first) = choose|spot: Spot, first: u32|
        {
            &&& (layers.here)(px, spot)
            &&& #[trigger] sandwich::is_sample_at(layers, temperatures, width, spot, first)
            &&& sandwich::is_pixel_temperature_from(layers, temperatures, width, px, first, a)
        };
    let (other, second) = choose|spot: Spot, first: u32|
        {
            &&& (layers.here)(px, spot)
            &&& #[trigger] sandwich::is_sample_at(layers, temperatures, width, spot, first)
            &&& sandwich::is_pixel_temperature_from(layers, temperatures, width, px, first, b)
        };
    assert(spot == other);
    lemma_samples_are_determined(layers, temperatures, width, spot, first, second);
    lemma_clouds_are_determined(layers, temperatures, width, px, first, a, b);
}

proof fn lemma_layers_are_determined<A, C, M, D>(
    layers: Layers<A, C, M, D>,
    style: ClutStyle,
    px: PixelSample,
    angles: A,
    temperature: u32,
    base: C,
    a: C,
    b: C,
) where M: Fn((u32, u32), (u32, u32)) -> (u32, u32), D: Fn(u32, u32) -> u32
    requires
        layers_are_functions(layers),
        sandwich::is_layered(layers, style, px, angles, temperature, base, a),
        sandwich::is_layered(layers, style, px, angles, temperature, base, b),
    ensures
        a == b,
{
    if ieee::finite32(temperature) && !ieee::less32(temperature, SPACE_BT_CUTOFF) {
        let (night, clouded) = choose|night: u32, clouded: C|
            {
                &&& (layers.night)(angles, night)
                &&& #[trigger] sandwich::is_clouded(layers, temperature, night, base, clouded)
                &&& sandwich::is_sandwiched(layers, style, px, temperature, clouded, a)
            };
        let (other, covered) = choose|night: u32, clouded: C|
            {
                &&& (layers.night)(angles, night)
                &&& #[trigger] sandwich::is_clouded(layers, temperature, night, base, clouded)
                &&& sandwich::is_sandwiched(layers, style, px, temperature, clouded, b)
            };
        assert(night == other);
        assert(clouded == covered);
        if ieee::less32(temperature, SANDWICH_START) {
            let p = choose|clut: [u8; 3]|
                #[trigger] (layers.clut)(style, temperature, clut) && (layers.overlay)(
                    clouded,
                    px,
                    temperature,
                    clut,
                    a,
                );
            let q = choose|clut: [u8; 3]|
                #[trigger] (layers.clut)(style, temperature, clut) && (layers.overlay)(
                    clouded,
                    px,
                    temperature,
                    clut,
                    b,
                );
            assert(p == q);
        }
    }
}

/// The shader of the combined product gives one pixel for a sample where its
/// arithmetic is a function of its arguments.
pub proof fn combined_shaders_give_one_pixel<A, C, V, Q, M, D>(
    visible: V,
    quantize: Q,
    layers: Layers<A, C, M, D>,
    temperatures: Seq<u32>,
    width: int,
    style: ClutStyle,
) where
    V: Fn(&PixelSample, &A) -> C,
    Q: Fn(C) -> [u8; 3],
    M: Fn((u32, u32), (u32, u32)) -> (u32, u32),
    D: Fn(u32, u32) -> u32,

    requires
        render::shading_is_function::<A, C, V, Q>(visible, quantize),
        layers_are_functions(layers),
    ensures
        render::gives_one_pixel(
            sandwich::combined_shades(visible, quantize, layers, temperatures, width, style),
        ),
{
    let shades = sandwich::combined_shades(
        visible,
        quantize,
        layers,
        temperatures,
        width,
        style,
    );
    assert forall|px: PixelSample, angles: A, a: [u8; 3], b: [u8; 3]|
        #[trigger] shades(px, angles, a) && #[trigger] shades(px, angles, b) implies a == b by {
        let (one, base, bits) = lemma_combined_pixel(
            visible,
            quantize,
            layers,
            temperatures,
            width,
            style,
            px,
            angles,
            a,
        );
        let (two, below, warmth) = lemma_combined_pixel(
            visible,
            quantize,
            layers,
            temperatures,
            width,
            style,
            px,
            angles,
            b,
        );
        assert(base == below);
        lemma_pixel_temperatures_are_determined(layers, temperatures, width, px, bits, warmth);
        lemma_layers_are_determined(layers, style, px, angles, bits, base, one, two);
    }
}

/// What a pixel of the combined product is made of: its color, the color of
/// the visible imagery under it, and the temperature of its cloud.
proof fn lemma_combined_pixel<A, C, V, Q, M, D>(
    visible: V,
    quantize: Q,
    layers: Layers<A, C, M, D>,
    temperatures: Seq<u32>,
    width: int,
    style: ClutStyle,
    px: PixelSample,
    angles: A,
    pixel: [u8; 3],
) -> (parts: (C, C, u32)) where
    V: Fn(&PixelSample, &A) -> C,
    Q: Fn(C) -> [u8; 3],
    M: Fn((u32, u32), (u32, u32)) -> (u32, u32),
    D: Fn(u32, u32) -> u32,

    requires
        sandwich::is_combined_pixel(
            visible,
            quantize,
            layers,
            temperatures,
            width,
            style,
            px,
            angles,
            pixel,
        ),
    ensures
        call_ensures(quantize, (parts.0,), pixel),
        call_ensures(visible, (&px, &angles), parts.1),
        sandwich::is_pixel_temperature(layers, temperatures, width, px, parts.2),
        sandwich::is_layered(layers, style, px, angles, parts.2, parts.1, parts.0),
{
    let color = choose|color: C|
        #[trigger] sandwich::is_combined_color(
            visible,
            layers,
            temperatures,
            width,
            style,
            px,
            angles,
            color,
        ) && call_ensures(quantize, (color,), pixel);
    let base = choose|base: C|
        #[trigger] call_ensures(visible, (&px, &angles), base) && sandwich::is_combined_over(
            layers,
            temperatures,
            width,
            style,
            px,
            angles,
            base,
            color,
        );
    let bits = choose|bits: u32|
        #[trigger] sandwich::is_pixel_temperature(layers, temperatures, width, px, bits)
            && sandwich::is_layered(layers, style, px, angles, bits, base, color);
    (color, base, bits)
}

// ---------------------------------------------------------------------------
// Equal bytes
// ---------------------------------------------------------------------------

/// Whether all the arithmetic of the combined product is a function of its
/// arguments.
pub open spec fn combining_is_function<F, G, L, A, C, R, T, V, Q, M, D>(
    reflectance: F,
    radiance: R,
    temperature: T,
    plus: G,
    locate: L,
    visible: V,
    quantize: Q,
    layers: Layers<A, C, M, D>,
) -> bool where
    F: Fn(u64, u64, u64, u16) -> u32,
    R: Fn(u64, u64, u16) -> u64,
    T: Fn(&CalibrationKind, u64) -> u32,
    G: Fn(Quad<u32>, Quad<u32>) -> Quad<u32>,
    L: Fn(usize, usize) -> Option<A>,
    V: Fn(&PixelSample, &A) -> C,
    Q: Fn(C) -> [u8; 3],
    M: Fn((u32, u32), (u32, u32)) -> (u32, u32),
    D: Fn(u32, u32) -> u32,
 {
    &&& render::are_functions(reflectance, plus, locate)
    &&& render::shading_is_function::<A, C, V, Q>(visible, quantize)
    &&& temperatures_are_functions(radiance, temperature)
    &&& layers_are_functions(layers)
}

/// The combined product is one image: two that it may be hold the same bytes.
pub proof fn combined_images_are_determined<F, G, L, A, C, R, T, V, Q, M, D>(
    image: Rgb8Image,
    other: Rgb8Image,
    bands: [&BandImage; 4],
    cal: Calibration,
    counts: Seq<u16>,
    width: int,
    factor: int,
    style: ClutStyle,
    reflectance: F,
    radiance: R,
    temperature: T,
    plus: G,
    locate: L,
    visible: V,
    quantize: Q,
    layers: Layers<A, C, M, D>,
) where
    F: Fn(u64, u64, u64, u16) -> u32,
    R: Fn(u64, u64, u16) -> u64,
    T: Fn(&CalibrationKind, u64) -> u32,
    G: Fn(Quad<u32>, Quad<u32>) -> Quad<u32>,
    L: Fn(usize, usize) -> Option<A>,
    V: Fn(&PixelSample, &A) -> C,
    Q: Fn(C) -> [u8; 3],
    M: Fn((u32, u32), (u32, u32)) -> (u32, u32),
    D: Fn(u32, u32) -> u32,

    requires
        combining_is_function(
            reflectance,
            radiance,
            temperature,
            plus,
            locate,
            visible,
            quantize,
            layers,
        ),
        sandwich::is_combined_image(
            image,
            bands,
            cal,
            counts,
            width,
            factor,
            style,
            reflectance,
            radiance,
            temperature,
            plus,
            locate,
            visible,
            quantize,
            layers,
        ),
        sandwich::is_combined_image(
            other,
            bands,
            cal,
            counts,
            width,
            factor,
            style,
            reflectance,
            radiance,
            temperature,
            plus,
            locate,
            visible,
            quantize,
            layers,
        ),
    ensures
        image.width == other.width,
        image.height == other.height,
        image.data@ == other.data@,
{
    let grid = lemma_combined_grid(
        image,
        bands,
        cal,
        counts,
        width,
        factor,
        style,
        reflectance,
        radiance,
        temperature,
        plus,
        locate,
        visible,
        quantize,
        layers,
    );
    let others = lemma_combined_grid(
        other,
        bands,
        cal,
        counts,
        width,
        factor,
        style,
        reflectance,
        radiance,
        temperature,
        plus,
        locate,
        visible,
        quantize,
        layers,
    );
    lemma_grids_are_determined(cal, radiance, temperature, counts, grid, others);
    combined_shaders_give_one_pixel(visible, quantize, layers, grid, width, style);
    render::composites_are_determined(
        image,
        other,
        bands,
        factor,
        reflectance,
        plus,
        locate,
        sandwich::combined_shades(visible, quantize, layers, grid, width, style),
    );
}

/// The grid under an image of the combined product.
proof fn lemma_combined_grid<F, G, L, A, C, R, T, V, Q, M, D>(
    image: Rgb8Image,
    bands: [&BandImage; 4],
    cal: Calibration,
    counts: Seq<u16>,
    width: int,
    factor: int,
    style: ClutStyle,
    reflectance: F,
    radiance: R,
    temperature: T,
    plus: G,
    locate: L,
    visible: V,
    quantize: Q,
    layers: Layers<A, C, M, D>,
) -> (temperatures: Seq<u32>) where
    F: Fn(u64, u64, u64, u16) -> u32,
    R: Fn(u64, u64, u16) -> u64,
    T: Fn(&CalibrationKind, u64) -> u32,
    G: Fn(Quad<u32>, Quad<u32>) -> Quad<u32>,
    L: Fn(usize, usize) -> Option<A>,
    V: Fn(&PixelSample, &A) -> C,
    Q: Fn(C) -> [u8; 3],
    M: Fn((u32, u32), (u32, u32)) -> (u32, u32),
    D: Fn(u32, u32) -> u32,

    requires
        sandwich::is_combined_image(
            image,
            bands,
            cal,
            counts,
            width,
            factor,
            style,
            reflectance,
            radiance,
            temperature,
            plus,
            locate,
            visible,
            quantize,
            layers,
        ),
    ensures
        temperatures.len() == counts.len(),
        sandwich::is_temperature_grid(cal, radiance, temperature, counts, temperatures),
        render::is_composite(
            image,
            bands,
            factor,
            reflectance,
            plus,
            locate,
            sandwich::combined_shades(visible, quantize, layers, temperatures, width, style),
        ),
{
    choose|temperatures: Seq<u32>|
        #[trigger] sandwich::is_temperature_grid(
            cal,
            radiance,
            temperature,
            counts,
            temperatures,
        ) && render::is_composite(
            image,
            bands,
            factor,
            reflectance,
            plus,
            locate,
            sandwich::combined_shades(visible, quantize, layers, temperatures, width, style),
        )
}

/// Where no count has a temperature the combined product is the true-color
/// image, byte for byte, whatever the style.
pub proof fn without_temperatures_combined_is_true_color<F, G, L, A, C, R, T, V, Q, M, D>(
    image: Rgb8Image,
    plain: Rgb8Image,
    bands: [&BandImage; 4],
    cal: Calibration,
    counts: Seq<u16>,
    width: int,
    factor: int,
    style: ClutStyle,
    reflectance: F,
    radiance: R,
    temperature: T,
    plus: G,
    locate: L,
    visible: V,
    quantize: Q,
    layers: Layers<A, C, M, D>,
) where
    F: Fn(u64, u64, u64, u16) -> u32,
    R: Fn(u64, u64, u16) -> u64,
    T: Fn(&CalibrationKind, u64) -> u32,
    G: Fn(Quad<u32>, Quad<u32>) -> Quad<u32>,
    L: Fn(usize, usize) -> Option<A>,
    V: Fn(&PixelSample, &A) -> C,
    Q: Fn(C) -> [u8; 3],
    M: Fn((u32, u32), (u32, u32)) -> (u32, u32),
    D: Fn(u32, u32) -> u32,

    requires
        render::are_functions(reflectance, plus, locate),
        render::shading_is_function::<A, C, V, Q>(visible, quantize),
        have_no_temperature(cal, radiance, temperature, counts),
        sandwich::stays_on_grid(layers, width, counts.len() as int),
        sandwich::is_combined_image(
            image,
            bands,
            cal,
            counts,
            width,
            factor,
            style,
            reflectance,
            radiance,
            temperature,
            plus,
            locate,
            visible,
            quantize,
            layers,
        ),
        render::is_composite(
            plain,
            bands,
            factor,
            reflectance,
            plus,
            locate,
            render::shades_by::<A, C, V, Q>(visible, quantize),
        ),
    ensures
        image.width == plain.width,
        image.height == plain.height,
        image.data@ == plain.data@,
{
    let grid = lemma_combined_grid(
        image,
        bands,
        cal,
        counts,
        width,
        factor,
        style,
        reflectance,
        radiance,
        temperature,
        plus,
        locate,
        visible,
        quantize,
        layers,
    );
    counts_without_data_have_no_temperature(cal, radiance, temperature, counts, grid);
    without_temperatures_only_the_visible_shows(
        image,
        bands,
        factor,
        reflectance,
        plus,
        locate,
        visible,
        quantize,
        layers,
        grid,
        width,
        style,
    );
    render::shaders_give_one_pixel::<A, C, V, Q>(visible, quantize);
    render::composites_are_determined(
        image,
        plain,
        bands,
        factor,
        reflectance,
        plus,
        locate,
        render::shades_by::<A, C, V, Q>(visible, quantize),
    );
}

/// Whether every finite temperature of the counts is at a floor or above.
pub open spec fn have_no_cold_temperature<R, T>(
    cal: Calibration,
    radiance: R,
    temperature: T,
    counts: Seq<u16>,
    floor: u32,
) -> bool where R: Fn(u64, u64, u16) -> u64, T: Fn(&CalibrationKind, u64) -> u32 {
    forall|i: int, bits: u32|
        0 <= i < counts.len() && #[trigger] has_temperature(
            cal,
            radiance,
            temperature,
            counts[i],
            bits,
        ) ==> !ieee::less32(bits, floor)
}

proof fn lemma_warm_grid<A, C, R, T, M, D>(
    cal: Calibration,
    radiance: R,
    temperature: T,
    counts: Seq<u16>,
    temperatures: Seq<u32>,
    width: int,
    layers: Layers<A, C, M, D>,
    floor: u32,
) where
    R: Fn(u64, u64, u16) -> u64,
    T: Fn(&CalibrationKind, u64) -> u32,
    M: Fn((u32, u32), (u32, u32)) -> (u32, u32),
    D: Fn(u32, u32) -> u32,

    requires
        sandwich::is_temperature_grid(cal, radiance, temperature, counts, temperatures),
        temperatures.len() == counts.len(),
        have_no_cold_temperature(cal, radiance, temperature, counts, floor),
        averages_stay_warm(layers, floor),
        sandwich::stays_on_grid(layers, width, counts.len() as int),
    ensures
        has_no_cold_sample(layers, temperatures, width),
{
    assert forall|i: int| 0 <= i < temperatures.len() implies !is_below(
        #[trigger] temperatures[i],
        floor,
    ) by {
        lemma_grid_temperature(cal, radiance, temperature, counts, temperatures, i);
    }
    warm_grids_have_no_cold_sample(layers, temperatures, width, floor);
}

/// Where no temperature is cold the combined product holds the same bytes in
/// every style.
pub proof fn on_warm_grids_all_styles_are_equal<F, G, L, A, C, R, T, V, Q, M, D>(
    image: Rgb8Image,
    other_image: Rgb8Image,
    bands: [&BandImage; 4],
    cal: Calibration,
    counts: Seq<u16>,
    width: int,
    factor: int,
    style: ClutStyle,
    other: ClutStyle,
    floor: u32,
    reflectance: F,
    radiance: R,
    temperature: T,
    plus: G,
    locate: L,
    visible: V,
    quantize: Q,
    layers: Layers<A, C, M, D>,
) where
    F: Fn(u64, u64, u64, u16) -> u32,
    R: Fn(u64, u64, u16) -> u64,
    T: Fn(&CalibrationKind, u64) -> u32,
    G: Fn(Quad<u32>, Quad<u32>) -> Quad<u32>,
    L: Fn(usize, usize) -> Option<A>,
    V: Fn(&PixelSample, &A) -> C,
    Q: Fn(C) -> [u8; 3],
    M: Fn((u32, u32), (u32, u32)) -> (u32, u32),
    D: Fn(u32, u32) -> u32,

    requires
        combining_is_function(
            reflectance,
            radiance,
            temperature,
            plus,
            locate,
            visible,
            quantize,
            layers,
        ),
        have_no_cold_temperature(cal, radiance, temperature, counts, floor),
        averages_stay_warm(layers, floor),
        sandwich::stays_on_grid(layers, width, counts.len() as int),
        sandwich::is_combined_image(
            image,
            bands,
            cal,
            counts,
            width,
            factor,
            style,
            reflectance,
            radiance,
            temperature,
            plus,
            locate,
            visible,
            quantize,
            layers,
        ),
        sandwich::is_combined_image(
            other_image,
            bands,
            cal,
            counts,
            width,
            factor,
            other,
            reflectance,
            radiance,
            temperature,
            plus,
            locate,
            visible,
            quantize,
            layers,
        ),
    ensures
        image.width == other_image.width,
        image.height == other_image.height,
        image.data@ == other_image.data@,
{
    let grid = lemma_combined_grid(
        image,
        bands,
        cal,
        counts,
        width,
        factor,
        style,
        reflectance,
        radiance,
        temperature,
        plus,
        locate,
        visible,
        quantize,
        layers,
    );
    lemma_warm_grid(cal, radiance, temperature, counts, grid, width, layers, floor);
    on_warm_grids_the_style_does_not_matter(
        image,
        bands,
        factor,
        reflectance,
        plus,
        locate,
        visible,
        quantize,
        layers,
        grid,
        width,
        style,
        other,
    );
    combined_images_are_determined(
        image,
        other_image,
        bands,
        cal,
        counts,
        width,
        factor,
        other,
        reflectance,
        radiance,
        temperature,
        plus,
        locate,
        visible,
        quantize,
        layers,
    );
}

/// Whether no channel of a pixel is darker than that of another.
pub open spec fn is_no_darker(pixel: [u8; 3], plain: [u8; 3]) -> bool {
    forall|k: int| 0 <= k < 3 ==> plain@[k] <= #[trigger] pixel@[k]
}

/// Whether the clouds of the night side never make a pixel darker.
pub open spec fn clouds_never_darken<A, C, Q, M, D>(
    layers: Layers<A, C, M, D>,
    quantize: Q,
) -> bool where Q: Fn(C) -> [u8; 3] {
    forall|base: C, temperature: u32, night: u32, color: C, plain: [u8; 3], pixel: [u8; 3]|
        ieee::finite32(temperature) && ieee::less32(0, night) && #[trigger] (layers.clouds)(
            base,
            temperature,
            night,
            color,
        ) && #[trigger] call_ensures(quantize, (base,), plain) && #[trigger] call_ensures(
            quantize,
            (color,),
            pixel,
        ) ==> is_no_darker(pixel, plain)
}

/// Whether a pixel that a sample was located for is in full daylight.
pub open spec fn is_in_daylight<L, A, C, M, D>(
    layers: Layers<A, C, M, D>,
    locate: L,
    y: usize,
    x: usize,
) -> bool where L: Fn(usize, usize) -> Option<A> {
    forall|angles: A, night: u32|
        call_ensures(locate, (x, y), Some(angles)) && #[trigger] (layers.night)(angles, night)
            ==> !ieee::less32(0, night)
}

/// Where no temperature is cold, no byte of the combined product is darker
/// than that of the true-color image, as long as the clouds of the night side
/// never make a pixel darker; and pixels in full daylight are the same.
pub proof fn on_warm_grids_nothing_is_darker<F, G, L, A, C, R, T, V, Q, M, D>(
    image: Rgb8Image,
    plain: Rgb8Image,
    bands: [&BandImage; 4],
    cal: Calibration,
    counts: Seq<u16>,
    width: int,
    factor: int,
    style: ClutStyle,
    floor: u32,
    reflectance: F,
    radiance: R,
    temperature: T,
    plus: G,
    locate: L,
    visible: V,
    quantize: Q,
    layers: Layers<A, C, M, D>,
) where
    F: Fn(u64, u64, u64, u16) -> u32,
    R: Fn(u64, u64, u16) -> u64,
    T: Fn(&CalibrationKind, u64) -> u32,
    G: Fn(Quad<u32>, Quad<u32>) -> Quad<u32>,
    L: Fn(usize, usize) -> Option<A>,
    V: Fn(&PixelSample, &A) -> C,
    Q: Fn(C) -> [u8; 3],
    M: Fn((u32, u32), (u32, u32)) -> (u32, u32),
    D: Fn(u32, u32) -> u32,

    requires
        render::are_functions(reflectance, plus, locate),
        render::shading_is_function::<A, C, V, Q>(visible, quantize),
        have_no_cold_temperature(cal, radiance, temperature, counts, floor),
        averages_stay_warm(layers, floor),
        sandwich::stays_on_grid(layers, width, counts.len() as int),
        sandwich::is_combined_image(
            image,
            bands,
            cal,
            counts,
            width,
            factor,
            style,
            reflectance,
            radiance,
            temperature,
            plus,
            locate,
            visible,
            quantize,
            layers,
        ),
        render::is_composite(
            plain,
            bands,
            factor,
            reflectance,
            plus,
            locate,
            render::shades_by::<A, C, V, Q>(visible, quantize),
        ),
    ensures
        image.width == plain.width,
        image.height == plain.height,
        image.data@.len() == plain.data@.len(),
        clouds_never_darken(layers, quantize) ==> forall|j: int|
            0 <= j < image.data@.len() ==> plain.data@[j] <= #[trigger] image.data@[j],
        forall|i: int|
            0 <= i < image.width * image.height && is_in_daylight(
                layers,
                locate,
                (i / image.width as int) as usize,
                (i % image.width as int) as usize,
            ) ==> (#[trigger] render::image_pixel(image, i))@ == render::image_pixel(plain, i)@,
{
    let grid = lemma_combined_grid(
        image,
        bands,
        cal,
        counts,
        width,
        factor,
        style,
        reflectance,
        radiance,
        temperature,
        plus,
        locate,
        visible,
        quantize,
        layers,
    );
    lemma_warm_grid(cal, radiance, temperature, counts, grid, width, layers, floor);
    let shades = sandwich::combined_shades(visible, quantize, layers, grid, width, style);
    let others = render::shades_by::<A, C, V, Q>(visible, quantize);
    render::composites_pair_up(
        image,
        plain,
        bands,
        factor,
        reflectance,
        plus,
        locate,
        shades,
        others,
    );
    assert forall|i: int| 0 <= i < image.width * image.height implies is_warm_pair(
        layers,
        quantize,
        locate,
        (i / image.width as int) as usize,
        (i % image.width as int) as usize,
        #[trigger] render::image_pixel(image, i),
        render::image_pixel(plain, i),
    ) by {
        let (y, x) = ((i / image.width as int) as usize, (i % image.width as int) as usize);
        let (a, b) = (render::image_pixel(image, i), render::image_pixel(plain, i));
        assert(render::are_pair(locate, shades, others, y, x, a, b));
        if a@ != b@ {
            let (px, angles) = choose|px: PixelSample, angles: A|
                {
                    &&& call_ensures(locate, (x, y), Some(angles))
                    &&& #[trigger] shades(px, angles, a)
                    &&& others(px, angles, b)
                };
            lemma_warm_pair(
                visible,
                quantize,
                layers,
                grid,
                width,
                style,
                px,
                angles,
                a,
                b,
            );
        }
    }
    if clouds_never_darken(layers, quantize) {
        assert forall|j: int| 0 <= j < image.data@.len() implies plain.data@[j]
            <= #[trigger] image.data@[j] by {
            let i = j / 3;
            let (a, b) = (render::image_pixel(image, i), render::image_pixel(plain, i));
            assert(a@[j % 3] == image.data@[j]);
            assert(b@[j % 3] == plain.data@[j]);
        }
    }
}

/// Whether a pixel of a warm grid is no darker than that of the true-color
/// image, and the same in full daylight.
spec fn is_warm_pair<L, A, C, Q, M, D>(
    layers: Layers<A, C, M, D>,
    quantize: Q,
    locate: L,
    y: usize,
    x: usize,
    pixel: [u8; 3],
    plain: [u8; 3],
) -> bool where L: Fn(usize, usize) -> Option<A>, Q: Fn(C) -> [u8; 3] {
    &&& clouds_never_darken(layers, quantize) ==> is_no_darker(pixel, plain)
    &&& is_in_daylight(layers, locate, y, x) ==> pixel@ == plain@
}

proof fn lemma_warm_pair<A, C, V, Q, M, D>(
    visible: V,
    quantize: Q,
    layers: Layers<A, C, M, D>,
    temperatures: Seq<u32>,
    width: int,
    style: ClutStyle,
    px: PixelSample,
    angles: A,
    pixel: [u8; 3],
    plain: [u8; 3],
) where
    V: Fn(&PixelSample, &A) -> C,
    Q: Fn(C) -> [u8; 3],
    M: Fn((u32, u32), (u32, u32)) -> (u32, u32),
    D: Fn(u32, u32) -> u32,

    requires
        render::shading_is_function::<A, C, V, Q>(visible, quantize),
        has_no_cold_sample(layers, temperatures, width),
        sandwich::is_combined_pixel(
            visible,
            quantize,
            layers,
            temperatures,
            width,
            style,
            px,
            angles,
            pixel,
        ),
        render::is_quantized(visible, quantize, px, angles, plain),
    ensures
        clouds_never_darken(layers, quantize) ==> is_no_darker(pixel, plain),
        (forall|night: u32|
            #[trigger] (layers.night)(angles, night) ==> !ieee::less32(0, night)) ==> pixel
            == plain,
{
    let (color, base, bits) = lemma_combined_pixel(
        visible,
        quantize,
        layers,
        temperatures,
        width,
        style,
        px,
        angles,
        pixel,
    );
    let below = choose|color: C|
        #[trigger] call_ensures(visible, (&px, &angles), color) && call_ensures(
            quantize,
            (color,),
            plain,
        );
    assert(base == below);
    lemma_no_cold_pixel(layers, temperatures, width, px, bits);
    if ieee::finite32(bits) && !ieee::less32(bits, SPACE_BT_CUTOFF) {
        let (night, clouded) = choose|night: u32, clouded: C|
            {
                &&& (layers.night)(angles, night)
                &&& #[trigger] sandwich::is_clouded(layers, bits, night, base, clouded)
                &&& sandwich::is_sandwiched(layers, style, px, bits, clouded, color)
            };
        assert(color == clouded);
        if ieee::less32(0, night) {
            assert((layers.clouds)(base, bits, night, color));
        }
    }
}

} // verus!
