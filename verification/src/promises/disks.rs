//! Disk images: which pixels of the bands are in a pixel of an image.

use vstd::prelude::*;

use crate::compose;
use crate::compose::{BandImage, Rgb8Image};
use crate::grid;
use crate::hsd::CalibrationKind;
use crate::promises::painting;
use crate::promises::sampling;
use crate::render;
use crate::render::{natural_color, render_disk, true_color, PixelSample, Quad, RenderError};

verus! {

/// How many of the first `n` numbers have a property.
pub open spec fn tally(n: nat, holds: spec_fn(int) -> bool) -> nat
    decreases n,
{
    if n == 0 {
        0
    } else {
        tally((n - 1) as nat, holds) + if holds(n - 1) {
            1nat
        } else {
            0nat
        }
    }
}

/// What the first `n` numbers amount to, of those with a property.
pub open spec fn amounts(n: nat, holds: spec_fn(int) -> bool, amount: spec_fn(int) -> int) -> int
    decreases n,
{
    if n == 0 {
        0
    } else {
        amounts((n - 1) as nat, holds, amount) + if holds(n - 1) {
            amount(n - 1)
        } else {
            0
        }
    }
}

/// Whether a value is that of a band at a row and a column of the full disk:
/// not a number where the count is a sentinel, and otherwise its reflectance.
pub open spec fn reads<F: Fn(u64, u64, u64, u16) -> u32>(
    band: &BandImage,
    reflectance: F,
    row: int,
    column: int,
    bits: u32,
) -> bool {
    let cal = band.calibration;
    let count = band.counts@[row * 11000 + column];
    if count == cal.error_count || count == cal.outside_scan_count {
        bits == 0x7fc0_0000
    } else {
        cal.kind matches CalibrationKind::Reflective { albedo_coeff } && call_ensures(
            reflectance,
            (albedo_coeff, cal.gain, cal.offset, count),
            bits,
        )
    }
}

/// Whether samples are those of the block of a pixel, row by row.
pub open spec fn is_block<F: Fn(u64, u64, u64, u16) -> u32>(
    bands: [&BandImage; 4],
    reflectance: F,
    factor: int,
    x: int,
    y: int,
    samples: Seq<Quad<u32>>,
) -> bool {
    &&& samples.len() == factor * factor
    &&& forall|k: int|
        0 <= k < factor * factor ==> {
            let (row, column) = (y * factor + k / factor, x * factor + k % factor);
            &&& reads(bands@[0], reflectance, row, column, (#[trigger] samples[k]).0)
            &&& reads(bands@[1], reflectance, row, column, samples[k].1)
            &&& reads(bands@[2], reflectance, row, column, samples[k].2)
            &&& reads(bands@[3], reflectance, row, column, samples[k].3)
        }
}

/// Whether all four bands have a number in a sample.
pub open spec fn is_measured(sample: Quad<u32>) -> bool {
    &&& sampling::is_number(sample.0)
    &&& sampling::is_number(sample.1)
    &&& sampling::is_number(sample.2)
    &&& sampling::is_number(sample.3)
}

/// An exact measure of sums of samples: nothing measures zero, and what is
/// added up measures as much as its parts.
pub open spec fn measures<G: Fn(Quad<u32>, Quad<u32>) -> Quad<u32>>(
    plus: G,
    value: spec_fn(Quad<u32>) -> int,
) -> bool {
    &&& value((0, 0, 0, 0)) == 0
    &&& forall|sum: Quad<u32>, sample: Quad<u32>, next: Quad<u32>|
        #[trigger] call_ensures(plus, (sum, sample), next) ==> value(next) == value(sum)
            + value(sample)
}

/// Whether a pixel is shaded for a column and a row with the sum of the
/// samples of its block that all four bands measured, and their number; it is
/// black where there is none, and where the pixel is off the Earth.
pub open spec fn is_shaded_block<L, A>(
    samples: Seq<Quad<u32>>,
    value: spec_fn(Quad<u32>) -> int,
    locate: L,
    shades: spec_fn(PixelSample, A, [u8; 3]) -> bool,
    x: int,
    y: int,
    pixel: [u8; 3],
) -> bool where L: Fn(usize, usize) -> Option<A> {
    let measured = |k: int| is_measured(samples[k]);
    let number = tally(samples.len(), measured);
    if number == 0 {
        pixel@ == seq![0u8, 0u8, 0u8]
    } else {
        exists|spot: Option<A>|
            #[trigger] call_ensures(locate, (x as usize, y as usize), spot) && match spot {
                None => pixel@ == seq![0u8, 0u8, 0u8],
                Some(angles) => exists|px: PixelSample|
                    {
                        &&& #[trigger] shades(px, angles, pixel)
                        &&& px.out_x == x
                        &&& px.out_y == y
                        &&& px.valid == number
                        &&& value(px.sum) == amounts(
                            samples.len(),
                            measured,
                            |k: int| value(samples[k]),
                        )
                    },
            }
    }
}

/// Where every number has the property, all of them are counted.
pub proof fn all_are_counted(n: nat, holds: spec_fn(int) -> bool)
    requires
        forall|k: int| 0 <= k < n ==> #[trigger] holds(k),
    ensures
        tally(n, holds) == n,
    decreases n,
{
    if n > 0 {
        all_are_counted((n - 1) as nat, holds);
    }
}

proof fn lemma_tally_bound(n: nat, holds: spec_fn(int) -> bool)
    ensures
        tally(n, holds) <= n,
    decreases n,
{
    if n > 0 {
        lemma_tally_bound((n - 1) as nat, holds);
    }
}

/// The measures of samples, added up.
spec fn weigh(samples: Seq<Quad<u32>>, value: spec_fn(Quad<u32>) -> int) -> int
    decreases samples.len(),
{
    if samples.len() == 0 {
        0
    } else {
        weigh(samples.drop_last(), value) + value(samples.last())
    }
}

proof fn lemma_sums_weigh<G: Fn(Quad<u32>, Quad<u32>) -> Quad<u32>>(
    plus: G,
    value: spec_fn(Quad<u32>) -> int,
    samples: Seq<Quad<u32>>,
    sum: Quad<u32>,
)
    requires
        measures(plus, value),
        render::sums_to(plus, samples, sum),
    ensures
        value(sum) == weigh(samples, value),
    decreases samples.len(),
{
    if samples.len() > 0 {
        let before = choose|before: Quad<u32>|
            #[trigger] call_ensures(plus, (before, samples.last()), sum) && render::sums_to(
                plus,
                samples.drop_last(),
                before,
            );
        lemma_sums_weigh(plus, value, samples.drop_last(), before);
    }
}

proof fn lemma_finite(sample: Quad<u32>)
    ensures
        render::all_finite(sample) <==> is_measured(sample),
{
    sampling::lemma_number(sample.0);
    sampling::lemma_number(sample.1);
    sampling::lemma_number(sample.2);
    sampling::lemma_number(sample.3);
}

proof fn lemma_kept(samples: Seq<Quad<u32>>, value: spec_fn(Quad<u32>) -> int, n: nat)
    requires
        n <= samples.len(),
    ensures
        ({
            let measured = |k: int| is_measured(samples[k]);
            let kept = samples.take(n as int).filter(|sample: Quad<u32>| render::all_finite(sample));
            &&& kept.len() == tally(n, measured)
            &&& weigh(kept, value) == amounts(n, measured, |k: int| value(samples[k]))
        }),
    decreases n,
{
    let finite = |sample: Quad<u32>| render::all_finite(sample);
    if n == 0 {
        reveal(Seq::filter);
    } else {
        let i = n - 1;
        lemma_kept(samples, value, i as nat);
        compose::lemma_filter_step(samples, i, finite);
        lemma_finite(samples[i]);
        let before = samples.take(i).filter(finite);
        if finite(samples[i]) {
            assert(before.push(samples[i]).drop_last() =~= before);
            assert(before.push(samples[i]).last() == samples[i]);
        }
    }
}

proof fn lemma_reads<F: Fn(u64, u64, u64, u16) -> u32>(
    band: &BandImage,
    reflectance: F,
    table: Seq<u32>,
    row: int,
    column: int,
)
    requires
        band.calibration.kind is Reflective,
        render::is_reflectance_table(band.calibration, reflectance, table),
    ensures
        reads(
            band,
            reflectance,
            row,
            column,
            table[band.counts@[grid::place(11000, row, column)] as int],
        ),
{
    let count = band.counts@[row * 11000 + column];
    let bits = table[count as int];
    assert(grid::place(11000, row, column) == row * 11000 + column);
    if band.calibration.valid(count) {
        assert(call_ensures(
            reflectance,
            (
                band.calibration.kind->albedo_coeff,
                band.calibration.gain,
                band.calibration.offset,
                count,
            ),
            bits,
        ));
    }
}

proof fn lemma_block<F: Fn(u64, u64, u64, u16) -> u32>(
    bands: [&BandImage; 4],
    reflectance: F,
    luts: Quad<Seq<u32>>,
    factor: int,
    x: int,
    y: int,
)
    requires
        1 <= factor,
        render::first_thermal(bands) is None,
        render::are_reflectance_tables(bands, reflectance, luts),
    ensures
        is_block(
            bands,
            reflectance,
            factor,
            x,
            y,
            render::block_samples(render::band_counts(bands), luts, factor, y, x),
        ),
{
    let samples = render::block_samples(render::band_counts(bands), luts, factor, y, x);
    assert(factor * factor >= 0) by (nonlinear_arith);
    assert forall|k: int| 0 <= k < factor * factor implies {
        let (row, column) = (y * factor + k / factor, x * factor + k % factor);
        &&& reads(bands@[0], reflectance, row, column, (#[trigger] samples[k]).0)
        &&& reads(bands@[1], reflectance, row, column, samples[k].1)
        &&& reads(bands@[2], reflectance, row, column, samples[k].2)
        &&& reads(bands@[3], reflectance, row, column, samples[k].3)
    } by {
        let (row, column) = (y * factor + k / factor, x * factor + k % factor);
        lemma_reads(bands@[0], reflectance, luts.0, row, column);
        lemma_reads(bands@[1], reflectance, luts.1, row, column);
        lemma_reads(bands@[2], reflectance, luts.2, row, column);
        lemma_reads(bands@[3], reflectance, luts.3, row, column);
    }
}

proof fn lemma_shaded<G, L, A>(
    counts: Quad<Seq<u16>>,
    luts: Quad<Seq<u32>>,
    factor: int,
    plus: G,
    locate: L,
    shades: spec_fn(PixelSample, A, [u8; 3]) -> bool,
    value: spec_fn(Quad<u32>) -> int,
    x: usize,
    y: usize,
    pixel: [u8; 3],
) where G: Fn(Quad<u32>, Quad<u32>) -> Quad<u32>, L: Fn(usize, usize) -> Option<A>
    requires
        1 <= factor <= 11000,
        measures(plus, value),
        render::is_disk_pixel(counts, luts, factor, plus, locate, shades, y, x, pixel),
    ensures
        is_shaded_block(
            render::block_samples(counts, luts, factor, y as int, x as int),
            value,
            locate,
            shades,
            x as int,
            y as int,
            pixel,
        ),
{
    let samples = render::block_samples(counts, luts, factor, y as int, x as int);
    let usable = render::usable_samples(counts, luts, factor, y as int, x as int);
    let measured = |k: int| is_measured(samples[k]);
    lemma_kept(samples, value, samples.len());
    assert(samples.take(samples.len() as int) =~= samples);
    lemma_tally_bound(samples.len(), measured);
    assert(0 <= factor * factor <= 121000000) by (nonlinear_arith)
        requires
            1 <= factor <= 11000,
    ;
    if usable.len() > 0 {
        let spot = choose|spot: Option<A>|
            {
                &&& #[trigger] call_ensures(locate, (x, y), spot)
                &&& match spot {
                    None => pixel@ == seq![0u8, 0u8, 0u8],
                    Some(angles) => render::is_shaded(plus, usable, y, x, shades, angles, pixel),
                }
            };
        if let Some(angles) = spot {
            let sum = choose|sum: Quad<u32>|
                #[trigger] render::sums_to(plus, usable, sum) && shades(
                    render::sample_of(y, x, sum, usable.len()),
                    angles,
                    pixel,
                );
            lemma_sums_weigh(plus, value, usable, sum);
            assert(shades(render::sample_of(y, x, sum, usable.len()), angles, pixel));
        }
        assert(call_ensures(locate, (x as int as usize, y as int as usize), spot));
    }
}

/// Each pixel of a composite is shaded with the samples of its own block.
pub(crate) proof fn lemma_composite<F, G, L, A>(
    image: Rgb8Image,
    bands: [&BandImage; 4],
    factor: usize,
    reflectance: F,
    plus: G,
    locate: L,
    shades: spec_fn(PixelSample, A, [u8; 3]) -> bool,
    value: spec_fn(Quad<u32>) -> int,
    x: int,
    y: int,
) where
    F: Fn(u64, u64, u64, u16) -> u32,
    G: Fn(Quad<u32>, Quad<u32>) -> Quad<u32>,
    L: Fn(usize, usize) -> Option<A>,

    requires
        1 <= factor,
        measures(plus, value),
        render::first_thermal(bands) is None,
        render::is_composite(image, bands, factor as int, reflectance, plus, locate, shades),
        0 <= x < 11000int / factor as int,
        0 <= y < 11000int / factor as int,
    ensures
        is_disk_cell(image, bands, factor, reflectance, locate, shades, value, x, y),
{
    let luts = choose|luts: Quad<Seq<u32>>|
        #[trigger] render::are_reflectance_tables(bands, reflectance, luts) && render::shows_disk(
            image,
            render::band_counts(bands),
            luts,
            factor as int,
            plus,
            locate,
            shades,
        );
    let size = 11000int / factor as int;
    let i = y * size + x;
    grid::cell_has_place(size, size, y, x);
    assert(0 <= size <= 11000 && factor <= 11000) by (nonlinear_arith)
        requires
            factor >= 1,
            size == 11000int / factor as int,
            size > 0,
    ;
    let pixel = render::image_pixel(image, i);
    assert(render::is_disk_pixel(
        render::band_counts(bands),
        luts,
        factor as int,
        plus,
        locate,
        shades,
        (i / size) as usize,
        (i % size) as usize,
        pixel,
    ));
    let samples = render::block_samples(render::band_counts(bands), luts, factor as int, y, x);
    lemma_block(bands, reflectance, luts, factor as int, x, y);
    lemma_shaded(
        render::band_counts(bands),
        luts,
        factor as int,
        plus,
        locate,
        shades,
        value,
        x as usize,
        y as usize,
        pixel,
    );
    assert(painting::shows(image, x, y, pixel));
    assert(is_shaded_block(samples, value, locate, shades, x, y, pixel));
    assert(is_block(bands, reflectance, factor as int, x, y, samples));
}

/// Whether the pixel of a disk image at a column and a row is shaded with the
/// samples of its own block.
pub open spec fn is_disk_cell<F, L, A>(
    image: Rgb8Image,
    bands: [&BandImage; 4],
    factor: usize,
    reflectance: F,
    locate: L,
    shades: spec_fn(PixelSample, A, [u8; 3]) -> bool,
    value: spec_fn(Quad<u32>) -> int,
    x: int,
    y: int,
) -> bool where F: Fn(u64, u64, u64, u16) -> u32, L: Fn(usize, usize) -> Option<A> {
    &&& image.width == 11000int / factor as int
    &&& image.height == 11000int / factor as int
    &&& image.data@.len() == 3 * (image.width * image.height)
    &&& exists|samples: Seq<Quad<u32>>, pixel: [u8; 3]|
        {
            &&& is_block(bands, reflectance, factor as int, x, y, samples)
            &&& #[trigger] is_shaded_block(samples, value, locate, shades, x, y, pixel)
            &&& painting::shows(image, x, y, pixel)
        }
}

/// What a shader and a quantizer give for a sample.
pub open spec fn quantized<A, C, S, Q>(shader: S, quantize: Q) -> spec_fn(
    PixelSample,
    A,
    [u8; 3],
) -> bool where S: Fn(&PixelSample, &A) -> C, Q: Fn(C) -> [u8; 3] {
    |px: PixelSample, angles: A, pixel: [u8; 3]|
        exists|color: C|
            #[trigger] call_ensures(shader, (&px, &angles), color) && call_ensures(
                quantize,
                (color,),
                pixel,
            )
}

/// Whether an error names the first band of four that has no reflectance.
pub open spec fn names_first_thermal(bands: [&BandImage; 4], error: RenderError) -> bool {
    exists|k: int|
        {
            &&& 0 <= k < 4
            &&& !((#[trigger] bands@[k]).calibration.kind is Reflective)
            &&& error == RenderError::NoReflectance(bands@[k].band)
            &&& forall|j: int| 0 <= j < k ==> (#[trigger] bands@[j]).calibration.kind is Reflective
        }
}

/// Whether four bands have reflectances.
pub open spec fn all_reflect(bands: [&BandImage; 4]) -> bool {
    forall|k: int| 0 <= k < 4 ==> (#[trigger] bands@[k]).calibration.kind is Reflective
}

pub(crate) proof fn lemma_first_thermal(bands: [&BandImage; 4])
    ensures
        render::first_thermal(bands) is None <==> all_reflect(bands),
        render::first_thermal(bands) matches Some(band) ==> names_first_thermal(
            bands,
            RenderError::NoReflectance(band),
        ),
{
    let a = bands@[0];
    let b = bands@[1];
    let c = bands@[2];
    let d = bands@[3];
    if let Some(band) = render::first_thermal(bands) {
        let k: int = if !(a.calibration.kind is Reflective) {
            0
        } else if !(b.calibration.kind is Reflective) {
            1
        } else if !(c.calibration.kind is Reflective) {
            2
        } else {
            3
        };
        assert(!(bands@[k].calibration.kind is Reflective));
        assert(RenderError::NoReflectance(band) == RenderError::NoReflectance(bands@[k].band));
    }
}

/// What a disk image promises of a pixel.
pub open spec fn is_promised<F, L, A, C, S, Q>(
    outcome: Result<Rgb8Image, RenderError>,
    bands: [&BandImage; 4],
    factor: usize,
    reflectance: F,
    locate: L,
    shader: S,
    quantize: Q,
    value: spec_fn(Quad<u32>) -> int,
    x: int,
    y: int,
) -> bool where
    F: Fn(u64, u64, u64, u16) -> u32,
    L: Fn(usize, usize) -> Option<A>,
    S: Fn(&PixelSample, &A) -> C,
    Q: Fn(C) -> [u8; 3],
 {
    &&& outcome is Ok <==> all_reflect(bands)
    &&& match outcome {
        Ok(image) => is_disk_cell(
            image,
            bands,
            factor,
            reflectance,
            locate,
            quantized::<A, C, S, Q>(shader, quantize),
            value,
            x,
            y,
        ),
        Err(error) => names_first_thermal(bands, error),
    }
}

proof fn lemma_promised<F, G, L, A, C, S, Q>(
    outcome: Result<Rgb8Image, RenderError>,
    bands: [&BandImage; 4],
    factor: usize,
    reflectance: F,
    plus: G,
    locate: L,
    shader: S,
    quantize: Q,
    value: spec_fn(Quad<u32>) -> int,
    x: int,
    y: int,
) where
    F: Fn(u64, u64, u64, u16) -> u32,
    G: Fn(Quad<u32>, Quad<u32>) -> Quad<u32>,
    L: Fn(usize, usize) -> Option<A>,
    S: Fn(&PixelSample, &A) -> C,
    Q: Fn(C) -> [u8; 3],

    requires
        1 <= factor,
        measures(plus, value),
        match render::first_thermal(bands) {
            Some(band) => outcome == Err::<Rgb8Image, RenderError>(
                RenderError::NoReflectance(band),
            ),
            None => outcome matches Ok(image) && render::is_composite(
                image,
                bands,
                factor as int,
                reflectance,
                plus,
                locate,
                render::shades_by::<A, C, S, Q>(shader, quantize),
            ),
        },
        0 <= x < 11000int / factor as int,
        0 <= y < 11000int / factor as int,
    ensures
        is_promised::<F, L, A, C, S, Q>(
            outcome,
            bands,
            factor,
            reflectance,
            locate,
            shader,
            quantize,
            value,
            x,
            y,
        ),
{
    lemma_first_thermal(bands);
    if let Ok(image) = outcome {
        let shades = render::shades_by::<A, C, S, Q>(shader, quantize);
        let other = quantized::<A, C, S, Q>(shader, quantize);
        assert forall|px: PixelSample, angles: A, pixel: [u8; 3]| #[trigger]
            shades(px, angles, pixel) implies other(px, angles, pixel) by {
            let color = choose|color: C|
                #[trigger] call_ensures(shader, (&px, &angles), color) && call_ensures(
                    quantize,
                    (color,),
                    pixel,
                );
            assert(call_ensures(shader, (&px, &angles), color));
        }
        render::lemma_composite_weakens(
            image,
            bands,
            factor as int,
            reflectance,
            plus,
            locate,
            shades,
            other,
        );
        lemma_composite(image, bands, factor, reflectance, plus, locate, other, value, x, y);
    }
}

/// Each pixel of a disk image is shaded with the pixels of its own block that
/// all four bands measured: with how many they are, and with their sum.
pub proof fn pixels_hold_their_block<F, G, L, A, C, S, Q>(
    bands: [&BandImage; 4],
    factor: usize,
    reflectance: F,
    plus: G,
    locate: L,
    shader: S,
    quantize: Q,
    outcome: Result<Rgb8Image, RenderError>,
    value: spec_fn(Quad<u32>) -> int,
    x: int,
    y: int,
) where
    F: Fn(u64, u64, u64, u16) -> u32 + Copy,
    G: Fn(Quad<u32>, Quad<u32>) -> Quad<u32> + Sync,
    L: Fn(usize, usize) -> Option<A> + Sync,
    S: Fn(&PixelSample, &A) -> C + Sync,
    Q: Fn(C) -> [u8; 3] + Sync,

    requires
        call_ensures(
            render_disk::<F, G, L, A, C, S, Q>,
            (bands, factor, reflectance, plus, locate, shader, quantize),
            outcome,
        ),
        1 <= factor,
        measures(plus, value),
        0 <= x < 11000int / factor as int,
        0 <= y < 11000int / factor as int,
    ensures
        is_promised::<F, L, A, C, S, Q>(
            outcome,
            bands,
            factor,
            reflectance,
            locate,
            shader,
            quantize,
            value,
            x,
            y,
        ),
{
    lemma_promised::<F, G, L, A, C, S, Q>(
        outcome,
        bands,
        factor,
        reflectance,
        plus,
        locate,
        shader,
        quantize,
        value,
        x,
        y,
    );
}

/// A true-color image is made of red, green, blue and near infrared.
pub proof fn true_color_has_its_bands<F, G, L, A, C, S, Q>(
    red: &BandImage,
    green: &BandImage,
    blue: &BandImage,
    nir: &BandImage,
    factor: usize,
    reflectance: F,
    plus: G,
    locate: L,
    shader: S,
    quantize: Q,
    outcome: Result<Rgb8Image, RenderError>,
    value: spec_fn(Quad<u32>) -> int,
    x: int,
    y: int,
) where
    F: Fn(u64, u64, u64, u16) -> u32 + Copy,
    G: Fn(Quad<u32>, Quad<u32>) -> Quad<u32> + Sync,
    L: Fn(usize, usize) -> Option<A> + Sync,
    S: Fn(&PixelSample, &A) -> C + Sync,
    Q: Fn(C) -> [u8; 3] + Sync,

    requires
        call_ensures(
            true_color::<F, G, L, A, C, S, Q>,
            (red, green, blue, nir, factor, reflectance, plus, locate, shader, quantize),
            outcome,
        ),
        1 <= factor,
        measures(plus, value),
        0 <= x < 11000int / factor as int,
        0 <= y < 11000int / factor as int,
    ensures
        is_promised::<F, L, A, C, S, Q>(
            outcome,
            [red, green, blue, nir],
            factor,
            reflectance,
            locate,
            shader,
            quantize,
            value,
            x,
            y,
        ),
{
    lemma_promised::<F, G, L, A, C, S, Q>(
        outcome,
        [red, green, blue, nir],
        factor,
        reflectance,
        plus,
        locate,
        shader,
        quantize,
        value,
        x,
        y,
    );
}

/// A natural-color image is made of short-wave infrared, near infrared and
/// red.
pub proof fn natural_color_has_its_bands<F, G, L, A, C, S, Q>(
    swir: &BandImage,
    nir: &BandImage,
    red: &BandImage,
    factor: usize,
    reflectance: F,
    plus: G,
    locate: L,
    shader: S,
    quantize: Q,
    outcome: Result<Rgb8Image, RenderError>,
    value: spec_fn(Quad<u32>) -> int,
    x: int,
    y: int,
) where
    F: Fn(u64, u64, u64, u16) -> u32 + Copy,
    G: Fn(Quad<u32>, Quad<u32>) -> Quad<u32> + Sync,
    L: Fn(usize, usize) -> Option<A> + Sync,
    S: Fn(&PixelSample, &A) -> C + Sync,
    Q: Fn(C) -> [u8; 3] + Sync,

    requires
        call_ensures(
            natural_color::<F, G, L, A, C, S, Q>,
            (swir, nir, red, factor, reflectance, plus, locate, shader, quantize),
            outcome,
        ),
        1 <= factor,
        measures(plus, value),
        0 <= x < 11000int / factor as int,
        0 <= y < 11000int / factor as int,
    ensures
        is_promised::<F, L, A, C, S, Q>(
            outcome,
            [swir, nir, red, red],
            factor,
            reflectance,
            locate,
            shader,
            quantize,
            value,
            x,
            y,
        ),
{
    lemma_promised::<F, G, L, A, C, S, Q>(
        outcome,
        [swir, nir, red, red],
        factor,
        reflectance,
        plus,
        locate,
        shader,
        quantize,
        value,
        x,
        y,
    );
}

/// Where all four bands measured every pixel of a block, every one of them is
/// in the sum.
pub proof fn measured_blocks_are_used_whole<F: Fn(u64, u64, u64, u16) -> u32>(
    bands: [&BandImage; 4],
    reflectance: F,
    luts: Quad<Seq<u32>>,
    factor: int,
    x: int,
    y: int,
)
    requires
        1 <= factor,
        forall|k: int|
            0 <= k < factor * factor ==> is_measured(
                #[trigger] render::block_samples(
                    render::band_counts(bands),
                    luts,
                    factor,
                    y,
                    x,
                )[k],
            ),
    ensures
        render::usable_samples(render::band_counts(bands), luts, factor, y, x).len() == factor
            * factor,
        render::usable_samples(render::band_counts(bands), luts, factor, y, x)
            == render::block_samples(render::band_counts(bands), luts, factor, y, x),
{
    let samples = render::block_samples(render::band_counts(bands), luts, factor, y, x);
    assert(factor * factor >= 0) by (nonlinear_arith);
    assert forall|k: int| 0 <= k < samples.len() implies render::all_finite(
        #[trigger] samples[k],
    ) by {
        lemma_finite(samples[k]);
    }
    lemma_all_kept(samples, |sample: Quad<u32>| render::all_finite(sample), samples.len() as int);
    assert(samples.take(samples.len() as int) =~= samples);
}

proof fn lemma_all_kept<T>(items: Seq<T>, keep: spec_fn(T) -> bool, n: int)
    requires
        0 <= n <= items.len(),
        forall|k: int| 0 <= k < items.len() ==> keep(#[trigger] items[k]),
    ensures
        items.take(n).filter(keep) == items.take(n),
    decreases n,
{
    if n == 0 {
        reveal(Seq::filter);
        assert(items.take(0).filter(keep) =~= items.take(0));
    } else {
        lemma_all_kept(items, keep, n - 1);
        compose::lemma_filter_step(items, n - 1, keep);
        assert(items.take(n) =~= items.take(n - 1).push(items[n - 1]));
    }
}

} // verus!
