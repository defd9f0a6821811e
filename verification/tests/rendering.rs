use himawari_earth::band::Band;
use himawari_earth::compose::{BandImage, Rgb8Image, FULL_DISK_SIZE};
use himawari_earth::hsd::{Calibration, CalibrationKind, Projection};
use himawari_earth::ieee::NAN32;
use himawari_earth::palette::{clamp_height, clut_color, height_color, table_color, ClutStyle};
use himawari_earth::render::{
    cloud_top_height, ir_enhancement, natural_color, render_count_lut, true_color, PixelSample,
    Quad, RenderError,
};
use himawari_earth::sandwich::{
    cloud_temperature, combined, combined_color, sample_bilinear, IrShading, Spot,
};
use himawari_earth::tuning::{HEIGHT_CLEAR_RGB, HEIGHT_CLUT};

const OUTSIDE: u16 = 65_534;

fn bits(x: f32) -> u32 {
    x.to_bits()
}

fn blend(x: u32, below: (u32, [u8; 3]), above: (u32, [u8; 3])) -> [u8; 3] {
    let (x, t0, t1) = (f32::from_bits(x), f32::from_bits(below.0), f32::from_bits(above.0));
    let share = (x - t0) / (t1 - t0);
    let mut out = [0u8; 3];
    for i in 0..3 {
        let (low, high) = (f32::from(below.1[i]), f32::from(above.1[i]));
        out[i] = (low + share * (high - low)).round() as u8;
    }
    out
}

fn height(temperature: u32) -> u32 {
    bits((295.0 - f32::from_bits(temperature)) / 6.5)
}

fn radiance(_: u64, _: u64, count: u16) -> u64 {
    f64::from(count).to_bits()
}

/// Takes the radiance for the temperature.
fn temperature(_: &CalibrationKind, level: u64) -> u32 {
    bits(f64::from_bits(level) as f32)
}

fn reflectance(_: u64, _: u64, _: u64, count: u16) -> u32 {
    bits(f32::from(count))
}

fn plus(sum: Quad<u32>, sample: Quad<u32>) -> Quad<u32> {
    let add = |a: u32, b: u32| bits(f32::from_bits(a) + f32::from_bits(b));
    (
        add(sum.0, sample.0),
        add(sum.1, sample.1),
        add(sum.2, sample.2),
        add(sum.3, sample.3),
    )
}

fn thermal() -> Calibration {
    Calibration {
        gain: 0,
        offset: 0,
        error_count: 65_535,
        outside_scan_count: OUTSIDE,
        kind: CalibrationKind::Emissive {
            wavelength_um: 0,
            c0: 0,
            c1: 0,
            c2: 0,
            speed_of_light: 0,
            planck: 0,
            boltzmann: 0,
        },
    }
}

fn reflective() -> Calibration {
    Calibration {
        kind: CalibrationKind::Reflective { albedo_coeff: 0 },
        ..thermal()
    }
}

#[test]
fn palettes_ascend_from_cold_to_warm() {
    for style in [
        ClutStyle::Convection,
        ClutStyle::Grayscale,
        ClutStyle::Rainbow,
        ClutStyle::WaterVapor,
    ] {
        let table = style.table();
        assert!(table
            .windows(2)
            .all(|pair| f32::from_bits(pair[0].0) < f32::from_bits(pair[1].0)));
    }
    assert_eq!(ClutStyle::default(), ClutStyle::Convection);
    assert_eq!(f32::from_bits(ClutStyle::Convection.table()[6].0), 240.1);
    assert_eq!(ClutStyle::WaterVapor.table().len(), 10);
    assert_eq!(ClutStyle::Rainbow.table()[8], (bits(320.0), [0, 0, 0]));
    assert_eq!(ClutStyle::Grayscale.table()[0], (bits(180.0), [255, 255, 255]));
    assert_eq!(f32::from_bits(HEIGHT_CLUT[0].0), 0.5);
}

#[test]
fn colors_are_clamped_at_the_ends_and_blended_between() {
    let table = ClutStyle::Grayscale.table();
    assert_eq!(table_color(table, bits(-10.0), blend), [255, 255, 255]);
    assert_eq!(table_color(table, bits(180.0), blend), [255, 255, 255]);
    assert_eq!(table_color(table, bits(250.0), blend), [128, 128, 128]);
    assert_eq!(table_color(table, bits(320.0), blend), [0, 0, 0]);
    assert_eq!(table_color(table, bits(f32::INFINITY), blend), [0, 0, 0]);
    let table = ClutStyle::Convection.table();
    assert_eq!(table_color(table, bits(214.0), blend), [255, 255, 0]);
    assert_eq!(table_color(table, bits(220.0), blend), [128, 228, 0]);
    assert_eq!(table_color(table, bits(230.5), blend), [0, 100, 128]);
}

#[test]
fn space_is_black() {
    let table = ClutStyle::Rainbow.table();
    assert_eq!(clut_color(table, NAN32, blend), [0, 0, 0]);
    assert_eq!(clut_color(table, bits(f32::INFINITY), blend), [0, 0, 0]);
    assert_eq!(clut_color(table, bits(159.99), blend), [0, 0, 0]);
    assert_eq!(clut_color(table, bits(160.0), blend), [255, 255, 255]);
    assert_eq!(clut_color(table, bits(206.0), blend), [255, 0, 128]);
}

#[test]
fn heights_are_clamped_and_colored() {
    assert_eq!(clamp_height(bits(-3.0)), bits(0.0));
    assert_eq!(clamp_height(bits(5.0)), bits(5.0));
    assert_eq!(clamp_height(bits(20.0)), bits(16.0));
    assert_eq!(height_color(bits(295.0), height, blend), HEIGHT_CLEAR_RGB);
    assert_eq!(height_color(bits(310.0), height, blend), HEIGHT_CLEAR_RGB);
    assert_eq!(height_color(bits(230.0), height, blend), [200, 90, 40]);
    assert_eq!(height_color(bits(170.0), height, blend), [255, 255, 255]);
    assert_eq!(height_color(bits(282.0), height, blend), [70, 150, 60]);
}

#[test]
fn space_is_near_black_in_the_height_render() {
    assert_eq!(height_color(bits(150.0), height, blend), [10, 10, 14]);
    assert_eq!(height_color(NAN32, height, blend), [0, 0, 0]);
    assert_eq!(height_color(bits(f32::NEG_INFINITY), height, blend), [0, 0, 0]);
    assert_eq!(height_color(bits(f32::INFINITY), height, blend), [0, 0, 0]);
}

#[test]
fn counts_are_mapped_to_colors() {
    let lut = [[1, 2, 3], [4, 5, 6], [7, 8, 9]];
    let image = render_count_lut(&[2, 0, 1, 1, 2], 2, &lut);
    assert_eq!((image.width, image.height), (2, 2));
    assert_eq!(image.data, vec![7, 8, 9, 1, 2, 3, 4, 5, 6, 4, 5, 6]);
}

#[test]
fn a_thermal_band_is_enhanced() {
    let counts = [180, 250, 320, 100, OUTSIDE, 65_535];
    let image = ir_enhancement(
        &thermal(),
        &counts,
        3,
        ClutStyle::Grayscale,
        radiance,
        temperature,
        blend,
    )
    .unwrap();
    assert_eq!((image.width, image.height), (3, 2));
    assert_eq!(
        image.data,
        vec![255, 255, 255, 128, 128, 128, 0, 0, 0, 0, 0, 0, 0, 0, 0, 0, 0, 0]
    );
}

#[test]
fn cloud_tops_are_colored_by_height() {
    // A clear pixel, two clouds, space, a pixel in error, and one too dark to
    // have a temperature.
    let counts = [295, 230, 170, OUTSIDE, 65_535, 0];
    let image = cloud_top_height(
        &thermal(),
        &counts,
        6,
        radiance,
        temperature,
        height,
        blend,
    )
    .unwrap();
    assert_eq!((image.width, image.height), (6, 1));
    assert_eq!(
        image.data,
        vec![10, 10, 14, 200, 90, 40, 255, 255, 255, 10, 10, 14, 0, 0, 0, 10, 10, 14]
    );
}

#[test]
fn measurements_without_a_temperature_have_no_height() {
    // Count 5 has a radiance that is not a number, 6 a temperature that is
    // not one, 7 a negative radiance.
    let level = |_: u64, _: u64, count: u16| match count {
        5 => f64::NAN.to_bits(),
        7 => (-1.0f64).to_bits(),
        _ => f64::from(count).to_bits(),
    };
    let warmth = |_: &CalibrationKind, level: u64| match f64::from_bits(level) {
        x if x == 6.0 => bits(f32::NAN),
        x => bits(x as f32),
    };
    let image =
        cloud_top_height(&thermal(), &[5, 6, 7, 150], 4, level, warmth, height, blend).unwrap();
    assert_eq!(image.data, vec![0, 0, 0, 0, 0, 0, 10, 10, 14, 10, 10, 14]);
}

#[test]
fn thermal_products_need_a_thermal_band() {
    let error = ir_enhancement(
        &reflective(),
        &[1],
        1,
        ClutStyle::Convection,
        radiance,
        temperature,
        blend,
    )
    .unwrap_err();
    assert_eq!(error, RenderError::EnhancementNotThermal);
    assert_eq!(error.message(), "band has no thermal calibration");
    let error =
        cloud_top_height(&reflective(), &[1], 1, radiance, temperature, height, blend).unwrap_err();
    assert_eq!(error, RenderError::HeightNotThermal);
    assert_eq!(error.message(), "cloud-top height needs a thermal band");
}

fn disk(band: Band, calibration: Calibration, count: u16) -> BandImage {
    BandImage {
        band,
        calibration,
        projection: Projection {
            sub_lon_deg: 0,
            cfac: 0,
            lfac: 0,
            coff: 0,
            loff: 0,
            distance_km: 0,
            equatorial_radius_km: 0,
            polar_radius_km: 0,
        },
        counts: vec![count; FULL_DISK_SIZE * FULL_DISK_SIZE],
    }
}

/// The average of the first band as the red channel, the number of samples in
/// thousands as the green one, the column as the blue one.
fn shade(px: &PixelSample, offset: &u8) -> [u32; 3] {
    let mean = f32::from_bits(px.sum.0) / px.valid as f32;
    [mean as u32 + u32::from(*offset), px.valid / 1000, px.out_x as u32]
}

fn quantize(color: [u32; 3]) -> [u8; 3] {
    color.map(|channel| channel as u8)
}

fn pixel(image: &Rgb8Image, x: usize, y: usize) -> [u8; 3] {
    let i = (y * image.width as usize + x) * 3;
    [image.data[i], image.data[i + 1], image.data[i + 2]]
}

#[test]
fn blocks_of_the_disk_become_pixels() {
    let mut image = disk(Band::B01, reflective(), 40);
    // The block at column 1 and row 0 has no data, half of the one at column
    // 2 and row 1 has none, and a quarter of that at column 3 is brighter.
    for y in 0..1000 {
        for x in 1000..2000 {
            image.counts[y * FULL_DISK_SIZE + x] = OUTSIDE;
        }
    }
    for y in 1000..1500 {
        for x in 2000..3000 {
            image.counts[y * FULL_DISK_SIZE + x] = 65_535;
        }
    }
    for y in 1000..1500 {
        for x in 3000..3500 {
            image.counts[y * FULL_DISK_SIZE + x] = 80;
        }
    }
    let out = true_color(
        &image,
        &image,
        &image,
        &image,
        1000,
        reflectance,
        plus,
        |x: usize, y: usize| if (x, y) == (4, 1) { None } else { Some(1u8) },
        shade,
        quantize,
    )
    .unwrap();
    assert_eq!((out.width, out.height), (11, 11));
    assert_eq!(pixel(&out, 0, 0), [41, 232, 0]);
    assert_eq!(pixel(&out, 1, 0), [0, 0, 0]);
    assert_eq!(pixel(&out, 2, 1), [41, 244, 2]);
    assert_eq!(pixel(&out, 3, 1), [51, 232, 3]);
    assert_eq!(pixel(&out, 4, 1), [0, 0, 0]);
    assert_eq!(pixel(&out, 10, 10), [41, 232, 10]);
}

#[test]
fn the_first_thermal_band_of_a_composite_is_reported() {
    let visible = disk(Band::B01, reflective(), 40);
    let infrared = BandImage {
        band: Band::B05,
        calibration: thermal(),
        projection: visible.projection,
        counts: visible.counts.clone(),
    };
    let locate = |_: usize, _: usize| Some(1u8);
    let error = natural_color(
        &visible, &infrared, &visible, 1000, reflectance, plus, locate, shade, quantize,
    )
    .unwrap_err();
    assert_eq!(error, RenderError::NoReflectance(Band::B05));
    assert_eq!(error.message(), "B05 has no reflectance calibration");
}

/// The layers over a grid of one line: a pixel sees the temperature at its
/// column, a tall cloud appears one column further. The night layer adds the
/// tenth of the temperature to the second channel and how dark it is to the
/// third, the overlay adds a tenth of the palette color to all of them.
fn combine(
    visible: &BandImage,
    calibration: &Calibration,
    counts: &[u16],
    style: ClutStyle,
) -> Result<Rgb8Image, RenderError> {
    let width = counts.len();
    let spot = move |x: usize| Spot {
        x0: x % width,
        y0: 0,
        weights: (bits(1.0), bits(0.0), bits(0.0), bits(0.0)),
    };
    combined(
        visible,
        visible,
        visible,
        visible,
        calibration,
        counts,
        width,
        1000,
        style,
        reflectance,
        radiance,
        temperature,
        plus,
        |_: usize, y: usize| Some(y as u8),
        |px: &PixelSample, _: &u8| shade(px, &0),
        quantize,
        IrShading {
            here: move |px: &PixelSample| spot(px.out_x),
            apparent: move |px: &PixelSample, _: u32| Some(spot(px.out_x + 1)),
            height,
            mix,
            divide,
            night: |y: &u8| bits(f32::from(*y)),
            clouds,
            blend,
            overlay,
        },
    )
}

fn clouds(color: [u32; 3], temperature: u32, night: u32) -> [u32; 3] {
    let gray = f32::from_bits(temperature) as u32 / 10;
    [color[0], color[1] + gray, color[2] + f32::from_bits(night) as u32]
}

fn overlay(color: [u32; 3], _: &PixelSample, _: u32, clut: [u8; 3]) -> [u32; 3] {
    [0, 1, 2].map(|k| color[k] + u32::from(clut[k]) / 10)
}

#[test]
fn layers_lie_over_the_visible_imagery() {
    let visible = disk(Band::B01, reflective(), 40);
    // Warm; tall and cold, with another cold top where it appears; without a
    // temperature; tall, and without one where it appears; too cold.
    let counts = [290, 225, 206, OUTSIDE, 230, OUTSIDE, 100];
    let out = combine(&visible, &thermal(), &counts, ClutStyle::Grayscale).unwrap();
    // Row 0 is in full daylight, row 2 is not.
    assert_eq!(pixel(&out, 0, 0), [40, 232, 0]);
    assert_eq!(pixel(&out, 0, 2), [40, 5, 2]);
    // 206 K is 208 in the palette.
    assert_eq!(pixel(&out, 1, 0), [60, 252, 21]);
    assert_eq!(pixel(&out, 1, 2), [60, 16, 23]);
    // What appears to be 206 K has no temperature further on: it stays.
    assert_eq!(pixel(&out, 2, 0), [60, 252, 22]);
    assert_eq!(pixel(&out, 3, 0), [40, 232, 3]);
    assert_eq!(pixel(&out, 3, 2), [40, 232, 3]);
    // 230 K is 164 in the palette.
    assert_eq!(pixel(&out, 4, 0), [56, 248, 20]);
    assert_eq!(pixel(&out, 5, 2), [40, 232, 5]);
    // 100 K is tall, and a temperature of 290 K is found where it appears.
    assert_eq!(pixel(&out, 6, 0), [40, 232, 6]);
    assert_eq!(pixel(&out, 6, 2), [40, 5, 8]);
    let error = combine(&visible, &reflective(), &counts, ClutStyle::Grayscale).unwrap_err();
    assert_eq!(error, RenderError::CombinedNotThermal);
    assert_eq!(error.message(), "combined product needs a thermal band");
}

/// The true-color image under what `combine` gives.
fn visible_only(visible: &BandImage) -> Rgb8Image {
    true_color(
        visible,
        visible,
        visible,
        visible,
        1000,
        reflectance,
        plus,
        |_: usize, y: usize| Some(y as u8),
        |px: &PixelSample, _: &u8| shade(px, &0),
        quantize,
    )
    .unwrap()
}

#[test]
fn grids_without_cold_cloud_need_no_palette() {
    let visible = disk(Band::B01, reflective(), 40);
    let plain = visible_only(&visible);
    let styles = [
        ClutStyle::Convection,
        ClutStyle::Grayscale,
        ClutStyle::Rainbow,
        ClutStyle::WaterVapor,
    ];
    let warm = combine(&visible, &thermal(), &[235, 260, 300], styles[0]).unwrap();
    for style in styles {
        // Without a temperature only the visible imagery shows.
        let empty = combine(&visible, &thermal(), &[OUTSIDE, 65_535, 0], style).unwrap();
        assert_eq!(empty.data, plain.data);
        // Without a cold one the style does not matter.
        let other = combine(&visible, &thermal(), &[235, 260, 300], style).unwrap();
        assert_eq!(other.data, warm.data);
    }
    // In full daylight warm cloud does not show.
    let row = 3 * plain.width as usize;
    assert_eq!(warm.data[..row], plain.data[..row]);
    assert_ne!(warm.data[row..], plain.data[row..]);
    // On the night side nothing is darker. With one sample in each block the
    // channels have room for the clouds.
    let mut sparse = disk(Band::B01, reflective(), OUTSIDE);
    for y in 0..11 {
        for x in 0..11 {
            sparse.counts[1000 * y * FULL_DISK_SIZE + 1000 * x] = 40;
        }
    }
    let lit = combine(&sparse, &thermal(), &[235, 260, 300], styles[0]).unwrap();
    let unlit = visible_only(&sparse);
    assert!(lit.data.iter().zip(&unlit.data).all(|(a, b)| a >= b));
    assert!(lit.data.iter().zip(&unlit.data).any(|(a, b)| a > b));
    // A cold temperature that a pixel shows makes a difference.
    let tops = |style| combine(&visible, &thermal(), &[200], style).unwrap().data;
    assert_ne!(tops(ClutStyle::Convection), tops(ClutStyle::Grayscale));
}

#[test]
fn space_and_shallow_cloud_get_no_overlay() {
    let color = |bt: f32, night: f32| {
        let ir = IrShading {
            here: |_: &PixelSample| Spot {
                x0: 0,
                y0: 0,
                weights: (bits(1.0), bits(0.0), bits(0.0), bits(0.0)),
            },
            apparent: |_: &PixelSample, _: u32| None,
            height,
            mix,
            divide,
            night: move |_: &()| bits(night),
            clouds,
            blend,
            overlay,
        };
        let px = PixelSample { out_x: 0, out_y: 0, sum: (0, 0, 0, 0), valid: 1 };
        let visible = |_: &PixelSample, _: &()| [1u32, 2, 3];
        combined_color(&px, &(), &[bits(bt)], 1, ClutStyle::Grayscale, &visible, &ir)
    };
    assert_eq!(color(280.0, 0.0), [1, 2, 3]);
    assert_eq!(color(235.0, 0.0), [1, 2, 3]);
    assert_eq!(color(235.0, 1.0), [1, 25, 4]);
    assert_eq!(color(180.0, 0.0), [26, 27, 28]);
    assert_eq!(color(160.0, 1.0), [26, 43, 29]);
    assert_eq!(color(159.0, 1.0), [1, 2, 3]);
    assert_eq!(color(f32::NAN, 1.0), [1, 2, 3]);
}

fn mix(total: (u32, u32), tap: (u32, u32)) -> (u32, u32) {
    let (sum, weight) = (f32::from_bits(total.0), f32::from_bits(total.1));
    let (value, share) = (f32::from_bits(tap.0), f32::from_bits(tap.1));
    (bits(sum + value * share), bits(weight + share))
}

fn divide(sum: u32, weight: u32) -> u32 {
    bits(f32::from_bits(sum) / f32::from_bits(weight))
}

#[test]
fn grids_are_sampled_between_pixels() {
    let grid: Vec<u32> = [10.0, 20.0, 30.0, 50.0].iter().map(|&x| bits(x)).collect();
    let even = (bits(0.25), bits(0.25), bits(0.25), bits(0.25));
    let sample = |x0, y0, weights| {
        f32::from_bits(sample_bilinear(&grid, 2, x0, y0, weights, mix, divide))
    };
    assert_eq!(sample(0, 0, even), 27.5);
    // The neighbors past the edge are those at the edge.
    assert_eq!(sample(1, 0, even), 35.0);
    assert_eq!(sample(1, 1, even), 50.0);
    let corner = (bits(1.0), bits(0.0), bits(0.0), bits(0.0));
    assert_eq!(sample(0, 1, corner), 30.0);
}

#[test]
fn invalid_neighbors_are_dropped() {
    let grid = [bits(10.0), NAN32, bits(30.0), bits(f32::INFINITY)];
    let even = (bits(0.25), bits(0.25), bits(0.25), bits(0.25));
    assert_eq!(
        f32::from_bits(sample_bilinear(&grid, 2, 0, 0, even, mix, divide)),
        20.0
    );
    let right = (bits(0.0), bits(0.5), bits(0.0), bits(0.5));
    assert_eq!(sample_bilinear(&grid, 2, 0, 0, right, mix, divide), NAN32);
    assert_eq!(sample_bilinear(&[NAN32], 1, 0, 0, even, mix, divide), NAN32);
}

#[test]
fn tall_clouds_are_sampled_where_they_appear() {
    let shifted = |top: u32| {
        assert_eq!(f32::from_bits(top), 10.0);
        Some(bits(222.0))
    };
    assert_eq!(cloud_temperature(bits(230.0), height, shifted), bits(222.0));
    assert_eq!(cloud_temperature(bits(230.0), height, |_| Some(NAN32)), bits(230.0));
    assert_eq!(cloud_temperature(bits(230.0), height, |_| None), bits(230.0));
    // Shallow cloud is not looked up again, nor is a missing sample.
    let unasked = |_: u32| -> Option<u32> { panic!("asked") };
    assert_eq!(cloud_temperature(bits(290.0), height, unasked), bits(290.0));
    assert_eq!(cloud_temperature(NAN32, height, unasked), NAN32);
    let tallest = |top: u32| {
        assert_eq!(f32::from_bits(top), 16.0);
        None
    };
    assert_eq!(cloud_temperature(bits(100.0), height, tallest), bits(100.0));
}
