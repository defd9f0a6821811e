use bzip2::write::BzEncoder;
use bzip2::Compression;
use himawari_earth::band::{Band, IrBand};
use himawari_earth::fetch::{decode_raw, decode_segment, unexpected_contents, SegmentError};
use himawari_earth::hsd::{parse, Calibration, CalibrationKind, HsdError, Reader, Segment};
use himawari_earth::ieee::{
    is_at_most32, is_at_most64, is_finite32, is_less32, is_less64, is_nan32, is_nan64, NAN32,
};
use std::io::Write;

fn put(block: &mut [u8], at: usize, bytes: &[u8]) {
    block[at..at + bytes.len()].copy_from_slice(bytes);
}

fn header(number: u8, length: u16) -> Vec<u8> {
    let mut block = vec![0u8; length as usize];
    block[0] = number;
    put(&mut block, 1, &length.to_le_bytes());
    block
}

struct File {
    first: Vec<u8>,
    data: Vec<u8>,
    projection: Vec<u8>,
    calibration: Vec<u8>,
    segment: Vec<u8>,
    counts: Vec<u16>,
}

/// A file of one line for a band, with the counts 0, 1, 2 and so on.
fn file(band: u16, segment: u8, columns: u16) -> File {
    let mut first = header(1, 282);
    put(&mut first, 3, &6u16.to_le_bytes());
    let mut data = header(2, 50);
    put(&mut data, 3, &16u16.to_le_bytes());
    put(&mut data, 5, &columns.to_le_bytes());
    put(&mut data, 7, &1u16.to_le_bytes());
    let mut projection = header(3, 127);
    put(&mut projection, 3, &140.7f64.to_le_bytes());
    put(&mut projection, 11, &40_932_549u32.to_le_bytes());
    put(&mut projection, 15, &40_932_548u32.to_le_bytes());
    put(&mut projection, 19, &5_500.5f32.to_le_bytes());
    put(&mut projection, 23, &5_501.5f32.to_le_bytes());
    put(&mut projection, 27, &42_164.0f64.to_le_bytes());
    put(&mut projection, 35, &6_378.137f64.to_le_bytes());
    put(&mut projection, 43, &6_356.7523f64.to_le_bytes());
    let mut calibration = header(5, 147);
    put(&mut calibration, 3, &band.to_le_bytes());
    put(&mut calibration, 5, &10.4073f64.to_le_bytes());
    put(&mut calibration, 15, &65_535u16.to_le_bytes());
    put(&mut calibration, 17, &65_534u16.to_le_bytes());
    put(&mut calibration, 19, &0.5f64.to_le_bytes());
    put(&mut calibration, 27, &(-2.0f64).to_le_bytes());
    put(&mut calibration, 35, &0.25f64.to_le_bytes());
    put(&mut calibration, 43, &1.5f64.to_le_bytes());
    put(&mut calibration, 51, &(-0.125f64).to_le_bytes());
    put(&mut calibration, 83, &299_792_458.0f64.to_le_bytes());
    put(&mut calibration, 91, &6.626e-34f64.to_le_bytes());
    put(&mut calibration, 99, &1.38e-23f64.to_le_bytes());
    let mut segment_block = header(7, 47);
    segment_block[3] = 10;
    segment_block[4] = segment;
    put(&mut segment_block, 5, &331u16.to_le_bytes());
    File {
        first,
        data,
        projection,
        calibration,
        segment: segment_block,
        counts: (0..columns).collect(),
    }
}

impl File {
    fn bytes(&self) -> Vec<u8> {
        let mut bytes = Vec::new();
        bytes.extend(&self.first);
        bytes.extend(&self.data);
        bytes.extend(&self.projection);
        // A block of a number that is of no interest.
        bytes.extend(header(4, 139));
        bytes.extend(&self.calibration);
        bytes.extend(&self.segment);
        for count in &self.counts {
            bytes.extend(count.to_le_bytes());
        }
        bytes
    }
}

fn compressed(bytes: &[u8]) -> Vec<u8> {
    let mut encoder = BzEncoder::new(Vec::new(), Compression::fast());
    encoder.write_all(bytes).unwrap();
    encoder.finish().unwrap()
}

fn check_visible(segment: &Segment) {
    assert_eq!(segment.band_number, 1);
    assert_eq!((segment.columns, segment.lines, segment.first_line), (11_000, 1, 331));
    assert_eq!((segment.segment_number, segment.total_segments), (4, 10));
    assert_eq!(segment.counts.len(), 11_000);
    assert!(segment.counts.iter().enumerate().all(|(i, &count)| usize::from(count) == i));
}

#[test]
fn a_visible_file_is_decoded() {
    let segment = parse(&file(1, 4, 11_000).bytes()).unwrap();
    check_visible(&segment);
    let calibration = segment.calibration;
    assert_eq!((calibration.error_count, calibration.outside_scan_count), (65_535, 65_534));
    assert_eq!(calibration.gain, 0.5f64.to_bits());
    assert_eq!(calibration.offset, (-2.0f64).to_bits());
    assert_eq!(
        calibration.kind,
        CalibrationKind::Reflective { albedo_coeff: 0.25f64.to_bits() }
    );
    let projection = segment.projection;
    assert_eq!(projection.sub_lon_deg, 140.7f64.to_bits());
    assert_eq!((projection.cfac, projection.lfac), (40_932_549, 40_932_548));
    assert_eq!(projection.coff, 5_500.5f32.to_bits());
    assert_eq!(projection.loff, 5_501.5f32.to_bits());
    assert_eq!(projection.distance_km, 42_164.0f64.to_bits());
    assert_eq!(projection.equatorial_radius_km, 6_378.137f64.to_bits());
    assert_eq!(projection.polar_radius_km, 6_356.7523f64.to_bits());
}

#[test]
fn a_thermal_file_is_decoded() {
    let segment = parse(&file(13, 1, 5_500).bytes()).unwrap();
    assert_eq!(
        segment.calibration.kind,
        CalibrationKind::Emissive {
            wavelength_um: 10.4073f64.to_bits(),
            c0: 0.25f64.to_bits(),
            c1: 1.5f64.to_bits(),
            c2: (-0.125f64).to_bits(),
            speed_of_light: 299_792_458.0f64.to_bits(),
            planck: 6.626e-34f64.to_bits(),
            boltzmann: 1.38e-23f64.to_bits(),
        }
    );
}

#[test]
fn trailing_bytes_do_not_matter() {
    let mut bytes = file(1, 4, 11_000).bytes();
    bytes.extend([1, 2, 3]);
    check_visible(&parse(&bytes).unwrap());
}

/// The bytes of a file whose blocks behind the first one are the given ones.
fn with_blocks(file: &File, blocks: &[&[u8]]) -> Vec<u8> {
    let mut first = file.first.clone();
    put(&mut first, 3, &(blocks.len() as u16 + 1).to_le_bytes());
    let mut bytes = first;
    for block in blocks {
        bytes.extend(*block);
    }
    for count in &file.counts {
        bytes.extend(count.to_le_bytes());
    }
    bytes
}

#[test]
fn the_order_of_blocks_does_not_matter() {
    let parts = file(1, 4, 11_000);
    let (data, projection) = (parts.data.as_slice(), parts.projection.as_slice());
    let (calibration, segment) = (parts.calibration.as_slice(), parts.segment.as_slice());
    let expected = parse(&parts.bytes()).unwrap();
    for blocks in [
        [data, projection, calibration, segment],
        [segment, calibration, projection, data],
        [projection, segment, data, calibration],
    ] {
        let moved = parse(&with_blocks(&parts, &blocks)).unwrap();
        check_visible(&moved);
        assert_eq!(moved.calibration, expected.calibration);
        assert_eq!(moved.projection, expected.projection);
    }
    let mut wrong = file(1, 4, 11_000);
    put(&mut wrong.data, 3, &12u16.to_le_bytes());
    for blocks in [
        [&wrong.data, &wrong.projection, &wrong.calibration, &wrong.segment],
        [&wrong.segment, &wrong.calibration, &wrong.projection, &wrong.data],
    ] {
        let blocks = blocks.map(|block| block.as_slice());
        let error = parse(&with_blocks(&wrong, &blocks)).unwrap_err();
        assert_eq!(error, HsdError::BitsPerPixel(12));
    }
}

#[test]
fn blocks_of_no_interest_are_skipped() {
    let parts = file(13, 1, 5_500);
    let expected = parse(&parts.bytes()).unwrap();
    let blocks = [&parts.data, &parts.projection, &parts.calibration, &parts.segment];
    for at in 0..=4 {
        for number in [0, 1, 4, 6, 8, 11, 255] {
            let other = header(number, 3);
            let mut list: Vec<&[u8]> = blocks.iter().map(|block| block.as_slice()).collect();
            list.insert(at, &other);
            let segment = parse(&with_blocks(&parts, &list)).unwrap();
            assert_eq!(segment.calibration, expected.calibration);
            assert_eq!(segment.projection, expected.projection);
            assert_eq!(segment.counts, expected.counts);
            assert_eq!(segment.segment_number, expected.segment_number);
        }
    }
}

#[test]
fn later_blocks_replace_earlier_ones() {
    let mut chained = file(1, 4, 3);
    chained.first[3] = 7;
    let mut second = chained.segment.clone();
    second[4] = 9;
    chained.segment.extend(second);
    assert_eq!(parse(&chained.bytes()).unwrap().segment_number, 9);
}

#[test]
fn files_of_another_kind_are_refused() {
    let mut other = file(1, 4, 3);
    other.first[0] = 2;
    assert_eq!(parse(&other.bytes()).unwrap_err(), HsdError::NotHsd(2));
    let mut big = file(1, 4, 3);
    big.first[5] = 1;
    assert_eq!(parse(&big.bytes()).unwrap_err(), HsdError::BigEndian);
    let mut narrow = file(1, 4, 3);
    narrow.data[3] = 8;
    assert_eq!(parse(&narrow.bytes()).unwrap_err(), HsdError::BitsPerPixel(8));
}

#[test]
fn missing_blocks_are_reported_in_order() {
    let mut none = file(1, 4, 3);
    none.data[0] = 20;
    none.projection[0] = 20;
    assert_eq!(parse(&none.bytes()).unwrap_err(), HsdError::MissingBlock(2));
    let mut two = file(1, 4, 3);
    two.projection[0] = 20;
    two.segment[0] = 20;
    assert_eq!(parse(&two.bytes()).unwrap_err(), HsdError::MissingBlock(3));
    let mut three = file(1, 4, 3);
    three.calibration[0] = 20;
    assert_eq!(parse(&three.bytes()).unwrap_err(), HsdError::MissingBlock(5));
    let mut four = file(1, 4, 3);
    four.segment[0] = 20;
    assert_eq!(parse(&four.bytes()).unwrap_err(), HsdError::MissingBlock(7));
}

#[test]
fn truncated_files_are_refused() {
    assert_eq!(
        parse(&[]).unwrap_err(),
        HsdError::Truncated { offset: 0, need: 1, have: 0 }
    );
    assert_eq!(
        parse(&[1, 0, 0, 6]).unwrap_err(),
        HsdError::Truncated { offset: 3, need: 2, have: 4 }
    );
    let bytes = file(1, 4, 3).bytes();
    assert_eq!(
        parse(&bytes[..284]).unwrap_err(),
        HsdError::Truncated { offset: 283, need: 2, have: 284 }
    );
    let size = bytes.len();
    assert_eq!(
        parse(&bytes[..size - 1]).unwrap_err(),
        HsdError::DataSize { expected: 3, have: 2 }
    );
}

#[test]
fn decoding_errors_have_words() {
    for (error, words) in [
        (
            HsdError::Truncated { offset: 283, need: 2, have: 284 },
            "file truncated: need 2 bytes at offset 283, have 284",
        ),
        (
            HsdError::NotHsd(7),
            "not an HSD file: first header block number is 7, expected 1",
        ),
        (HsdError::BigEndian, "big-endian HSD files are not supported"),
        (HsdError::BitsPerPixel(8), "unsupported bits per pixel: 8 (expected 16)"),
        (HsdError::MissingBlock(5), "missing required header block 5"),
        (
            HsdError::DataSize { expected: 3, have: 2 },
            "data block too small: expected 3 pixels, have 2",
        ),
    ] {
        assert_eq!(error.message(), words);
    }
}

#[test]
fn fields_are_little_endian() {
    let buf: Vec<u8> = (1..=9).collect();
    let reader = Reader { buf: &buf };
    assert_eq!(reader.u8(8).unwrap(), 9);
    assert_eq!(reader.u16(0).unwrap(), 0x0201);
    assert_eq!(reader.u32(1).unwrap(), 0x0504_0302);
    assert_eq!(reader.single(0).unwrap(), 0x0403_0201);
    assert_eq!(reader.double(1).unwrap(), 0x0908_0706_0504_0302);
    assert_eq!(reader.bytes(2, 3).unwrap(), &[3, 4, 5]);
    assert_eq!(
        reader.u16(8).unwrap_err(),
        HsdError::Truncated { offset: 8, need: 2, have: 9 }
    );
    assert!(reader.bytes(usize::MAX, 2).is_err());
}

#[test]
fn a_compressed_file_gives_its_segment() {
    let packed = compressed(&file(1, 4, 11_000).bytes());
    check_visible(&decode_segment(&packed, Band::B01, 4).unwrap());
}

#[test]
fn streams_that_follow_each_other_are_one_file() {
    let bytes = file(1, 4, 11_000).bytes();
    let mut packed = compressed(&bytes[..500]);
    packed.extend(compressed(&bytes[500..]));
    check_visible(&decode_segment(&packed, Band::B01, 4).unwrap());
}

#[test]
fn damaged_files_are_not_decompressed() {
    let packed = compressed(&file(1, 4, 11_000).bytes());
    for damaged in [&packed[..packed.len() / 2], b"plain text".as_slice(), b"".as_slice()] {
        assert!(matches!(
            decode_segment(damaged, Band::B01, 4),
            Err(SegmentError::Decompress(_))
        ));
    }
}

#[test]
fn undecodable_contents_are_reported() {
    let packed = compressed(&[2, 0, 0]);
    assert!(matches!(
        decode_segment(&packed, Band::B01, 4),
        Err(SegmentError::Parse(HsdError::NotHsd(2)))
    ));
}

#[test]
fn files_of_another_segment_are_refused() {
    let bytes = file(1, 4, 11_000).bytes();
    assert!(decode_raw(&bytes, Band::B01, 4).is_ok());
    for result in [
        decode_raw(&bytes, Band::B02, 4),
        decode_raw(&bytes, Band::B01, 5),
        decode_raw(&file(1, 4, 5_500).bytes(), Band::B01, 4),
        decode_raw(&bytes, IrBand::b13(), 4),
    ] {
        assert!(matches!(result, Err(SegmentError::Unexpected { .. })));
    }
    let mut nine = file(1, 4, 11_000);
    nine.segment[3] = 9;
    match decode_raw(&nine.bytes(), Band::B01, 4) {
        Err(SegmentError::Unexpected {
            band_number,
            segment_number,
            total_segments,
            columns,
        }) => assert_eq!(
            unexpected_contents("f", band_number, segment_number, total_segments, columns),
            "f: unexpected contents (band 1, segment 4/9, 11000 columns)"
        ),
        other => panic!("{other:?}"),
    }
}

fn reflectance(albedo: u64, gain: u64, offset: u64, count: u16) -> u32 {
    let radiance = f64::from_bits(gain) * f64::from(count) + f64::from_bits(offset);
    ((f64::from_bits(albedo) * radiance) as f32).to_bits()
}

fn radiance(gain: u64, offset: u64, count: u16) -> u64 {
    (f64::from_bits(gain) * f64::from(count) + f64::from_bits(offset)).to_bits()
}

#[test]
fn reflectances_are_tabulated() {
    let calibration = Calibration {
        gain: 0.5f64.to_bits(),
        offset: (-2.0f64).to_bits(),
        error_count: 65_535,
        outside_scan_count: 65_534,
        kind: CalibrationKind::Reflective { albedo_coeff: 0.25f64.to_bits() },
    };
    let lut = calibration.reflectance_lut(reflectance).unwrap();
    assert_eq!(lut.len(), 65_536);
    assert_eq!(f32::from_bits(lut[0]), -0.5);
    assert_eq!(f32::from_bits(lut[12]), 1.0);
    assert_eq!(lut[65_534], NAN32);
    assert_eq!(lut[65_535], NAN32);
    assert!(calibration.is_valid(65_533));
    assert!(!calibration.is_valid(65_534));
    assert!(!calibration.is_valid(65_535));
    assert!(calibration
        .brightness_temperature_lut(radiance, |_, level| level as u32)
        .is_none());
}

#[test]
fn temperatures_are_tabulated() {
    let calibration = Calibration {
        gain: 0.5f64.to_bits(),
        offset: (-2.0f64).to_bits(),
        error_count: 10,
        outside_scan_count: 11,
        kind: CalibrationKind::Emissive {
            wavelength_um: 0,
            c0: 0,
            c1: 0,
            c2: 0,
            speed_of_light: 0,
            planck: 0,
            boltzmann: 0,
        },
    };
    let lut = calibration
        .brightness_temperature_lut(radiance, |_, level| {
            (100.0 + f64::from_bits(level) as f32).to_bits()
        })
        .unwrap();
    assert_eq!(lut.len(), 65_536);
    assert_eq!(lut[3], NAN32);
    assert_eq!(lut[4], NAN32);
    assert_eq!(f32::from_bits(lut[5]), 100.5);
    assert_eq!(lut[10], NAN32);
    assert_eq!(lut[11], NAN32);
    assert_eq!(f32::from_bits(lut[12]), 104.0);
    assert!(calibration.reflectance_lut(reflectance).is_none());
}

#[test]
fn patterns_are_compared_as_numbers() {
    let numbers = [
        f32::NEG_INFINITY,
        f32::MIN,
        -1.5,
        -f32::MIN_POSITIVE,
        -0.0,
        0.0,
        f32::MIN_POSITIVE,
        1.5,
        160.0,
        f32::MAX,
        f32::INFINITY,
        f32::NAN,
        -f32::NAN,
    ];
    for a in numbers {
        assert_eq!(is_nan32(a.to_bits()), a.is_nan());
        assert_eq!(is_finite32(a.to_bits()), a.is_finite());
        for b in numbers {
            assert_eq!(is_less32(a.to_bits(), b.to_bits()), a < b, "{a} {b}");
            assert_eq!(is_at_most32(a.to_bits(), b.to_bits()), a <= b, "{a} {b}");
            let (c, d) = (f64::from(a), f64::from(b));
            assert_eq!(is_nan64(c.to_bits()), c.is_nan());
            assert_eq!(is_less64(c.to_bits(), d.to_bits()), c < d, "{a} {b}");
            assert_eq!(is_at_most64(c.to_bits(), d.to_bits()), c <= d, "{a} {b}");
        }
    }
    assert!(f32::from_bits(NAN32).is_nan());
}
