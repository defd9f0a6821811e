use himawari_earth::band::Band;
use himawari_earth::compose::{
    assemble_band, assemble_counts, double_counts, halve_counts, segment_order, AssembleError,
    FULL_DISK_SIZE,
};
use himawari_earth::hsd::{Calibration, CalibrationKind, Projection, Segment};

const OUTSIDE: u16 = 65_534;
const ERROR: u16 = 65_535;

fn calibration() -> Calibration {
    Calibration {
        gain: 0,
        offset: 0,
        error_count: ERROR,
        outside_scan_count: OUTSIDE,
        kind: CalibrationKind::Reflective { albedo_coeff: 0 },
    }
}

fn projection(mark: u32) -> Projection {
    Projection {
        sub_lon_deg: 0,
        cfac: mark,
        lfac: 0,
        coff: 0,
        loff: 0,
        distance_km: 0,
        equatorial_radius_km: 0,
        polar_radius_km: 0,
    }
}

fn segment(number: u8, columns: usize, first_line: usize, counts: Vec<u16>) -> Segment {
    Segment {
        band_number: 3,
        columns,
        lines: counts.len() / columns,
        first_line,
        segment_number: number,
        total_segments: 10,
        calibration: calibration(),
        projection: projection(u32::from(number)),
        counts,
    }
}

#[test]
fn counts_are_averaged_in_blocks() {
    let counts = [
        10, 20, ERROR, 7, //
        30, 41, OUTSIDE, 8, //
        ERROR, OUTSIDE, 1, 2, //
        OUTSIDE, ERROR, 3, 4,
    ];
    assert_eq!(halve_counts(&counts, 4, 4, &calibration()), vec![25, 7, OUTSIDE, 2]);
    assert_eq!(halve_counts(&[65_533; 4], 2, 2, &calibration()), vec![65_533]);
    assert_eq!(halve_counts(&[5, 6], 2, 1, &calibration()), Vec::<u16>::new());
    // The last line of an odd number is not looked at, and may be missing.
    assert_eq!(halve_counts(&[5, 7, 9, 11], 2, 3, &calibration()), vec![8]);
}

#[test]
fn counts_are_duplicated_into_blocks() {
    assert_eq!(
        double_counts(&[1, ERROR, 3, 4], 2),
        vec![
            1, 1, ERROR, ERROR, //
            1, 1, ERROR, ERROR, //
            3, 3, 4, 4, //
            3, 3, 4, 4
        ]
    );
    assert_eq!(double_counts(&[], 3), Vec::<u16>::new());
    assert_eq!(double_counts(&[9, 9, 9], 2), vec![9; 8]);
}

#[test]
fn halving_gives_back_what_was_doubled() {
    let counts = [1, 2, 3, ERROR, OUTSIDE, 60_000];
    let wide = double_counts(&counts, 3);
    assert_eq!(
        halve_counts(&wide, 6, 4, &calibration()),
        vec![1, 2, 3, OUTSIDE, OUTSIDE, 60_000]
    );
}

#[test]
fn segments_are_ordered_by_number() {
    let segments: Vec<Segment> = [3, 1, 2, 1, 0]
        .iter()
        .map(|&number| segment(number, 1, 1, vec![0]))
        .collect();
    assert_eq!(segment_order(&segments), vec![4, 1, 3, 2, 0]);
    assert_eq!(segment_order(&[]), Vec::<usize>::new());
}

#[test]
fn segments_land_on_their_lines() {
    let segments = vec![
        segment(2, 4, 3, vec![5, 6, 7, 8, 9, 10, 11, 12]),
        segment(1, 4, 1, vec![1, 2, 3, 4]),
    ];
    let (cal, proj, counts) = assemble_counts(4, segments).unwrap();
    assert_eq!(cal, calibration());
    assert_eq!(proj, projection(1));
    let o = OUTSIDE;
    assert_eq!(counts, vec![1, 2, 3, 4, o, o, o, o, 5, 6, 7, 8, 9, 10, 11, 12]);
}

#[test]
fn wide_segments_are_averaged_as_they_land() {
    let fine = segment(1, 4, 3, vec![1, 3, 5, 7, 1, 3, 5, 7]);
    let (_, _, counts) = assemble_counts(2, vec![fine]).unwrap();
    assert_eq!(counts, vec![OUTSIDE, OUTSIDE, 2, 6]);
}

#[test]
fn narrow_segments_are_duplicated_as_they_land() {
    let coarse = segment(1, 2, 2, vec![1, 2]);
    let (_, _, counts) = assemble_counts(4, vec![coarse]).unwrap();
    let o = OUTSIDE;
    assert_eq!(counts, vec![o, o, o, o, o, o, o, o, 1, 1, 2, 2, 1, 1, 2, 2]);
}

#[test]
fn later_segments_cover_earlier_ones() {
    let segments = vec![
        segment(2, 2, 2, vec![9, 9]),
        segment(1, 2, 1, vec![1, 2, 3, 4]),
    ];
    let (_, _, counts) = assemble_counts(2, segments).unwrap();
    assert_eq!(counts, vec![1, 2, 9, 9]);
}

#[test]
fn the_order_of_arrival_does_not_matter() {
    let make = |numbers: [u8; 3]| {
        let segments = numbers
            .iter()
            .map(|&n| segment(n, 3, usize::from(n), vec![u16::from(n); 3]))
            .collect();
        assemble_counts(3, segments).unwrap().2
    };
    assert_eq!(make([1, 2, 3]), make([3, 1, 2]));
    assert_eq!(make([1, 2, 3]), vec![1, 1, 1, 2, 2, 2, 3, 3, 3]);
}

#[test]
fn misaligned_segments_are_refused() {
    let error = assemble_counts(2, vec![segment(4, 4, 2, vec![0; 8])]).unwrap_err();
    assert_eq!(
        error,
        AssembleError::Misaligned { band: 3, segment: 4, first_line: 2, lines: 2 }
    );
    assert_eq!(
        error.message(),
        "band 3: segment 4 not aligned for 2x reduction (first line 2, 2 lines)"
    );
    let error = assemble_counts(2, vec![segment(4, 4, 1, vec![0; 4])]).unwrap_err();
    assert_eq!(
        error,
        AssembleError::Misaligned { band: 3, segment: 4, first_line: 1, lines: 1 }
    );
}

#[test]
fn segments_of_another_width_are_refused() {
    let error = assemble_counts(4, vec![segment(1, 3, 1, vec![0; 3])]).unwrap_err();
    assert_eq!(error, AssembleError::Width { band: 3, columns: 3, target_width: 4 });
    assert_eq!(
        error.message(),
        "band 3: segment width 3 fits no multiple of a 4-pixel grid"
    );
    // A grid without columns fits none of those that have some.
    let error = assemble_counts(0, vec![segment(1, 3, 1, vec![0; 3])]).unwrap_err();
    assert_eq!(error, AssembleError::Width { band: 3, columns: 3, target_width: 0 });
}

#[test]
fn segments_outside_the_disk_are_refused() {
    let error = assemble_counts(2, vec![segment(7, 2, 2, vec![0; 4])]).unwrap_err();
    assert_eq!(
        error,
        AssembleError::OutsideDisk { band: 3, segment: 7, first_line: 2, end_line: 4 }
    );
    assert_eq!(
        error.message(),
        "band 3: segment 7 does not fit the full disk (lines 2..4)"
    );
    let error = assemble_counts(2, vec![segment(7, 2, 0, vec![0; 2])]).unwrap_err();
    assert_eq!(
        error,
        AssembleError::OutsideDisk { band: 3, segment: 7, first_line: 0, end_line: 1 }
    );
    let error = assemble_counts(4, vec![segment(7, 2, 2, vec![0; 4])]).unwrap_err();
    assert_eq!(
        error,
        AssembleError::OutsideDisk { band: 3, segment: 7, first_line: 3, end_line: 7 }
    );
    let error = assemble_counts(2, vec![segment(7, 4, 3, vec![0; 16])]).unwrap_err();
    assert_eq!(
        error,
        AssembleError::OutsideDisk { band: 3, segment: 7, first_line: 2, end_line: 4 }
    );
}

#[test]
fn the_first_bad_segment_is_reported() {
    let segments = vec![
        segment(3, 3, 1, vec![0; 3]),
        segment(1, 4, 1, vec![0; 4]),
        segment(2, 4, 9, vec![0; 4]),
    ];
    assert!(matches!(
        assemble_counts(4, segments),
        Err(AssembleError::OutsideDisk { segment: 2, .. })
    ));
}

#[test]
fn a_band_is_placed_on_the_common_grid() {
    let image = assemble_band(
        Band::B03,
        vec![segment(1, FULL_DISK_SIZE, 2, (0..11_000).collect())],
    )
    .unwrap();
    assert_eq!(image.band, Band::B03);
    assert_eq!(image.counts.len(), FULL_DISK_SIZE * FULL_DISK_SIZE);
    assert_eq!(image.counts[0], OUTSIDE);
    assert_eq!(image.counts[FULL_DISK_SIZE + 7], 7);
    assert_eq!(image.counts[2 * FULL_DISK_SIZE - 1], 10_999);
    assert_eq!(image.counts[2 * FULL_DISK_SIZE], OUTSIDE);
    assert!(assemble_band(Band::B03, vec![segment(1, 5, 1, vec![0; 5])]).is_err());
}

#[test]
fn a_full_set_of_segments_makes_the_disk() {
    // Ten segments of two lines each on a grid of 20 pixels.
    let lines = |columns: usize| -> Vec<Segment> {
        (0..10)
            .rev()
            .map(|k| {
                let height = columns / 10;
                let counts = (0..columns * height)
                    .map(|i| (k * columns * height + i) as u16 / 4)
                    .collect();
                segment(k as u8 + 1, columns, k * height + 1, counts)
            })
            .collect()
    };
    let (_, _, native) = assemble_counts(20, lines(20)).unwrap();
    assert_eq!(native, (0..400).map(|i| i / 4).collect::<Vec<u16>>());
    let (_, _, fine) = assemble_counts(20, lines(40)).unwrap();
    assert!(!fine.contains(&OUTSIDE));
    assert_eq!(fine[0], 5);
    assert_eq!(fine[399], 394);
    let (_, _, coarse) = assemble_counts(20, lines(10)).unwrap();
    assert!(!coarse.contains(&OUTSIDE));
    assert_eq!(coarse[..4], [0, 0, 0, 0]);
    assert_eq!(coarse[399], 24);
}
