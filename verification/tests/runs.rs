use himawari_earth::band::{Band, IrBand};
use himawari_earth::calendar::{parse_time, Slot, TimeError};
use himawari_earth::compose::BandImage;
use himawari_earth::hsd::{Calibration, CalibrationKind, Projection};
use himawari_earth::plan::{
    check_downsample, choose_mode, find_band, frame_name, frames_dir_name, ir_output_name,
    is_new_scene, natural_color_bands, product_output_name, products_of_scene, rendered_last, required_bands,
    shares_b13, suffixed_output_name, thermal_bands_to_fetch, true_color_bands, Mode, OptionError, Product, Products,
};
use himawari_earth::timelapse::{
    check_frames, check_rendered, parse_range, slots_between, FrameError, FrameQueue, RangeError, Reorder, Step,
};

fn slot(text: &str) -> Slot {
    parse_time(text).expect("a slot")
}

fn products(combined: bool, natural: bool, cloud_height: bool, bands: &[u8]) -> Products {
    Products {
        combined,
        natural,
        cloud_height,
        clut_bands: bands.iter().map(|&n| IrBand::new(n).unwrap()).collect(),
    }
}

fn numbers(bands: &[IrBand]) -> Vec<u8> {
    bands.iter().map(|band| band.get()).collect()
}

#[test]
fn factors_divide_the_grid() {
    for factor in [1, 2, 4, 5, 8, 10, 11_000] {
        assert_eq!(check_downsample(Some(factor)), Ok(()));
    }
    for factor in [0, 3, 7, 11_001, usize::MAX] {
        assert_eq!(check_downsample(Some(factor)), Err(OptionError::Downsample));
    }
    assert_eq!(check_downsample(None), Ok(()));
    assert_eq!(
        OptionError::Downsample.message(),
        "--downsample must divide 11000 (e.g. 1, 2, 4, 5, 8, 10)"
    );
}

#[test]
fn the_mode_follows_the_options() {
    assert_eq!(choose_mode(None, false, false, false), Ok(Mode::Scene { downsample: 1 }));
    assert_eq!(choose_mode(Some(4), false, true, false), Ok(Mode::Scene { downsample: 4 }));
    assert_eq!(choose_mode(Some(2), true, false, false), Ok(Mode::Watch { downsample: 2 }));
    assert_eq!(choose_mode(None, false, true, true), Ok(Mode::Timelapse));
    for (time, timelapse) in [(true, false), (false, true), (true, true)] {
        assert_eq!(
            choose_mode(None, true, time, timelapse),
            Err(OptionError::WatchWithTime)
        );
    }
    assert_eq!(
        OptionError::WatchWithTime.message(),
        "--watch cannot be combined with --time or --timelapse"
    );
}

#[test]
fn only_new_scenes_are_rendered_while_watching() {
    let (one, two) = (slot("2026-07-09T06:30"), slot("2026-07-09T06:40"));
    assert!(is_new_scene(one, None));
    assert!(!is_new_scene(one, Some(one)));
    assert!(is_new_scene(two, Some(one)));
    assert_eq!(rendered_last(two, Some(one), true), Some(two));
    assert_eq!(rendered_last(two, Some(one), false), Some(one));
    assert_eq!(rendered_last(two, None, false), None);
}

#[test]
fn products_require_bands() {
    let (extra, thermal) = required_bands(&products(false, false, false, &[]));
    assert!(extra.is_empty() && thermal.is_empty());
    let (extra, thermal) = required_bands(&products(true, true, false, &[8]));
    assert_eq!(extra, vec![Band::B05]);
    assert_eq!(numbers(&thermal), vec![8, 13]);
    let (_, thermal) = required_bands(&products(false, false, true, &[13, 9]));
    assert_eq!(numbers(&thermal), vec![13, 9]);
    let (_, thermal) = required_bands(&products(false, false, false, &[9, 9]));
    assert_eq!(numbers(&thermal), vec![9, 9]);
}

#[test]
fn shared_bands_are_fetched_once() {
    let fetched = |combined, bands: &[u8]| {
        numbers(&thermal_bands_to_fetch(&products(combined, false, false, bands)))
    };
    assert_eq!(fetched(true, &[13, 8, 13]), vec![13, 8]);
    assert_eq!(fetched(true, &[]), vec![13]);
    assert_eq!(fetched(false, &[13, 8]), vec![13, 8]);
    assert_eq!(fetched(false, &[]), Vec::<u8>::new());
    let with = products(false, false, true, &[]);
    assert!(shares_b13(&with, IrBand::b13()));
    assert!(!shares_b13(&with, IrBand::new(8).unwrap()));
    assert!(!shares_b13(&products(false, true, false, &[]), IrBand::b13()));
}

#[test]
fn fetched_bands_are_those_required() {
    for combined in [false, true] {
        for bands in [&[][..], &[13], &[7, 13, 7], &[16]] {
            let wanted = products(combined, false, false, bands);
            let mut needed = numbers(&required_bands(&wanted).1);
            let mut fetched = numbers(&thermal_bands_to_fetch(&wanted));
            needed.sort();
            needed.dedup();
            fetched.sort();
            fetched.dedup();
            assert_eq!(needed, fetched);
        }
    }
}

#[test]
fn products_are_written_in_order() {
    let names = |wanted: &Products| -> Vec<String> {
        products_of_scene(wanted)
            .into_iter()
            .map(|product| {
                product_output_name(Some("earth"), product).unwrap_or("main".to_string())
            })
            .collect()
    };
    assert_eq!(names(&products(false, false, false, &[])), vec!["main"]);
    assert_eq!(
        names(&products(true, true, true, &[13, 8])),
        vec![
            "main",
            "earth_combined.png",
            "earth_natural.png",
            "earth_height.png",
            "earth_B13.png",
            "earth_B08.png"
        ]
    );
}

#[test]
fn names_are_made_from_the_stem() {
    assert_eq!(suffixed_output_name(Some("disk"), "natural"), "disk_natural.png");
    assert_eq!(suffixed_output_name(None, "natural"), "earth_natural.png");
    assert_eq!(ir_output_name(Some("a b"), IrBand::new(7).unwrap()), "a b_B07.png");
    assert_eq!(product_output_name(None, Product::TrueColor), None);
    assert_eq!(frames_dir_name(Some("disk")), "disk_frames");
    assert_eq!(frames_dir_name(None), "earth_frames");
    assert_eq!(frame_name(1), "frame_00001.png");
    assert_eq!(frame_name(123_456), "frame_123456.png");
}

#[test]
fn bands_are_found_by_name() {
    let image = |band| BandImage {
        band,
        calibration: Calibration {
            gain: 0,
            offset: 0,
            error_count: 0,
            outside_scan_count: 0,
            kind: CalibrationKind::Reflective { albedo_coeff: 0 },
        },
        projection: Projection {
            sub_lon_deg: 0,
            cfac: 0,
            lfac: 0,
            coff: 0,
            loff: 0,
            distance_km: 0,
            equatorial_radius_km: 0,
            polar_radius_km: 0,
        },
        counts: Vec::new(),
    };
    let images = [image(Band::B02), image(Band::B01), image(Band::B01)];
    assert_eq!(find_band(&images, Band::B01), Some(1));
    assert_eq!(find_band(&images, Band::B04), None);
}

#[test]
fn ranges_are_read() {
    let (start, end) = parse_range("2026-07-09T00:00..2026-07-09T06:00").unwrap();
    assert_eq!(start, slot("2026-07-09T00:00"));
    assert_eq!(end, slot("2026-07-09T06:00"));
    assert!(parse_range("2026-07-09T00:00..2026-07-09T00:00").is_ok());
    let (start, end) = (slot("2026-07-09T23:50"), slot("2026-07-10T00:00"));
    let form = "%Y-%m-%dT%H:%M";
    let text = format!("{}..{}", start.format(form), end.format(form));
    assert_eq!(parse_range(&text).unwrap(), (start, end));
}

#[test]
fn other_texts_are_no_ranges() {
    assert!(matches!(parse_range("2026-07-09T00:00"), Err(RangeError::NoDots)));
    assert!(matches!(parse_range(""), Err(RangeError::NoDots)));
    assert!(matches!(
        parse_range("x..2026-07-09T06:00"),
        Err(RangeError::Start(TimeError::Unreadable(_)))
    ));
    assert!(matches!(
        parse_range("2026-07-09T00:05..x"),
        Err(RangeError::Start(TimeError::BetweenSlots))
    ));
    assert!(matches!(
        parse_range("2026-07-09T00:00..2026-07-09T06:07"),
        Err(RangeError::End(TimeError::BetweenSlots))
    ));
    assert!(matches!(
        parse_range("2026-07-09T00:00...2026-07-09T06:00"),
        Err(RangeError::End(TimeError::Unreadable(_)))
    ));
    assert!(matches!(
        parse_range("2026-07-09T06:00..2026-07-09T00:00"),
        Err(RangeError::Backwards)
    ));
}

#[test]
fn ranges_include_both_ends() {
    let (start, end) = (slot("2026-07-09T23:40"), slot("2026-07-10T00:10"));
    let slots: Vec<String> = slots_between(start, end)
        .into_iter()
        .map(|at| at.format("%H:%M"))
        .collect();
    assert_eq!(slots, vec!["23:40", "23:50", "00:00", "00:10"]);
    assert_eq!(slots_between(start, start), vec![start]);
}

#[test]
fn frames_fit_a_video() {
    assert_eq!(check_frames(12, None), Ok(4));
    assert_eq!(check_frames(1, Some(2)), Ok(2));
    assert_eq!(check_frames(120, Some(10)), Ok(10));
    assert_eq!(check_frames(0, None), Err(FrameError::Fps));
    assert_eq!(check_frames(121, Some(1)), Err(FrameError::Fps));
    assert_eq!(FrameError::Fps.message(), "--fps must be between 1 and 120");
    let large = check_frames(12, Some(1)).unwrap_err();
    assert_eq!(large, FrameError::FrameSize { downsample: 1, frame_size: 11_000 });
    assert_eq!(
        large.message(),
        "--downsample 1 gives 11000x11000 frames; video needs even dimensions of at most 5500 \
         (try 4, 5, or 10)"
    );
    assert_eq!(
        check_frames(12, Some(8)),
        Err(FrameError::FrameSize { downsample: 8, frame_size: 1_375 })
    );
}

#[test]
fn items_come_out_in_order() {
    let mut buffer = Reorder::new();
    assert_eq!(buffer.take(), None::<char>);
    buffer.accept(2, 'c');
    buffer.accept(1, 'b');
    assert_eq!(buffer.take(), None);
    assert_eq!(buffer.next_number(), 0);
    buffer.accept(0, 'a');
    assert_eq!(buffer.take(), Some('a'));
    assert_eq!(buffer.take(), Some('b'));
    assert_eq!(buffer.take(), Some('c'));
    assert_eq!(buffer.take(), None);
    assert_eq!(buffer.next_number(), 3);
    buffer.accept(3, 'x');
    buffer.accept(3, 'd');
    assert_eq!(buffer.take(), Some('d'));
}

#[test]
fn frames_are_numbered_without_gaps() {
    let mut queue = FrameQueue::new(3);
    assert!(matches!(queue.step(), Step::Receive));
    queue.accept(1, "second");
    queue.accept(2, "third");
    assert!(matches!(queue.step(), Step::Receive));
    queue.accept(0, "first");
    match queue.step() {
        Step::Render { slot, frame, scene } => assert_eq!((slot, frame, scene), (0, 1, "first")),
        _ => panic!(),
    }
    queue.frame_done();
    // The second scene fails: its number goes to the third.
    match queue.step() {
        Step::Render { slot, frame, scene } => assert_eq!((slot, frame, scene), (1, 2, "second")),
        _ => panic!(),
    }
    match queue.step() {
        Step::Render { slot, frame, scene } => assert_eq!((slot, frame, scene), (2, 2, "third")),
        _ => panic!(),
    }
    queue.frame_done();
    assert!(matches!(queue.step(), Step::Finished { rendered: 2 }));
    assert!(matches!(FrameQueue::<u8>::new(0).step(), Step::Finished { rendered: 0 }));
}

#[test]
fn any_order_of_scenes_gives_the_same_frames() {
    // Scene 3 cannot be rendered.
    for order in [[0, 1, 2, 3, 4], [4, 3, 2, 1, 0], [2, 0, 4, 1, 3], [1, 3, 0, 4, 2]] {
        let mut queue = FrameQueue::new(5);
        let mut coming = order.into_iter();
        let (mut frames, mut turns) = (Vec::new(), Vec::new());
        let rendered = loop {
            match queue.step() {
                Step::Receive => {
                    let slot = coming.next().expect("a scene");
                    queue.accept(slot, 10 * slot);
                }
                Step::Render { slot, frame, scene } => {
                    assert_eq!(scene, 10 * slot);
                    turns.push(slot);
                    if slot != 3 {
                        frames.push((slot, frame));
                        queue.frame_done();
                    }
                }
                Step::Finished { rendered } => break rendered,
            }
        };
        assert_eq!(turns, vec![0, 1, 2, 3, 4]);
        assert_eq!(frames, vec![(0, 1), (1, 2), (2, 3), (4, 4)]);
        assert_eq!(rendered, 4);
    }
}

#[test]
fn a_scene_that_comes_again_replaces_the_one_before() {
    let mut queue = FrameQueue::new(1);
    queue.accept(0, "old");
    queue.accept(0, "new");
    assert!(matches!(queue.step(), Step::Render { slot: 0, frame: 1, scene: "new" }));
}

#[test]
fn range_errors_have_words() {
    let words = |range: &str| parse_range(range).unwrap_err().message(range);
    assert_eq!(
        words("2026-07-09T00:00"),
        "--timelapse expects START..END, e.g. 2026-07-09T00:00..2026-07-09T06:00"
    );
    assert_eq!(
        words("x..2026-07-09T06:00"),
        "invalid --time \"x\", expected YYYY-MM-DDTHH:MM"
    );
    assert_eq!(
        words("2026-07-09T00:00..\"y\""),
        "invalid --time \"\\\"y\\\"\", expected YYYY-MM-DDTHH:MM"
    );
    assert_eq!(
        words("2026-07-09T00:00..2026-07-09T06:07"),
        "--time minutes must be a multiple of 10 (full-disk scenes are 10-minutely)"
    );
    assert_eq!(
        words("2026-07-09T06:00..2026-07-09T00:00"),
        "--timelapse end is before start"
    );
}

#[test]
fn a_timelapse_needs_a_frame() {
    assert_eq!(check_rendered(1), Ok(1));
    let error = check_rendered(0).unwrap_err();
    assert_eq!(error, FrameError::NoneRendered);
    assert_eq!(error.message(), "no scene in the range could be rendered");
}

#[test]
fn composites_are_made_of_their_bands() {
    assert_eq!(true_color_bands(), [Band::B03, Band::B02, Band::B01, Band::B04]);
    assert_eq!(natural_color_bands(), [Band::B05, Band::B04, Band::B03]);
}
