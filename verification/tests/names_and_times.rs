use himawari_earth::band::{parse_ir_band, AhiBand, Band, IrBand, IrBandError};
use himawari_earth::calendar::{parse_time, Slot, TimeError, CALENDAR_END, CALENDAR_START};
use himawari_earth::decimal::{decimal, padded_decimal, parse_unsigned};
use himawari_earth::naming::{belongs_to_slot, file_name, listing_prefix, object_url};
use himawari_earth::text::{contains, find_dots, is_white_space, starts_with, to_chars, trim};

fn slot(text: &str) -> Slot {
    parse_time(text).expect("a slot")
}

#[test]
fn times_are_read_as_slots() {
    assert_eq!(slot("1970-01-01T00:00").secs(), 0);
    assert_eq!(slot("2026-07-09T06:30").secs(), 1_783_578_600);
    assert_eq!(slot("2024-02-29T23:50").secs(), 1_709_250_600);
    assert_eq!(slot("1969-12-31T23:50").secs(), -600);
}

#[test]
fn times_between_slots_are_refused() {
    assert!(matches!(parse_time("2026-07-09T06:35"), Err(TimeError::BetweenSlots)));
    assert!(matches!(parse_time("2026-07-09T06:01"), Err(TimeError::BetweenSlots)));
}

#[test]
fn other_texts_are_no_times() {
    for text in ["", "2026-07-09", "2026-07-09T06:30:00", "2026-02-30T00:00", "yesterday"] {
        assert!(matches!(parse_time(text), Err(TimeError::Unreadable(_))), "{text}");
    }
}

#[test]
fn slots_exist_every_ten_minutes_of_the_calendar() {
    assert!(Slot::at(0).is_some());
    assert!(Slot::at(600).is_some());
    assert!(Slot::at(599).is_none());
    assert!(Slot::at(CALENDAR_START).is_some());
    assert!(Slot::at(CALENDAR_START - 600).is_none());
    assert!(Slot::at(CALENDAR_END).is_none());
    assert!(Slot::at(CALENDAR_END - 599).is_some());
}

#[test]
fn a_time_falls_into_the_slot_before_it() {
    assert_eq!(Slot::containing(1_783_578_600, 0).unwrap().secs(), 1_783_578_600);
    assert_eq!(Slot::containing(1_783_579_199, 999_999_999).unwrap().secs(), 1_783_578_600);
    assert_eq!(Slot::containing(-1, 0).unwrap().secs(), -600);
    assert!(Slot::containing(9_223_372_036, 854_775_807).is_ok());
    assert!(Slot::containing(9_223_372_036, 854_775_808).is_err());
}

#[test]
fn slots_are_ten_minutes_apart() {
    let at = slot("2026-07-09T00:00");
    assert_eq!(at.earlier().format("%Y-%m-%d %H:%M"), "2026-07-08 23:50");
    assert_eq!(at.later().format("%Y-%m-%d %H:%M"), "2026-07-09 00:10");
    assert_eq!(at.later().earlier(), at);
}

#[test]
fn slots_are_formatted() {
    let at = slot("2026-07-09T06:30");
    assert_eq!(at.format("%Y/%m/%d/%H%M"), "2026/07/09/0630");
    assert_eq!(at.format("_%Y%m%d_%H%M_"), "_20260709_0630_");
    assert_eq!(Slot::at(-62_135_596_800).unwrap().format("%Y%m%d"), "00010101");
    assert_eq!(Slot::at(253_402_300_800).unwrap().format("%Y%m%d"), "+100000101");
    assert_eq!(Slot::at(-62_167_305_600).unwrap().format("%Y-%m-%d"), "-0001-12-31");
}

#[test]
fn files_are_named_after_slot_band_and_segment() {
    let at = slot("2026-07-09T06:30");
    assert_eq!(
        file_name(at, Band::B03, 4),
        "HS_H09_20260709_0630_B03_FLDK_R05_S0410.DAT.bz2"
    );
    assert_eq!(
        file_name(at, IrBand::new(13).unwrap(), 10),
        "HS_H09_20260709_0630_B13_FLDK_R20_S1010.DAT.bz2"
    );
    assert_eq!(
        file_name(at, IrBand::new(7).unwrap(), 1),
        "HS_H09_20260709_0630_B07_FLDK_R20_S0110.DAT.bz2"
    );
}

#[test]
fn objects_lie_under_the_slot() {
    let at = slot("2026-07-09T06:30");
    assert_eq!(listing_prefix(at), "AHI-L1b-FLDK/2026/07/09/0630/");
    assert_eq!(
        object_url(at, Band::B01, 1),
        "https://noaa-himawari9.s3.amazonaws.com/AHI-L1b-FLDK/2026/07/09/0630/\
         HS_H09_20260709_0630_B01_FLDK_R10_S0110.DAT.bz2"
    );
}

#[test]
fn cached_files_belong_to_their_slot_only() {
    let at = slot("2026-07-09T06:30");
    for band in Band::ALL {
        let name = file_name(at, band, 3);
        assert!(belongs_to_slot(&name, at));
        assert!(!belongs_to_slot(&name, at.later()));
        assert!(!belongs_to_slot(&name, at.earlier()));
    }
    assert!(belongs_to_slot("HS_H09_anything_20260709_0630_", at));
    assert!(!belongs_to_slot("XHS_H09_20260709_0630_B01", at));
    assert!(!belongs_to_slot("HS_H09_20260709_0630", at));
    assert!(!belongs_to_slot("", at));
}

#[test]
fn files_of_different_bands_and_segments_differ() {
    let at = slot("2026-07-09T06:30");
    let mut names = Vec::new();
    for segment in 1..=10 {
        for band in Band::ALL {
            names.push(file_name(at, band, segment));
        }
        for number in 7..=16 {
            names.push(file_name(at, IrBand::new(number).unwrap(), segment));
        }
    }
    let count = names.len();
    names.sort();
    names.dedup();
    assert_eq!(names.len(), count);
}

#[test]
fn bands_know_their_codes_and_widths() {
    assert_eq!(Band::B01.code(), "B01");
    assert_eq!(Band::B05.code(), "B05");
    assert_eq!(Band::B03.native_width(), 22_000);
    assert_eq!(Band::B05.native_width(), 5_500);
    assert_eq!(Band::B02.native_width(), 11_000);
    assert_eq!(AhiBand::number(Band::B04), 4);
    assert_eq!(AhiBand::code(Band::B04), "B04");
    assert_eq!(Band::B03.resolution_code(), "R05");
    assert_eq!(Band::B05.resolution_code(), "R20");
    assert_eq!(Band::B04.resolution_code(), "R10");
    assert_eq!(Band::ALL, [Band::B01, Band::B02, Band::B03, Band::B04]);
    let band = IrBand::new(8).unwrap();
    assert_eq!((band.number(), band.code(), band.native_width()), (8, "B08".to_string(), 5_500));
    assert_eq!(band.resolution_code(), "R20");
    assert_eq!(IrBand::b13().get(), 13);
}

#[test]
fn infrared_bands_run_from_seven_to_sixteen() {
    for number in 0..=255u8 {
        match IrBand::new(number) {
            Ok(band) => {
                assert!((7..=16).contains(&number));
                assert_eq!(band.get(), number);
            }
            Err(text) => {
                assert!(!(7..=16).contains(&number));
                assert_eq!(text, format!("infrared band number must be 7-16, got {number}"));
            }
        }
    }
}

#[test]
fn infrared_bands_are_read_with_or_without_a_prefix() {
    for (text, number) in [
        ("13", 13),
        ("B13", 13),
        ("b08", 8),
        (" 9\t", 9),
        ("BBb16", 16),
        ("+7", 7),
        ("B007", 7),
        ("\u{3000}10\u{a0}", 10),
    ] {
        assert_eq!(parse_ir_band(text).unwrap().get(), number, "{text:?}");
    }
}

#[test]
fn other_texts_are_no_infrared_bands() {
    for text in ["", "B", "x13", "13x", "1 3", "-13", "256", "B 13", "\u{661}\u{663}"] {
        assert!(matches!(parse_ir_band(text), Err(IrBandError::NotANumber)), "{text:?}");
    }
    match parse_ir_band("B06") {
        Err(IrBandError::NotInfrared(message)) => {
            assert_eq!(message, "infrared band number must be 7-16, got 6");
        }
        other => panic!("{other:?}"),
    }
    assert!(matches!(parse_ir_band("17"), Err(IrBandError::NotInfrared(_))));
}

#[test]
fn numerals_are_written_and_read_back() {
    for n in [0, 7, 10, 99, 100, 65_535, u64::MAX] {
        assert_eq!(decimal(n), n.to_string());
        assert_eq!(parse_unsigned(&to_chars(&decimal(n)), u64::MAX), Some(n));
        assert_eq!(padded_decimal(n, 5), format!("{n:05}"));
        assert_eq!(parse_unsigned(&to_chars(&padded_decimal(n, 30)), u64::MAX), Some(n));
    }
    assert_eq!(parse_unsigned(&to_chars("256"), 255), None);
    assert_eq!(parse_unsigned(&to_chars("255"), 255), Some(255));
    assert_eq!(parse_unsigned(&to_chars("18446744073709551616"), u64::MAX), None);
    assert_eq!(parse_unsigned(&to_chars("+"), 255), None);
    assert_eq!(parse_unsigned(&to_chars(""), 255), None);
}

#[test]
fn texts_are_searched_and_trimmed() {
    let text = to_chars("a..b...c");
    assert_eq!(find_dots(&text), Some(1));
    assert_eq!(find_dots(&to_chars("a.b")), None);
    assert_eq!(find_dots(&to_chars("")), None);
    assert_eq!(find_dots(&to_chars("..")), Some(0));
    assert!(contains(&text, &to_chars("b..")));
    assert!(!contains(&text, &to_chars("b..c")));
    assert!(contains(&text, &to_chars("")));
    assert!(starts_with(&text, &to_chars("a.")));
    assert!(!starts_with(&text, &to_chars("..")));
    assert_eq!(trim(&to_chars(" \t x y\n")), to_chars("x y"));
    assert_eq!(trim(&to_chars(" \u{2003} ")), to_chars(""));
}

#[test]
fn names_of_infrared_bands_are_read_back() {
    for number in 7..=16 {
        let band = IrBand::new(number).unwrap();
        assert_eq!(parse_ir_band(&band.to_string()).unwrap(), band);
    }
}

#[test]
fn written_times_are_read_back() {
    for secs in [
        0,
        1_783_578_600,
        -600,
        -62_135_596_800,
        -62_167_305_600,
        253_402_300_800,
        CALENDAR_START,
        CALENDAR_END - 599,
    ] {
        let at = Slot::at(secs).unwrap();
        let text = at.format("%Y-%m-%dT%H:%M");
        assert_eq!(parse_time(&text).unwrap(), at, "{text}");
    }
}

#[test]
fn white_space_is_that_of_unicode() {
    for code in 0..=0x10_ffff {
        if let Some(c) = char::from_u32(code) {
            assert_eq!(is_white_space(c), c.is_whitespace(), "{code:x}");
        }
    }
}

#[test]
fn unreadable_bands_and_times_are_quoted() {
    let words = |text: &str| parse_ir_band(text).unwrap_err().message(text);
    assert_eq!(words(" x\n"), "invalid band \" x\\n\", expected a number like 13 or B13");
    assert_eq!(words("B06"), "infrared band number must be 7-16, got 6");
    let words = |text: &str| parse_time(text).unwrap_err().message(text);
    assert_eq!(words("now"), "invalid --time \"now\", expected YYYY-MM-DDTHH:MM");
    assert_eq!(
        words("2026-07-09T06:35"),
        "--time minutes must be a multiple of 10 (full-disk scenes are 10-minutely)"
    );
}
