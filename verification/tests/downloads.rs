use himawari_earth::band::{Band, IrBand};
use himawari_earth::calendar::{parse_time, Slot};
use himawari_earth::fetch::{
    after_attempt, connection_closed, content_length, failed_attempt, find_latest_scene,
    plan_download, range_header, range_response, read_exactly, scene_is_complete, AfterAttempt,
    Attempt, DownloadPlan, Filling, ReadOutcome,
};
use himawari_earth::naming::file_name;
use himawari_earth::tuning::{DOWNLOAD_RETRIES, DOWNLOAD_SPLIT_MIN_BYTES, SCENE_LOOKBACK_SLOTS};

fn slot(text: &str) -> Slot {
    parse_time(text).expect("a slot")
}

fn listing(at: Slot, thermal: &[u8], natural: bool) -> String {
    let mut keys = String::from("<ListBucketResult>");
    let mut bands = Band::ALL.to_vec();
    if natural {
        bands.push(Band::B05);
    }
    for segment in 1..=10 {
        for &band in &bands {
            keys += &format!("<Key>AHI/{}</Key>", file_name(at, band, segment));
        }
        for &number in thermal {
            let band = IrBand::new(number).unwrap();
            keys += &format!("<Key>AHI/{}</Key>", file_name(at, band, segment));
        }
    }
    keys
}

#[test]
fn a_scene_is_complete_with_all_its_files() {
    let at = slot("2026-07-09T06:30");
    let b13 = IrBand::b13();
    let core = listing(at, &[], false);
    assert!(scene_is_complete(&core, at, &[], &[]));
    assert!(!scene_is_complete(&core, at, &[Band::B05], &[]));
    assert!(!scene_is_complete(&core, at, &[], &[b13]));
    assert!(!scene_is_complete(&core, at.later(), &[], &[]));
    let all = listing(at, &[8, 13], true);
    assert!(scene_is_complete(&all, at, &[Band::B05], &[b13, IrBand::new(8).unwrap()]));
    assert!(!scene_is_complete(&all, at, &[], &[IrBand::new(9).unwrap()]));
    let missing = core.replace(&file_name(at, Band::B04, 10), "");
    assert!(!scene_is_complete(&missing, at, &[], &[]));
    assert!(!scene_is_complete("", at, &[], &[]));
}

#[test]
fn the_latest_complete_scene_is_found() {
    let newest = slot("2026-07-09T06:30");
    let wanted = slot("2026-07-09T05:50");
    let found = find_latest_scene(newest, |at: Slot| Ok::<bool, String>(at.secs() <= wanted.secs()));
    assert_eq!(found, Ok(Some(wanted)));
}

#[test]
fn the_lookback_is_limited() {
    let newest = slot("2026-07-09T06:30");
    let last = newest.secs() - 600 * (SCENE_LOOKBACK_SLOTS as i64 - 1);
    let found = find_latest_scene(newest, |at: Slot| Ok::<bool, String>(at.secs() <= last));
    assert_eq!(found.unwrap().unwrap().secs(), last);
    let found = find_latest_scene(newest, |at: Slot| Ok::<bool, String>(at.secs() < last));
    assert_eq!(found, Ok(None));
}

#[test]
fn a_failed_probe_ends_the_search() {
    let newest = slot("2026-07-09T06:30");
    let found = find_latest_scene(newest, |at: Slot| {
        if at == newest {
            Ok(false)
        } else {
            Err(at.secs())
        }
    });
    assert_eq!(found, Err(newest.secs() - 600));
}

#[test]
fn small_files_are_fetched_whole() {
    assert!(matches!(plan_download(0), DownloadPlan::Whole));
    assert!(matches!(plan_download(DOWNLOAD_SPLIT_MIN_BYTES - 1), DownloadPlan::Whole));
}

#[test]
fn large_files_are_fetched_in_ranges_that_cover_them_once() {
    for length in [8_388_608, 8_388_609, 8_388_610, 8_388_611, 12_345_678, u64::MAX] {
        let DownloadPlan::Ranges(ranges) = plan_download(length) else {
            panic!("{length}");
        };
        assert_eq!(ranges.len(), 4);
        let mut next = 0u64;
        for (offset, size) in &ranges {
            assert_eq!(*offset, next);
            assert!(*size > 0);
            next = next.wrapping_add(*size);
        }
        assert_eq!(next, length);
        assert_eq!(ranges[0].1, length.div_ceil(4));
    }
    let DownloadPlan::Ranges(ranges) = plan_download(8_388_609) else {
        panic!();
    };
    assert_eq!(
        ranges,
        vec![
            (0, 2_097_153),
            (2_097_153, 2_097_153),
            (4_194_306, 2_097_153),
            (6_291_459, 2_097_150)
        ]
    );
}

#[test]
fn ranges_are_requested_by_first_and_last_byte() {
    assert_eq!(range_header(0, 1), "bytes=0-0");
    assert_eq!(range_header(2_097_153, 2_097_150), "bytes=2097153-4194302");
    assert_eq!(range_header(u64::MAX, 1), format!("bytes={}-{}", u64::MAX, u64::MAX));
}

#[test]
fn content_lengths_are_numbers() {
    assert_eq!(content_length(Some("8388608")), Some(8_388_608));
    assert_eq!(content_length(Some("")), None);
    assert_eq!(content_length(Some("12 ")), None);
    assert_eq!(content_length(Some("18446744073709551616")), None);
    assert_eq!(content_length(None), None);
}

#[test]
fn missing_objects_are_not_tried_again() {
    assert_eq!(failed_attempt(Some(403)), Attempt::Missing);
    assert_eq!(failed_attempt(Some(404)), Attempt::Missing);
    assert_eq!(failed_attempt(Some(500)), Attempt::Failed);
    assert_eq!(failed_attempt(None), Attempt::Failed);
    assert_eq!(after_attempt(0, Attempt::Missing), AfterAttempt::ReportMissing);
    assert_eq!(after_attempt(2, Attempt::Succeeded), AfterAttempt::Accept);
}

#[test]
fn only_partial_content_answers_a_range() {
    assert_eq!(range_response(206), Attempt::Succeeded);
    assert_eq!(range_response(200), Attempt::Failed);
    assert_eq!(range_response(404), Attempt::Failed);
}

#[test]
fn failures_are_retried_with_growing_waits() {
    let mut attempt = 0;
    let mut waits = Vec::new();
    while let AfterAttempt::Retry { attempt: next, wait_secs } =
        after_attempt(attempt, Attempt::Failed)
    {
        waits.push(wait_secs);
        attempt = next;
    }
    assert_eq!(waits, vec![4, 8]);
    assert_eq!(attempt, DOWNLOAD_RETRIES - 1);
    assert_eq!(after_attempt(attempt, Attempt::Failed), AfterAttempt::GiveUp);
}

#[test]
fn buffers_are_filled_to_the_last_byte() {
    assert_eq!(read_exactly(0, 0, ReadOutcome::Start), Filling::Done);
    assert_eq!(read_exactly(0, 10, ReadOutcome::Start), Filling::Read(0));
    assert_eq!(read_exactly(0, 10, ReadOutcome::Bytes(4)), Filling::Read(4));
    assert_eq!(read_exactly(4, 10, ReadOutcome::Bytes(6)), Filling::Done);
    assert_eq!(read_exactly(4, 10, ReadOutcome::Bytes(0)), Filling::Closed(4));
    assert_eq!(read_exactly(4, 10, ReadOutcome::Failed), Filling::Failed);
    assert_eq!(connection_closed(4, 10), "connection closed after 4 of 10 bytes");
}

/// Fills a buffer from a stream that is cut into reads; read `fails` fails.
/// Gives how it ended and how many bytes and reads were taken.
fn fill(stream: &[u8], buffer: &mut [u8], cut: usize, fails: usize) -> (Filling, usize, usize) {
    let (mut taken, mut reads) = (0, 0);
    let mut next = read_exactly(0, buffer.len(), ReadOutcome::Start);
    while let Filling::Read(filled) = next {
        reads += 1;
        let outcome = if reads == fails {
            ReadOutcome::Failed
        } else {
            let n = cut.min(buffer.len() - filled).min(stream.len() - taken);
            buffer[filled..filled + n].copy_from_slice(&stream[taken..taken + n]);
            taken += n;
            ReadOutcome::Bytes(n)
        };
        next = read_exactly(filled, buffer.len(), outcome);
    }
    (next, taken, reads)
}

#[test]
fn streams_fill_buffers_however_they_are_cut() {
    let stream: Vec<u8> = (0..100).collect();
    for cut in 1..=101 {
        let mut buffer = [200u8; 60];
        let (end, taken, _) = fill(&stream, &mut buffer, cut, 0);
        assert_eq!((end, taken), (Filling::Done, 60));
        assert_eq!(buffer[..], stream[..60]);

        let mut buffer = [200u8; 120];
        let (end, taken, _) = fill(&stream, &mut buffer, cut, 0);
        assert_eq!((end, taken), (Filling::Closed(100), 100));
        assert_eq!(buffer[..100], stream[..]);
        assert_eq!(buffer[100..], [200u8; 20]);
    }
    assert_eq!(fill(&stream, &mut [], 7, 0), (Filling::Done, 0, 0));
}

#[test]
fn a_failed_read_is_not_tried_again() {
    let stream: Vec<u8> = (0..100).collect();
    let mut buffer = [200u8; 60];
    assert_eq!(fill(&stream, &mut buffer, 25, 3), (Filling::Failed, 50, 3));
    assert_eq!(buffer[..50], stream[..50]);
    assert_eq!(buffer[50..], [200u8; 10]);
}
