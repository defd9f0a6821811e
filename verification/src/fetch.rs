//! Download of Himawari-9 AHI L1b full-disk segments from the public
//! `noaa-himawari9` S3 bucket: which objects a run needs and whether they are
//! all there, how an object is split and retried, and what its bytes decode
//! to.

use std::io::Read;

use bzip2::read::MultiBzDecoder;
use vstd::arithmetic::power2::pow2;
use vstd::prelude::*;
use vstd::string::*;

use crate::band::{AhiBand, Band, IrBand, SEGMENTS_PER_DISK};
use crate::calendar;
use crate::calendar::Slot;
use crate::decimal;
use crate::hsd;
use crate::naming;
use crate::text;
use crate::tuning::{
    DOWNLOAD_CONNECTIONS_PER_FILE, DOWNLOAD_RETRIES, DOWNLOAD_SPLIT_MIN_BYTES, SCENE_LOOKBACK_SLOTS,
};

verus! {

// ---------------------------------------------------------------------------
// Complete scenes
// ---------------------------------------------------------------------------

/// Whether a listing holds the names of all segments of a band.
pub open spec fn band_listed<B: AhiBand>(listing: Seq<char>, slot: Slot, band: B) -> bool {
    forall|segment: u8|
        1 <= segment <= SEGMENTS_PER_DISK ==> text::has_piece(
            listing,
            #[trigger] naming::segment_file(slot, band, segment),
        )
}

/// Whether a listing holds the names of all segments of some bands.
pub open spec fn bands_listed<B: AhiBand>(listing: Seq<char>, slot: Slot, bands: Seq<B>) -> bool {
    forall|i: int| 0 <= i < bands.len() ==> band_listed(listing, slot, #[trigger] bands[i])
}

/// Whether a listing holds the names of every file that a run needs: the core
/// true-color bands plus any extra visible and IR bands.
pub open spec fn scene_listed(
    listing: Seq<char>,
    slot: Slot,
    extra_bands: Seq<Band>,
    ir_bands: Seq<IrBand>,
) -> bool {
    &&& bands_listed(listing, slot, seq![Band::B01, Band::B02, Band::B03, Band::B04])
    &&& bands_listed(listing, slot, extra_bands)
    &&& bands_listed(listing, slot, ir_bands)
}

fn is_band_listed<B: AhiBand>(listing: &[char], slot: Slot, band: B) -> (listed: bool)
    ensures
        listed == band_listed(listing@, slot, band),
{
    let mut segment: u8 = 1;
    while segment <= SEGMENTS_PER_DISK
        invariant
            1 <= segment <= SEGMENTS_PER_DISK + 1,
            forall|s: u8|
                1 <= s < segment ==> text::has_piece(
                    listing@,
                    #[trigger] naming::segment_file(slot, band, s),
                ),
        decreases SEGMENTS_PER_DISK + 1 - segment,
    {
        let name = text::to_chars(naming::file_name(slot, band, segment).as_str());
        if !text::contains(listing, name.as_slice()) {
            assert(!text::has_piece(listing@, naming::segment_file(slot, band, segment)));
            return false;
        }
        segment += 1;
    }
    true
}

fn are_bands_listed<B: AhiBand>(listing: &[char], slot: Slot, bands: &[B]) -> (listed: bool)
    ensures
        listed == bands_listed(listing@, slot, bands@),
{
    let mut i: usize = 0;
    while i < bands.len()
        invariant
            i <= bands@.len(),
            forall|k: int| 0 <= k < i ==> band_listed(listing@, slot, #[trigger] bands@[k]),
        decreases bands@.len() - i,
    {
        if !is_band_listed(listing, slot, bands[i]) {
            assert(!band_listed(listing@, slot, bands@[i as int]));
            return false;
        }
        i += 1;
    }
    true
}

/// True if every file this run needs (the core true-color bands plus any
/// extra visible and IR bands, 10 segments each) is named in the listing of
/// the given observation slot. Scenes upload file by file over minutes, so
/// probing a single object is not enough.
pub fn scene_is_complete(
    listing: &str,
    slot: Slot,
    extra_bands: &[Band],
    ir_bands: &[IrBand],
) -> (complete: bool)
    ensures
        complete == scene_listed(listing@, slot, extra_bands@, ir_bands@),
{
    let keys = text::to_chars(listing);
    let core = Band::ALL;
    assert(core@ =~= seq![Band::B01, Band::B02, Band::B03, Band::B04]);
    are_bands_listed(keys.as_slice(), slot, core.as_slice()) && are_bands_listed(
        keys.as_slice(),
        slot,
        extra_bands,
    ) && are_bands_listed(keys.as_slice(), slot, ir_bands)
}

/// Whether the probed slots, from the newest one back in steps of ten
/// minutes, were all answered with "not complete".
pub open spec fn all_missed<E, P: Fn(Slot) -> Result<bool, E>>(
    newest: Slot,
    probe: P,
    missed: Seq<Slot>,
) -> bool {
    forall|i: int|
        0 <= i < missed.len() ==> (#[trigger] missed[i])@ == newest@ - calendar::SLOT_SECS * i
            && call_ensures(probe, (missed[i],), Ok(false))
}

/// Whether a probe of the slot at a time ended in an error.
pub open spec fn probe_failed<E, P: Fn(Slot) -> Result<bool, E>>(
    secs: int,
    probe: P,
    error: E,
) -> bool {
    exists|slot: Slot| slot@ == secs && #[trigger] call_ensures(probe, (slot,), Err(error))
}

/// Find the most recent complete full-disk scene in the bucket, walking back
/// in 10-minute observation slots from the newest one. Slots can be missing
/// or partial due to publishing latency, and missing entirely in the
/// twice-daily housekeeping windows (around 02:40 and 14:40 UTC). `probe`
/// tells whether a slot's scene is complete. None when the lookback is used
/// up.
pub fn find_latest_scene<E, P: Fn(Slot) -> Result<bool, E>>(newest: Slot, probe: P) -> (found:
    Result<Option<Slot>, E>)
    requires
        calendar::CALENDAR_START + calendar::SLOT_SECS * SCENE_LOOKBACK_SLOTS <= newest@,
        forall|slot: Slot| call_requires(probe, (slot,)),
    ensures
        exists|missed: Seq<Slot>|
            {
                &&& #[trigger] all_missed(newest, probe, missed)
                &&& match found {
                    Ok(Some(slot)) => missed.len() < SCENE_LOOKBACK_SLOTS && slot@ == newest@
                        - calendar::SLOT_SECS * missed.len() && call_ensures(
                        probe,
                        (slot,),
                        Ok(true),
                    ),
                    Ok(None) => missed.len() == SCENE_LOOKBACK_SLOTS,
                    Err(e) => missed.len() < SCENE_LOOKBACK_SLOTS && probe_failed(
                        newest@ - calendar::SLOT_SECS * missed.len(),
                        probe,
                        e,
                    ),
                }
            },
{
    let mut slot = newest;
    let mut tried: usize = 0;
    let ghost mut missed: Seq<Slot> = seq![];
    while tried < SCENE_LOOKBACK_SLOTS
        invariant
            tried <= SCENE_LOOKBACK_SLOTS,
            tried == missed.len(),
            calendar::CALENDAR_START + calendar::SLOT_SECS * SCENE_LOOKBACK_SLOTS <= newest@,
            slot@ == newest@ - calendar::SLOT_SECS * tried,
            forall|slot: Slot| call_requires(probe, (slot,)),
            all_missed(newest, probe, missed),
        decreases SCENE_LOOKBACK_SLOTS - tried,
    {
        match probe(slot) {
            Ok(true) => {
                assert(all_missed(newest, probe, missed));
                return Ok(Some(slot));
            },
            Ok(false) => {},
            Err(e) => {
                assert(all_missed(newest, probe, missed));
                assert(call_ensures(probe, (slot,), Err(e)));
                return Err(e);
            },
        }
        proof {
            missed = missed.push(slot);
        }
        slot = slot.earlier();
        tried += 1;
    }
    assert(all_missed(newest, probe, missed));
    Ok(None)
}

// ---------------------------------------------------------------------------
// Downloads
// ---------------------------------------------------------------------------

/// How an object is fetched.
#[derive(Debug)]
pub enum DownloadPlan {
    /// On one connection.
    Whole,
    /// In byte ranges, given as (offset, length), on a connection each.
    Ranges(Vec<(u64, u64)>),
}

/// The length of all byte ranges of an object but the last.
pub open spec fn range_length(length: u64) -> int {
    (length + DOWNLOAD_CONNECTIONS_PER_FILE - 1) / DOWNLOAD_CONNECTIONS_PER_FILE as int
}

/// Whether byte ranges cover an object: they start at multiples of `step`
/// and are `step` bytes long, but for the last, which reaches to the end.
pub open spec fn covers(ranges: Seq<(u64, u64)>, length: int, step: int) -> bool {
    &&& ranges.len() > 0
    &&& step * (ranges.len() - 1) < length <= step * ranges.len()
    &&& forall|i: int|
        0 <= i < ranges.len() ==> {
            &&& (#[trigger] ranges[i]).0 == step * i
            &&& ranges[i].1 == if i < ranges.len() - 1 {
                step
            } else {
                length - step * i
            }
        }
}

/// Whether a byte is in a range, given as (offset, length).
pub open spec fn in_range(range: (u64, u64), byte: int) -> bool {
    range.0 <= byte < range.0 + range.1
}

/// The byte ranges of an object leave no byte out and fetch none twice: each
/// byte is in one of them, and in no other.
pub proof fn each_byte_is_in_one_range(
    ranges: Seq<(u64, u64)>,
    length: int,
    step: int,
    byte: int,
) -> (k: int)
    requires
        covers(ranges, length, step),
        0 <= byte < length,
    ensures
        0 <= k < ranges.len(),
        in_range(ranges[k], byte),
        forall|j: int| 0 <= j < ranges.len() && j != k ==> !in_range(#[trigger] ranges[j], byte),
{
    let n = ranges.len() as int;
    assert(step > 0) by (nonlinear_arith)
        requires
            step * (n - 1) < length <= step * n,
            n > 0,
            0 < length,
    ;
    let k = byte / step;
    assert(step * k <= byte < step * k + step && 0 <= k < n) by (nonlinear_arith)
        requires
            k == byte / step,
            step > 0,
            0 <= byte < step * n,
    ;
    assert(ranges[k].0 == step * k);
    assert forall|j: int| 0 <= j < n && j != k implies !in_range(#[trigger] ranges[j], byte) by {
        if j < k {
            assert(step * j + step <= step * k) by (nonlinear_arith)
                requires
                    j + 1 <= k,
                    step > 0,
            ;
        } else {
            assert(step * k + step <= step * j) by (nonlinear_arith)
                requires
                    k + 1 <= j,
                    step > 0,
            ;
        }
    }
    k
}

/// No range of an object reaches past its end or is empty.
pub proof fn ranges_stay_within(ranges: Seq<(u64, u64)>, length: int, step: int, k: int)
    requires
        covers(ranges, length, step),
        0 < length,
        0 <= k < ranges.len(),
    ensures
        0 < ranges[k].1,
        ranges[k].0 + ranges[k].1 <= length,
{
    let n = ranges.len() as int;
    assert(step > 0) by (nonlinear_arith)
        requires
            step * (n - 1) < length <= step * n,
            n > 0,
            0 < length,
    ;
    assert(step * k + step <= step * (n - 1) || k == n - 1) by (nonlinear_arith)
        requires
            0 <= k < n,
            step > 0,
    ;
    assert(ranges[k].0 == step * k);
}

/// Decides how an object is fetched: large files are split into byte ranges
/// on `DOWNLOAD_CONNECTIONS_PER_FILE` concurrent connections. Files are
/// already parallel with each other; the split lifts the per-connection
/// throughput cap on each individual object as well.
pub fn plan_download(length: u64) -> (plan: DownloadPlan)
    ensures
        match plan {
            DownloadPlan::Whole => length < DOWNLOAD_SPLIT_MIN_BYTES,
            DownloadPlan::Ranges(ranges) => {
                &&& length >= DOWNLOAD_SPLIT_MIN_BYTES
                &&& ranges@.len() <= DOWNLOAD_CONNECTIONS_PER_FILE
                &&& covers(ranges@, length as int, range_length(length))
            },
        },
{
    if DOWNLOAD_CONNECTIONS_PER_FILE <= 1 || length < DOWNLOAD_SPLIT_MIN_BYTES {
        return DownloadPlan::Whole;
    }
    let step: u64 = (length - 1) / DOWNLOAD_CONNECTIONS_PER_FILE + 1;
    let mut ranges: Vec<(u64, u64)> = Vec::new();
    let mut offset: u64 = 0;
    assert(step * 0 == 0) by (nonlinear_arith);
    while length - offset > step
        invariant
            step == range_length(length),
            0 < step,
            offset < length,
            offset == step * ranges@.len(),
            forall|i: int|
                0 <= i < ranges@.len() ==> (#[trigger] ranges@[i]).0 == step * i && ranges@[i].1
                    == step,
        decreases length - offset,
    {
        ranges.push((offset, step));
        proof {
            assert(step * (ranges@.len() - 1) + step == step * ranges@.len()) by (nonlinear_arith);
        }
        offset += step;
    }
    ranges.push((offset, length - offset));
    proof {
        let n = ranges@.len() as int;
        assert(step * (n - 1) + step == step * n) by (nonlinear_arith);
        assert(n <= 4) by (nonlinear_arith)
            requires
                step * (n - 1) < length,
                length <= 4 * step,
                step > 0,
        ;
    }
    DownloadPlan::Ranges(ranges)
}

/// The Range header of a byte range.
pub fn range_header(offset: u64, length: u64) -> (header: String)
    requires
        length > 0,
        offset + length - 1 <= u64::MAX,
    ensures
        header@ == "bytes="@ + decimal::numeral(offset as nat) + "-"@ + decimal::numeral(
            (offset + length - 1) as nat,
        ),
{
    let mut header = "bytes=".to_owned();
    header.append(decimal::decimal(offset).as_str());
    header.append("-");
    header.append(decimal::decimal(offset + (length - 1)).as_str());
    header
}

/// The length that a Content-Length header gives, or None where the header
/// is absent or is no number.
pub fn content_length(header: Option<&str>) -> (length: Option<u64>)
    ensures
        match header {
            Some(value) => length == (match decimal::unsigned_value(value@, u64::MAX as nat) {
                Some(n) => Some(n as u64),
                None => None,
            }),
            None => length is None,
        },
{
    match header {
        Some(value) => decimal::parse_unsigned(text::to_chars(value).as_slice(), u64::MAX),
        None => None,
    }
}

/// What came of one attempt at a request.
#[derive(Debug, Clone, Copy, PartialEq, Eq, Structural)]
pub enum Attempt {
    /// It gave what was asked for.
    Succeeded,
    /// The object does not exist, and will not appear on another attempt.
    Missing,
    /// It failed in a way that another attempt may not.
    Failed,
}

/// What to do after an attempt.
#[derive(Debug, Clone, Copy, PartialEq, Eq, Structural)]
pub enum AfterAttempt {
    /// Take the result.
    Accept,
    /// Report that the object does not exist.
    ReportMissing,
    /// Wait, then make the attempt with this number.
    Retry { attempt: u32, wait_secs: u64 },
    /// Report the last failure.
    GiveUp,
}

/// What the failure of a request for the length of an object means: statuses
/// 403 and 404 say that the object does not exist. None stands for a failure
/// without a status.
pub fn failed_attempt(status: Option<u16>) -> (attempt: Attempt)
    ensures
        attempt == (if status == Some(403u16) || status == Some(404u16) {
            Attempt::Missing
        } else {
            Attempt::Failed
        }),
{
    match status {
        Some(403) => Attempt::Missing,
        Some(404) => Attempt::Missing,
        _ => Attempt::Failed,
    }
}

/// What a response to the request for a byte range means: anything but 206
/// Partial Content is a failure.
pub fn range_response(status: u16) -> (attempt: Attempt)
    ensures
        attempt == (if status == 206 {
            Attempt::Succeeded
        } else {
            Attempt::Failed
        }),
{
    if status == 206 {
        Attempt::Succeeded
    } else {
        Attempt::Failed
    }
}

/// How long to wait before the attempt with a number, in seconds.
pub open spec fn backoff(attempt: nat) -> nat {
    pow2(attempt + 1)
}

/// What follows the attempt with a number (the first is 0).
pub open spec fn following(attempt: u32, outcome: Attempt) -> AfterAttempt {
    match outcome {
        Attempt::Succeeded => AfterAttempt::Accept,
        Attempt::Missing => AfterAttempt::ReportMissing,
        Attempt::Failed => if attempt + 1 < DOWNLOAD_RETRIES {
            AfterAttempt::Retry {
                attempt: (attempt + 1) as u32,
                wait_secs: backoff((attempt + 1) as nat) as u64,
            }
        } else {
            AfterAttempt::GiveUp
        },
    }
}

/// The wait doubles from one attempt to the next, beginning with 4 s before
/// the second one.
pub proof fn waits_double(attempt: nat)
    ensures
        backoff(1) == 4,
        backoff(attempt + 1) == 2 * backoff(attempt),
{
    vstd::arithmetic::power2::lemma2_to64();
    vstd::arithmetic::power2::lemma_pow2_unfold(attempt + 2);
}

/// No more than `DOWNLOAD_RETRIES` attempts are made: each one that follows
/// has the next number, and none has that number.
pub proof fn attempts_are_limited(attempt: u32, outcome: Attempt)
    ensures
        following(attempt, outcome) matches AfterAttempt::Retry { attempt: next, .. } ==> next
            == attempt + 1 && next < DOWNLOAD_RETRIES,
{
}

/// Decides what follows the attempt with a number (the first is 0).
pub fn after_attempt(attempt: u32, outcome: Attempt) -> (next: AfterAttempt)
    requires
        attempt < DOWNLOAD_RETRIES,
    ensures
        next == following(attempt, outcome),
{
    match outcome {
        Attempt::Succeeded => AfterAttempt::Accept,
        Attempt::Missing => AfterAttempt::ReportMissing,
        Attempt::Failed => {
            let next: u32 = attempt + 1;
            if next < DOWNLOAD_RETRIES {
                proof {
                    assert(2u64 << 1u32 == 4) by (bit_vector);
                    assert(2u64 << 2u32 == 8) by (bit_vector);
                    vstd::arithmetic::power2::lemma2_to64();
                }
                AfterAttempt::Retry { attempt: next, wait_secs: 2u64 << next }
            } else {
                AfterAttempt::GiveUp
            }
        },
    }
}

/// How far the filling of a buffer has come.
#[derive(Debug, Clone, Copy, PartialEq, Eq, Structural)]
pub enum Filling {
    /// The buffer is full.
    Done,
    /// Read on, behind this many bytes.
    Read(usize),
    /// The connection was closed after this many bytes.
    Closed(usize),
    /// A read failed.
    Failed,
}

/// What came of reading into the rest of a buffer.
#[derive(Debug, Clone, Copy, PartialEq, Eq, Structural)]
pub enum ReadOutcome {
    /// Nothing was read yet.
    Start,
    /// So many bytes were read; none at the end of the stream.
    Bytes(usize),
    /// The read failed.
    Failed,
}

/// What to do with a buffer of `total` bytes, of which `filled` are filled,
/// after a read.
pub open spec fn filling(filled: nat, total: nat, read: ReadOutcome) -> Filling {
    match read {
        ReadOutcome::Failed => Filling::Failed,
        ReadOutcome::Bytes(0) => Filling::Closed(filled as usize),
        ReadOutcome::Bytes(n) => if filled + n == total {
            Filling::Done
        } else {
            Filling::Read((filled + n) as usize)
        },
        ReadOutcome::Start => if filled == total {
            Filling::Done
        } else {
            Filling::Read(filled as usize)
        },
    }
}

/// What to do with a buffer of `total` bytes, of which `filled` are filled,
/// after a read. One that fails is not tried again.
pub fn read_exactly(filled: usize, total: usize, read: ReadOutcome) -> (next: Filling)
    requires
        filled <= total,
        read matches ReadOutcome::Bytes(n) ==> filled < total && n <= total - filled,
    ensures
        next == filling(filled as nat, total as nat, read),
{
    let now: usize = match read {
        ReadOutcome::Start => filled,
        ReadOutcome::Bytes(n) => {
            if n == 0 {
                return Filling::Closed(filled);
            }
            filled + n
        },
        ReadOutcome::Failed => {
            return Filling::Failed;
        },
    };
    if now == total {
        Filling::Done
    } else {
        Filling::Read(now)
    }
}

/// Says that a connection was closed before a buffer was full.
pub fn connection_closed(filled: usize, total: usize) -> (text: String)
    ensures
        text@ == "connection closed after "@ + decimal::numeral(filled as nat) + " of "@
            + decimal::numeral(total as nat) + " bytes"@,
{
    let mut text = "connection closed after ".to_owned();
    text.append(decimal::decimal(filled as u64).as_str());
    text.append(" of ");
    text.append(decimal::decimal(total as u64).as_str());
    text.append(" bytes");
    text
}

/// The filling of a buffer from a stream.
pub ghost struct FillState {
    pub buffer: Seq<u8>,
    /// How many bytes were taken from the stream.
    pub taken: nat,
    pub next: Filling,
}

/// How many bytes a read gives: no more than it is willing to, than there is
/// room for, and than the stream still holds.
pub open spec fn read_size(willing: nat, room: int, left: int) -> int {
    if willing <= room && willing <= left {
        willing as int
    } else if room <= left {
        room
    } else {
        left
    }
}

/// The filling of a buffer after one more read. `read` is how many bytes the
/// read is willing to give, or None where it fails. Nothing is read unless
/// the filling asks for it.
pub open spec fn fill_step(stream: Seq<u8>, before: FillState, read: Option<nat>) -> FillState {
    match (before.next, read) {
        (Filling::Read(filled), Some(willing)) => {
            let n = read_size(
                willing,
                before.buffer.len() - filled,
                stream.len() - before.taken,
            );
            FillState {
                buffer: before.buffer.take(filled as int) + stream.subrange(
                    before.taken as int,
                    before.taken + n,
                ) + before.buffer.skip(filled + n),
                taken: (before.taken + n) as nat,
                next: filling(
                    filled as nat,
                    before.buffer.len(),
                    ReadOutcome::Bytes(n as usize),
                ),
            }
        },
        (Filling::Read(filled), None) => FillState {
            next: filling(filled as nat, before.buffer.len(), ReadOutcome::Failed),
            ..before
        },
        _ => before,
    }
}

/// The filling of a buffer from a stream after some reads.
pub open spec fn filled_after(stream: Seq<u8>, buffer: Seq<u8>, reads: Seq<Option<nat>>) -> FillState
    decreases reads.len(),
{
    if reads.len() == 0 {
        FillState { buffer, taken: 0, next: filling(0, buffer.len(), ReadOutcome::Start) }
    } else {
        fill_step(stream, filled_after(stream, buffer, reads.drop_last()), reads.last())
    }
}

/// At every time of a filling the buffer starts with the bytes that were
/// taken from the stream, in order, and is unchanged behind them; no byte is
/// taken that does not fit. It is full when all of it was taken, and the
/// connection was closed only where the stream has ended before that.
pub proof fn buffers_hold_what_was_taken(
    stream: Seq<u8>,
    buffer: Seq<u8>,
    reads: Seq<Option<nat>>,
)
    requires
        buffer.len() <= usize::MAX,
        forall|k: int| 0 <= k < reads.len() ==> (#[trigger] reads[k]) != Some(0nat),
    ensures
        ({
            let after = filled_after(stream, buffer, reads);
            &&& after.taken <= buffer.len()
            &&& after.taken <= stream.len()
            &&& after.buffer == stream.take(after.taken as int) + buffer.skip(after.taken as int)
            &&& match after.next {
                Filling::Done => after.taken == buffer.len(),
                Filling::Read(filled) => filled == after.taken && filled < buffer.len(),
                Filling::Closed(filled) => filled == after.taken && filled == stream.len() && filled
                    < buffer.len(),
                Filling::Failed => after.taken < buffer.len(),
            }
        }),
    decreases reads.len(),
{
    let after = filled_after(stream, buffer, reads);
    if reads.len() == 0 {
        assert(after.buffer =~= stream.take(0) + buffer.skip(0));
    } else {
        let before = filled_after(stream, buffer, reads.drop_last());
        assert forall|k: int| 0 <= k < reads.drop_last().len() implies (
        #[trigger] reads.drop_last()[k]) != Some(0nat) by {
            assert(reads.drop_last()[k] == reads[k]);
        }
        buffers_hold_what_was_taken(stream, buffer, reads.drop_last());
        assert(reads.last() == reads[reads.len() - 1]);
        if before.next is Read && reads.last() is Some {
            assert(after.buffer =~= stream.take(after.taken as int) + buffer.skip(
                after.taken as int,
            ));
        }
    }
}

/// As long as no read fails, each one makes progress.
proof fn lemma_fill_progress(stream: Seq<u8>, buffer: Seq<u8>, reads: Seq<Option<nat>>)
    requires
        buffer.len() <= usize::MAX,
        forall|k: int|
            0 <= k < reads.len() ==> (#[trigger] reads[k]) is Some && reads[k] != Some(0nat),
    ensures
        ({
            let after = filled_after(stream, buffer, reads);
            &&& after.next !is Failed
            &&& after.next is Read ==> after.taken >= reads.len()
        }),
    decreases reads.len(),
{
    if reads.len() > 0 {
        let rest = reads.drop_last();
        assert forall|k: int| 0 <= k < rest.len() implies (#[trigger] rest[k]) is Some && rest[k]
            != Some(0nat) by {
            assert(rest[k] == reads[k]);
        }
        lemma_fill_progress(stream, buffer, rest);
        buffers_hold_what_was_taken(stream, buffer, rest);
        assert(reads.last() == reads[reads.len() - 1]);
    }
}

/// However a stream is cut into reads, a buffer is filled from it if and only
/// if the stream holds enough bytes: then with the first bytes of the stream,
/// and none of the following ones is taken. Otherwise the connection is found
/// closed after all of its bytes.
pub proof fn cuts_do_not_matter(stream: Seq<u8>, buffer: Seq<u8>, reads: Seq<Option<nat>>)
    requires
        buffer.len() <= usize::MAX,
        reads.len() > buffer.len(),
        forall|k: int|
            0 <= k < reads.len() ==> (#[trigger] reads[k]) is Some && reads[k] != Some(0nat),
    ensures
        filled_after(stream, buffer, reads) == if stream.len() >= buffer.len() {
            FillState {
                buffer: stream.take(buffer.len() as int),
                taken: buffer.len(),
                next: Filling::Done,
            }
        } else {
            FillState {
                buffer: stream + buffer.skip(stream.len() as int),
                taken: stream.len(),
                next: Filling::Closed(stream.len() as usize),
            }
        },
{
    let after = filled_after(stream, buffer, reads);
    buffers_hold_what_was_taken(stream, buffer, reads);
    lemma_fill_progress(stream, buffer, reads);
    if stream.len() >= buffer.len() {
        assert(after.buffer =~= stream.take(buffer.len() as int));
    } else {
        assert(after.buffer =~= stream + buffer.skip(stream.len() as int));
    }
}

/// An empty buffer is full without a read.
pub proof fn empty_buffers_take_nothing(stream: Seq<u8>, reads: Seq<Option<nat>>)
    ensures
        filled_after(stream, Seq::<u8>::empty(), reads) == (FillState {
            buffer: Seq::<u8>::empty(),
            taken: 0,
            next: Filling::Done,
        }),
    decreases reads.len(),
{
    if reads.len() > 0 {
        empty_buffers_take_nothing(stream, reads.drop_last());
    }
}

/// A read that fails before a buffer is full ends the filling: no other read
/// follows it, and what was taken before stays.
pub proof fn failed_reads_end_the_filling(
    stream: Seq<u8>,
    buffer: Seq<u8>,
    reads: Seq<Option<nat>>,
    later: Seq<Option<nat>>,
)
    requires
        filled_after(stream, buffer, reads).next is Read,
    ensures
        filled_after(stream, buffer, reads.push(None) + later) == (FillState {
            next: Filling::Failed,
            ..filled_after(stream, buffer, reads)
        }),
    decreases later.len(),
{
    let all = reads.push(None) + later;
    if later.len() == 0 {
        assert(all =~= reads.push(None));
        assert(all.drop_last() =~= reads);
    } else {
        assert(all.drop_last() =~= reads.push(None) + later.drop_last());
        failed_reads_end_the_filling(stream, buffer, reads, later.drop_last());
    }
}

// ---------------------------------------------------------------------------
// Decoding
// ---------------------------------------------------------------------------

/// The error of reading from a decoder.
#[verifier::external_type_specification]
#[verifier::external_body]
pub struct ExIoError(std::io::Error);

/// What `bzip2` makes of a compressed file, or None where the file is no
/// complete sequence of bzip2 streams.
pub uninterp spec fn decompressed(compressed: Seq<u8>) -> Option<Seq<u8>>;

/// Reads a `bzip2::read::MultiBzDecoder` over the compressed bytes to its
/// end. The claim is only that what comes out, or that there is an error,
/// depends on the compressed bytes alone.
#[verifier::external_body]
fn decompress(compressed: &[u8]) -> (raw: Result<Vec<u8>, std::io::Error>)
    ensures
        match raw {
            Ok(bytes) => decompressed(compressed@) == Some(bytes@),
            Err(_) => decompressed(compressed@) is None,
        },
{
    let mut raw = Vec::new();
    MultiBzDecoder::new(compressed).read_to_end(&mut raw).map(|_| raw)
}

/// Why a file did not give the segment that it was fetched for.
#[derive(Debug)]
pub enum SegmentError {
    /// The file could not be decompressed.
    Decompress(std::io::Error),
    /// The decompressed bytes could not be decoded.
    Parse(hsd::HsdError),
    /// The file holds something else.
    Unexpected { band_number: u16, segment_number: u8, total_segments: u8, columns: usize },
}

/// Says what a file holds instead of the segment that it was fetched for.
pub fn unexpected_contents(
    name: &str,
    band_number: u16,
    segment_number: u8,
    total_segments: u8,
    columns: usize,
) -> (text: String)
    ensures
        text@ == name@ + ": unexpected contents (band "@ + decimal::numeral(band_number as nat)
            + ", segment "@ + decimal::numeral(segment_number as nat) + "/"@ + decimal::numeral(
            total_segments as nat,
        ) + ", "@ + decimal::numeral(columns as nat) + " columns)"@,
{
    let mut text = name.to_owned();
    text.append(": unexpected contents (band ");
    text.append(decimal::decimal(band_number as u64).as_str());
    text.append(", segment ");
    text.append(decimal::decimal(segment_number as u64).as_str());
    text.append("/");
    text.append(decimal::decimal(total_segments as u64).as_str());
    text.append(", ");
    text.append(decimal::decimal(columns as u64).as_str());
    text.append(" columns)");
    text
}

/// Whether a segment is the one that a file was fetched for: the band, the
/// segment number, the number of segments and the width are right.
pub open spec fn is_expected<B: AhiBand>(parsed: hsd::SegmentModel, band: B, segment: u8) -> bool {
    &&& parsed.band_number == band.band_number()
    &&& parsed.segment_number == segment
    &&& parsed.total_segments == SEGMENTS_PER_DISK
    &&& parsed.columns == band.disk_width()
}

/// Whether decoding the bytes of a file for a segment came out right.
pub open spec fn decoding<B: AhiBand>(
    raw: Seq<u8>,
    band: B,
    segment: u8,
    result: Result<hsd::Segment, SegmentError>,
) -> bool {
    match (hsd::decoded(raw), result) {
        (Ok(model), Ok(parsed)) => is_expected(model, band, segment) && parsed@ == model
            && model.wf(),
        (
            Ok(model),
            Err(
                SegmentError::Unexpected { band_number, segment_number, total_segments, columns },
            ),
        ) => {
            &&& !is_expected(model, band, segment)
            &&& band_number == model.band_number
            &&& segment_number == model.segment_number
            &&& total_segments == model.total_segments
            &&& columns == model.columns
        },
        (Err(e), Err(SegmentError::Parse(error))) => error == e,
        _ => false,
    }
}

/// Decodes the decompressed bytes of a file and checks that they hold the
/// segment that was asked for.
pub fn decode_raw<B: AhiBand>(raw: &[u8], band: B, segment: u8) -> (result: Result<
    hsd::Segment,
    SegmentError,
>)
    ensures
        decoding(raw@, band, segment, result),
{
    match hsd::parse(raw) {
        Ok(parsed) => if parsed.band_number != band.number() || parsed.segment_number != segment
            || parsed.total_segments != SEGMENTS_PER_DISK || parsed.columns
            != band.native_width() {
            Err(
                SegmentError::Unexpected {
                    band_number: parsed.band_number,
                    segment_number: parsed.segment_number,
                    total_segments: parsed.total_segments,
                    columns: parsed.columns,
                },
            )
        } else {
            Ok(parsed)
        },
        Err(e) => Err(SegmentError::Parse(e)),
    }
}

/// Decompresses, decodes and checks one downloaded or cached file.
pub fn decode_segment<B: AhiBand>(compressed: &[u8], band: B, segment: u8) -> (result: Result<
    hsd::Segment,
    SegmentError,
>)
    ensures
        match decompressed(compressed@) {
            Some(raw) => decoding(raw, band, segment, result),
            None => result matches Err(e) && e is Decompress,
        },
{
    match decompress(compressed) {
        Ok(raw) => decode_raw(raw.as_slice(), band, segment),
        Err(e) => Err(SegmentError::Decompress(e)),
    }
}

} // verus!
