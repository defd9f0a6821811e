//! Slots, and the ranges of a timelapse.

use vstd::prelude::*;

use crate::calendar;
use crate::calendar::{parse_time, Slot, TimeError};
use crate::promises::texts;
use crate::text;
use crate::timelapse;
use crate::timelapse::{
    check_frames, check_rendered, parse_range, slots_between, FrameError, FrameQueue, RangeError,
    Reorder,
};

verus! {

// ---------------------------------------------------------------------------
// Slots
// ---------------------------------------------------------------------------

/// Whether a second starts a slot: a multiple of 600 within the calendar.
pub open spec fn starts_slot(secs: int) -> bool {
    &&& -8_334_601_228_800 <= secs <= 8_210_266_876_799
    &&& exists|k: int| secs == #[trigger] (600 * k)
}

proof fn lemma_starts_slot(secs: int)
    ensures
        calendar::is_slot(secs) <==> starts_slot(secs),
{
    if calendar::is_slot(secs) {
        let k = secs / 600;
        assert(secs == 600 * k);
    }
}

/// There is a slot at each second that starts one, and at no other.
pub proof fn slots_start_every_ten_minutes(secs: i64, slot: Option<Slot>)
    requires
        call_ensures(Slot::at, (secs,), slot),
    ensures
        slot is Some <==> starts_slot(secs as int),
        slot matches Some(found) ==> found@ == secs,
{
    lemma_starts_slot(secs as int);
}

/// A slot says at which second it starts.
pub proof fn slots_know_their_start(slot: Slot, secs: i64, again: Option<Slot>)
    requires
        call_ensures(Slot::secs, (slot,), secs),
        call_ensures(Slot::at, (secs,), again),
    ensures
        starts_slot(secs as int),
        again matches Some(found) && found@ == slot@,
{
    lemma_starts_slot(secs as int);
}

/// The slot before the one after a slot is the slot, and 600 seconds are
/// between two.
pub proof fn slots_follow_each_other(
    slot: Slot,
    next: Slot,
    back: Slot,
    before: Slot,
    secs: i64,
    next_secs: i64,
    before_secs: i64,
)
    requires
        call_ensures(Slot::later, (slot,), next),
        call_ensures(Slot::earlier, (next,), back),
        call_ensures(Slot::earlier, (slot,), before),
        call_ensures(Slot::secs, (slot,), secs),
        call_ensures(Slot::secs, (next,), next_secs),
        call_ensures(Slot::secs, (before,), before_secs),
    ensures
        back@ == slot@,
        next_secs == secs + 600,
        before_secs == secs - 600,
{
}

/// A moment is in the slot that contains it: at its start or within the ten
/// minutes after it.
pub proof fn moments_are_in_their_slot(
    secs: i64,
    nanos: u32,
    slot: Slot,
    start: i64,
)
    requires
        call_ensures(Slot::containing, (secs, nanos), Ok(slot)),
        call_ensures(Slot::secs, (slot,), start),
    ensures
        starts_slot(start as int),
        start <= secs < start + 600,
{
    lemma_starts_slot(start as int);
}

/// A moment has a slot wherever its nanoseconds can be counted.
pub proof fn countable_moments_have_a_slot(
    secs: i64,
    nanos: u32,
    slot: Result<Slot, chrono::RoundingError>,
)
    requires
        call_ensures(Slot::containing, (secs, nanos), slot),
    ensures
        slot is Ok <==> -0x8000_0000_0000_0000 <= secs * 1_000_000_000 + nanos
            <= 0x7fff_ffff_ffff_ffff,
{
}

/// A time is that of the moment that the text was read as, which is refused
/// where its minute is no multiple of ten.
pub proof fn times_are_those_read(given: &str, result: Result<Slot, TimeError>)
    requires
        call_ensures(parse_time, (given,), result),
    ensures
        match calendar::read_timestamp(given@, "%Y-%m-%dT%H:%M"@) {
            None => result is Err && result->Err_0 is Unreadable,
            Some(secs) => if secs as int / 60 % 10 == 0 {
                result matches Ok(slot) && slot@ == secs
            } else {
                result is Err && result->Err_0 is BetweenSlots
            },
        },
{
    if let Some(secs) = calendar::read_timestamp(given@, "%Y-%m-%dT%H:%M"@) {
        lemma_minute(secs as int);
    }
}

proof fn lemma_minute(secs: int)
    ensures
        calendar::minute_of(secs) % 10 == secs / 60 % 10,
{
    let (hours, rest) = (secs / 3600, secs % 3600);
    let (minutes, left) = (rest / 60, rest % 60);
    assert(secs == 60 * (60 * hours + minutes) + left);
    assert(secs / 60 == 60 * hours + minutes);
    assert((10 * (6 * hours) + minutes) % 10 == minutes % 10);
}

/// The time of a slot is read as the slot.
pub proof fn times_read_back(
    slot: Slot,
    format: &str,
    text: String,
    read: &str,
    secs: i64,
    result: Result<Slot, TimeError>,
)
    requires
        call_ensures(Slot::format, (slot, format), text),
        call_ensures(Slot::secs, (slot,), secs),
        call_ensures(parse_time, (read,), result),
        format@ == "%Y-%m-%dT%H:%M"@,
        read@ == text@,
    ensures
        result matches Ok(again) && again@ == slot@,
{
    assert(text@ == calendar::time_text(slot@));
}

// ---------------------------------------------------------------------------
// Ranges
// ---------------------------------------------------------------------------

/// Whether a text is two others with the first two dots in a row between
/// them.
pub open spec fn is_split(range: Seq<char>, first: Seq<char>, second: Seq<char>) -> bool {
    &&& range == first + seq!['.', '.'] + second
    &&& forall|i: int|
        0 <= i < first.len() ==> !(#[trigger] range[i] == '.' && range[i + 1] == '.')
}

/// Whether a text has two dots in a row.
pub open spec fn has_dots(range: Seq<char>) -> bool {
    exists|i: int| 0 <= i < range.len() - 1 && #[trigger] range[i] == '.' && range[i + 1] == '.'
}

pub(crate) proof fn lemma_split(range: Seq<char>, first: Seq<char>, second: Seq<char>)
    requires
        is_split(range, first, second),
    ensures
        text::dots_from(range, 0) == Some(first.len() as int),
        range.take(first.len() as int) == first,
        range.skip(first.len() as int + 2) == second,
{
    texts::lemma_dots(range, 0);
    let n = first.len() as int;
    assert(range.len() == (first + seq!['.', '.']).len() + second.len());
    assert(range[n] == '.' && range[n + 1] == '.');
    assert(range.take(n) =~= first);
    assert(range.skip(n + 2) =~= second);
}

/// A range is read as its two times are: the first two dots in a row are
/// between them, the first that cannot be read is refused, and the end is not
/// before the start.
pub proof fn ranges_are_read_as_their_times(
    range: &str,
    first: &str,
    second: &str,
    start: Result<Slot, TimeError>,
    end: Result<Slot, TimeError>,
    result: Result<(Slot, Slot), RangeError>,
)
    requires
        call_ensures(parse_range, (range,), result),
        call_ensures(parse_time, (first,), start),
        call_ensures(parse_time, (second,), end),
        is_split(range@, first@, second@),
    ensures
        match (start, end) {
            (Err(error), _) => result matches Err(RangeError::Start(told)) && (told is Unreadable
                <==> error is Unreadable),
            (Ok(_), Err(error)) => result matches Err(RangeError::End(told)) && (told is Unreadable
                <==> error is Unreadable),
            (Ok(a), Ok(b)) => if a@ <= b@ {
                result matches Ok((x, y)) && x@ == a@ && y@ == b@
            } else {
                result matches Err(RangeError::Backwards)
            },
        },
{
    lemma_split(range@, first@, second@);
    let at = first@.len() as int;
    assert(range@.take(at) == first@ && range@.skip(at + 2) == second@);
}

/// A range without two dots in a row is refused for that, and no other.
pub proof fn ranges_have_dots(range: &str, result: Result<(Slot, Slot), RangeError>)
    requires
        call_ensures(parse_range, (range,), result),
    ensures
        result is Err && result->Err_0 is NoDots <==> !has_dots(range@),
{
    texts::lemma_dots(range@, 0);
    if let Some(k) = text::dots_from(range@, 0) {
        assert(range@[k] == '.' && range@[k + 1] == '.');
    }
}

/// The slots of a range are its start, its end and all those between them,
/// each 600 seconds after the one before it.
pub proof fn ranges_have_all_their_slots(
    start: Slot,
    end: Slot,
    slots: Vec<Slot>,
    first: i64,
    last: i64,
)
    requires
        call_ensures(slots_between, (start, end), slots),
        call_ensures(Slot::secs, (start,), first),
        call_ensures(Slot::secs, (end,), last),
        start@ <= end@,
    ensures
        slots@.len() > 0,
        slots@[0]@ == start@,
        slots@[slots@.len() - 1]@ == end@,
        forall|i: int|
            0 < i < slots@.len() ==> (#[trigger] slots@[i])@ == slots@[i - 1]@ + 600,
        forall|secs: int|
            start@ <= secs <= end@ && #[trigger] starts_slot(secs) ==> exists|i: int|
                0 <= i < slots@.len() && (#[trigger] slots@[i])@ == secs,
{
    timelapse::range_ends_with_its_end(start@, end@);
    let n = (end@ - start@) / 600;
    assert forall|i: int| 0 < i < slots@.len() implies (#[trigger] slots@[i])@ == slots@[i - 1]@
        + 600 by {
        assert(slots@[i]@ == start@ + 600 * i);
        assert(slots@[i - 1]@ == start@ + 600 * (i - 1));
    }
    assert forall|secs: int| start@ <= secs <= end@ && #[trigger] starts_slot(secs) implies exists|
        i: int,
    |
        0 <= i < slots@.len() && (#[trigger] slots@[i])@ == secs by {
        lemma_starts_slot(secs);
        lemma_starts_slot(start@);
        let i = (secs - start@) / 600;
        assert(start@ % 600 == 0 && secs % 600 == 0);
        assert(secs - start@ == 600 * i);
        assert(slots@[i]@ == start@ + 600 * i);
    }
}

/// Frames are made at 1 to 120 in a second, of an even size of at most 5500;
/// without a reduction asked for, of one by four.
pub proof fn frames_fit_a_video(
    fps: u32,
    downsample: Option<usize>,
    size: int,
    outcome: Result<usize, FrameError>,
)
    requires
        call_ensures(check_frames, (fps, downsample), outcome),
        ({
            let factor = match downsample {
                Some(factor) => factor as int,
                None => 4,
            };
            0 < factor && factor * size <= 11000 < factor * (size + 1)
        }),
    ensures
        outcome is Ok <==> 1 <= fps && fps <= 120 && size <= 5500 && exists|k: int|
            size == #[trigger] (2 * k),
        outcome matches Ok(factor) ==> factor == match downsample {
            Some(asked) => asked,
            None => 4,
        },
        outcome is Err && outcome->Err_0 is Fps <==> fps == 0 || fps > 120,
        outcome matches Err(FrameError::FrameSize { downsample: told, frame_size }) ==> frame_size
            == size && told == match downsample {
            Some(asked) => asked,
            None => 4,
        },
        !(outcome is Err && outcome->Err_0 is NoneRendered),
{
    let factor = match downsample {
        Some(factor) => factor as int,
        None => 4,
    };
    assert(11000int / factor == size) by {
        assert(factor * size == size * factor) by (nonlinear_arith);
        assert(factor * (size + 1) == factor * size + factor) by (nonlinear_arith);
        vstd::arithmetic::div_mod::lemma_fundamental_div_mod_converse(
            11000,
            factor,
            size,
            11000 - factor * size,
        );
    }
    assert(0 <= size <= 11000) by (nonlinear_arith)
        requires
            factor > 0,
            factor * size <= 11000 < factor * (size + 1),
    ;
    if size % 2 == 0 {
        assert(size == 2 * (size / 2));
    }
}

/// A timelapse has at least one frame.
pub proof fn videos_have_frames(rendered: usize, outcome: Result<usize, FrameError>)
    requires
        call_ensures(check_rendered, (rendered,), outcome),
    ensures
        outcome is Ok <==> rendered > 0,
        outcome matches Ok(frames) ==> frames == rendered,
        outcome matches Err(error) ==> error is NoneRendered,
{
}

/// A queue starts at its first slot, with no scenes and no frames.
pub proof fn queues_start_empty<T>(slots: usize, queue: FrameQueue<T>, buffer: Reorder<T>)
    requires
        call_ensures(FrameQueue::<T>::new, (slots,), queue),
        call_ensures(Reorder::<T>::new, (), buffer),
    ensures
        queue.slot() == 0,
        queue.slots() == slots,
        queue.frames() == 0,
        forall|slot: usize| !#[trigger] queue.waiting().contains_key(slot),
        buffer.expected() == 0,
        forall|number: usize| !#[trigger] buffer.waiting().contains_key(number),
{
}

} // verus!
