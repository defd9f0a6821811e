//! Timelapse videos: the range of slots, the frames, and the order in which
//! they are rendered.

use std::collections::HashMap;

use vstd::prelude::*;
use vstd::string::*;

use crate::calendar;
use crate::calendar::{Slot, TimeError, SLOT_SECS};
use crate::compose::FULL_DISK_SIZE;
use crate::decimal;
use crate::text;
use crate::tuning::TIMELAPSE_DOWNSAMPLE;

verus! {

// ---------------------------------------------------------------------------
// The range
// ---------------------------------------------------------------------------

/// What is wrong with the range of a timelapse.
#[derive(Debug)]
pub enum RangeError {
    /// The start and the end are not separated by two dots.
    NoDots,
    /// The start is not the time of a slot.
    Start(TimeError),
    /// The end is not the time of a slot.
    End(TimeError),
    /// The end is before the start.
    Backwards,
}

impl RangeError {
    /// The error in words, for the range that was given.
    pub open spec fn words(self, range: Seq<char>) -> Seq<char> {
        match self {
            RangeError::NoDots =>
                "--timelapse expects START..END, e.g. 2026-07-09T00:00..2026-07-09T06:00"@,
            RangeError::Start(error) => error.words(range_start(range)),
            RangeError::End(error) => error.words(range_end(range)),
            RangeError::Backwards => "--timelapse end is before start"@,
        }
    }

    /// The error in words, for the range that was given.
    pub fn message(&self, range: &str) -> (words: String)
        ensures
            words@ == self.words(range@),
    {
        match self {
            RangeError::NoDots => {
                "--timelapse expects START..END, e.g. 2026-07-09T00:00..2026-07-09T06:00".to_owned()
            },
            RangeError::Start(error) => match split_range(range) {
                Some((start, _)) => error.message(start),
                None => error.message(range),
            },
            RangeError::End(error) => match split_range(range) {
                Some((_, end)) => error.message(end),
                None => error.message(range),
            },
            RangeError::Backwards => "--timelapse end is before start".to_owned(),
        }
    }
}

/// The text before the dots of a range; all of it where it has none.
pub open spec fn range_start(range: Seq<char>) -> Seq<char> {
    match text::dots_from(range, 0) {
        Some(at) => range.take(at),
        None => range,
    }
}

/// The text behind the dots of a range; all of it where it has none.
pub open spec fn range_end(range: Seq<char>) -> Seq<char> {
    match text::dots_from(range, 0) {
        Some(at) => range.skip(at + 2),
        None => range,
    }
}

/// Splits a range at its dots.
fn split_range(range: &str) -> (parts: Option<(&str, &str)>)
    ensures
        match parts {
            Some((first, second)) => text::dots_from(range@, 0) is Some && first@ == range_start(
                range@,
            ) && second@ == range_end(range@),
            None => text::dots_from(range@, 0) is None,
        },
{
    let chars: Vec<char> = text::to_chars(range);
    let size: usize = chars.len();
    match text::find_dots(chars.as_slice()) {
        Some(at) => {
            let (first, second) = (range.substring_char(0, at), range.substring_char(at + 2, size));
            proof {
                assert(first@ =~= range@.take(at as int));
                assert(second@ =~= range@.skip(at + 2));
            }
            Some((first, second))
        },
        None => None,
    }
}

/// The format of the times of a range.
pub open spec fn time_format() -> Seq<char> {
    "%Y-%m-%dT%H:%M"@
}

/// Whether reading a time fails with an error.
pub open spec fn time_fails(text: Seq<char>, error: TimeError) -> bool {
    match calendar::read_timestamp(text, time_format()) {
        None => error is Unreadable,
        Some(secs) => calendar::minute_of(secs as int) % 10 != 0 && error is BetweenSlots,
    }
}

/// Whether a time is that of a slot.
pub open spec fn time_reads(text: Seq<char>, slot: Slot) -> bool {
    match calendar::read_timestamp(text, time_format()) {
        None => false,
        Some(secs) => calendar::minute_of(secs as int) % 10 == 0 && slot@ == secs,
    }
}

/// Whether a text is the range from one slot to another.
pub open spec fn range_reads(range: Seq<char>, start: Slot, end: Slot) -> bool {
    match text::dots_from(range, 0) {
        None => false,
        Some(at) => time_reads(range.take(at), start) && time_reads(range.skip(at + 2), end),
    }
}

/// A range in the form that is read.
pub open spec fn range_text(start: int, end: int) -> Seq<char> {
    calendar::time_text(start) + ".."@ + calendar::time_text(end)
}

/// Reads an inclusive range of slots, START..END.
pub fn parse_range(range: &str) -> (slots: Result<(Slot, Slot), RangeError>)
    ensures
        forall|a: int, b: int|
            calendar::is_slot(a) && calendar::is_slot(b) && a <= b && range@ == #[trigger]
                range_text(a, b) ==> slots is Ok && slots->Ok_0.0@ == a && slots->Ok_0.1@ == b,
        match slots {
            Ok((start, end)) => range_reads(range@, start, end) && start@ <= end@,
            Err(RangeError::NoDots) => text::dots_from(range@, 0) is None,
            Err(RangeError::Start(error)) => text::dots_from(range@, 0) matches Some(at)
                && time_fails(range@.take(at), error),
            Err(RangeError::End(error)) => text::dots_from(range@, 0) matches Some(at) && (exists|
                start: Slot,
            |
                time_reads(range@.take(at), start)) && time_fails(range@.skip(at + 2), error),
            Err(RangeError::Backwards) => exists|start: Slot, end: Slot|
                #![trigger range_reads(range@, start, end)]
                range_reads(range@, start, end) && end@ < start@,
        },
{
    proof {
        assert forall|a: int, b: int| range@ == #[trigger] range_text(a, b) implies {
            &&& text::dots_from(range@, 0) == Some(calendar::time_text(a).len() as int)
            &&& range@.take(calendar::time_text(a).len() as int) == calendar::time_text(a)
            &&& range@.skip(calendar::time_text(a).len() as int + 2) == calendar::time_text(b)
        } by {
            lemma_range_splits(a, b);
        }
    }
    let (first, second) = match split_range(range) {
        Some(parts) => parts,
        None => {
            return Err(RangeError::NoDots);
        },
    };
    let start: Slot = match calendar::parse_time(first) {
        Ok(slot) => slot,
        Err(error) => {
            return Err(RangeError::Start(error));
        },
    };
    assert(time_reads(first@, start));
    let end: Slot = match calendar::parse_time(second) {
        Ok(slot) => slot,
        Err(error) => {
            return Err(RangeError::End(error));
        },
    };
    assert(range_reads(range@, start, end));
    if end.secs() < start.secs() {
        return Err(RangeError::Backwards);
    }
    Ok((start, end))
}

proof fn lemma_range_splits(a: int, b: int)
    ensures
        ({
            let range = range_text(a, b);
            let size = calendar::time_text(a).len() as int;
            &&& text::dots_from(range, 0) == Some(size)
            &&& range.take(size) == calendar::time_text(a)
            &&& range.skip(size + 2) == calendar::time_text(b)
        }),
{
    reveal_strlit("..");
    let (first, second) = (calendar::time_text(a), calendar::time_text(b));
    let range = range_text(a, b);
    lemma_no_dots(a);
    assert(range.take(first.len() as int) =~= first);
    assert(range.skip(first.len() as int + 2) =~= second);
    assert forall|i: int| 0 <= i < first.len() implies #[trigger] range[i] != '.' by {
        assert(range[i] == first[i]);
    }
    lemma_dots_behind(range, first.len() as int, 0);
}

proof fn lemma_dots_behind(text: Seq<char>, size: int, i: int)
    requires
        0 <= i <= size,
        size + 2 <= text.len(),
        forall|k: int| 0 <= k < size ==> #[trigger] text[k] != '.',
        text[size] == '.',
        text[size + 1] == '.',
    ensures
        text::dots_from(text, i) == Some(size),
    decreases size - i,
{
    if i < size {
        lemma_dots_behind(text, size, i + 1);
    }
}

/// No dot stands in a time.
proof fn lemma_no_dots(secs: int)
    ensures
        forall|i: int|
            0 <= i < calendar::time_text(secs).len() ==> #[trigger] calendar::time_text(secs)[i]
                != '.',
{
    reveal_strlit("%Y-%m-%dT%H:%M");
    let f = "%Y-%m-%dT%H:%M"@;
    lemma_no_dots_from(f, 0, secs);
}

proof fn lemma_no_dots_from(format: Seq<char>, i: int, secs: int)
    requires
        0 <= i,
        forall|k: int| 0 <= k < format.len() ==> #[trigger] format[k] != '.',
    ensures
        forall|k: int|
            0 <= k < calendar::formatted_from(format, i, secs).len()
                ==> #[trigger] calendar::formatted_from(format, i, secs)[k] != '.',
    decreases format.len() - i,
{
    if i < format.len() {
        let whole = calendar::formatted_from(format, i, secs);
        if format[i] == '%' && i + 1 < format.len() {
            let head = calendar::directive_text(format[i + 1], secs);
            let tail = calendar::formatted_from(format, i + 2, secs);
            lemma_no_dots_from(format, i + 2, secs);
            lemma_no_dots_in_directive(format[i + 1], secs);
            assert forall|k: int| 0 <= k < whole.len() implies #[trigger] whole[k] != '.' by {
                if k < head.len() {
                    assert(whole[k] == head[k]);
                } else {
                    assert(whole[k] == tail[k - head.len()]);
                }
            }
        } else {
            let tail = calendar::formatted_from(format, i + 1, secs);
            lemma_no_dots_from(format, i + 1, secs);
            assert forall|k: int| 0 <= k < whole.len() implies #[trigger] whole[k] != '.' by {
                if k > 0 {
                    assert(whole[k] == tail[k - 1]);
                }
            }
        }
    }
}

proof fn lemma_no_dots_in_directive(c: char, secs: int)
    ensures
        forall|k: int|
            0 <= k < calendar::directive_text(c, secs).len() ==> #[trigger] calendar::directive_text(
                c,
                secs,
            )[k] != '.',
{
    let (year, month, day) = calendar::civil_date(secs / 86400);
    let text = calendar::directive_text(c, secs);
    let (n, width): (nat, nat) = if c == 'Y' {
        (if year >= 0 {
            year as nat
        } else {
            (-year) as nat
        }, 4)
    } else if c == 'm' {
        (month as nat, 2)
    } else if c == 'd' {
        (day as nat, 2)
    } else if c == 'H' {
        (calendar::hour_of(secs) as nat, 2)
    } else {
        (calendar::minute_of(secs) as nat, 2)
    };
    let digits = decimal::zero_padded(n, width);
    decimal::padded_numeral_reads_back(n, width);
    assert forall|k: int| 0 <= k < text.len() implies #[trigger] text[k] != '.' by {
        if c == 'Y' && !(0 <= year <= 9999) {
            if k > 0 {
                assert(text[k] == digits[k - 1]);
                assert(decimal::is_digit(digits[k - 1]));
            }
        } else {
            assert(text[k] == digits[k]);
            assert(decimal::is_digit(digits[k]));
        }
    }
}

/// The slots from one to another, both included, every ten minutes.
pub fn slots_between(start: Slot, end: Slot) -> (slots: Vec<Slot>)
    requires
        start@ <= end@,
    ensures
        slots@.len() == (end@ - start@) / SLOT_SECS as int + 1,
        forall|i: int| 0 <= i < slots@.len() ==> (#[trigger] slots@[i])@ == start@ + SLOT_SECS * i,
{
    let last: i64 = end.secs();
    let first: i64 = start.secs();
    let mut slots: Vec<Slot> = Vec::new();
    let mut next: Slot = start;
    slots.push(next);
    while last - next.secs() >= SLOT_SECS
        invariant
            last == end@,
            calendar::is_slot(last as int),
            calendar::is_slot(next@),
            start@ <= next@ <= last,
            slots@.len() >= 1,
            next@ == start@ + SLOT_SECS * (slots@.len() - 1),
            forall|i: int|
                0 <= i < slots@.len() ==> (#[trigger] slots@[i])@ == start@ + SLOT_SECS * i,
        decreases last - next@,
    {
        next = next.later();
        slots.push(next);
    }
    slots
}

/// The last slot of a timelapse is the end of its range.
pub proof fn range_ends_with_its_end(start: int, end: int)
    requires
        calendar::is_slot(start),
        calendar::is_slot(end),
        start <= end,
    ensures
        start + SLOT_SECS * ((end - start) / SLOT_SECS as int) == end,
{
}

// ---------------------------------------------------------------------------
// The frames
// ---------------------------------------------------------------------------

/// What is wrong with the frames of a timelapse.
#[derive(Debug, Clone, Copy, PartialEq, Eq, Structural)]
pub enum FrameError {
    /// The frame rate is out of range.
    Fps,
    /// The frames are too large for a video, or of an odd size.
    FrameSize { downsample: usize, frame_size: usize },
    /// There are none.
    NoneRendered,
}

impl FrameError {
    /// The error in words.
    pub open spec fn words(self) -> Seq<char> {
        match self {
            FrameError::Fps => "--fps must be between 1 and 120"@,
            FrameError::FrameSize { downsample, frame_size } => "--downsample "@
                + decimal::numeral(downsample as nat) + " gives "@ + decimal::numeral(
                frame_size as nat,
            ) + "x"@ + decimal::numeral(frame_size as nat)
                + " frames; video needs even dimensions of at most 5500 (try 4, 5, or 10)"@,
            FrameError::NoneRendered => "no scene in the range could be rendered"@,
        }
    }

    /// The error in words.
    pub fn message(&self) -> (text: String)
        ensures
            text@ == self.words(),
    {
        match *self {
            FrameError::Fps => "--fps must be between 1 and 120".to_owned(),
            FrameError::FrameSize { downsample, frame_size } => {
                let mut text = "--downsample ".to_owned();
                text.append(decimal::decimal(downsample as u64).as_str());
                text.append(" gives ");
                text.append(decimal::decimal(frame_size as u64).as_str());
                text.append("x");
                text.append(decimal::decimal(frame_size as u64).as_str());
                text.append(
                    " frames; video needs even dimensions of at most 5500 (try 4, 5, or 10)",
                );
                text
            },
            FrameError::NoneRendered => "no scene in the range could be rendered".to_owned(),
        }
    }
}

/// The box-average factor of a timelapse: the default where none is given.
pub open spec fn frame_factor(downsample: Option<usize>) -> usize {
    match downsample {
        Some(factor) => factor,
        None => TIMELAPSE_DOWNSAMPLE,
    }
}

/// Checks the frame rate and the size of the frames. Gives the box-average
/// factor.
pub fn check_frames(fps: u32, downsample: Option<usize>) -> (factor: Result<usize, FrameError>)
    requires
        downsample matches Some(factor) ==> factor > 0,
    ensures
        ({
            let chosen = frame_factor(downsample);
            let size = FULL_DISK_SIZE as int / chosen as int;
            factor == if !(1 <= fps <= 120) {
                Err::<usize, FrameError>(FrameError::Fps)
            } else if size % 2 != 0 || size > 5_500 {
                Err(FrameError::FrameSize { downsample: chosen, frame_size: size as usize })
            } else {
                Ok(chosen)
            }
        }),
{
    if fps < 1 || fps > 120 {
        return Err(FrameError::Fps);
    }
    let chosen: usize = match downsample {
        Some(factor) => factor,
        None => TIMELAPSE_DOWNSAMPLE,
    };
    let frame_size: usize = FULL_DISK_SIZE / chosen;
    if frame_size % 2 != 0 || frame_size > 5_500 {
        return Err(FrameError::FrameSize { downsample: chosen, frame_size });
    }
    Ok(chosen)
}

/// Checks that a finished run has rendered frames to make a video of. Gives
/// how many.
pub fn check_rendered(rendered: usize) -> (frames: Result<usize, FrameError>)
    ensures
        frames == if rendered == 0 {
            Err::<usize, FrameError>(FrameError::NoneRendered)
        } else {
            Ok(rendered)
        },
{
    if rendered == 0 {
        return Err(FrameError::NoneRendered);
    }
    Ok(rendered)
}

// ---------------------------------------------------------------------------
// The order of scenes
// ---------------------------------------------------------------------------

/// A buffer that hands out numbered items in the order of their numbers,
/// whatever the order in which they come in.
pub struct Reorder<T> {
    held: HashMap<usize, T>,
    next: usize,
}

impl<T> Reorder<T> {
    /// The items that wait for their turn.
    pub closed spec fn waiting(self) -> Map<usize, T> {
        self.held@
    }

    /// The number of the item that is handed out next.
    pub closed spec fn expected(self) -> usize {
        self.next
    }

    /// Whether a buffer gave the item whose turn it was: it leaves the buffer
    /// and the turn passes to the next number; nothing changes where it has
    /// not come in.
    pub open spec fn handed_out(before: Self, after: Self, item: Option<T>) -> bool {
        let turn = before.expected();
        match item {
            Some(item) => {
                &&& before.waiting().contains_key(turn)
                &&& item == before.waiting()[turn]
                &&& after.waiting() == before.waiting().remove(turn)
                &&& after.expected() == turn + 1
            },
            None => {
                &&& !before.waiting().contains_key(turn)
                &&& after.waiting() == before.waiting()
                &&& after.expected() == turn
            },
        }
    }

    /// An empty buffer that starts with number 0.
    pub fn new() -> (buffer: Self)
        ensures
            buffer.waiting() == Map::<usize, T>::empty(),
            buffer.expected() == 0,
    {
        broadcast use vstd::std_specs::hash::group_hash_axioms;

        Reorder { held: HashMap::new(), next: 0 }
    }

    /// The number of the item that is handed out next.
    pub fn next_number(&self) -> (number: usize)
        ensures
            number == self.expected(),
    {
        self.next
    }

    /// Takes in an item. One with the same number is replaced.
    pub fn accept(&mut self, number: usize, item: T)
        ensures
            final(self).waiting() == old(self).waiting().insert(number, item),
            final(self).expected() == old(self).expected(),
    {
        broadcast use vstd::std_specs::hash::group_hash_axioms;

        self.held.insert(number, item);
    }

    /// Hands out the item whose turn it is, if it has come in.
    pub fn take(&mut self) -> (item: Option<T>)
        requires
            old(self).expected() < usize::MAX,
        ensures
            Self::handed_out(*old(self), *final(self), item),
    {
        broadcast use vstd::std_specs::hash::group_hash_axioms;

        let number: usize = self.next;
        let ghost before = self.held@;
        assert(!before.contains_key(number) ==> before.remove(number) =~= before);
        match self.held.remove(&number) {
            Some(item) => {
                self.next = number + 1;
                Some(item)
            },
            None => None,
        }
    }
}

/// Items that have all come in are handed out in the order of their numbers,
/// each one once.
pub proof fn items_come_out_in_order<T>(states: Seq<Reorder<T>>, items: Seq<Option<T>>, i: int)
    requires
        states.len() == items.len() + 1,
        forall|k: int|
            0 <= k < items.len() ==> Reorder::handed_out(
                states[k],
                states[k + 1],
                #[trigger] items[k],
            ),
        states[0].expected() + items.len() <= usize::MAX,
        forall|k: int|
            0 <= k < items.len() ==> states[0].waiting().contains_key(
                #[trigger] number_from(states[0].expected(), k),
            ),
        0 <= i < items.len(),
    ensures
        items[i] == Some(states[0].waiting()[number_from(states[0].expected(), i)]),
{
    lemma_handed_out(states, items, i);
    assert(Reorder::handed_out(states[i], states[i + 1], items[i]));
    assert(states[0].waiting().contains_key(number_from(states[0].expected(), i)));
}

/// The number `k` after another.
pub open spec fn number_from(start: usize, k: int) -> usize {
    (start + k) as usize
}

proof fn lemma_handed_out<T>(states: Seq<Reorder<T>>, items: Seq<Option<T>>, i: int)
    requires
        states.len() == items.len() + 1,
        forall|k: int|
            0 <= k < items.len() ==> Reorder::handed_out(
                states[k],
                states[k + 1],
                #[trigger] items[k],
            ),
        states[0].expected() + items.len() <= usize::MAX,
        forall|k: int|
            0 <= k < items.len() ==> states[0].waiting().contains_key(
                #[trigger] number_from(states[0].expected(), k),
            ),
        0 <= i <= items.len(),
    ensures
        states[i].expected() == states[0].expected() + i,
        forall|number: usize|
            number >= states[0].expected() + i && #[trigger] states[0].waiting().contains_key(
                number,
            ) ==> states[i].waiting().contains_key(number) && states[i].waiting()[number]
                == states[0].waiting()[number],
    decreases i,
{
    if i > 0 {
        lemma_handed_out(states, items, i - 1);
        assert(Reorder::handed_out(states[i - 1], states[i], items[i - 1]));
        assert(states[0].waiting().contains_key(number_from(states[0].expected(), i - 1)));
    }
}

/// What the renderer of a timelapse does next.
pub enum Step<T> {
    /// Wait for another scene to come in.
    Receive,
    /// Render the scene of a slot as the frame with a number.
    Render { slot: usize, frame: usize, scene: T },
    /// All slots are done; so many frames were rendered.
    Finished { rendered: usize },
}

/// The scenes of a timelapse on their way to the renderer: they are rendered
/// in slot order, and those that are rendered are numbered from 1 without a
/// gap.
pub struct FrameQueue<T> {
    buffer: Reorder<T>,
    total: usize,
    rendered: usize,
}

impl<T> FrameQueue<T> {
    /// The scenes that wait for their turn, by slot.
    pub closed spec fn waiting(self) -> Map<usize, T> {
        self.buffer.waiting()
    }

    /// The slot whose scene is rendered next.
    pub closed spec fn slot(self) -> usize {
        self.buffer.expected()
    }

    /// How many slots there are.
    pub closed spec fn slots(self) -> usize {
        self.total
    }

    /// How many frames were rendered.
    pub closed spec fn frames(self) -> usize {
        self.rendered
    }

    /// No more frames than slots that had their turn, and no more turns than
    /// slots.
    pub open spec fn wf(self) -> bool {
        self.frames() <= self.slot() <= self.slots()
    }

    /// A queue for a number of slots.
    pub fn new(slots: usize) -> (queue: Self)
        ensures
            queue.wf(),
            queue.is_new(slots),
    {
        FrameQueue { buffer: Reorder::new(), total: slots, rendered: 0 }
    }

    /// Takes in the scene of a slot.
    pub fn accept(&mut self, slot: usize, scene: T)
        requires
            old(self).wf(),
        ensures
            final(self).wf(),
            Self::accepted(*old(self), *final(self), slot, scene),
    {
        self.buffer.accept(slot, scene);
    }

    /// Whether a queue took in the scene of a slot, and nothing else changed.
    pub open spec fn accepted(before: Self, after: Self, slot: usize, scene: T) -> bool {
        &&& after.waiting() == before.waiting().insert(slot, scene)
        &&& after.slot() == before.slot()
        &&& after.slots() == before.slots()
        &&& after.frames() == before.frames()
    }

    /// Whether a step is the one that follows from a queue, and what it
    /// leaves.
    pub open spec fn stepped(before: Self, after: Self, step: Step<T>) -> bool {
        let slot = before.slot();
        &&& after.slots() == before.slots()
        &&& after.frames() == before.frames()
        &&& if slot == before.slots() {
            &&& step == (Step::Finished::<T> { rendered: before.frames() })
            &&& after.slot() == slot
            &&& after.waiting() == before.waiting()
        } else if before.waiting().contains_key(slot) {
            &&& step == (Step::Render::<T> {
                slot,
                frame: (before.frames() + 1) as usize,
                scene: before.waiting()[slot],
            })
            &&& after.slot() == slot + 1
            &&& after.waiting() == before.waiting().remove(slot)
        } else {
            &&& step == Step::Receive::<T>
            &&& after.slot() == slot
            &&& after.waiting() == before.waiting()
        }
    }

    /// Decides what the renderer does next.
    pub fn step(&mut self) -> (step: Step<T>)
        requires
            old(self).wf(),
        ensures
            final(self).wf(),
            Self::stepped(*old(self), *final(self), step),
    {
        let slot: usize = self.buffer.next_number();
        if slot == self.total {
            return Step::Finished { rendered: self.rendered };
        }
        match self.buffer.take() {
            Some(scene) => Step::Render { slot, frame: self.rendered + 1, scene },
            None => Step::Receive,
        }
    }

    /// Takes note that the scene that was handed out was rendered. One that
    /// could not be is skipped: its number goes to the next frame.
    pub fn frame_done(&mut self)
        requires
            old(self).wf(),
            old(self).frames() < old(self).slot(),
        ensures
            final(self).wf(),
            Self::counted(*old(self), *final(self)),
    {
        self.rendered = self.rendered + 1;
    }

    /// Whether a queue counted one more frame, and nothing else changed.
    pub open spec fn counted(before: Self, after: Self) -> bool {
        &&& after.waiting() == before.waiting()
        &&& after.slot() == before.slot()
        &&& after.slots() == before.slots()
        &&& after.frames() == before.frames() + 1
    }

    /// Whether a queue is as it was made for a number of slots.
    pub open spec fn is_new(self, slots: usize) -> bool {
        &&& self.waiting() == Map::<usize, T>::empty()
        &&& self.slot() == 0
        &&& self.slots() == slots
        &&& self.frames() == 0
    }

    /// Whether an event leads from one state of a queue to another.
    pub open spec fn happened(before: Self, after: Self, event: Event<T>) -> bool {
        match event {
            Event::Accepted { slot, scene } => Self::accepted(before, after, slot, scene),
            Event::Stepped(step) => Self::stepped(before, after, step),
            Event::Rendered => Self::counted(before, after),
        }
    }
}

/// What happens to the queue of a timelapse.
pub enum Event<T> {
    /// The scene of a slot came in.
    Accepted { slot: usize, scene: T },
    /// The queue decided what to do next.
    Stepped(Step<T>),
    /// The scene that was handed out was rendered.
    Rendered,
}

/// How many scenes were handed out in the first `i` events.
pub open spec fn handed_before<T>(events: Seq<Event<T>>, i: int) -> nat
    decreases i,
{
    if i <= 0 {
        0
    } else {
        handed_before(events, i - 1) + if hands_out(events[i - 1]) {
            1nat
        } else {
            0
        }
    }
}

/// Whether a scene is handed out to be rendered.
pub open spec fn hands_out<T>(event: Event<T>) -> bool {
    match event {
        Event::Stepped(step) => step is Render,
        _ => false,
    }
}

/// How many scenes were rendered in the first `i` events.
pub open spec fn rendered_before<T>(events: Seq<Event<T>>, i: int) -> nat
    decreases i,
{
    if i <= 0 {
        0
    } else {
        rendered_before(events, i - 1) + if events[i - 1] is Rendered {
            1nat
        } else {
            0
        }
    }
}

/// The scene that last came in for a slot in the first `i` events.
pub open spec fn scene_before<T>(events: Seq<Event<T>>, i: int, slot: usize) -> Option<T>
    decreases i,
{
    if i <= 0 {
        None
    } else {
        match events[i - 1] {
            Event::Accepted { slot: there, scene } if there == slot => Some(scene),
            _ => scene_before(events, i - 1, slot),
        }
    }
}

/// What a queue for a number of slots decides after `i` events: the slots
/// have their turn one after the other, each as soon as its scene has come
/// in, and a scene gets the number after that of the last rendered one.
pub open spec fn step_after<T>(events: Seq<Event<T>>, i: int, slots: usize) -> Step<T> {
    let (turn, frames) = (handed_before(events, i), rendered_before(events, i));
    if turn == slots {
        Step::Finished { rendered: frames as usize }
    } else {
        match scene_before(events, i, turn as usize) {
            Some(scene) => Step::Render {
                slot: turn as usize,
                frame: (frames + 1) as usize,
                scene,
            },
            None => Step::Receive,
        }
    }
}

/// Whether events lead from state to state of a new queue, and only what was
/// just handed out is reported as rendered.
pub open spec fn is_run<T>(states: Seq<FrameQueue<T>>, events: Seq<Event<T>>, slots: usize) -> bool {
    &&& states.len() == events.len() + 1
    &&& states[0].is_new(slots)
    &&& forall|k: int|
        0 <= k < events.len() ==> FrameQueue::happened(
            states[k],
            states[k + 1],
            #[trigger] events[k],
        )
    &&& forall|k: int|
        0 <= k < events.len() && (#[trigger] events[k]) is Rendered ==> 0 < k && hands_out(
            events[k - 1],
        )
}

proof fn lemma_run<T>(states: Seq<FrameQueue<T>>, events: Seq<Event<T>>, slots: usize, i: int)
    requires
        is_run(states, events, slots),
        0 <= i <= events.len(),
    ensures
        states[i].slots() == slots,
        states[i].slot() == handed_before(events, i),
        states[i].frames() == rendered_before(events, i),
        states[i].slot() <= slots,
        states[i].frames() + (if i > 0 && hands_out(events[i - 1]) {
            1int
        } else {
            0
        }) <= states[i].slot(),
        forall|slot: usize|
            #![trigger states[i].waiting().contains_key(slot)]
            slot >= states[i].slot() ==> {
                &&& states[i].waiting().contains_key(slot) == (scene_before(events, i, slot) is Some)
                &&& states[i].waiting().contains_key(slot) ==> scene_before(events, i, slot) == Some(
                    states[i].waiting()[slot],
                )
            },
    decreases i,
{
    if i > 0 {
        lemma_run(states, events, slots, i - 1);
        let (before, after) = (states[i - 1], states[i]);
        assert(FrameQueue::happened(before, after, events[i - 1]));
        assert forall|slot: usize|
            #![trigger after.waiting().contains_key(slot)]
            slot >= after.slot() implies {
            &&& after.waiting().contains_key(slot) == (scene_before(events, i, slot) is Some)
            &&& after.waiting().contains_key(slot) ==> scene_before(events, i, slot) == Some(
                after.waiting()[slot],
            )
        } by {
            assert(before.waiting().contains_key(slot) || !before.waiting().contains_key(slot));
        }
    }
}

/// In every run, whatever the order in which scenes come in and whichever of
/// them can be rendered, the scenes are handed out in slot order, one for
/// each slot, and those that are rendered are numbered 1, 2, and so on
/// without a gap; the run ends when all slots had their turn, with the number
/// of rendered frames.
pub proof fn frames_are_numbered_in_slot_order<T>(
    states: Seq<FrameQueue<T>>,
    events: Seq<Event<T>>,
    slots: usize,
    i: int,
)
    requires
        is_run(states, events, slots),
        0 <= i < events.len(),
    ensures
        events[i] matches Event::Stepped(step) ==> step == step_after(events, i, slots),
{
    lemma_run(states, events, slots, i);
    assert(FrameQueue::happened(states[i], states[i + 1], events[i]));
    assert(states[i].waiting().contains_key(states[i].slot())
        || !states[i].waiting().contains_key(states[i].slot()));
}

/// Of two rendered scenes the later one is of a later slot, and their numbers
/// are as far apart as there are scenes rendered from the one to the other.
pub proof fn later_frames_are_of_later_slots<T>(
    states: Seq<FrameQueue<T>>,
    events: Seq<Event<T>>,
    slots: usize,
    i: int,
    j: int,
)
    requires
        is_run(states, events, slots),
        0 <= i < j < events.len(),
        hands_out(events[i]),
        hands_out(events[j]),
    ensures
        events[i]->Stepped_0->slot < events[j]->Stepped_0->slot,
        events[j]->Stepped_0->frame - events[i]->Stepped_0->frame == rendered_before(events, j)
            - rendered_before(events, i),
{
    frames_are_numbered_in_slot_order(states, events, slots, i);
    frames_are_numbered_in_slot_order(states, events, slots, j);
    lemma_run(states, events, slots, i);
    lemma_run(states, events, slots, j);
    lemma_handed_grows(events, i + 1, j);
}

proof fn lemma_handed_grows<T>(events: Seq<Event<T>>, i: int, j: int)
    requires
        i <= j,
    ensures
        handed_before(events, i) <= handed_before(events, j),
    decreases j - i,
{
    if i < j {
        lemma_handed_grows(events, i, j - 1);
    }
}

} // verus!
