//! Scenes that arrive in any order, and the frames made of them.

use vstd::prelude::*;

use crate::compose::Rgb8Image;
use crate::grid;
use crate::pick;
use crate::promises::disks;
use crate::timelapse;
use crate::timelapse::{Event, FrameQueue, Reorder, Step};

verus! {

// ---------------------------------------------------------------------------
// Steps
// ---------------------------------------------------------------------------

/// What is handed out is the item whose turn it is, and nothing else leaves;
/// where it is not there yet nothing changes.
pub proof fn items_leave_in_their_turn<T>(
    before: Reorder<T>,
    after: Reorder<T>,
    item: Option<T>,
    number: usize,
)
    requires
        Reorder::handed_out(before, after, item),
    ensures
        item is Some <==> before.waiting().contains_key(before.expected()),
        item matches Some(found) ==> found == before.waiting()[before.expected()]
            && after.expected() == before.expected() + 1,
        item is None ==> after.expected() == before.expected(),
        after.waiting().contains_key(number) <==> before.waiting().contains_key(number) && (item
            is None || number != before.expected()),
        after.waiting().contains_key(number) ==> after.waiting()[number]
            == before.waiting()[number],
{
}

/// A scene that was accepted waits for its slot, and the others as before.
pub proof fn accepted_scenes_wait<T>(
    before: FrameQueue<T>,
    after: FrameQueue<T>,
    slot: usize,
    scene: T,
    other: usize,
)
    requires
        FrameQueue::accepted(before, after, slot, scene),
    ensures
        after.waiting().contains_key(slot) && after.waiting()[slot] == scene,
        other != slot ==> (after.waiting().contains_key(other)
            <==> before.waiting().contains_key(other)),
        other != slot && after.waiting().contains_key(other) ==> after.waiting()[other]
            == before.waiting()[other],
        after.slot() == before.slot(),
        after.slots() == before.slots(),
        after.frames() == before.frames(),
{
}

/// A step renders the scene whose slot it is, as the frame after those that
/// are done; it waits where the scene is not there yet, and is finished behind
/// the last slot.
pub proof fn steps_take_slot_by_slot<T>(
    before: FrameQueue<T>,
    after: FrameQueue<T>,
    step: Step<T>,
    other: usize,
)
    requires
        before.wf(),
        FrameQueue::stepped(before, after, step),
    ensures
        step is Finished <==> before.slot() == before.slots(),
        step matches Step::Finished { rendered } ==> rendered == before.frames(),
        step is Render <==> before.slot() < before.slots() && before.waiting().contains_key(
            before.slot(),
        ),
        step matches Step::Render { slot, frame, scene } ==> slot == before.slot() && frame
            == before.frames() + 1 && scene == before.waiting()[slot] && after.slot() == slot + 1
            && !after.waiting().contains_key(slot),
        !(step is Render) ==> after.slot() == before.slot(),
        other != before.slot() ==> (after.waiting().contains_key(other)
            <==> before.waiting().contains_key(other)),
        after.waiting().contains_key(other) ==> after.waiting()[other] == before.waiting()[other],
        after.slots() == before.slots(),
        after.frames() == before.frames(),
{
}

/// A frame that is done is counted, and nothing else changes.
pub proof fn frames_are_counted<T>(before: FrameQueue<T>, after: FrameQueue<T>)
    requires
        FrameQueue::counted(before, after),
    ensures
        after.frames() == before.frames() + 1,
        after.slot() == before.slot(),
        after.slots() == before.slots(),
        after.waiting() == before.waiting(),
{
}

// ---------------------------------------------------------------------------
// Runs
// ---------------------------------------------------------------------------

/// Whether an event hands a scene out.
pub open spec fn renders<T>(event: Event<T>) -> bool {
    event is Stepped && event->Stepped_0 is Render
}

/// Whether an event is a scene that came for a slot.
pub open spec fn comes_for<T>(event: Event<T>, slot: usize) -> bool {
    event is Accepted && event->Accepted_slot == slot
}

proof fn lemma_handed<T>(events: Seq<Event<T>>, i: nat)
    requires
        i <= events.len(),
    ensures
        timelapse::handed_before(events, i as int) == disks::tally(
            i,
            |k: int| renders(events[k]),
        ),
        timelapse::rendered_before(events, i as int) == disks::tally(
            i,
            |k: int| events[k] is Rendered,
        ),
        timelapse::handed_before(events, i as int) <= i,
        timelapse::rendered_before(events, i as int) <= i,
    decreases i,
{
    if i > 0 {
        lemma_handed(events, (i - 1) as nat);
    }
}

proof fn lemma_scene<T>(events: Seq<Event<T>>, i: int, slot: usize)
    requires
        0 <= i <= events.len(),
    ensures
        match timelapse::scene_before(events, i, slot) {
            Some(scene) => exists|j: int|
                {
                    &&& 0 <= j < i
                    &&& #[trigger] events[j] == (Event::Accepted { slot, scene })
                    &&& forall|k: int| j < k < i ==> !comes_for(#[trigger] events[k], slot)
                },
            None => forall|k: int| 0 <= k < i ==> !comes_for(#[trigger] events[k], slot),
        },
    decreases i,
{
    if i > 0 {
        lemma_scene(events, i - 1, slot);
        if !comes_for(events[i - 1], slot) {
            if let Some(scene) = timelapse::scene_before(events, i - 1, slot) {
                let j = choose|j: int|
                    {
                        &&& 0 <= j < i - 1
                        &&& #[trigger] events[j] == (Event::Accepted { slot, scene })
                        &&& forall|k: int| j < k < i - 1 ==> !comes_for(#[trigger] events[k], slot)
                    };
                assert(events[j] == (Event::Accepted { slot, scene }));
            }
        } else {
            assert(events[i - 1] == (Event::Accepted { slot, scene: events[i - 1]->scene }));
        }
    }
}

/// In a run the scenes are handed out slot by slot, each as the last one that
/// came for its slot, and frames are numbered from one without gaps.
pub proof fn runs_render_slot_by_slot<T>(
    states: Seq<FrameQueue<T>>,
    events: Seq<Event<T>>,
    slots: usize,
    i: int,
)
    requires
        timelapse::is_run(states, events, slots),
        events.len() < usize::MAX,
        0 <= i < events.len(),
    ensures
        events[i] matches Event::Stepped(Step::Render { slot, frame, scene }) ==> {
            &&& slot == disks::tally(i as nat, |k: int| renders(events[k]))
            &&& frame == 1 + disks::tally(i as nat, |k: int| events[k] is Rendered)
            &&& slot != slots
            &&& exists|j: int|
                {
                    &&& 0 <= j < i
                    &&& #[trigger] events[j] == (Event::Accepted { slot, scene })
                    &&& forall|k: int| j < k < i ==> !comes_for(#[trigger] events[k], slot)
                }
        },
        events[i] matches Event::Stepped(Step::Receive) ==> forall|k: int|
            0 <= k < i ==> !comes_for(
                #[trigger] events[k],
                disks::tally(i as nat, |k: int| renders(events[k])) as usize,
            ),
        events[i] matches Event::Stepped(Step::Finished { rendered }) ==> rendered == disks::tally(
            i as nat,
            |k: int| events[k] is Rendered,
        ) && slots == disks::tally(i as nat, |k: int| renders(events[k])),
{
    timelapse::frames_are_numbered_in_slot_order(states, events, slots, i);
    lemma_handed(events, i as nat);
    let turn = timelapse::handed_before(events, i);
    lemma_scene(events, i, turn as usize);
}

// ---------------------------------------------------------------------------
// Points
// ---------------------------------------------------------------------------

/// A point on an image is painted in the color of the markers and nothing
/// else; off the image nothing is.
pub proof fn points_are_painted_alone(before: Rgb8Image, x: int, y: int, i: int, j: int, channel: int)
    requires
        before.data@.len() == 3 * (before.width * before.height),
        0 <= i < before.width,
        0 <= j < before.height,
        0 <= channel < 3,
    ensures
        ({
            let at = 3 * (j * before.width + i) + channel;
            let painted = match pick::pixel_under(before.width, before.height, x, y) {
                Some(pixel) => pick::painted(before.data@, set![pixel]),
                None => before.data@,
            };
            let color = seq![255u8, 60u8, 220u8];
            &&& painted.len() == before.data@.len()
            &&& x == i && y == j ==> painted[at] == color[channel]
            &&& x < 0x1_0000_0000 && y < 0x1_0000_0000 && !(x == i && y == j) ==> painted[at]
                == before.data@[at]
        }),
{
    let (w, h) = (before.width as int, before.height as int);
    grid::cell_has_place(w, h, j, i);
    let at = 3 * (j * w + i) + channel;
    assert(at / 3 == j * w + i && at % 3 == channel);
    assert(h * w == w * h) by (nonlinear_arith);
    assert(pick::MARKER@ =~= seq![255u8, 60u8, 220u8]);
    if 0 <= x && 0 <= y && x % 0x1_0000_0000 < w && y % 0x1_0000_0000 < h {
        grid::cell_has_place(w, h, y % 0x1_0000_0000, x % 0x1_0000_0000);
    }
}

} // verus!
