//! Probes, reads, and what was read.

use vstd::prelude::*;

use crate::band::AhiBand;
use crate::calendar;
use crate::calendar::Slot;
use crate::fetch;
use crate::fetch::{
    decode_raw, decode_segment, find_latest_scene, read_exactly, Filling, ReadOutcome, SegmentError,
};
use crate::hsd::Segment;
use crate::naming::belongs_to_slot;
use crate::promises::fetching;
use crate::text;

verus! {

/// Whether the last `n` slots up to the newest one were answered with no.
pub open spec fn are_refused<E>(
    answer: spec_fn(int) -> Result<bool, E>,
    newest: int,
    n: int,
) -> bool {
    forall|secs: int|
        newest - 600 * n < secs <= newest && (newest - secs) % 600 == 0 ==> #[trigger] answer(secs)
            == Ok::<bool, E>(false)
}

/// Slots are probed from the newest one back, 36 of them, up to the first
/// that is complete or cannot be probed.
pub proof fn slots_are_probed_in_turn<E, P: Fn(Slot) -> Result<bool, E>>(
    newest: Slot,
    probe: P,
    answer: spec_fn(int) -> Result<bool, E>,
    found: Result<Option<Slot>, E>,
)
    requires
        call_ensures(find_latest_scene::<E, P>, (newest, probe), found),
        forall|slot: Slot, told: Result<bool, E>|
            #[trigger] call_ensures(probe, (slot,), told) ==> told == answer(slot@),
    ensures
        match found {
            Ok(Some(slot)) => exists|n: int|
                {
                    &&& 0 <= n < 36
                    &&& #[trigger] are_refused(answer, newest@, n)
                    &&& answer(newest@ - 600 * n) == Ok::<bool, E>(true)
                    &&& slot@ == newest@ - 600 * n
                },
            Ok(None) => are_refused(answer, newest@, 36),
            Err(error) => exists|n: int|
                {
                    &&& 0 <= n < 36
                    &&& #[trigger] are_refused(answer, newest@, n)
                    &&& answer(newest@ - 600 * n) == Err::<bool, E>(error)
                },
        },
{
    let missed = choose|missed: Seq<Slot>|
        {
            &&& #[trigger] fetch::all_missed(newest, probe, missed)
            &&& match found {
                Ok(Some(slot)) => missed.len() < 36 && slot@ == newest@ - calendar::SLOT_SECS
                    * missed.len() && call_ensures(probe, (slot,), Ok(true)),
                Ok(None) => missed.len() == 36,
                Err(e) => missed.len() < 36 && fetch::probe_failed(
                    newest@ - calendar::SLOT_SECS * missed.len(),
                    probe,
                    e,
                ),
            }
        };
    let n = missed.len() as int;
    assert forall|secs: int|
        newest@ - 600 * n < secs <= newest@ && (newest@ - secs) % 600 == 0 implies #[trigger] answer(
        secs,
    ) == Ok::<bool, E>(false) by {
        let i = (newest@ - secs) / 600;
        assert(newest@ - secs == 600 * i);
        assert(call_ensures(probe, (missed[i],), Ok(false)));
        assert(missed[i]@ == newest@ - 600 * i);
    }
    assert(are_refused(answer, newest@, n));
    if let Err(error) = found {
        let slot = choose|slot: Slot|
            slot@ == newest@ - 600 * n && #[trigger] call_ensures(probe, (slot,), Err(error));
        assert(call_ensures(probe, (slot,), Err(error)));
    }
}

/// A buffer is filled exactly where nothing of it is left, read on where
/// something is, and given up where nothing came.
pub proof fn buffers_are_read_to_their_end(
    filled: usize,
    total: usize,
    read: ReadOutcome,
    next: Filling,
)
    requires
        call_ensures(read_exactly, (filled, total, read), next),
        filled <= total,
        read matches ReadOutcome::Bytes(n) ==> filled < total && n <= total - filled,
    ensures
        match read {
            ReadOutcome::Failed => next is Failed,
            ReadOutcome::Start => if total - filled == 0 {
                next is Done
            } else {
                next == Filling::Read(filled)
            },
            ReadOutcome::Bytes(n) => if n == 0 {
                next == Filling::Closed(filled)
            } else if total - filled - n == 0 {
                next is Done
            } else {
                next matches Filling::Read(now) && now - filled == n
            },
        },
{
}

/// A file belongs to a slot where its name starts with that of the satellite
/// and has the slot's date and time in it.
pub proof fn files_belong_to_the_slot_in_their_name(
    name: &str,
    slot: Slot,
    format: &str,
    stamp: String,
    belongs: bool,
)
    requires
        call_ensures(belongs_to_slot, (name, slot), belongs),
        format@ == "_%Y%m%d_%H%M_"@,
        call_ensures(Slot::format, (slot, format), stamp),
    ensures
        belongs <==> fetching::holds(name@, stamp@) && exists|after: Seq<char>|
            name@ == #[trigger] ("HS_H09"@ + after),
{
    fetching::lemma_holds(name@, stamp@);
    if text::stands_at(name@, "HS_H09"@, 0) {
        let after = name@.subrange("HS_H09"@.len() as int, name@.len() as int);
        assert(name@ =~= "HS_H09"@ + after);
    }
    if exists|after: Seq<char>| name@ == #[trigger] ("HS_H09"@ + after) {
        let after = choose|after: Seq<char>| name@ == #[trigger] ("HS_H09"@ + after);
        assert(name@.subrange(0, "HS_H09"@.len() as int) =~= "HS_H09"@);
        assert(text::stands_at(name@, "HS_H09"@, 0));
    }
}

/// A compressed file is decoded as what it was before it was compressed.
pub proof fn compressed_files_decode_as_plain_ones<B: AhiBand>(
    compressed: &[u8],
    raw: &[u8],
    band: B,
    segment: u8,
    result: Result<Segment, SegmentError>,
    plain: Result<Segment, SegmentError>,
)
    requires
        call_ensures(decode_segment::<B>, (compressed, band, segment), result),
        call_ensures(decode_raw::<B>, (raw, band, segment), plain),
    ensures
        fetch::decompressed(compressed@) is None <==> result is Err && result->Err_0 is Decompress,
        fetch::decompressed(compressed@) == Some(raw@) ==> {
            &&& result is Ok <==> plain is Ok
            &&& result is Ok ==> result->Ok_0@ == plain->Ok_0@
            &&& result is Err && result->Err_0 is Parse <==> plain is Err && plain->Err_0 is Parse
        },
{
}

} // verus!
