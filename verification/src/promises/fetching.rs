//! Complete scenes, the names of their files, and their download.

use vstd::prelude::*;

use crate::band::{AhiBand, Band, IrBand};
use crate::calendar;
use crate::calendar::Slot;
use crate::decimal;
use crate::fetch;
use crate::fetch::{
    after_attempt, content_length, failed_attempt, find_latest_scene, plan_download, range_header,
    range_response, scene_is_complete, AfterAttempt, Attempt, DownloadPlan,
};
use crate::naming;
use crate::naming::{belongs_to_slot, file_name, listing_prefix, object_url, BUCKET_URL};
use crate::promises::numbers;
use crate::text;

verus! {

// ---------------------------------------------------------------------------
// Complete scenes
// ---------------------------------------------------------------------------

/// Whether a listing holds a name somewhere.
pub open spec fn holds(listing: Seq<char>, name: Seq<char>) -> bool {
    exists|before: Seq<char>, after: Seq<char>| listing == #[trigger] (before + name + after)
}

/// Whether a listing holds the name of a segment's file.
pub open spec fn holds_file<B: AhiBand>(
    listing: Seq<char>,
    slot: Slot,
    band: B,
    segment: u8,
) -> bool {
    forall|name: String|
        #[trigger] call_ensures(file_name::<B>, (slot, band, segment), name) ==> holds(
            listing,
            name@,
        )
}

/// Whether a listing does not hold the name of a segment's file.
pub open spec fn lacks_file<B: AhiBand>(
    listing: Seq<char>,
    slot: Slot,
    band: B,
    segment: u8,
) -> bool {
    forall|name: String|
        #[trigger] call_ensures(file_name::<B>, (slot, band, segment), name) ==> !holds(
            listing,
            name@,
        )
}

/// Whether a visible band is one that a scene must have: the four of every
/// run, and those asked for beside them.
pub open spec fn is_wanted(band: Band, extra: Seq<Band>) -> bool {
    band == Band::B01 || band == Band::B02 || band == Band::B03 || band == Band::B04
        || extra.contains(band)
}

pub(crate) proof fn lemma_holds(listing: Seq<char>, name: Seq<char>)
    ensures
        text::has_piece(listing, name) <==> holds(listing, name),
{
    if text::has_piece(listing, name) {
        let at = choose|at: int| #[trigger] text::stands_at(listing, name, at);
        let (before, after) = (listing.take(at), listing.skip(at + name.len()));
        assert(listing =~= before + name + after);
    }
    if holds(listing, name) {
        let (before, after) = choose|before: Seq<char>, after: Seq<char>|
            listing == #[trigger] (before + name + after);
        assert(listing.subrange(before.len() as int, before.len() + name.len() as int) =~= name);
        assert(text::stands_at(listing, name, before.len() as int));
    }
}

proof fn lemma_band_listed<B: AhiBand>(listing: Seq<char>, slot: Slot, band: B)
    ensures
        fetch::band_listed(listing, slot, band) ==> forall|segment: u8|
            1 <= segment <= 10 ==> #[trigger] holds_file(listing, slot, band, segment),
        !fetch::band_listed(listing, slot, band) ==> exists|segment: u8|
            1 <= segment <= 10 && #[trigger] lacks_file(listing, slot, band, segment),
{
    assert forall|segment: u8| true implies text::has_piece(
        listing,
        #[trigger] naming::segment_file(slot, band, segment),
    ) <==> holds(listing, naming::segment_file(slot, band, segment)) by {
        lemma_holds(listing, naming::segment_file(slot, band, segment));
    }
    if fetch::band_listed(listing, slot, band) {
        assert forall|segment: u8| 1 <= segment <= 10 implies #[trigger] holds_file(
            listing,
            slot,
            band,
            segment,
        ) by {
            assert(text::has_piece(listing, naming::segment_file(slot, band, segment)));
        }
    } else {
        let segment = choose|segment: u8|
            1 <= segment <= 10 && !text::has_piece(
                listing,
                #[trigger] naming::segment_file(slot, band, segment),
            );
        assert(lacks_file(listing, slot, band, segment));
    }
}

/// A scene is complete exactly where the listing holds the names of all ten
/// files of each of its bands: where it is reported as complete none of them
/// is missing, and where it is not one of them is.
pub proof fn complete_scenes_lack_no_file(
    listing: &str,
    slot: Slot,
    extra: &[Band],
    thermal: &[IrBand],
    complete: bool,
)
    requires
        call_ensures(scene_is_complete, (listing, slot, extra, thermal), complete),
    ensures
        complete ==> forall|band: Band, segment: u8|
            is_wanted(band, extra@) && 1 <= segment <= 10 ==> #[trigger] holds_file(
                listing@,
                slot,
                band,
                segment,
            ),
        complete ==> forall|band: IrBand, segment: u8|
            thermal@.contains(band) && 1 <= segment <= 10 ==> #[trigger] holds_file(
                listing@,
                slot,
                band,
                segment,
            ),
        !complete ==> (exists|band: Band, segment: u8|
            is_wanted(band, extra@) && 1 <= segment <= 10 && #[trigger] lacks_file(
                listing@,
                slot,
                band,
                segment,
            )) || (exists|band: IrBand, segment: u8|
            thermal@.contains(band) && 1 <= segment <= 10 && #[trigger] lacks_file(
                listing@,
                slot,
                band,
                segment,
            )),
{
    let core = seq![Band::B01, Band::B02, Band::B03, Band::B04];
    assert(core[0] == Band::B01 && core[1] == Band::B02 && core[2] == Band::B03 && core[3]
        == Band::B04);
    if complete {
        assert forall|band: Band, segment: u8|
            is_wanted(band, extra@) && 1 <= segment <= 10 implies #[trigger] holds_file(
            listing@,
            slot,
            band,
            segment,
        ) by {
            lemma_band_listed(listing@, slot, band);
            if extra@.contains(band) {
                let i = choose|i: int| 0 <= i < extra@.len() && extra@[i] == band;
                assert(fetch::band_listed(listing@, slot, extra@[i]));
            } else {
                assert(fetch::band_listed(listing@, slot, core[0]) && fetch::band_listed(
                    listing@,
                    slot,
                    core[1],
                ) && fetch::band_listed(listing@, slot, core[2]) && fetch::band_listed(
                    listing@,
                    slot,
                    core[3],
                ));
            }
        }
        assert forall|band: IrBand, segment: u8|
            thermal@.contains(band) && 1 <= segment <= 10 implies #[trigger] holds_file(
            listing@,
            slot,
            band,
            segment,
        ) by {
            lemma_band_listed(listing@, slot, band);
            let i = choose|i: int| 0 <= i < thermal@.len() && thermal@[i] == band;
            assert(fetch::band_listed(listing@, slot, thermal@[i]));
        }
    } else if !fetch::bands_listed(listing@, slot, core) {
        let i = choose|i: int|
            0 <= i < core.len() && !fetch::band_listed(listing@, slot, #[trigger] core[i]);
        lemma_band_listed(listing@, slot, core[i]);
        assert(is_wanted(core[i], extra@));
    } else if !fetch::bands_listed(listing@, slot, extra@) {
        let i = choose|i: int|
            0 <= i < extra@.len() && !fetch::band_listed(listing@, slot, #[trigger] extra@[i]);
        lemma_band_listed(listing@, slot, extra@[i]);
        assert(extra@.contains(extra@[i]));
    } else {
        let i = choose|i: int|
            0 <= i < thermal@.len() && !fetch::band_listed(listing@, slot, #[trigger] thermal@[i]);
        lemma_band_listed(listing@, slot, thermal@[i]);
        assert(thermal@.contains(thermal@[i]));
    }
}

// ---------------------------------------------------------------------------
// Names
// ---------------------------------------------------------------------------

/// The parts of a file name that stand at a fixed distance from its end.
proof fn lemma_name_parts(secs: int, code: Seq<char>, resolution: Seq<char>, segment: u8)
    requires
        code.len() == 3,
        resolution.len() == 3,
        segment < 100,
    ensures
        ({
            let name = naming::file_text(secs, code, resolution, segment);
            let n = name.len() as int;
            &&& n >= 26
            &&& name.subrange(n - 12, n - 10) == decimal::zero_padded(segment as nat, 2)
            &&& name.subrange(n - 26, n - 23) == code
        }),
{
    reveal_strlit("_FLDK_");
    reveal_strlit("_S");
    reveal_strlit(".DAT.bz2");
    decimal::two_digits(segment as nat);
    decimal::two_digits(10);
    let name = naming::file_text(secs, code, resolution, segment);
    let n = name.len() as int;
    let number = decimal::zero_padded(segment as nat, 2);
    assert(name.subrange(n - 12, n - 10) =~= number);
    assert(name.subrange(n - 26, n - 23) =~= code);
}

proof fn lemma_ir_code(band: IrBand)
    requires
        7 <= band@ <= 16,
    ensures
        band.band_code().len() == 3,
        band.band_code().subrange(1, 3) == decimal::zero_padded(band@ as nat, 2),
{
    reveal_strlit("B");
    decimal::two_digits(band@ as nat);
    assert(band.band_code().subrange(1, 3) =~= decimal::zero_padded(band@ as nat, 2));
}

proof fn lemma_codes_differ(a: Band, b: Band)
    requires
        a.band_code() == b.band_code(),
    ensures
        a == b,
{
    reveal_strlit("B01");
    reveal_strlit("B02");
    reveal_strlit("B03");
    reveal_strlit("B04");
    reveal_strlit("B05");
    assert("B01"@[2] == '1' && "B02"@[2] == '2' && "B03"@[2] == '3' && "B04"@[2] == '4'
        && "B05"@[2] == '5');
    assert(a.band_code() == a.code_text() && b.band_code() == b.code_text());
    assert(a.code_text()[2] == b.code_text()[2]);
}

proof fn lemma_kinds_differ(a: Band, b: IrBand)
    requires
        7 <= b@ <= 16,
    ensures
        a.band_code() != b.band_code(),
{
    reveal_strlit("B01");
    reveal_strlit("B02");
    reveal_strlit("B03");
    reveal_strlit("B04");
    reveal_strlit("B05");
    lemma_ir_code(b);
    let code = b.band_code();
    let digits = code.subrange(1, 3);
    decimal::padded_numeral_reads_back(b@ as nat, 2);
    if a.band_code() == code {
        assert(digits[0] == '0');
        assert(digits[1] == code[2]);
        reveal_with_fuel(decimal::digits_value, 3);
        assert(digits.drop_last().drop_last() =~= Seq::empty());
        assert(decimal::digits_value(digits) == digits[1] as int - 48);
    }
}

/// No two segments of visible bands have files of the same name.
pub proof fn visible_files_have_their_own_names(
    slot: Slot,
    band: Band,
    segment: u8,
    name: String,
    other_slot: Slot,
    other_band: Band,
    other_segment: u8,
    other_name: String,
)
    requires
        call_ensures(file_name::<Band>, (slot, band, segment), name),
        call_ensures(file_name::<Band>, (other_slot, other_band, other_segment), other_name),
        calendar::is_slot(slot@),
        calendar::is_slot(other_slot@),
        segment < 100,
        other_segment < 100,
        name@ == other_name@,
    ensures
        slot@ == other_slot@,
        band == other_band,
        segment == other_segment,
{
    naming::lemma_band_texts(band);
    naming::lemma_band_texts(other_band);
    lemma_same_name(
        slot@,
        band.band_code(),
        band.resolution(),
        segment,
        other_slot@,
        other_band.band_code(),
        other_band.resolution(),
        other_segment,
    );
    lemma_codes_differ(band, other_band);
}

/// Files of the same name have the same code and number and are of the same
/// minute.
proof fn lemma_same_name(
    secs: int,
    code: Seq<char>,
    resolution: Seq<char>,
    segment: u8,
    other_secs: int,
    other_code: Seq<char>,
    other_resolution: Seq<char>,
    other_segment: u8,
)
    requires
        naming::no_bar(code),
        naming::no_bar(resolution),
        code.len() == 3,
        resolution.len() == 3,
        other_code.len() == 3,
        other_resolution.len() == 3,
        segment < 100,
        other_segment < 100,
        naming::file_text(secs, code, resolution, segment) == naming::file_text(
            other_secs,
            other_code,
            other_resolution,
            other_segment,
        ),
    ensures
        code == other_code,
        segment == other_segment,
        secs / 60 == other_secs / 60,
{
    assert(code == other_code && segment == other_segment) by {
        lemma_name_parts(secs, code, resolution, segment);
        lemma_name_parts(other_secs, other_code, other_resolution, other_segment);
        decimal::padded_numerals_differ(segment as nat, other_segment as nat, 2);
    }
    assert(secs / 60 == other_secs / 60) by {
        naming::own_files_are_recognized(
            other_secs,
            other_code,
            other_resolution,
            other_segment,
        );
        naming::cached_files_are_told_apart(secs, code, resolution, segment, other_secs);
    }
}

/// No two segments of thermal bands have files of the same name.
pub proof fn thermal_files_have_their_own_names(
    slot: Slot,
    band: IrBand,
    segment: u8,
    name: String,
    other_slot: Slot,
    other_band: IrBand,
    other_segment: u8,
    other_name: String,
)
    requires
        call_ensures(file_name::<IrBand>, (slot, band, segment), name),
        call_ensures(file_name::<IrBand>, (other_slot, other_band, other_segment), other_name),
        calendar::is_slot(slot@),
        calendar::is_slot(other_slot@),
        7 <= band@ <= 16,
        7 <= other_band@ <= 16,
        segment < 100,
        other_segment < 100,
        name@ == other_name@,
    ensures
        slot@ == other_slot@,
        band@ == other_band@,
        segment == other_segment,
{
    naming::lemma_ir_band_texts(band);
    naming::lemma_ir_band_texts(other_band);
    lemma_ir_code(band);
    lemma_ir_code(other_band);
    lemma_same_name(
        slot@,
        band.band_code(),
        band.resolution(),
        segment,
        other_slot@,
        other_band.band_code(),
        other_band.resolution(),
        other_segment,
    );
    decimal::padded_numerals_differ(band@ as nat, other_band@ as nat, 2);
}

/// A file of a visible band and one of a thermal band have different names.
pub proof fn visible_and_thermal_names_differ(
    slot: Slot,
    band: Band,
    segment: u8,
    name: String,
    other_slot: Slot,
    other_band: IrBand,
    other_segment: u8,
    other_name: String,
)
    requires
        call_ensures(file_name::<Band>, (slot, band, segment), name),
        call_ensures(file_name::<IrBand>, (other_slot, other_band, other_segment), other_name),
        7 <= other_band@ <= 16,
        segment < 100,
        other_segment < 100,
    ensures
        name@ != other_name@,
{
    naming::lemma_band_texts(band);
    naming::lemma_ir_band_texts(other_band);
    lemma_ir_code(other_band);
    lemma_kinds_differ(band, other_band);
    if name@ == other_name@ {
        lemma_same_name(
            slot@,
            band.band_code(),
            band.resolution(),
            segment,
            other_slot@,
            other_band.band_code(),
            other_band.resolution(),
            other_segment,
        );
    }
}

/// A file is fetched from the bucket, under the prefix that is listed for its
/// slot and by its name.
pub proof fn files_stand_under_the_listed_prefix<B: AhiBand>(
    slot: Slot,
    band: B,
    segment: u8,
    url: String,
    prefix: String,
    name: String,
)
    requires
        call_ensures(object_url::<B>, (slot, band, segment), url),
        call_ensures(listing_prefix, (slot,), prefix),
        call_ensures(file_name::<B>, (slot, band, segment), name),
    ensures
        url@ == BUCKET_URL@ + "/"@ + prefix@ + name@,
{
}

/// Of the cached files those of a slot, and no others, are known as its own.
pub proof fn slots_know_their_own_files(
    slot: Slot,
    band: Band,
    thermal: IrBand,
    segment: u8,
    name: String,
    thermal_name: String,
    other: Slot,
    text: &str,
    belongs: bool,
)
    requires
        call_ensures(file_name::<Band>, (slot, band, segment), name),
        call_ensures(file_name::<IrBand>, (slot, thermal, segment), thermal_name),
        calendar::is_slot(slot@),
        calendar::is_slot(other@),
        text@ == name@ || text@ == thermal_name@,
        call_ensures(belongs_to_slot, (text, other), belongs),
    ensures
        belongs <==> slot@ == other@,
{
    naming::band_files_are_told_apart(slot, other, band, thermal, segment);
}

// ---------------------------------------------------------------------------
// The latest scene
// ---------------------------------------------------------------------------

/// The scene that is found is the newest complete one of the last six hours;
/// where none is found none of theirs is complete.
pub proof fn the_newest_complete_scene_is_found<E, P: Fn(Slot) -> Result<bool, E>>(
    newest: Slot,
    probe: P,
    complete: spec_fn(int) -> bool,
    found: Result<Option<Slot>, E>,
)
    requires
        call_ensures(find_latest_scene::<E, P>, (newest, probe), found),
        forall|slot: Slot, answer: Result<bool, E>|
            #[trigger] call_ensures(probe, (slot,), answer) ==> answer == Ok::<bool, E>(
                complete(slot@),
            ),
    ensures
        found is Ok,
        found matches Ok(Some(slot)) ==> {
            &&& complete(slot@)
            &&& newest@ - 21_600 < slot@ <= newest@
            &&& (newest@ - slot@) % 600 == 0
            &&& forall|secs: int|
                slot@ < secs <= newest@ && (newest@ - secs) % 600 == 0 ==> !#[trigger] complete(secs)
        },
        found matches Ok(None) ==> forall|secs: int|
            newest@ - 21_600 < secs <= newest@ && (newest@ - secs) % 600 == 0
                ==> !#[trigger] complete(secs),
{
    let missed = choose|missed: Seq<Slot>|
        {
            &&& #[trigger] fetch::all_missed(newest, probe, missed)
            &&& match found {
                Ok(Some(slot)) => missed.len() < 36 && slot@ == newest@ - 600 * missed.len()
                    && call_ensures(probe, (slot,), Ok(true)),
                Ok(None) => missed.len() == 36,
                Err(e) => missed.len() < 36 && fetch::probe_failed(
                    newest@ - 600 * missed.len(),
                    probe,
                    e,
                ),
            }
        };
    assert forall|secs: int|
        newest@ - 600 * missed.len() < secs <= newest@ && (newest@ - secs) % 600
            == 0 implies !#[trigger] complete(secs) by {
        let i = (newest@ - secs) / 600;
        assert(0 <= i < missed.len() && secs == newest@ - 600 * i);
        assert(missed[i]@ == secs && call_ensures(probe, (missed[i],), Ok(false)));
    }
}

// ---------------------------------------------------------------------------
// Downloads
// ---------------------------------------------------------------------------

/// A file of 8 MiB or more is fetched in four pieces that follow each other
/// from its first byte to its last, of the same size but for the last, which
/// is up to three bytes smaller; a smaller file at once.
pub proof fn pieces_make_the_file(length: u64, plan: DownloadPlan)
    requires
        call_ensures(plan_download, (length,), plan),
    ensures
        plan is Whole <==> length < 8 * 1024 * 1024,
        plan matches DownloadPlan::Ranges(ranges) ==> {
            &&& ranges@.len() == 4
            &&& ranges@[0].0 == 0
            &&& ranges@[0].1 == ranges@[1].1
            &&& ranges@[1].1 == ranges@[2].1
            &&& ranges@[2].1 - 3 <= ranges@[3].1 <= ranges@[2].1
            &&& forall|i: int|
                0 <= i < ranges@.len() ==> (#[trigger] ranges@[i]).1 > 0 && ranges@[i].0
                    + ranges@[i].1 == if i + 1 < ranges@.len() {
                    ranges@[i + 1].0
                } else {
                    length
                }
            &&& forall|i: int, j: int|
                0 <= i < j < ranges@.len() ==> (#[trigger] ranges@[j]).1 <= (
                #[trigger] ranges@[i]).1
        },
{
    if let DownloadPlan::Ranges(ranges) = plan {
        let step = fetch::range_length(length);
        let n = ranges@.len() as int;
        assert forall|i: int| 0 <= i < n implies (#[trigger] ranges@[i]).1 > 0 && ranges@[i].0
            + ranges@[i].1 == (if i + 1 < n {
            ranges@[i + 1].0
        } else {
            length
        }) by {
            fetch::ranges_stay_within(ranges@, length as int, step, i);
            assert(step * (i + 1) == step * i + step) by (nonlinear_arith);
            if i + 1 < n {
                assert(ranges@[i + 1].0 == step * (i + 1));
            }
        }
        assert(step * 0 == 0) by (nonlinear_arith);
        assert(step * n == step * (n - 1) + step) by (nonlinear_arith);
        if n <= 3 {
            assert(step * n <= 3 * step) by (nonlinear_arith)
                requires
                    n <= 3,
                    step >= 0,
            ;
        }
        assert(n == 4);
        assert(step * 3 == 3 * step) by (nonlinear_arith);
    }
}

/// The header of a request asks for so many bytes, from the given one on:
/// from the number of the first one to the number of the last one.
pub proof fn headers_ask_for_the_piece(offset: u64, length: u64, header: String)
    requires
        call_ensures(range_header, (offset, length), header),
        length > 0,
        offset + length - 1 <= u64::MAX,
    ensures
        exists|first: Seq<char>, last: Seq<char>|
            {
                &&& header@ == #[trigger] ("bytes="@ + first + "-"@ + last)
                &&& numbers::is_numeral(first)
                &&& numbers::is_numeral(last)
                &&& numbers::worth(first) == offset
                &&& numbers::worth(last) + 1 - numbers::worth(first) == length
            },
{
    let (first, last) = (
        decimal::numeral(offset as nat),
        decimal::numeral((offset + length - 1) as nat),
    );
    numbers::lemma_numeral(offset as nat);
    numbers::lemma_numeral((offset + length - 1) as nat);
    assert(header@ == "bytes="@ + first + "-"@ + last);
}

/// A length is known exactly where the response gives a numeral of 64 bits,
/// perhaps behind a plus sign, and it is what the numeral is worth.
pub proof fn lengths_are_those_given(header: Option<&str>, length: Option<u64>)
    requires
        call_ensures(content_length, (header,), length),
    ensures
        header is None ==> length is None,
        header matches Some(value) ==> ({
            let digits = if value@.len() > 0 && value@[0] == '+' {
                value@.subrange(1, value@.len() as int)
            } else {
                value@
            };
            length == if numbers::is_numeral(digits) && numbers::worth(digits) <= u64::MAX {
                Some(numbers::worth(digits) as u64)
            } else {
                None
            }
        }),
{
    if let Some(value) = header {
        let digits = if value@.len() > 0 && value@[0] == '+' {
            value@.subrange(1, value@.len() as int)
        } else {
            value@
        };
        numbers::lemma_worth(digits);
        assert(value@.len() == 0 || value@.skip(1) =~= value@.subrange(1, value@.len() as int));
    }
}

/// Only the statuses of a missing object are taken for one, and only partial
/// content is taken for a piece.
pub proof fn statuses_say_what_happened(
    status: Option<u16>,
    attempt: Attempt,
    code: u16,
    piece: Attempt,
)
    requires
        call_ensures(failed_attempt, (status,), attempt),
        call_ensures(range_response, (code,), piece),
    ensures
        attempt is Missing <==> status == Some(403u16) || status == Some(404u16),
        attempt is Missing || attempt is Failed,
        piece is Succeeded <==> code == 206,
        piece is Succeeded || piece is Failed,
{
}

/// A download is tried three times: after a failure it is tried again, four
/// seconds later and then eight, and after the third it is given up. What
/// succeeded is accepted and what is missing reported, at once.
pub proof fn downloads_are_tried_three_times(attempt: u32, outcome: Attempt, next: AfterAttempt)
    requires
        call_ensures(after_attempt, (attempt, outcome), next),
    ensures
        outcome is Succeeded <==> next is Accept,
        outcome is Missing <==> next is ReportMissing,
        outcome is Failed && attempt == 0 ==> next == (AfterAttempt::Retry {
            attempt: 1,
            wait_secs: 4,
        }),
        outcome is Failed && attempt == 1 ==> next == (AfterAttempt::Retry {
            attempt: 2,
            wait_secs: 8,
        }),
        outcome is Failed && attempt >= 2 ==> next is GiveUp,
{
    fetch::waits_double(1);
}

} // verus!
