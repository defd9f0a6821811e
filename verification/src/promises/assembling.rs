//! Segments on the grid of the full disk.

use vstd::prelude::*;

use crate::band::Band;
use crate::compose;
use crate::compose::{
    assemble_band, assemble_counts, double_counts, halve_counts, segment_order, AssembleError,
    BandImage,
};
use crate::grid;
use crate::hsd::{Calibration, Projection, Segment};

verus! {

// ---------------------------------------------------------------------------
// Halving and doubling
// ---------------------------------------------------------------------------

/// What a count weighs in an average: nothing where it is a sentinel.
pub open spec fn weight(cal: Calibration, count: u16) -> int {
    if count == cal.error_count || count == cal.outside_scan_count {
        0
    } else {
        1
    }
}

/// Whether a count is the average of four, rounded down: of those that are
/// no sentinels; and outside the scan where all of them are.
pub open spec fn is_average(
    cal: Calibration,
    a: u16,
    b: u16,
    c: u16,
    d: u16,
    average: u16,
) -> bool {
    let number = weight(cal, a) + weight(cal, b) + weight(cal, c) + weight(cal, d);
    let total = weight(cal, a) * a + weight(cal, b) * b + weight(cal, c) * c + weight(cal, d) * d;
    if number == 0 {
        average == cal.outside_scan_count
    } else {
        number * average <= total < number * average + number
    }
}

/// The count of a grid at a column and a row.
pub open spec fn at(counts: Seq<u16>, width: int, x: int, y: int) -> u16 {
    counts[y * width + x]
}

/// Whether a count is the average of a block of two by two.
pub open spec fn is_block_average(
    cal: Calibration,
    counts: Seq<u16>,
    width: int,
    x: int,
    y: int,
    average: u16,
) -> bool {
    is_average(
        cal,
        at(counts, width, 2 * x, 2 * y),
        at(counts, width, 2 * x + 1, 2 * y),
        at(counts, width, 2 * x, 2 * y + 1),
        at(counts, width, 2 * x + 1, 2 * y + 1),
        average,
    )
}

proof fn lemma_average(cal: Calibration, a: u16, b: u16, c: u16, d: u16)
    ensures
        is_average(cal, a, b, c, d, compose::block_average(cal, seq![a, b, c, d])),
{
    let four = seq![a, b, c, d];
    let three = seq![a, b, c];
    let two = seq![a, b];
    let one = seq![a];
    assert(four.drop_last() =~= three && three.drop_last() =~= two && two.drop_last() =~= one
        && one.drop_last() =~= Seq::empty());
    reveal_with_fuel(compose::valid_total, 5);
    reveal_with_fuel(compose::valid_number, 5);
    let number = weight(cal, a) + weight(cal, b) + weight(cal, c) + weight(cal, d);
    let total = weight(cal, a) * a + weight(cal, b) * b + weight(cal, c) * c + weight(cal, d) * d;
    assert(compose::valid_number(cal, four) == number);
    assert(compose::valid_total(cal, four) == total);
    if number > 0 {
        let q = total / number;
        assert(number * q <= total < number * q + number && 0 <= q <= 65535) by (nonlinear_arith)
            requires
                q == total / number,
                number > 0,
                0 <= total <= 65535 * number,
        ;
        assert(compose::block_average(cal, four) == q);
    }
}

proof fn lemma_halved(cal: Calibration, counts: Seq<u16>, width: int, lines: int, x: int, y: int)
    requires
        0 <= x < width / 2,
        0 <= y < lines / 2,
    ensures
        compose::halved(counts, width, lines, cal).len() == (lines / 2) * (width / 2),
        0 <= y * (width / 2) + x < (lines / 2) * (width / 2),
        is_block_average(
            cal,
            counts,
            width,
            x,
            y,
            compose::halved(counts, width, lines, cal)[y * (width / 2) + x],
        ),
{
    grid::cell_has_place(width / 2, lines / 2, y, x);
    lemma_average(
        cal,
        at(counts, width, 2 * x, 2 * y),
        at(counts, width, 2 * x + 1, 2 * y),
        at(counts, width, 2 * x, 2 * y + 1),
        at(counts, width, 2 * x + 1, 2 * y + 1),
    );
}

proof fn lemma_doubled(counts: Seq<u16>, width: int, lines: int, x: int, y: int)
    requires
        0 < width,
        counts.len() as int / width == lines,
        0 <= x < 2 * width,
        0 <= y < 2 * lines,
    ensures
        compose::doubled(counts, width).len() == (2 * lines) * (2 * width),
        0 <= y * (2 * width) + x < (2 * lines) * (2 * width),
        compose::doubled(counts, width)[y * (2 * width) + x] == at(counts, width, x / 2, y / 2),
{
    grid::cell_has_place(2 * width, 2 * lines, y, x);
}

/// Each count of a halved grid is the average of its own block of two by two.
pub proof fn halved_counts_are_averages(
    counts: &[u16],
    width: usize,
    lines: usize,
    cal: &Calibration,
    out: Vec<u16>,
    x: int,
    y: int,
)
    requires
        call_ensures(halve_counts, (counts, width, lines, cal), out),
        0 <= x < width as int / 2,
        0 <= y < lines as int / 2,
    ensures
        out@.len() == (lines as int / 2) * (width as int / 2),
        is_block_average(
            *cal,
            counts@,
            width as int,
            x,
            y,
            at(out@, width as int / 2, x, y),
        ),
{
    lemma_halved(*cal, counts@, width as int, lines as int, x, y);
}

/// Each count of a doubled grid is the one that it is a quarter of.
pub proof fn doubled_counts_repeat(
    counts: &[u16],
    width: usize,
    out: Vec<u16>,
    x: int,
    y: int,
)
    requires
        call_ensures(double_counts, (counts, width), out),
        0 < width,
        0 <= x < 2 * width,
        0 <= y < 2 * (counts@.len() as int / width as int),
    ensures
        out@.len() == 4 * ((counts@.len() as int / width as int) * width),
        at(out@, 2 * width as int, x, y) == at(counts@, width as int, x / 2, y / 2),
{
    let lines = counts@.len() as int / width as int;
    lemma_doubled(counts@, width as int, lines, x, y);
    assert((2 * lines) * (2 * width) == 4 * (lines * width)) by (nonlinear_arith);
}

// ---------------------------------------------------------------------------
// Order
// ---------------------------------------------------------------------------

/// Whether one segment comes before another: by its number, and of two with
/// the same number the one given first.
pub open spec fn precedes(segments: Seq<Segment>, i: int, j: int) -> bool {
    segments[i].segment_number < segments[j].segment_number || segments[i].segment_number
        == segments[j].segment_number && i < j
}

/// The places of the first `m` segments that have a number.
spec fn spots(segments: Seq<Segment>, number: int, m: nat) -> Seq<int>
    decreases m,
{
    if m == 0 {
        Seq::empty()
    } else if segments[m - 1].segment_number == number {
        spots(segments, number, (m - 1) as nat).push(m - 1)
    } else {
        spots(segments, number, (m - 1) as nat)
    }
}

/// The places of the segments whose number is below a limit, by number.
spec fn order(segments: Seq<Segment>, limit: nat) -> Seq<int>
    decreases limit,
{
    if limit == 0 {
        Seq::empty()
    } else {
        order(segments, (limit - 1) as nat) + spots(segments, limit - 1, segments.len())
    }
}

proof fn lemma_spots(segments: Seq<Segment>, number: int, m: nat)
    requires
        m <= segments.len(),
    ensures
        segments.take(m as int).filter(|segment: Segment| segment.segment_number == number)
            == spots(segments, number, m).map_values(|i: int| segments[i]),
        forall|k: int|
            0 <= k < spots(segments, number, m).len() ==> 0 <= #[trigger] spots(
                segments,
                number,
                m,
            )[k] < m && segments[spots(segments, number, m)[k]].segment_number == number,
        forall|k: int, l: int|
            0 <= k < l < spots(segments, number, m).len() ==> #[trigger] spots(
                segments,
                number,
                m,
            )[k] < #[trigger] spots(segments, number, m)[l],
        forall|i: int|
            0 <= i < m && (#[trigger] segments[i]).segment_number == number ==> spots(
                segments,
                number,
                m,
            ).contains(i),
    decreases m,
{
    let keep = |segment: Segment| segment.segment_number == number;
    let pick = |i: int| segments[i];
    let now = spots(segments, number, m);
    if m == 0 {
        reveal(Seq::filter);
        assert(segments.take(0).filter(keep) =~= now.map_values(pick));
    } else {
        let before = spots(segments, number, (m - 1) as nat);
        lemma_spots(segments, number, (m - 1) as nat);
        compose::lemma_filter_step(segments, m - 1, keep);
        if segments[m - 1].segment_number == number {
            assert(now.map_values(pick) =~= before.map_values(pick).push(segments[m - 1]));
            assert(now[now.len() - 1] == m - 1);
            assert forall|i: int|
                0 <= i < m && (#[trigger] segments[i]).segment_number == number implies now.contains(
                i,
            ) by {
                if i < m - 1 {
                    let k = choose|k: int| 0 <= k < before.len() && before[k] == i;
                    assert(now[k] == i);
                }
            }
        }
    }
}

/// Whether places are those of all segments in their order.
spec fn is_order(segments: Seq<Segment>, limit: int, places: Seq<int>) -> bool {
    &&& forall|k: int|
        0 <= k < places.len() ==> 0 <= #[trigger] places[k] < segments.len()
            && segments[places[k]].segment_number < limit
    &&& forall|k: int, l: int|
        0 <= k < l < places.len() ==> precedes(
            segments,
            #[trigger] places[k],
            #[trigger] places[l],
        )
    &&& forall|i: int|
        0 <= i < segments.len() && (#[trigger] segments[i]).segment_number < limit
            ==> places.contains(i)
}

proof fn lemma_order(segments: Seq<Segment>, limit: nat)
    ensures
        compose::ordered_below(segments, limit) == order(segments, limit).map_values(
            |i: int| segments[i],
        ),
        is_order(segments, limit as int, order(segments, limit)),
    decreases limit,
{
    let pick = |i: int| segments[i];
    let now = order(segments, limit);
    if limit == 0 {
        assert(compose::ordered_below(segments, 0) =~= now.map_values(pick));
    } else {
        let before = order(segments, (limit - 1) as nat);
        let added = spots(segments, limit - 1, segments.len());
        lemma_order(segments, (limit - 1) as nat);
        lemma_spots(segments, limit - 1, segments.len());
        assert(segments.take(segments.len() as int) =~= segments);
        assert(now.map_values(pick) =~= before.map_values(pick) + added.map_values(pick));
        assert forall|k: int, l: int| 0 <= k < l < now.len() implies precedes(
            segments,
            #[trigger] now[k],
            #[trigger] now[l],
        ) by {
            if l < before.len() {
                assert(now[k] == before[k] && now[l] == before[l]);
            } else if k < before.len() {
                assert(now[k] == before[k] && now[l] == added[l - before.len()]);
            } else {
                assert(now[k] == added[k - before.len()] && now[l] == added[l - before.len()]);
            }
        }
        assert forall|i: int|
            0 <= i < segments.len() && (#[trigger] segments[i]).segment_number
                < limit implies now.contains(i) by {
            if segments[i].segment_number < limit - 1 {
                let k = choose|k: int| 0 <= k < before.len() && before[k] == i;
                assert(now[k] == i);
            } else {
                let k = choose|k: int| 0 <= k < added.len() && added[k] == i;
                assert(now[before.len() + k] == i);
            }
        }
    }
}

proof fn lemma_by_number(segments: Seq<Segment>) -> (places: Seq<int>)
    ensures
        compose::by_number(segments) == places.map_values(|i: int| segments[i]),
        forall|k: int| 0 <= k < places.len() ==> 0 <= #[trigger] places[k] < segments.len(),
        forall|k: int, l: int|
            0 <= k < l < places.len() ==> precedes(
                segments,
                #[trigger] places[k],
                #[trigger] places[l],
            ),
        forall|i: int| 0 <= i < segments.len() ==> #[trigger] places.contains(i),
{
    let places = order(segments, 0x100);
    lemma_order(segments, 0x100);
    assert forall|i: int| 0 <= i < segments.len() implies #[trigger] places.contains(i) by {
        assert(segments[i].segment_number < 0x100);
    }
    places
}

/// Whether places are those of all segments, each once, in their order.
pub open spec fn are_ordered(segments: Seq<Segment>, places: Seq<int>) -> bool {
    &&& places.len() == segments.len()
    &&& forall|k: int| 0 <= k < places.len() ==> 0 <= #[trigger] places[k] < segments.len()
    &&& forall|k: int, l: int|
        0 <= k < l < places.len() ==> precedes(
            segments,
            #[trigger] places[k],
            #[trigger] places[l],
        )
}

/// Segments are put in order by their numbers, those with the same number as
/// they were given; none is left out, and none comes twice.
pub proof fn segments_are_put_in_order(segments: &[Segment], order: Vec<usize>)
    requires
        call_ensures(segment_order, (segments,), order),
    ensures
        order@.len() == segments@.len(),
        exists|places: Seq<int>|
            #[trigger] are_ordered(segments@, places) && forall|k: int|
                0 <= k < order@.len() ==> segments@[#[trigger] order@[k] as int]
                    == segments@[places[k]],
{
    let places = lemma_by_number(segments@);
    let sorted = compose::picked(segments@, order@);
    assert(sorted == compose::by_number(segments@));
    compose::ordering_keeps_segments(segments@);
    vstd::seq_lib::to_multiset_len(sorted);
    vstd::seq_lib::to_multiset_len(segments@);
    assert forall|k: int| 0 <= k < order@.len() implies segments@[#[trigger] order@[k] as int]
        == segments@[places[k]] by {
        assert(sorted[k] == segments@[order@[k] as int]);
    }
    assert(are_ordered(segments@, places));
}

// ---------------------------------------------------------------------------
// Landing
// ---------------------------------------------------------------------------

/// The row of a grid at which a segment starts.
pub open spec fn first_row(segment: Segment, width: int) -> int {
    if segment.columns == 2 * width {
        (segment.first_line - 1) / 2
    } else if segment.columns == width {
        segment.first_line - 1
    } else {
        2 * (segment.first_line - 1)
    }
}

/// How many rows of a grid a segment fills.
pub open spec fn row_number(segment: Segment, width: int) -> int {
    if segment.columns == 2 * width {
        segment.lines as int / 2
    } else if segment.columns == width {
        segment.lines as int
    } else {
        2 * segment.lines
    }
}

/// Whether a segment fits on a grid: it is as wide, twice as wide with whole
/// blocks, or half as wide; and its lines are on the grid.
pub open spec fn fits(segment: Segment, width: int) -> bool {
    &&& segment.columns == 2 * width || segment.columns == width || 2 * segment.columns == width
    &&& segment.columns == 2 * width ==> segment.first_line % 2 == 1 && segment.lines % 2 == 0
    &&& segment.first_line >= 1
    &&& first_row(segment, width) + row_number(segment, width) <= width
}

/// Whether a segment fills a row of a grid.
pub open spec fn reaches(segment: Segment, width: int, y: int) -> bool {
    first_row(segment, width) <= y < first_row(segment, width) + row_number(segment, width)
}

/// Whether a count is the one that a segment has for a pixel of a grid: its
/// own, that of the pixel it is a quarter of, or the average of its block.
pub open spec fn gives(
    cal: Calibration,
    segment: Segment,
    width: int,
    x: int,
    y: int,
    count: u16,
) -> bool {
    let line = y - first_row(segment, width);
    let columns = segment.columns as int;
    if columns == 2 * width {
        is_block_average(cal, segment.counts@, columns, x, line, count)
    } else if columns == width {
        count == at(segment.counts@, columns, x, line)
    } else {
        count == at(segment.counts@, columns, x / 2, line / 2)
    }
}

/// Whether an error says why a segment does not fit on a grid.
pub open spec fn says_why(segment: Segment, width: int, error: AssembleError) -> bool {
    match error {
        AssembleError::Misaligned { band, segment: number, first_line, lines } => {
            &&& segment.columns == 2 * width
            &&& segment.first_line % 2 == 0 || segment.lines % 2 == 1
            &&& band == segment.band_number
            &&& number == segment.segment_number
            &&& first_line == segment.first_line
            &&& lines == segment.lines
        },
        AssembleError::Width { band, columns, target_width } => {
            &&& segment.columns != 2 * width
            &&& segment.columns != width
            &&& 2 * segment.columns != width
            &&& band == segment.band_number
            &&& columns == segment.columns
            &&& target_width == width
        },
        AssembleError::OutsideDisk { band, segment: number, first_line, end_line } => {
            &&& segment.columns == 2 * width || segment.columns == width || 2 * segment.columns
                == width
            &&& segment.columns == 2 * width ==> segment.first_line % 2 == 1 && segment.lines % 2
                == 0
            &&& segment.first_line == 0 || first_row(segment, width) + row_number(segment, width)
                > width
            &&& band == segment.band_number
            &&& number == segment.segment_number
            &&& segment@.wf() ==> first_line == if segment.first_line == 0 {
                0
            } else {
                first_row(segment, width) + 1
            } && end_line == first_line + row_number(segment, width)
        },
    }
}

proof fn lemma_landing_error(cal: Calibration, width: int, segment: Segment)
    requires
        0 <= width <= usize::MAX,
    ensures
        compose::landing(cal, width, segment) is Ok <==> fits(segment, width),
        compose::landing(cal, width, segment) matches Err(error) ==> says_why(
            segment,
            width,
            error,
        ),
{
}

proof fn lemma_rows(width: int, first: int, number: int, x: int, y: int)
    requires
        0 < width,
        0 <= x < width,
    ensures
        first * width <= y * width + x < first * width + number * width <==> first <= y < first
            + number,
        (y - first) * width + x == y * width + x - first * width,
{
    assert(first * width <= y * width + x <==> first <= y) by (nonlinear_arith)
        requires
            0 < width,
            0 <= x < width,
    ;
    assert(y * width + x < first * width + number * width <==> y < first + number)
        by (nonlinear_arith)
        requires
            0 < width,
            0 <= x < width,
    ;
    assert((y - first) * width + x == y * width + x - first * width) by (nonlinear_arith);
}

/// A segment that fits fills its rows and no others, each pixel with what it
/// has for it.
proof fn lemma_landing(cal: Calibration, width: int, segment: Segment, x: int, y: int)
    requires
        0 < width <= usize::MAX,
        segment@.wf(),
        fits(segment, width),
        0 <= x < width,
        0 <= y < width,
    ensures
        compose::covers_place(cal, width, segment, y * width + x) <==> reaches(segment, width, y),
        compose::landing(cal, width, segment) matches Ok((start, rows)) && (reaches(
            segment,
            width,
            y,
        ) ==> gives(cal, segment, width, x, y, rows[y * width + x - start])),
{
    lemma_landing_error(cal, width, segment);
    let first = first_row(segment, width);
    let number = row_number(segment, width);
    let columns = segment.columns as int;
    let lines = segment.lines as int;
    lemma_rows(width, first, number, x, y);
    if let Ok((start, rows)) = compose::landing(cal, width, segment) {
        assert(start == first * width);
        if columns == 2 * width {
            assert(columns / 2 == width);
            assert((lines / 2) * (columns / 2) >= 0) by (nonlinear_arith)
                requires
                    lines >= 0,
                    columns >= 0,
            ;
            assert(rows.len() == number * width);
            if reaches(segment, width, y) {
                lemma_halved(cal, segment.counts@, columns, lines, x, y - first);
            }
        } else if columns == width {
            assert(columns * lines == number * width) by (nonlinear_arith)
                requires
                    columns == width,
                    lines == number,
            ;
            assert(rows.len() == number * width);
        } else {
            assert(segment.counts@.len() as int / columns == lines) by {
                vstd::arithmetic::div_mod::lemma_div_multiples_vanish(lines, columns);
                assert(lines * columns == columns * lines) by (nonlinear_arith);
            }
            assert((2 * lines) * (2 * columns) >= 0) by (nonlinear_arith)
                requires
                    lines >= 0,
                    columns >= 0,
            ;
            assert(rows.len() == number * width);
            if reaches(segment, width, y) {
                lemma_doubled(segment.counts@, columns, lines, x, y - first);
            }
        }
    }
}

proof fn lemma_stitched_error(cal: Calibration, width: int, segments: Seq<Segment>)
    requires
        0 <= width <= usize::MAX,
    ensures
        compose::stitched(cal, width, segments) is Ok <==> forall|k: int|
            0 <= k < segments.len() ==> fits(#[trigger] segments[k], width),
        compose::stitched(cal, width, segments) matches Err(error) ==> exists|k: int|
            {
                &&& 0 <= k < segments.len()
                &&& !fits(#[trigger] segments[k], width)
                &&& says_why(segments[k], width, error)
                &&& forall|j: int| 0 <= j < k ==> fits(#[trigger] segments[j], width)
            },
    decreases segments.len(),
{
    if segments.len() > 0 {
        let rest = segments.drop_last();
        let n = segments.len() - 1;
        lemma_stitched_error(cal, width, rest);
        lemma_landing_error(cal, width, segments.last());
        assert(forall|k: int| 0 <= k < n ==> rest[k] == #[trigger] segments[k]);
        if compose::stitched(cal, width, rest) is Err {
            let error = compose::stitched(cal, width, rest)->Err_0;
            let k = choose|k: int|
                {
                    &&& 0 <= k < rest.len()
                    &&& !fits(#[trigger] rest[k], width)
                    &&& says_why(rest[k], width, error)
                    &&& forall|j: int| 0 <= j < k ==> fits(#[trigger] rest[j], width)
                };
            assert(rest[k] == segments[k]);
            assert forall|j: int| 0 <= j < k implies fits(#[trigger] segments[j], width) by {
                assert(fits(rest[j], width));
            }
            assert(!fits(segments[k], width));
        } else {
            assert forall|j: int| 0 <= j < n implies fits(#[trigger] segments[j], width) by {
                assert(fits(rest[j], width));
            }
            assert(segments[n] == segments.last());
        }
    }
}

/// The last segment that fills a row, if there is one.
spec fn last_reaching(segments: Seq<Segment>, width: int, y: int) -> int
    decreases segments.len(),
{
    if segments.len() == 0 {
        -1
    } else if reaches(segments.last(), width, y) {
        segments.len() - 1
    } else {
        last_reaching(segments.drop_last(), width, y)
    }
}

proof fn lemma_last_reaching(segments: Seq<Segment>, width: int, y: int)
    ensures
        ({
            let k = last_reaching(segments, width, y);
            &&& -1 <= k < segments.len()
            &&& k >= 0 ==> reaches(segments[k], width, y)
            &&& forall|j: int|
                k < j < segments.len() ==> !reaches(#[trigger] segments[j], width, y)
        }),
    decreases segments.len(),
{
    if segments.len() > 0 {
        let rest = segments.drop_last();
        lemma_last_reaching(rest, width, y);
        assert(forall|j: int|
            0 <= j < rest.len() ==> rest[j] == #[trigger] segments[j]);
    }
}

/// Whether a pixel of an assembled grid is what it should be: what the last
/// segment that fills its row has for it, and outside the scan where none
/// does.
pub open spec fn is_assembled_pixel(
    cal: Calibration,
    segments: Seq<Segment>,
    width: int,
    x: int,
    y: int,
    count: u16,
) -> bool {
    if forall|j: int| 0 <= j < segments.len() ==> !reaches(#[trigger] segments[j], width, y) {
        count == cal.outside_scan_count
    } else {
        exists|k: int|
            {
                &&& 0 <= k < segments.len()
                &&& reaches(#[trigger] segments[k], width, y)
                &&& gives(cal, segments[k], width, x, y, count)
                &&& forall|j: int|
                    0 <= j < segments.len() && j != k && reaches(#[trigger] segments[j], width, y)
                        ==> precedes(segments, j, k)
            }
    }
}

/// Whether a grid was assembled with what the first segment says.
pub open spec fn is_of_the_first(
    segments: Seq<Segment>,
    calibration: Calibration,
    projection: Projection,
) -> bool {
    exists|k: int|
        {
            &&& 0 <= k < segments.len()
            &&& calibration == (#[trigger] segments[k]).calibration
            &&& projection == segments[k].projection
            &&& forall|j: int|
                0 <= j < segments.len() && j != k ==> #[trigger] precedes(segments, k, j)
        }
}

/// Whether an error says why the first segment that does not fit does not.
pub open spec fn is_of_the_first_unfit(
    segments: Seq<Segment>,
    width: int,
    error: AssembleError,
) -> bool {
    exists|k: int|
        {
            &&& 0 <= k < segments.len()
            &&& !fits(#[trigger] segments[k], width)
            &&& says_why(segments[k], width, error)
            &&& forall|j: int|
                0 <= j < segments.len() && j != k && !fits(#[trigger] segments[j], width)
                    ==> precedes(segments, k, j)
        }
}

proof fn lemma_assembly(width: int, segments: Seq<Segment>)
    requires
        0 <= width <= usize::MAX,
        segments.len() > 0,
    ensures
        compose::assembly(width, segments) is Ok <==> forall|k: int|
            0 <= k < segments.len() ==> fits(#[trigger] segments[k], width),
        match compose::assembly(width, segments) {
            Ok((calibration, projection, counts)) => is_of_the_first(
                segments,
                calibration,
                projection,
            ) && counts.len() == width * width,
            Err(error) => is_of_the_first_unfit(segments, width, error),
        },
{
    let places = lemma_by_number(segments);
    let sorted = compose::by_number(segments);
    let cal = sorted[0].calibration;
    assert(places.contains(0));
    lemma_stitched_error(cal, width, sorted);
    compose::assembled_grid_is_square(cal, width, sorted);
    assert(width * width >= 0) by (nonlinear_arith);
    assert(sorted[0] == segments[places[0]]);
    assert forall|j: int| 0 <= j < segments.len() && j != places[0] implies #[trigger] precedes(
        segments,
        places[0],
        j,
    ) by {
        assert(places.contains(j));
        let l = choose|l: int| 0 <= l < places.len() && places[l] == j;
        assert(precedes(segments, places[0], places[l]));
    }
    if forall|k: int| 0 <= k < segments.len() ==> fits(#[trigger] segments[k], width) {
        assert forall|k: int| 0 <= k < sorted.len() implies fits(#[trigger] sorted[k], width) by {
            assert(fits(segments[places[k]], width));
        }
    }
    if compose::stitched(cal, width, sorted) is Ok {
        assert forall|k: int| 0 <= k < segments.len() implies fits(
            #[trigger] segments[k],
            width,
        ) by {
            assert(places.contains(k));
            let l = choose|l: int| 0 <= l < places.len() && places[l] == k;
            assert(fits(sorted[l], width));
        }
    } else {
        let error = compose::stitched(cal, width, sorted)->Err_0;
        let l = choose|l: int|
            {
                &&& 0 <= l < sorted.len()
                &&& !fits(#[trigger] sorted[l], width)
                &&& says_why(sorted[l], width, error)
                &&& forall|j: int| 0 <= j < l ==> fits(#[trigger] sorted[j], width)
            };
        let k = places[l];
        assert(!fits(segments[k], width));
        assert forall|j: int|
            0 <= j < segments.len() && j != k && !fits(
                #[trigger] segments[j],
                width,
            ) implies precedes(segments, k, j) by {
            assert(places.contains(j));
            let m = choose|m: int| 0 <= m < places.len() && places[m] == j;
            assert(sorted[m] == segments[j]);
            assert(m > l);
            assert(precedes(segments, places[l], places[m]));
        }
    }
}

proof fn lemma_assembled_pixel(width: int, segments: Seq<Segment>, x: int, y: int)
    requires
        0 < width <= usize::MAX,
        forall|k: int| 0 <= k < segments.len() ==> (#[trigger] segments[k])@.wf(),
        segments.len() > 0,
        0 <= x < width,
        0 <= y < width,
    ensures
        compose::assembly(width, segments) matches Ok((calibration, _, counts))
            ==> is_assembled_pixel(calibration, segments, width, x, y, counts[y * width + x]),
{
    if let Ok((cal, projection, counts)) = compose::assembly(width, segments) {
        let places = lemma_by_number(segments);
        let sorted = compose::by_number(segments);
        lemma_assembly(width, segments);
        let i = y * width + x;
        grid::cell_has_place(width, width, y, x);
        assert forall|j: int| 0 <= j < sorted.len() implies compose::covers_place(
            cal,
            width,
            #[trigger] sorted[j],
            i,
        ) <==> reaches(sorted[j], width, y) by {
            assert(fits(segments[places[j]], width));
            assert(segments[places[j]]@.wf());
            lemma_landing(cal, width, sorted[j], x, y);
        }
        let l = last_reaching(sorted, width, y);
        lemma_last_reaching(sorted, width, y);
        if l < 0 {
            compose::uncovered_pixels_are_outside_scan(cal, width, sorted, i);
            assert forall|j: int| 0 <= j < segments.len() implies !reaches(
                #[trigger] segments[j],
                width,
                y,
            ) by {
                assert(places.contains(j));
                let m = choose|m: int| 0 <= m < places.len() && places[m] == j;
                assert(sorted[m] == segments[j]);
            }
        } else {
            let k = places[l];
            assert(sorted[l] == segments[k]);
            assert(segments[k]@.wf() && fits(segments[k], width));
            compose::last_segment_wins(cal, width, sorted, l, i);
            lemma_landing(cal, width, sorted[l], x, y);
            assert(reaches(segments[k], width, y));
            assert(gives(cal, segments[k], width, x, y, counts[i]));
            assert forall|j: int|
                0 <= j < segments.len() && j != k && reaches(
                    #[trigger] segments[j],
                    width,
                    y,
                ) implies precedes(segments, j, k) by {
                assert(places.contains(j));
                let m = choose|m: int| 0 <= m < places.len() && places[m] == j;
                assert(sorted[m] == segments[j]);
                assert(m < l);
                assert(precedes(segments, places[m], places[l]));
            }
        }
    }
}

/// Segments make a grid if and only if each of them fits on it. The grid is
/// square, and its calibration and projection are those of the segment with
/// the smallest number.
pub proof fn fitting_segments_make_a_grid(
    width: usize,
    segments: Vec<Segment>,
    outcome: Result<(Calibration, Projection, Vec<u16>), AssembleError>,
)
    requires
        call_ensures(assemble_counts, (width, segments), outcome),
        segments@.len() > 0,
    ensures
        outcome is Ok <==> forall|k: int|
            0 <= k < segments@.len() ==> fits(#[trigger] segments@[k], width as int),
        match outcome {
            Ok((calibration, projection, counts)) => is_of_the_first(
                segments@,
                calibration,
                projection,
            ) && counts@.len() == width * width,
            Err(error) => is_of_the_first_unfit(segments@, width as int, error),
        },
{
    lemma_assembly(width as int, segments@);
}

/// Each pixel of an assembled grid is what the segment with the largest
/// number that fills its row has for it.
pub proof fn segments_land_on_their_own_rows(
    width: usize,
    segments: Vec<Segment>,
    outcome: Result<(Calibration, Projection, Vec<u16>), AssembleError>,
    x: int,
    y: int,
)
    requires
        call_ensures(assemble_counts, (width, segments), outcome),
        segments@.len() > 0,
        forall|k: int| 0 <= k < segments@.len() ==> (#[trigger] segments@[k])@.wf(),
        0 <= x < width,
        0 <= y < width,
    ensures
        outcome matches Ok((calibration, _, counts)) ==> is_assembled_pixel(
            calibration,
            segments@,
            width as int,
            x,
            y,
            at(counts@, width as int, x, y),
        ),
{
    lemma_assembled_pixel(width as int, segments@, x, y);
}

/// A band is assembled on a grid as wide as the full disk.
pub proof fn bands_are_assembled_on_the_full_disk(
    band: Band,
    segments: Vec<Segment>,
    outcome: Result<BandImage, AssembleError>,
    x: int,
    y: int,
)
    requires
        call_ensures(assemble_band, (band, segments), outcome),
        segments@.len() > 0,
        forall|k: int| 0 <= k < segments@.len() ==> (#[trigger] segments@[k])@.wf(),
        0 <= x < 11000,
        0 <= y < 11000,
    ensures
        outcome is Ok <==> forall|k: int|
            0 <= k < segments@.len() ==> fits(#[trigger] segments@[k], 11000),
        match outcome {
            Ok(image) => {
                &&& image.band == band
                &&& image.counts@.len() == 11000 * 11000
                &&& is_of_the_first(segments@, image.calibration, image.projection)
                &&& is_assembled_pixel(
                    image.calibration,
                    segments@,
                    11000,
                    x,
                    y,
                    at(image.counts@, 11000, x, y),
                )
            },
            Err(error) => is_of_the_first_unfit(segments@, 11000, error),
        },
{
    lemma_assembly(11000, segments@);
    lemma_assembled_pixel(11000, segments@, x, y);
}

} // verus!
