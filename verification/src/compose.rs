//! Assembly of per-band full-disk grids.
//!
//! Layout of this file:
//!   - image types
//!   - halving and doubling of raw counts
//!   - the order in which segments land
//!   - `assemble_counts` and `assemble_band`

use vstd::prelude::*;
use vstd::string::*;

use crate::band::Band;
use crate::decimal;
use crate::grid;
use crate::hsd::{Calibration, Projection, Segment};

verus! {

/// Full-disk width/height of the common 1 km grid all bands are placed on.
pub const FULL_DISK_SIZE: usize = 11_000;

// ---------------------------------------------------------------------------
// Image types
// ---------------------------------------------------------------------------

/// One band's raw counts assembled onto the full 1 km disk grid.
#[derive(Debug)]
pub struct BandImage {
    pub band: Band,
    pub calibration: Calibration,
    pub projection: Projection,
    /// Row-major, `FULL_DISK_SIZE * FULL_DISK_SIZE` counts.
    pub counts: Vec<u16>,
}

impl BandImage {
    /// Whether the counts cover the full disk.
    pub open spec fn wf(self) -> bool {
        self.counts@.len() == FULL_DISK_SIZE * FULL_DISK_SIZE
    }
}

/// An 8-bit RGB image, row-major.
#[derive(Debug)]
pub struct Rgb8Image {
    pub width: u32,
    pub height: u32,
    pub data: Vec<u8>,
}

impl Rgb8Image {
    /// Whether the data hold three bytes for each pixel.
    pub open spec fn wf(self) -> bool {
        self.data@.len() == 3 * (self.width * self.height)
    }
}

// ---------------------------------------------------------------------------
// Halving and doubling
// ---------------------------------------------------------------------------

/// The sum of the valid counts of a block.
pub open spec fn valid_total(cal: Calibration, block: Seq<u16>) -> nat
    decreases block.len(),
{
    if block.len() == 0 {
        0
    } else {
        valid_total(cal, block.drop_last()) + if cal.valid(block.last()) {
            block.last() as nat
        } else {
            0
        }
    }
}

/// How many counts of a block are valid.
pub open spec fn valid_number(cal: Calibration, block: Seq<u16>) -> nat
    decreases block.len(),
{
    if block.len() == 0 {
        0
    } else {
        valid_number(cal, block.drop_last()) + if cal.valid(block.last()) {
            1nat
        } else {
            0
        }
    }
}

/// The rounded-down average of the valid counts of a block; outside-scan
/// where there is none.
pub open spec fn block_average(cal: Calibration, block: Seq<u16>) -> u16 {
    if valid_number(cal, block) == 0 {
        cal.outside_scan_count
    } else {
        (valid_total(cal, block) / valid_number(cal, block)) as u16
    }
}

/// The 2x2 block at row `y` and column `x` of blocks.
pub open spec fn block(counts: Seq<u16>, width: int, y: int, x: int) -> Seq<u16> {
    seq![
        counts[grid::place(width, 2 * y, 2 * x)],
        counts[grid::place(width, 2 * y, 2 * x + 1)],
        counts[grid::place(width, 2 * y + 1, 2 * x)],
        counts[grid::place(width, 2 * y + 1, 2 * x + 1)],
    ]
}

/// The 2x2 box average of a grid of counts.
pub open spec fn halved(counts: Seq<u16>, width: int, lines: int, cal: Calibration) -> Seq<u16> {
    Seq::new(
        ((lines / 2) * (width / 2)) as nat,
        |i: int| block_average(cal, block(counts, width, i / (width / 2), i % (width / 2))),
    )
}

/// A grid of counts with each pixel duplicated into a 2x2 block.
pub open spec fn doubled(counts: Seq<u16>, width: int) -> Seq<u16> {
    Seq::new(
        ((2 * (counts.len() as int / width)) * (2 * width)) as nat,
        |i: int| counts[grid::place(width, (i / (2 * width)) / 2, (i % (2 * width)) / 2)],
    )
}

/// The average of the valid counts of a block lies between any bounds of
/// those counts.
pub proof fn average_stays_within_bounds(cal: Calibration, block: Seq<u16>, low: u16, high: u16)
    requires
        forall|i: int|
            0 <= i < block.len() && cal.valid(#[trigger] block[i]) ==> low <= block[i] <= high,
        exists|i: int| 0 <= i < block.len() && cal.valid(#[trigger] block[i]),
    ensures
        low <= block_average(cal, block) <= high,
{
    lemma_total_bounds(cal, block, low, high);
    let k = choose|i: int| 0 <= i < block.len() && cal.valid(#[trigger] block[i]);
    lemma_valid_is_counted(cal, block, k);
    let (total, number) = (valid_total(cal, block) as int, valid_number(cal, block) as int);
    assert(low <= total / number <= high) by (nonlinear_arith)
        requires
            number > 0,
            low * number <= total <= high * number,
    ;
}

proof fn lemma_total_bounds(cal: Calibration, block: Seq<u16>, low: u16, high: u16)
    requires
        forall|i: int|
            0 <= i < block.len() && cal.valid(#[trigger] block[i]) ==> low <= block[i] <= high,
    ensures
        low * valid_number(cal, block) <= valid_total(cal, block) <= high * valid_number(
            cal,
            block,
        ),
        valid_number(cal, block) <= block.len(),
    decreases block.len(),
{
    if block.len() > 0 {
        let rest = block.drop_last();
        assert forall|i: int| 0 <= i < rest.len() && cal.valid(#[trigger] rest[i]) implies low
            <= rest[i] <= high by {
            assert(rest[i] == block[i]);
        }
        lemma_total_bounds(cal, rest, low, high);
        let n = valid_number(cal, rest) as int;
        assert(low * (n + 1) == low * n + low && high * (n + 1) == high * n + high)
            by (nonlinear_arith);
        assert(block.last() == block[block.len() - 1]);
    } else {
        assert(low * 0 == 0 && high * 0 == 0) by (nonlinear_arith);
    }
}

proof fn lemma_valid_is_counted(cal: Calibration, block: Seq<u16>, k: int)
    requires
        0 <= k < block.len(),
        cal.valid(block[k]),
    ensures
        valid_number(cal, block) > 0,
    decreases block.len(),
{
    if k < block.len() - 1 {
        assert(block.drop_last()[k] == block[k]);
        lemma_valid_is_counted(cal, block.drop_last(), k);
    }
}

/// The sum and the number of the valid counts of four.
proof fn lemma_four(cal: Calibration, a: u16, b: u16, c: u16, d: u16)
    ensures
        valid_total(cal, seq![a, b, c, d]) == (if cal.valid(a) {
            a as nat
        } else {
            0
        }) + (if cal.valid(b) {
            b as nat
        } else {
            0
        }) + (if cal.valid(c) {
            c as nat
        } else {
            0
        }) + (if cal.valid(d) {
            d as nat
        } else {
            0
        }),
        valid_number(cal, seq![a, b, c, d]) == (if cal.valid(a) {
            1nat
        } else {
            0
        }) + (if cal.valid(b) {
            1nat
        } else {
            0
        }) + (if cal.valid(c) {
            1nat
        } else {
            0
        }) + (if cal.valid(d) {
            1nat
        } else {
            0
        }),
{
    let (s1, s2, s3, s4) = (seq![a], seq![a, b], seq![a, b, c], seq![a, b, c, d]);
    assert(s4.drop_last() =~= s3 && s3.drop_last() =~= s2 && s2.drop_last() =~= s1);
    assert(s1.drop_last().len() == 0);
    assert(valid_total(cal, s1.drop_last()) == 0 && valid_number(cal, s1.drop_last()) == 0);
    assert(valid_total(cal, s2) == valid_total(cal, s1) + if cal.valid(b) {
        b as nat
    } else {
        0
    });
    assert(valid_total(cal, s3) == valid_total(cal, s2) + if cal.valid(c) {
        c as nat
    } else {
        0
    });
    assert(valid_number(cal, s2) == valid_number(cal, s1) + if cal.valid(b) {
        1nat
    } else {
        0
    });
    assert(valid_number(cal, s3) == valid_number(cal, s2) + if cal.valid(c) {
        1nat
    } else {
        0
    });
}

/// The average of the valid counts among four.
fn average_of_four(cal: &Calibration, a: u16, b: u16, c: u16, d: u16) -> (average: u16)
    ensures
        average == block_average(*cal, seq![a, b, c, d]),
{
    proof {
        lemma_four(*cal, a, b, c, d);
    }
    let mut sum: u32 = 0;
    let mut valid: u32 = 0;
    if cal.is_valid(a) {
        sum += a as u32;
        valid += 1;
    }
    if cal.is_valid(b) {
        sum += b as u32;
        valid += 1;
    }
    if cal.is_valid(c) {
        sum += c as u32;
        valid += 1;
    }
    if cal.is_valid(d) {
        sum += d as u32;
        valid += 1;
    }
    if valid == 0 {
        return cal.outside_scan_count;
    }
    proof {
        lemma_total_bounds(*cal, seq![a, b, c, d], 0, 0xffff);
        assert(sum / valid <= 0xffff) by (nonlinear_arith)
            requires
                valid > 0,
                sum <= 0xffff * valid,
        ;
    }
    (sum / valid) as u16
}

proof fn lemma_block_places(width: int, lines: int, y: int, x: int)
    requires
        0 <= y < lines / 2,
        0 <= x < width / 2,
    ensures
        0 <= grid::place(width, 2 * y, 2 * x),
        grid::place(width, 2 * y, 2 * x) + 1 == grid::place(width, 2 * y, 2 * x + 1),
        grid::place(width, 2 * y, 2 * x) + width == grid::place(width, 2 * y + 1, 2 * x),
        grid::place(width, 2 * y + 1, 2 * x) + 1 == grid::place(width, 2 * y + 1, 2 * x + 1),
        grid::place(width, 2 * y + 1, 2 * x + 1) < lines * width,
        0 <= 2 * y * width,
        2 * y * width == grid::place(width, 2 * y, 0),
{
    grid::cell_has_place(width, lines, 2 * y, 2 * x);
    grid::cell_has_place(width, lines, 2 * y + 1, 2 * x + 1);
    assert((2 * y + 1) * width == 2 * y * width + width) by (nonlinear_arith);
    assert(0 <= 2 * y * width) by (nonlinear_arith)
        requires
            0 <= y,
            0 <= width,
    ;
}

/// 2x2 box-average of raw counts. Invalid sentinel counts are excluded; a
/// block with no valid pixel stays marked as outside-scan.
pub fn halve_counts(counts: &[u16], width: usize, lines: usize, cal: &Calibration) -> (out: Vec<
    u16,
>)
    requires
        width >= 2,
        (lines / 2) * 2 * width <= counts@.len(),
    ensures
        out@ == halved(counts@, width as int, lines as int, *cal),
{
    let out_width: usize = width / 2;
    let out_lines: usize = lines / 2;
    let size: usize = counts.len();
    proof {
        assert(out_lines * out_width <= out_lines * 2 * width) by (nonlinear_arith)
            requires
                out_width <= width,
        ;
    }
    let cell = |y: usize, x: usize| -> (average: u16)
        requires
            y < out_lines,
            x < out_width,
        ensures
            average == block_average(*cal, block(counts@, width as int, y as int, x as int)),
        {
            proof {
                lemma_block_places(width as int, out_lines * 2, y as int, x as int);
            }
            let top: usize = 2 * y * width + 2 * x;
            let bottom: usize = top + width;
            average_of_four(cal, counts[top], counts[top + 1], counts[bottom], counts[bottom + 1])
        };
    let out: Vec<u16> = grid::par_cells(out_lines, out_width, cell);
    proof {
        assert forall|i: int| 0 <= i < out@.len() implies #[trigger] out@[i] == halved(
            counts@,
            width as int,
            lines as int,
            *cal,
        )[i] by {
            grid::place_has_cell(out_width as int, out_lines as int, i);
        }
    }
    out
}

/// 2x pixel duplication (each source pixel becomes a 2x2 block). Sentinel
/// counts duplicate along with everything else, keeping validity intact.
pub fn double_counts(counts: &[u16], width: usize) -> (out: Vec<u16>)
    requires
        width > 0,
        4 * counts@.len() <= usize::MAX,
    ensures
        out@ == doubled(counts@, width as int),
{
    let lines: usize = counts.len() / width;
    proof {
        assert(lines * width <= counts@.len()) by (nonlinear_arith)
            requires
                lines == counts@.len() / width as nat,
                width > 0,
        ;
        assert((2 * lines) * (2 * width) == 4 * (lines * width)) by (nonlinear_arith);
        assert(lines <= lines * width && width * 1 <= width * 1) by (nonlinear_arith)
            requires
                width > 0,
        ;
        if lines == 0 {
            assert(0 * (2 * width) == 0) by (nonlinear_arith);
        } else {
            assert(width <= lines * width) by (nonlinear_arith)
                requires
                    lines > 0,
            ;
        }
    }
    if lines == 0 {
        return Vec::new();
    }
    let cell = |y: usize, x: usize| -> (count: u16)
        requires
            y < 2 * lines,
            x < 2 * width,
        ensures
            count == counts@[grid::place(width as int, y as int / 2, x as int / 2)],
        {
            proof {
                grid::cell_has_place(width as int, lines as int, y as int / 2, x as int / 2);
            }
            counts[(y / 2) * width + x / 2]
        };
    let out: Vec<u16> = grid::par_cells(2 * lines, 2 * width, cell);
    proof {
        assert forall|i: int| 0 <= i < out@.len() implies #[trigger] out@[i] == doubled(
            counts@,
            width as int,
        )[i] by {
            grid::place_has_cell(2 * width, 2 * lines, i);
        }
    }
    out
}

/// Halving a doubled grid gives back every valid count; the other counts
/// come back as outside-scan.
pub proof fn halving_undoes_doubling(
    counts: Seq<u16>,
    width: int,
    lines: int,
    cal: Calibration,
)
    requires
        0 < width,
        0 <= lines,
        counts.len() == lines * width,
    ensures
        halved(doubled(counts, width), 2 * width, 2 * lines, cal) =~= Seq::new(
            counts.len(),
            |i: int|
                if cal.valid(counts[i]) {
                    counts[i]
                } else {
                    cal.outside_scan_count
                },
        ),
{
    let wide = doubled(counts, width);
    assert(counts.len() as int / width == lines) by {
        vstd::arithmetic::div_mod::lemma_div_by_multiple(lines, width);
    }
    assert forall|i: int| 0 <= i < counts.len() implies #[trigger] halved(
        wide,
        2 * width,
        2 * lines,
        cal,
    )[i] == if cal.valid(counts[i]) {
        counts[i]
    } else {
        cal.outside_scan_count
    } by {
        grid::place_has_cell(width, lines, i);
        let (y, x) = (i / width, i % width);
        lemma_doubled_cell(counts, width, lines, 2 * y, 2 * x);
        lemma_doubled_cell(counts, width, lines, 2 * y, 2 * x + 1);
        lemma_doubled_cell(counts, width, lines, 2 * y + 1, 2 * x);
        lemma_doubled_cell(counts, width, lines, 2 * y + 1, 2 * x + 1);
        let c = counts[i];
        assert(block(wide, 2 * width, y, x) =~= seq![c, c, c, c]);
        lemma_four(cal, c, c, c, c);
        assert((4 * c) / 4 == c);
    }
}

proof fn lemma_doubled_cell(counts: Seq<u16>, width: int, lines: int, y: int, x: int)
    requires
        0 < width,
        counts.len() == lines * width,
        0 <= y < 2 * lines,
        0 <= x < 2 * width,
    ensures
        doubled(counts, width)[grid::place(2 * width, y, x)] == counts[grid::place(
            width,
            y / 2,
            x / 2,
        )],
{
    vstd::arithmetic::div_mod::lemma_div_by_multiple(lines, width);
    grid::cell_has_place(2 * width, 2 * lines, y, x);
}

// ---------------------------------------------------------------------------
// The order of segments
// ---------------------------------------------------------------------------

/// The segments with one number, in the order in which they were given.
pub open spec fn numbered(segments: Seq<Segment>, number: int) -> Seq<Segment> {
    segments.filter(|segment: Segment| segment.segment_number == number)
}

/// The segments with a number below `limit`, by ascending number; those with
/// the same number stay in the order in which they were given.
pub open spec fn ordered_below(segments: Seq<Segment>, limit: nat) -> Seq<Segment>
    decreases limit,
{
    if limit == 0 {
        Seq::empty()
    } else {
        ordered_below(segments, (limit - 1) as nat) + numbered(segments, limit - 1)
    }
}

/// The segments by ascending number; those with the same number stay in the
/// order in which they were given.
pub open spec fn by_number(segments: Seq<Segment>) -> Seq<Segment> {
    ordered_below(segments, 0x100)
}

/// The items at the given indices.
pub open spec fn picked<T>(items: Seq<T>, indices: Seq<usize>) -> Seq<T> {
    indices.map_values(|index: usize| items[index as int])
}

pub(crate) proof fn lemma_filter_step<T>(items: Seq<T>, i: int, keep: spec_fn(T) -> bool)
    requires
        0 <= i < items.len(),
    ensures
        items.take(i + 1).filter(keep) == if keep(items[i]) {
            items.take(i).filter(keep).push(items[i])
        } else {
            items.take(i).filter(keep)
        },
{
    reveal(Seq::filter);
    assert(items.take(i + 1).drop_last() =~= items.take(i));
    assert(items.take(i + 1).last() == items[i]);
}

/// Where the segments stand in ascending order of their numbers; segments
/// with the same number keep their order.
pub fn segment_order(segments: &[Segment]) -> (order: Vec<usize>)
    ensures
        forall|k: int| 0 <= k < order@.len() ==> #[trigger] order@[k] < segments@.len(),
        picked(segments@, order@) == by_number(segments@),
{
    let mut order: Vec<usize> = Vec::new();
    let mut number: u16 = 0;
    assert(picked(segments@, order@) =~= ordered_below(segments@, 0));
    while number < 0x100
        invariant
            number <= 0x100,
            forall|k: int| 0 <= k < order@.len() ==> #[trigger] order@[k] < segments@.len(),
            picked(segments@, order@) == ordered_below(segments@, number as nat),
        decreases 0x100 - number,
    {
        let ghost before = picked(segments@, order@);
        let ghost same = |segment: Segment| segment.segment_number == number as int;
        let mut i: usize = 0;
        assert(segments@.take(0).filter(same) =~= Seq::empty()) by {
            reveal(Seq::filter);
        }
        while i < segments.len()
            invariant
                i <= segments@.len(),
                same == (|segment: Segment| segment.segment_number == number as int),
                forall|k: int| 0 <= k < order@.len() ==> #[trigger] order@[k] < segments@.len(),
                picked(segments@, order@) =~= before + segments@.take(i as int).filter(same),
            decreases segments@.len() - i,
        {
            proof {
                lemma_filter_step(segments@, i as int, same);
            }
            let ghost chosen = picked(segments@, order@);
            if segments[i].segment_number as u16 == number {
                order.push(i);
                assert(picked(segments@, order@) =~= chosen.push(segments@[i as int]));
            }
            i += 1;
        }
        proof {
            assert(segments@.take(segments@.len() as int) =~= segments@);
            assert(segments@.filter(same) == numbered(segments@, number as int));
        }
        number += 1;
    }
    order
}

/// Segments are put in ascending order of their numbers.
pub proof fn ordered_segments_ascend(segments: Seq<Segment>, i: int, j: int)
    requires
        0 <= i <= j < by_number(segments).len(),
    ensures
        by_number(segments)[i].segment_number <= by_number(segments)[j].segment_number,
{
    lemma_ordered_below_ascends(segments, 0x100);
}

proof fn lemma_ordered_below_ascends(segments: Seq<Segment>, limit: nat)
    ensures
        forall|k: int|
            0 <= k < ordered_below(segments, limit).len() ==> (#[trigger] ordered_below(
                segments,
                limit,
            )[k]).segment_number < limit,
        forall|i: int, j: int|
            0 <= i <= j < ordered_below(segments, limit).len() ==> (#[trigger] ordered_below(
                segments,
                limit,
            )[i]).segment_number <= (#[trigger] ordered_below(segments, limit)[j]).segment_number,
    decreases limit,
{
    if limit > 0 {
        lemma_ordered_below_ascends(segments, (limit - 1) as nat);
        let same = |segment: Segment| segment.segment_number == limit - 1;
        broadcast use vstd::seq_lib::group_filter_ensures;

        assert(numbered(segments, limit - 1) == segments.filter(same));
    }
}

proof fn lemma_filter_count<T>(items: Seq<T>, keep: spec_fn(T) -> bool, item: T)
    ensures
        items.filter(keep).to_multiset().count(item) == if keep(item) {
            items.to_multiset().count(item)
        } else {
            0
        },
    decreases items.len(),
{
    reveal(Seq::filter);
    broadcast use vstd::seq_lib::group_to_multiset_ensures;

    if items.len() > 0 {
        let rest = items.drop_last();
        lemma_filter_count(rest, keep, item);
        assert(rest.push(items.last()) =~= items);
    }
}

proof fn lemma_ordered_below_count(segments: Seq<Segment>, limit: nat, segment: Segment)
    ensures
        ordered_below(segments, limit).to_multiset().count(segment) == if segment.segment_number
            < limit {
            segments.to_multiset().count(segment)
        } else {
            0
        },
    decreases limit,
{
    broadcast use vstd::seq_lib::group_to_multiset_ensures;

    if limit > 0 {
        let below = ordered_below(segments, (limit - 1) as nat);
        let same = |segment: Segment| segment.segment_number == limit - 1;
        lemma_ordered_below_count(segments, (limit - 1) as nat, segment);
        lemma_filter_count(segments, same, segment);
        vstd::seq_lib::lemma_multiset_commutative(below, numbered(segments, limit - 1));
    }
}

/// Putting segments in order neither drops nor repeats one.
pub proof fn ordering_keeps_segments(segments: Seq<Segment>)
    ensures
        by_number(segments).to_multiset() =~= segments.to_multiset(),
{
    assert forall|segment: Segment|
        #[trigger] by_number(segments).to_multiset().count(segment)
            == segments.to_multiset().count(segment) by {
        lemma_ordered_below_count(segments, 0x100, segment);
    }
}

proof fn lemma_distinct_numbers(segments: Seq<Segment>, number: int)
    requires
        forall|i: int, j: int|
            0 <= i < j < segments.len() ==> (#[trigger] segments[i]).segment_number != (
            #[trigger] segments[j]).segment_number,
    ensures
        numbered(segments, number).len() <= 1,
    decreases segments.len(),
{
    reveal(Seq::filter);
    let same = |segment: Segment| segment.segment_number == number;
    if segments.len() > 0 {
        let rest = segments.drop_last();
        assert forall|i: int, j: int| 0 <= i < j < rest.len() implies (
        #[trigger] rest[i]).segment_number != (#[trigger] rest[j]).segment_number by {
            assert(rest[i] == segments[i] && rest[j] == segments[j]);
        }
        lemma_distinct_numbers(rest, number);
        if same(segments.last()) && rest.filter(same).len() > 0 {
            broadcast use vstd::seq_lib::group_filter_ensures;

            let first = rest.filter(same)[0];
            assert(same(first));
            rest.lemma_filter_contains_rev(same, first);
            let i = choose|i: int| 0 <= i < rest.len() && rest[i] == first;
            assert(segments[i].segment_number != segments[segments.len() - 1].segment_number);
        }
    }
}

/// Where no two segments have the same number, the order in which they are
/// given does not matter.
pub proof fn given_order_does_not_matter(a: Seq<Segment>, b: Seq<Segment>)
    requires
        a.to_multiset() == b.to_multiset(),
        forall|i: int, j: int|
            0 <= i < j < a.len() ==> (#[trigger] a[i]).segment_number != (
            #[trigger] a[j]).segment_number,
    ensures
        by_number(a) == by_number(b),
{
    lemma_same_order(a, b, 0x100);
}

proof fn lemma_same_order(a: Seq<Segment>, b: Seq<Segment>, limit: nat)
    requires
        a.to_multiset() == b.to_multiset(),
        forall|i: int, j: int|
            0 <= i < j < a.len() ==> (#[trigger] a[i]).segment_number != (
            #[trigger] a[j]).segment_number,
    ensures
        ordered_below(a, limit) == ordered_below(b, limit),
    decreases limit,
{
    if limit > 0 {
        lemma_same_order(a, b, (limit - 1) as nat);
        let number = limit - 1;
        let same = |segment: Segment| segment.segment_number == number;
        let (left, right) = (numbered(a, number), numbered(b, number));
        lemma_distinct_numbers(a, number);
        assert(left.to_multiset() =~= right.to_multiset()) by {
            assert forall|segment: Segment|
                #[trigger] left.to_multiset().count(segment) == right.to_multiset().count(
                    segment,
                ) by {
                lemma_filter_count(a, same, segment);
                lemma_filter_count(b, same, segment);
            }
        }
        broadcast use vstd::seq_lib::group_to_multiset_ensures;

        assert(left.to_multiset().len() == right.to_multiset().len());
        if left.len() == 1 {
            assert(left.contains(left[0]));
            assert(left.to_multiset().count(left[0]) > 0);
            assert(right.contains(left[0]));
        }
        assert(left =~= right);
    }
}

// ---------------------------------------------------------------------------
// Assembly
// ---------------------------------------------------------------------------

/// Why segments do not make a full disk.
#[derive(Debug, Clone, Copy, PartialEq, Eq, Structural)]
pub enum AssembleError {
    /// A segment of twice the width whose lines do not pair up.
    Misaligned { band: u16, segment: u8, first_line: usize, lines: usize },
    /// A segment width that is not half, once or twice the width of the grid.
    Width { band: u16, columns: usize, target_width: usize },
    /// A segment whose lines are not all within the disk.
    OutsideDisk { band: u16, segment: u8, first_line: usize, end_line: usize },
}

impl AssembleError {
    /// The error in words.
    pub open spec fn words(self) -> Seq<char> {
        match self {
            AssembleError::Misaligned { band, segment, first_line, lines } => "band "@
                + decimal::numeral(band as nat) + ": segment "@ + decimal::numeral(segment as nat)
                + " not aligned for 2x reduction (first line "@ + decimal::numeral(
                first_line as nat,
            ) + ", "@ + decimal::numeral(lines as nat) + " lines)"@,
            AssembleError::Width { band, columns, target_width } => "band "@ + decimal::numeral(
                band as nat,
            ) + ": segment width "@ + decimal::numeral(columns as nat)
                + " fits no multiple of a "@ + decimal::numeral(target_width as nat)
                + "-pixel grid"@,
            AssembleError::OutsideDisk { band, segment, first_line, end_line } => "band "@
                + decimal::numeral(band as nat) + ": segment "@ + decimal::numeral(segment as nat)
                + " does not fit the full disk (lines "@ + decimal::numeral(first_line as nat)
                + ".."@ + decimal::numeral(end_line as nat) + ")"@,
        }
    }

    /// The error in words.
    pub fn message(&self) -> (text: String)
        ensures
            text@ == self.words(),
    {
        let mut text = "band ".to_owned();
        match *self {
            AssembleError::Misaligned { band, segment, first_line, lines } => {
                text.append(decimal::decimal(band as u64).as_str());
                text.append(": segment ");
                text.append(decimal::decimal(segment as u64).as_str());
                text.append(" not aligned for 2x reduction (first line ");
                text.append(decimal::decimal(first_line as u64).as_str());
                text.append(", ");
                text.append(decimal::decimal(lines as u64).as_str());
                text.append(" lines)");
            },
            AssembleError::Width { band, columns, target_width } => {
                text.append(decimal::decimal(band as u64).as_str());
                text.append(": segment width ");
                text.append(decimal::decimal(columns as u64).as_str());
                text.append(" fits no multiple of a ");
                text.append(decimal::decimal(target_width as u64).as_str());
                text.append("-pixel grid");
            },
            AssembleError::OutsideDisk { band, segment, first_line, end_line } => {
                text.append(decimal::decimal(band as u64).as_str());
                text.append(": segment ");
                text.append(decimal::decimal(segment as u64).as_str());
                text.append(" does not fit the full disk (lines ");
                text.append(decimal::decimal(first_line as u64).as_str());
                text.append("..");
                text.append(decimal::decimal(end_line as u64).as_str());
                text.append(")");
            },
        }
        text
    }
}

/// Where rows land on a grid whose lines are numbered from 1: at the place of
/// their first line, if all their lines are lines of the grid.
pub open spec fn fitted(
    width: int,
    segment: Segment,
    first_line: int,
    lines: int,
    rows: Seq<u16>,
) -> Result<(int, Seq<u16>), AssembleError> {
    if first_line == 0 || first_line - 1 + lines > width {
        Err(
            AssembleError::OutsideDisk {
                band: segment.band_number,
                segment: segment.segment_number,
                first_line: first_line as usize,
                end_line: (first_line + lines) as usize,
            },
        )
    } else {
        Ok((grid::place(width, first_line - 1, 0), rows))
    }
}

/// Where a segment lands on a grid of the given width, and the counts that
/// land there: halved where the segment is twice as wide as the grid, doubled
/// where it is half as wide.
pub open spec fn landing(cal: Calibration, width: int, segment: Segment) -> Result<
    (int, Seq<u16>),
    AssembleError,
> {
    if segment.columns == 2 * width {
        if segment.first_line % 2 != 1 || segment.lines % 2 != 0 {
            Err(
                AssembleError::Misaligned {
                    band: segment.band_number,
                    segment: segment.segment_number,
                    first_line: segment.first_line,
                    lines: segment.lines,
                },
            )
        } else {
            fitted(
                width,
                segment,
                (segment.first_line - 1) / 2 + 1,
                segment.lines as int / 2,
                halved(segment.counts@, segment.columns as int, segment.lines as int, cal),
            )
        }
    } else if segment.columns == width {
        fitted(
            width,
            segment,
            segment.first_line as int,
            segment.lines as int,
            segment.counts@,
        )
    } else if segment.columns * 2 == width {
        fitted(
            width,
            segment,
            if segment.first_line == 0 {
                0
            } else {
                (segment.first_line - 1) * 2 + 1
            },
            segment.lines * 2,
            doubled(segment.counts@, segment.columns as int),
        )
    } else {
        Err(
            AssembleError::Width {
                band: segment.band_number,
                columns: segment.columns,
                target_width: width as usize,
            },
        )
    }
}

/// A grid with rows copied over it from a place on.
pub open spec fn overlaid(counts: Seq<u16>, start: int, rows: Seq<u16>) -> Seq<u16> {
    Seq::new(
        counts.len(),
        |i: int|
            if start <= i < start + rows.len() {
                rows[i - start]
            } else {
                counts[i]
            },
    )
}

/// The grid that segments make, landing one after the other on an empty one;
/// the first that does not land makes it fail.
pub open spec fn stitched(cal: Calibration, width: int, segments: Seq<Segment>) -> Result<
    Seq<u16>,
    AssembleError,
>
    decreases segments.len(),
{
    if segments.len() == 0 {
        Ok(Seq::new((width * width) as nat, |i: int| cal.outside_scan_count))
    } else {
        match stitched(cal, width, segments.drop_last()) {
            Err(error) => Err(error),
            Ok(counts) => match landing(cal, width, segments.last()) {
                Err(error) => Err(error),
                Ok((start, rows)) => Ok(overlaid(counts, start, rows)),
            },
        }
    }
}

/// What segments make on a grid of the given width, in the order of their
/// numbers. The first of them gives the calibration and the projection.
pub open spec fn assembly(width: int, segments: Seq<Segment>) -> Result<
    (Calibration, Projection, Seq<u16>),
    AssembleError,
> {
    let first = by_number(segments)[0];
    match stitched(first.calibration, width, by_number(segments)) {
        Ok(counts) => Ok((first.calibration, first.projection, counts)),
        Err(error) => Err(error),
    }
}

/// The order in which segments are given does not matter where no two of them
/// have the same number: they make the same disk, or fail with the same
/// error, on a grid of any width.
pub proof fn any_order_makes_the_same_disk(width: int, a: Seq<Segment>, b: Seq<Segment>)
    requires
        a.to_multiset() == b.to_multiset(),
        forall|i: int, j: int|
            0 <= i < j < a.len() ==> (#[trigger] a[i]).segment_number != (
            #[trigger] a[j]).segment_number,
    ensures
        assembly(width, a) == assembly(width, b),
        a.len() > 0 ==> can_land(width, by_number(a)[0]) == can_land(width, by_number(b)[0]),
{
    given_order_does_not_matter(a, b);
}

/// The calibration and the projection of a disk are those of the segment with
/// the smallest number.
pub proof fn the_smallest_number_calibrates(width: int, segments: Seq<Segment>, i: int)
    requires
        0 <= i < segments.len(),
    ensures
        by_number(segments).len() > 0,
        segments.contains(by_number(segments)[0]),
        by_number(segments)[0].segment_number <= segments[i].segment_number,
        assembly(width, segments) matches Ok((calibration, projection, _)) ==> calibration
            == by_number(segments)[0].calibration && projection == by_number(
            segments,
        )[0].projection,
{
    let sorted = by_number(segments);
    ordering_keeps_segments(segments);
    vstd::seq_lib::to_multiset_contains(segments, segments[i]);
    vstd::seq_lib::to_multiset_contains(sorted, segments[i]);
    assert(segments.contains(segments[i]));
    let k = choose|k: int| 0 <= k < sorted.len() && sorted[k] == segments[i];
    ordered_segments_ascend(segments, 0, k);
    vstd::seq_lib::to_multiset_contains(segments, sorted[0]);
    vstd::seq_lib::to_multiset_contains(sorted, sorted[0]);
    assert(sorted.contains(sorted[0]));
}

/// Whether a segment lands on a place of the grid.
pub open spec fn covers_place(cal: Calibration, width: int, segment: Segment, i: int) -> bool {
    match landing(cal, width, segment) {
        Ok((start, rows)) => start <= i < start + rows.len(),
        Err(_) => false,
    }
}

proof fn lemma_landing_fits(cal: Calibration, width: int, segment: Segment)
    requires
        width > 0,
        segment@.wf(),
    ensures
        match landing(cal, width, segment) {
            Ok((start, rows)) => 0 <= start && start + rows.len() <= width * width,
            Err(_) => true,
        },
{
    if let Ok((start, rows)) = landing(cal, width, segment) {
        let lines = segment.lines as int;
        let (first, n): (int, int) = if segment.columns == 2 * width {
            ((segment.first_line - 1) / 2 + 1, lines / 2)
        } else if segment.columns == width {
            (segment.first_line as int, lines)
        } else {
            ((segment.first_line - 1) * 2 + 1, lines * 2)
        };
        if segment.columns * 2 == width {
            let columns = segment.columns as int;
            assert(columns * lines == lines * columns) by (nonlinear_arith);
            vstd::arithmetic::div_mod::lemma_div_by_multiple(lines, columns);
            assert((2 * lines) * (2 * columns) == (lines * 2) * width);
        }
        if segment.columns == width {
            assert(width * lines == lines * width) by (nonlinear_arith);
        }
        assert(rows.len() == n * width);
        assert((first - 1) * width + n * width <= width * width) by (nonlinear_arith)
            requires
                first - 1 + n <= width,
                width > 0,
        ;
        assert(0 <= (first - 1) * width) by (nonlinear_arith)
            requires
                first >= 1,
                width > 0,
        ;
        assert(start == (first - 1) * width);
    }
}

/// A pixel of the assembled grid is that of the last segment that covers it.
pub proof fn last_segment_wins(
    cal: Calibration,
    width: int,
    segments: Seq<Segment>,
    k: int,
    i: int,
)
    requires
        width > 0,
        stitched(cal, width, segments) is Ok,
        0 <= k < segments.len(),
        segments[k]@.wf(),
        covers_place(cal, width, segments[k], i),
        forall|j: int| k < j < segments.len() ==> !covers_place(cal, width, #[trigger] segments[j], i),
    ensures
        0 <= i < stitched(cal, width, segments)->Ok_0.len(),
        match landing(cal, width, segments[k]) {
            Ok((start, rows)) => stitched(cal, width, segments)->Ok_0[i] == rows[i - start],
            Err(_) => false,
        },
    decreases segments.len(),
{
    assembled_grid_is_square(cal, width, segments);
    lemma_landing_fits(cal, width, segments[k]);
    if k < segments.len() - 1 {
        let rest = segments.drop_last();
        assert forall|j: int| k < j < rest.len() implies !covers_place(
            cal,
            width,
            #[trigger] rest[j],
            i,
        ) by {
            assert(rest[j] == segments[j]);
        }
        last_segment_wins(cal, width, rest, k, i);
        assert(!covers_place(cal, width, segments[segments.len() - 1], i));
    }
}

/// A pixel of the assembled grid that no segment covers is outside the scan.
pub proof fn uncovered_pixels_are_outside_scan(
    cal: Calibration,
    width: int,
    segments: Seq<Segment>,
    i: int,
)
    requires
        stitched(cal, width, segments) is Ok,
        0 <= i < width * width,
        forall|j: int| 0 <= j < segments.len() ==> !covers_place(cal, width, #[trigger] segments[j], i),
    ensures
        stitched(cal, width, segments)->Ok_0[i] == cal.outside_scan_count,
    decreases segments.len(),
{
    assembled_grid_is_square(cal, width, segments);
    if segments.len() > 0 {
        let rest = segments.drop_last();
        assert forall|j: int| 0 <= j < rest.len() implies !covers_place(
            cal,
            width,
            #[trigger] rest[j],
            i,
        ) by {
            assert(rest[j] == segments[j]);
        }
        uncovered_pixels_are_outside_scan(cal, width, rest, i);
        assembled_grid_is_square(cal, width, rest);
        assert(!covers_place(cal, width, segments[segments.len() - 1], i));
    }
}

/// The rows that segments land with, one after the other.
pub open spec fn landed_rows(cal: Calibration, width: int, segments: Seq<Segment>) -> Seq<u16>
    decreases segments.len(),
{
    if segments.len() == 0 {
        Seq::empty()
    } else {
        landed_rows(cal, width, segments.drop_last()) + match landing(
            cal,
            width,
            segments.last(),
        ) {
            Ok((_, rows)) => rows,
            Err(_) => Seq::empty(),
        }
    }
}

/// Whether each segment lands right behind the one before it, the first at
/// the start of the grid.
pub open spec fn lands_in_turn(cal: Calibration, width: int, segments: Seq<Segment>) -> bool
    decreases segments.len(),
{
    segments.len() == 0 || {
        &&& lands_in_turn(cal, width, segments.drop_last())
        &&& segments.last()@.wf()
        &&& landing(cal, width, segments.last()) matches Ok((start, _)) && start == landed_rows(
            cal,
            width,
            segments.drop_last(),
        ).len()
    }
}

/// Segments that land one behind the other make a grid that is their rows one
/// after the other: nothing is lost, moved or covered. What they do not reach
/// is outside the scan.
pub proof fn segments_in_turn_make_the_disk(
    cal: Calibration,
    width: int,
    segments: Seq<Segment>,
)
    requires
        width > 0,
        lands_in_turn(cal, width, segments),
    ensures
        landed_rows(cal, width, segments).len() <= width * width,
        stitched(cal, width, segments) == Ok::<Seq<u16>, AssembleError>(
            landed_rows(cal, width, segments) + Seq::new(
                (width * width - landed_rows(cal, width, segments).len()) as nat,
                |i: int| cal.outside_scan_count,
            ),
        ),
    decreases segments.len(),
{
    let rows = landed_rows(cal, width, segments);
    let fill = Seq::new(
        (width * width - rows.len()) as nat,
        |i: int| cal.outside_scan_count,
    );
    if segments.len() == 0 {
        assert(0 <= width * width) by (nonlinear_arith);
        assert(rows + fill =~= Seq::new((width * width) as nat, |i: int| cal.outside_scan_count));
    } else {
        segments_in_turn_make_the_disk(cal, width, segments.drop_last());
        lemma_landing_fits(cal, width, segments.last());
        let before = landed_rows(cal, width, segments.drop_last());
        let empty = Seq::new(
            (width * width - before.len()) as nat,
            |i: int| cal.outside_scan_count,
        );
        let (start, own) = landing(cal, width, segments.last())->Ok_0;
        assert(overlaid(before + empty, start, own) =~= rows + fill);
    }
}

/// How many lines segments have.
pub open spec fn lines_of(segments: Seq<Segment>) -> int
    decreases segments.len(),
{
    if segments.len() == 0 {
        0
    } else {
        lines_of(segments.drop_last()) + segments.last().lines
    }
}

/// Whether segments have the same width and lines that follow each other from
/// the first line on.
pub open spec fn follow_each_other(columns: int, segments: Seq<Segment>) -> bool
    decreases segments.len(),
{
    segments.len() == 0 || {
        &&& follow_each_other(columns, segments.drop_last())
        &&& segments.last()@.wf()
        &&& segments.last().columns == columns
        &&& segments.last().first_line == lines_of(segments.drop_last()) + 1
    }
}

/// Whether segments of a width can be put on a grid of another: they are
/// twice, once or half as wide, and lines come in pairs where two make one.
pub open spec fn suit_grid(columns: int, width: int, segments: Seq<Segment>) -> bool {
    &&& columns == 2 * width || columns == width || columns * 2 == width
    &&& columns == 2 * width ==> forall|k: int|
        0 <= k < segments.len() ==> (#[trigger] segments[k]).lines % 2 == 0
}

/// How many lines of the grid a number of lines of a segment make.
pub open spec fn lines_on_grid(columns: int, width: int, lines: int) -> int {
    if columns == 2 * width {
        lines / 2
    } else if columns == width {
        lines
    } else {
        2 * lines
    }
}

/// Segments whose lines follow each other land one behind the other at any of
/// the three resolutions, as long as they have no more lines than the disk.
pub proof fn consecutive_segments_land_in_turn(
    cal: Calibration,
    columns: int,
    width: int,
    segments: Seq<Segment>,
)
    requires
        width > 0,
        follow_each_other(columns, segments),
        suit_grid(columns, width, segments),
        lines_of(segments) <= columns,
    ensures
        lines_of(segments) >= 0,
        columns == 2 * width ==> lines_of(segments) % 2 == 0,
        lands_in_turn(cal, width, segments),
        landed_rows(cal, width, segments).len() == lines_on_grid(
            columns,
            width,
            lines_of(segments),
        ) * width,
    decreases segments.len(),
{
    if segments.len() > 0 {
        let (rest, last) = (segments.drop_last(), segments.last());
        assert forall|k: int| columns == 2 * width && 0 <= k < rest.len() implies (
        #[trigger] rest[k]).lines % 2 == 0 by {
            assert(rest[k] == segments[k]);
        }
        consecutive_segments_land_in_turn(cal, columns, width, rest);
        assert(columns == 2 * width ==> segments[segments.len() - 1].lines % 2 == 0);
        let (before, lines) = (lines_of(rest), last.lines as int);
        let (first, own) = (
            lines_on_grid(columns, width, before),
            lines_on_grid(columns, width, lines),
        );
        assert(lines_on_grid(columns, width, before + lines) == first + own);
        assert((first + own) * width == first * width + own * width) by (nonlinear_arith);
        lemma_landed_lines(cal, width, last);
    } else {
        assert(0 * width == 0) by (nonlinear_arith);
    }
}

/// What a segment lands with has as many lines as it makes on the grid.
proof fn lemma_landed_lines(cal: Calibration, width: int, segment: Segment)
    requires
        width > 0,
        segment@.wf(),
    ensures
        match landing(cal, width, segment) {
            Ok((_, rows)) => rows.len() == lines_on_grid(
                segment.columns as int,
                width,
                segment.lines as int,
            ) * width,
            Err(_) => true,
        },
{
    let (columns, lines) = (segment.columns as int, segment.lines as int);
    if columns == 2 * width {
        assert(halved(segment.counts@, columns, lines, cal).len() == (lines / 2) * width) by {
            assert(0 <= (lines / 2) * width) by (nonlinear_arith)
                requires
                    0 <= lines,
                    0 < width,
            ;
        }
    } else if columns == width {
        assert(width * lines == lines * width) by (nonlinear_arith);
    } else if columns * 2 == width {
        assert(columns * lines == lines * columns) by (nonlinear_arith);
        vstd::arithmetic::div_mod::lemma_div_by_multiple(lines, columns);
        assert((2 * lines) * (2 * columns) == (2 * lines) * width);
        assert(0 <= (2 * lines) * width) by (nonlinear_arith)
            requires
                0 <= lines,
                0 < width,
        ;
    }
}

/// An assembled grid is as high as it is wide.
pub proof fn assembled_grid_is_square(cal: Calibration, width: int, segments: Seq<Segment>)
    ensures
        match stitched(cal, width, segments) {
            Ok(counts) => counts.len() == (width * width) as nat,
            Err(_) => true,
        },
    decreases segments.len(),
{
    if segments.len() > 0 {
        assembled_grid_is_square(cal, width, segments.drop_last());
    }
}

/// Copies rows over a grid from a place on.
fn overlay(counts: &mut Vec<u16>, start: usize, rows: &[u16])
    requires
        start + rows@.len() <= old(counts)@.len(),
    ensures
        final(counts)@ == overlaid(old(counts)@, start as int, rows@),
{
    let ghost before = counts@;
    let size: usize = counts.len();
    let mut k: usize = 0;
    while k < rows.len()
        invariant
            k <= rows@.len(),
            start + rows@.len() <= size,
            before.len() == size,
            counts@ =~= overlaid(before, start as int, rows@.take(k as int)),
        decreases rows@.len() - k,
    {
        counts.set(start + k, rows[k]);
        k += 1;
    }
    assert(rows@.take(rows@.len() as int) =~= rows@);
}

/// Whether it can be tried to let a segment land on a grid of the given
/// width: a grid without columns has no pixels that those of a segment
/// without columns could be averaged into.
pub open spec fn can_land(width: int, segment: Segment) -> bool {
    width > 0 || segment.columns > 0 || segment.first_line % 2 != 1 || segment.lines % 2 != 0
}

/// Lets one segment land on a grid.
fn land(counts: &mut Vec<u16>, cal: &Calibration, width: usize, segment: &Segment) -> (outcome:
    Result<(), AssembleError>)
    requires
        can_land(width as int, *segment),
        width * width <= usize::MAX,
        old(counts)@.len() == width * width,
        segment@.wf(),
    ensures
        match landing(*cal, width as int, *segment) {
            Ok((start, rows)) => outcome is Ok && final(counts)@ == overlaid(
                old(counts)@,
                start,
                rows,
            ),
            Err(error) => outcome == Err::<(), AssembleError>(error),
        },
{
    let (columns, lines, first_line): (usize, usize, usize) = (
        segment.columns,
        segment.lines,
        segment.first_line,
    );
    proof {
        if width > 0 {
            lemma_landing_fits(*cal, width as int, *segment);
        }
        assert(width <= width * width) by (nonlinear_arith);
        assert(columns * lines == lines * columns) by (nonlinear_arith);
    }
    // Line numbers stay small: a segment holds no more lines than 16 bits
    // can count.
    let (first, n): (usize, usize) = if columns % 2 == 0 && columns / 2 == width {
        if first_line % 2 != 1 || lines % 2 != 0 {
            return Err(
                AssembleError::Misaligned {
                    band: segment.band_number,
                    segment: segment.segment_number,
                    first_line,
                    lines,
                },
            );
        }
        ((first_line - 1) / 2 + 1, lines / 2)
    } else if columns == width {
        (first_line, lines)
    } else if columns * 2 == width {
        (
            if first_line == 0 {
                0
            } else {
                (first_line - 1) * 2 + 1
            },
            lines * 2,
        )
    } else {
        return Err(
            AssembleError::Width { band: segment.band_number, columns, target_width: width },
        );
    };
    if first == 0 || first - 1 + n > width {
        return Err(
            AssembleError::OutsideDisk {
                band: segment.band_number,
                segment: segment.segment_number,
                first_line: first,
                end_line: first + n,
            },
        );
    }
    proof {
        assert((first - 1) * width <= width * width && 0 <= (first - 1) * width)
            by (nonlinear_arith)
            requires
                1 <= first,
                first - 1 <= width,
                width > 0,
        ;
    }
    let start: usize = (first - 1) * width;
    if columns == width {
        overlay(counts, start, segment.counts.as_slice());
    } else if columns > width {
        let rows: Vec<u16> = halve_counts(segment.counts.as_slice(), columns, lines, cal);
        overlay(counts, start, rows.as_slice());
    } else {
        proof {
            assert(4 * (lines * columns) == (2 * lines) * width) by (nonlinear_arith)
                requires
                    columns * 2 == width,
            ;
            assert((2 * lines) * width <= width * width) by (nonlinear_arith)
                requires
                    2 * lines <= width,
                    width > 0,
            ;
        }
        let rows: Vec<u16> = double_counts(segment.counts.as_slice(), columns);
        overlay(counts, start, rows.as_slice());
    }
    Ok(())
}

/// Stitch a band's segments onto a `target_width`-wide full-disk grid.
/// Segments at exactly twice the target resolution (the 0.5 km red band on
/// the 1 km grid) are 2x2 box-averaged as they land; those at half of it
/// (2 km bands on the 1 km grid) have their pixels duplicated, as the
/// blockiness is the sensor's real resolution.
pub fn assemble_counts(target_width: usize, segments: Vec<Segment>) -> (assembled: Result<
    (Calibration, Projection, Vec<u16>),
    AssembleError,
>)
    requires
        segments@.len() > 0,
        forall|k: int| 0 <= k < segments@.len() ==> (#[trigger] segments@[k])@.wf(),
        can_land(target_width as int, by_number(segments@)[0]),
        target_width * target_width <= usize::MAX,
    ensures
        match assembly(target_width as int, segments@) {
            Ok((calibration, projection, counts)) => assembled matches Ok(out) && out.0
                == calibration && out.1 == projection && out.2@ == counts,
            Err(error) => assembled == Err::<(Calibration, Projection, Vec<u16>), AssembleError>(
                error,
            ),
        },
{
    let order: Vec<usize> = segment_order(segments.as_slice());
    let ghost sorted = by_number(segments@);
    proof {
        ordering_keeps_segments(segments@);
        broadcast use vstd::seq_lib::group_to_multiset_ensures;

        assert(sorted.to_multiset().len() == segments@.to_multiset().len());
        assert(sorted.len() == order@.len());
    }
    let calibration: Calibration = segments[order[0]].calibration;
    let projection: Projection = segments[order[0]].projection;
    assert(sorted[0] == segments@[order@[0] as int]);
    let mut counts: Vec<u16> = vec![calibration.outside_scan_count; target_width * target_width];
    assert(counts@ =~= Seq::new(
        (target_width * target_width) as nat,
        |i: int| calibration.outside_scan_count,
    ));
    assert(sorted.take(0) =~= Seq::empty());
    let mut k: usize = 0;
    while k < order.len()
        invariant
            k <= order@.len(),
            order@.len() == sorted.len(),
            sorted == picked(segments@, order@),
            sorted == by_number(segments@),
            sorted.len() > 0,
            calibration == sorted[0].calibration,
            forall|k: int| 0 <= k < order@.len() ==> #[trigger] order@[k] < segments@.len(),
            forall|k: int| 0 <= k < segments@.len() ==> (#[trigger] segments@[k])@.wf(),
            target_width == 0 ==> k == 0,
            can_land(target_width as int, sorted[0]),
            target_width * target_width <= usize::MAX,
            counts@.len() == target_width * target_width,
            stitched(calibration, target_width as int, sorted.take(k as int)) == Ok::<
                Seq<u16>,
                AssembleError,
            >(counts@),
        ensures
            k == order@.len(),
        decreases order@.len() - k,
    {
        let segment: &Segment = &segments[order[k]];
        proof {
            assert(*segment == sorted[k as int]);
            assert(sorted.take(k + 1).drop_last() =~= sorted.take(k as int));
            assert(sorted.take(k + 1).last() == sorted[k as int]);
        }
        match land(&mut counts, &calibration, target_width, segment) {
            Ok(()) => {},
            Err(error) => {
                proof {
                    lemma_failure_stays(calibration, target_width as int, sorted, k + 1);
                }
                return Err(error);
            },
        }
        k += 1;
    }
    assert(sorted.take(sorted.len() as int) =~= sorted);
    Ok((calibration, projection, counts))
}

proof fn lemma_failure_stays(cal: Calibration, width: int, segments: Seq<Segment>, k: int)
    requires
        0 <= k <= segments.len(),
        stitched(cal, width, segments.take(k)) is Err,
    ensures
        stitched(cal, width, segments) == stitched(cal, width, segments.take(k)),
    decreases segments.len(),
{
    if k < segments.len() {
        assert(segments.drop_last().take(k) =~= segments.take(k));
        lemma_failure_stays(cal, width, segments.drop_last(), k);
    } else {
        assert(segments.take(k) =~= segments);
    }
}

/// Stitch a true-color band's segments onto the common 1 km disk grid.
pub fn assemble_band(band: Band, segments: Vec<Segment>) -> (assembled: Result<
    BandImage,
    AssembleError,
>)
    requires
        segments@.len() > 0,
        forall|k: int| 0 <= k < segments@.len() ==> (#[trigger] segments@[k])@.wf(),
    ensures
        match assembly(FULL_DISK_SIZE as int, segments@) {
            Ok((calibration, projection, counts)) => assembled matches Ok(image) && image.wf()
                && image.band == band && image.calibration == calibration && image.projection
                == projection && image.counts@ == counts,
            Err(error) => assembled == Err::<BandImage, AssembleError>(error),
        },
{
    let ghost sorted = by_number(segments@);
    proof {
        assembled_grid_is_square(sorted[0].calibration, FULL_DISK_SIZE as int, sorted);
    }
    match assemble_counts(FULL_DISK_SIZE, segments) {
        Ok((calibration, projection, counts)) => Ok(
            BandImage { band, calibration, projection, counts },
        ),
        Err(error) => Err(error),
    }
}

} // verus!
