//! Cold-cloud centroid tracking.
//!
//! A tropical cyclone is, to B13, a large contiguous blob of very cold
//! cloud. The tracker seeds on the coldest large-scale blob on the disk
//! (away from the limb and the poles), then follows it frame to frame with
//! a bounded search window and a weighted centroid, robust to the eye
//! clouding over.
//!
//! Temperatures, weights and positions are floating-point; their arithmetic
//! comes in through the callers' functions.

use vstd::prelude::*;

use crate::grid;
use crate::ieee;
use crate::tuning::{TRACK_MIN_WEIGHT, TRACK_SEARCH_RADIUS, TRACK_SEED_WINDOW};

verus! {

/// A tracked position on the 1 km composite grid, in pixels: two
/// double-precision patterns.
pub type Position = (u64, u64);

/// The total weight of some pixels, and the weighted sums of their columns
/// and of their rows.
pub type Sums = (u64, u64, u64);

/// Every how many pixels the disk is sampled for the first fix.
pub const STRIDE: usize = 8;

// ---------------------------------------------------------------------------
// Centroid
// ---------------------------------------------------------------------------

/// Whether `weight` may be how storm-like a pixel is: 0 where its temperature
/// is not a finite number.
pub open spec fn is_weight<C: Fn(u32) -> u64>(cold: C, bits: u32, weight: u64) -> bool {
    if ieee::finite32(bits) {
        call_ensures(cold, (bits,), weight)
    } else {
        weight == 0
    }
}

/// How storm-like one pixel is: kelvins below the cold threshold, as `cold`
/// gives them.
pub fn weight<C: Fn(u32) -> u64>(bits: u32, cold: &C) -> (weight: u64)
    requires
        ieee::finite32(bits) ==> call_requires(*cold, (bits,)),
    ensures
        is_weight(*cold, bits, weight),
{
    if ieee::is_finite32(bits) {
        cold(bits)
    } else {
        0
    }
}

/// The first coordinate of the search around a center.
pub open spec fn search_start(center: int) -> int {
    if center - TRACK_SEARCH_RADIUS > 0 {
        center - TRACK_SEARCH_RADIUS
    } else {
        0
    }
}

/// The last coordinate of the search around a center.
pub open spec fn search_end(center: int, width: int) -> int {
    let from = if center > 0 {
        center
    } else {
        0
    };
    if from + TRACK_SEARCH_RADIUS < width - 1 {
        from + TRACK_SEARCH_RADIUS
    } else {
        width - 1
    }
}

/// The cells of a box, as columns and rows, row by row; none where it ends
/// before it starts.
pub open spec fn box_cells(x0: int, y0: int, x1: int, y1: int) -> Seq<(usize, usize)> {
    let (wide, high) = (x1 + 1 - x0, y1 + 1 - y0);
    if wide > 0 && high > 0 {
        Seq::new(
            (high * wide) as nat,
            |k: int| ((x0 + k % wide) as usize, (y0 + k / wide) as usize),
        )
    } else {
        Seq::empty()
    }
}

/// The cells that are searched around a center.
pub open spec fn search_cells(center: (int, int), width: int) -> Seq<(usize, usize)> {
    box_cells(
        search_start(center.0),
        search_start(center.1),
        search_end(center.0, width),
        search_end(center.1, width),
    )
}

/// The search around a pixel of the grid stays on the grid and within the
/// search radius.
pub proof fn search_stays_near(center: (int, int), width: int, k: int)
    requires
        0 <= center.0 < width,
        0 <= center.1 < width,
        width <= usize::MAX,
        0 <= k < search_cells(center, width).len(),
    ensures
        ({
            let (x, y) = search_cells(center, width)[k];
            &&& x < width
            &&& y < width
            &&& center.0 - TRACK_SEARCH_RADIUS <= x <= center.0 + TRACK_SEARCH_RADIUS
            &&& center.1 - TRACK_SEARCH_RADIUS <= y <= center.1 + TRACK_SEARCH_RADIUS
        }),
{
    let wide = search_end(center.0, width) + 1 - search_start(center.0);
    let high = search_end(center.1, width) + 1 - search_start(center.1);
    grid::place_has_cell(wide, high, k);
}

/// Whether gathering the weights of some cells one after the other, from
/// zeros on, may give `sums`.
pub open spec fn gathers_to<C, G>(
    temperatures: Seq<u32>,
    width: int,
    cold: C,
    gather: G,
    cells: Seq<(usize, usize)>,
    sums: Sums,
) -> bool where C: Fn(u32) -> u64, G: Fn(Sums, u64, usize, usize) -> Sums
    decreases cells.len(),
{
    if cells.len() == 0 {
        sums == (0u64, 0u64, 0u64)
    } else {
        let (x, y) = cells.last();
        exists|before: Sums, weight: u64|
            {
                &&& #[trigger] call_ensures(gather, (before, weight, x, y), sums)
                &&& is_weight(cold, temperatures[grid::place(width, y as int, x as int)], weight)
                &&& gathers_to(temperatures, width, cold, gather, cells.drop_last(), before)
            }
    }
}

/// Whether `fix` may be the cold-weighted centroid around a center.
pub open spec fn is_centroid<C, G, P>(
    temperatures: Seq<u32>,
    width: int,
    center: (int, int),
    cold: C,
    gather: G,
    place: P,
    fix: Option<Position>,
) -> bool where
    C: Fn(u32) -> u64,
    G: Fn(Sums, u64, usize, usize) -> Sums,
    P: Fn(Sums) -> Position,
 {
    exists|sums: Sums|
        {
            &&& #[trigger] gathers_to(
                temperatures,
                width,
                cold,
                gather,
                search_cells(center, width),
                sums,
            )
            &&& if ieee::less64(sums.0, TRACK_MIN_WEIGHT) {
                fix is None
            } else {
                fix matches Some(position) && call_ensures(place, (sums,), position)
            }
        }
}

/// Whether the weights of a grid can be asked for and gathered.
pub open spec fn can_gather<C, G, P>(cold: C, gather: G, place: P) -> bool where
    C: Fn(u32) -> u64,
    G: Fn(Sums, u64, usize, usize) -> Sums,
    P: Fn(Sums) -> Position,
 {
    &&& forall|bits: u32| ieee::finite32(bits) ==> #[trigger] call_requires(cold, (bits,))
    &&& forall|sums: Sums, weight: u64, x: usize, y: usize|
        #[trigger] call_requires(gather, (sums, weight, x, y))
    &&& forall|sums: Sums|
        !ieee::less64(sums.0, TRACK_MIN_WEIGHT) ==> #[trigger] call_requires(place, (sums,))
}

/// Cold-weighted centroid within the search box around `center` (in B13 grid
/// pixels). None when the box holds too little cold cloud to be a fix.
///
/// `cold` weighs a temperature, `gather` adds a weight at a column and a row
/// to the sums, `place` turns the sums into a position on the 1 km grid.
pub fn centroid<C, G, P>(
    temperatures: &[u32],
    width: usize,
    center: (i64, i64),
    cold: &C,
    gather: &G,
    place: &P,
) -> (fix: Option<Position>) where
    C: Fn(u32) -> u64,
    G: Fn(Sums, u64, usize, usize) -> Sums,
    P: Fn(Sums) -> Position,

    requires
        width > 0,
        width * width <= temperatures@.len(),
        i64::MIN + 150 <= center.0 <= i64::MAX - 150,
        i64::MIN + 150 <= center.1 <= i64::MAX - 150,
        can_gather(*cold, *gather, *place),
    ensures
        is_centroid(
            temperatures@,
            width as int,
            (center.0 as int, center.1 as int),
            *cold,
            *gather,
            *place,
            fix,
        ),
{
    let have: usize = temperatures.len();
    proof {
        assert(width <= width * width) by (nonlinear_arith)
            requires
                width > 0,
        ;
    }
    let (x0, x1): (u64, u64) = search_range(center.0, width);
    let (y0, y1): (u64, u64) = search_range(center.1, width);
    let ghost cells = search_cells((center.0 as int, center.1 as int), width as int);
    let ghost (wide, high) = (x1 + 1 - x0, y1 + 1 - y0);
    let mut sums: Sums = (0, 0, 0);
    assert(cells.take(0) =~= Seq::empty());
    if x0 <= x1 && y0 <= y1 {
        let mut y: u64 = y0;
        assert(0 * wide == 0) by (nonlinear_arith);
        while y <= y1
            invariant
                y0 <= y <= y1 + 1,
                x0 <= x1 < width,
                y1 < width,
                width * width <= have,
                have == temperatures@.len(),
                wide == x1 + 1 - x0,
                high == y1 + 1 - y0,
                cells == box_cells(x0 as int, y0 as int, x1 as int, y1 as int),
                can_gather(*cold, *gather, *place),
                gathers_to(
                    temperatures@,
                    width as int,
                    *cold,
                    *gather,
                    cells.take((y - y0) * wide),
                    sums,
                ),
            decreases y1 + 1 - y,
        {
            let mut x: u64 = x0;
            while x <= x1
                invariant
                    y0 <= y <= y1,
                    x0 <= x <= x1 + 1,
                    x0 <= x1 < width,
                    y1 < width,
                    width * width <= have,
                    have == temperatures@.len(),
                    wide == x1 + 1 - x0,
                    high == y1 + 1 - y0,
                    cells == box_cells(x0 as int, y0 as int, x1 as int, y1 as int),
                    can_gather(*cold, *gather, *place),
                    gathers_to(
                        temperatures@,
                        width as int,
                        *cold,
                        *gather,
                        cells.take((y - y0) * wide + (x - x0)),
                        sums,
                    ),
                decreases x1 + 1 - x,
            {
                let ghost k = (y - y0) * wide + (x - x0);
                proof {
                    grid::cell_has_place(wide as int, high as int, y - y0, x - x0);
                    grid::cell_has_place(width as int, width as int, y as int, x as int);
                }
                let (column, row): (usize, usize) = (x as usize, y as usize);
                let share: u64 = weight(temperatures[row * width + column], cold);
                let ghost before = sums;
                sums = gather(sums, share, column, row);
                proof {
                    let (less, more) = (cells.take(k), cells.take(k + 1));
                    assert(more.drop_last() =~= less && more.last() == cells[k]);
                    assert(cells[k] == (column, row));
                    assert(call_ensures(*gather, (before, share, column, row), sums));
                    assert(gathers_to(temperatures@, width as int, *cold, *gather, more, sums));
                }
                x += 1;
            }
            assert((y + 1 - y0) * wide == (y - y0) * wide + wide) by (nonlinear_arith);
            y += 1;
        }
        assert(cells.take(high * wide) =~= cells);
    } else {
        assert(cells.take(0) =~= cells);
    }
    assert(gathers_to(temperatures@, width as int, *cold, *gather, cells, sums));
    if ieee::is_less64(sums.0, TRACK_MIN_WEIGHT) {
        return None;
    }
    Some(place(sums))
}

/// The first and the last coordinate of the search around a center.
fn search_range(center: i64, width: usize) -> (range: (u64, u64))
    requires
        width > 0,
        i64::MIN + 150 <= center <= i64::MAX - 150,
    ensures
        range.0 == search_start(center as int),
        range.1 == search_end(center as int, width as int),
{
    let radius: i64 = TRACK_SEARCH_RADIUS as i64;
    let start: u64 = if center - radius > 0 {
        (center - radius) as u64
    } else {
        0
    };
    let from: u64 = if center > 0 {
        center as u64
    } else {
        0
    };
    let edge: u64 = (width - 1) as u64;
    let end: u64 = if from + (TRACK_SEARCH_RADIUS as u64) < edge {
        from + TRACK_SEARCH_RADIUS as u64
    } else {
        edge
    };
    (start, end)
}

// ---------------------------------------------------------------------------
// First fix
// ---------------------------------------------------------------------------

/// Whether `weight` may stand for a coarse cell: the weight of the pixel at
/// its corner, and 0 for those that lie too far out.
pub open spec fn is_coarse_weight<I, C>(
    temperatures: Seq<u32>,
    width: int,
    inside: I,
    cold: C,
    y: int,
    x: int,
    weight: u64,
) -> bool where I: Fn(usize, usize) -> bool, C: Fn(u32) -> u64 {
    exists|near: bool|
        {
            &&& #[trigger] call_ensures(
                inside,
                ((x * STRIDE) as usize, (y * STRIDE) as usize),
                near,
            )
            &&& if near {
                is_weight(
                    cold,
                    temperatures[grid::place(width, y * STRIDE, x * STRIDE)],
                    weight,
                )
            } else {
                weight == 0
            }
        }
}

/// Whether `coarse` may be the coarsely sampled disk.
pub open spec fn is_coarse<I, C>(
    temperatures: Seq<u32>,
    width: int,
    inside: I,
    cold: C,
    coarse: Seq<u64>,
) -> bool where I: Fn(usize, usize) -> bool, C: Fn(u32) -> u64 {
    let size = width / STRIDE as int;
    &&& coarse.len() == size * size
    &&& forall|i: int|
        0 <= i < size * size ==> is_coarse_weight(
            temperatures,
            width,
            inside,
            cold,
            i / size,
            i % size,
            #[trigger] coarse[i],
        )
}

/// Samples the disk coarsely.
fn sample_coarsely<I, C>(temperatures: &[u32], width: usize, inside: &I, cold: &C) -> (coarse: Vec<
    u64,
>) where I: Fn(usize, usize) -> bool, C: Fn(u32) -> u64
    requires
        width > 0,
        width * width <= temperatures@.len(),
        forall|x: usize, y: usize|
            x < width && y < width ==> #[trigger] call_requires(*inside, (x, y)),
        forall|bits: u32| ieee::finite32(bits) ==> #[trigger] call_requires(*cold, (bits,)),
    ensures
        is_coarse(temperatures@, width as int, *inside, *cold, coarse@),
{
    let have: usize = temperatures.len();
    let size: usize = width / STRIDE;
    proof {
        assert(size * size <= width * width) by (nonlinear_arith)
            requires
                size <= width,
        ;
    }
    let mut coarse: Vec<u64> = Vec::with_capacity(size * size);
    let mut i: usize = 0;
    while i < size * size
        invariant
            0 <= i <= size * size,
            size * size <= width * width <= have,
            have == temperatures@.len(),
            size == width as int / STRIDE as int,
            forall|x: usize, y: usize|
                x < width && y < width ==> #[trigger] call_requires(*inside, (x, y)),
            forall|bits: u32| ieee::finite32(bits) ==> #[trigger] call_requires(*cold, (bits,)),
            coarse@.len() == i,
            forall|k: int|
                0 <= k < i ==> is_coarse_weight(
                    temperatures@,
                    width as int,
                    *inside,
                    *cold,
                    k / size as int,
                    k % size as int,
                    #[trigger] coarse@[k],
                ),
        decreases size * size - i,
    {
        proof {
            grid::place_has_cell(size as int, size as int, i as int);
        }
        let (y, x): (usize, usize) = (i / size, i % size);
        proof {
            grid::cell_has_place(width as int, width as int, y * STRIDE, x * STRIDE);
        }
        let (gx, gy): (usize, usize) = (x * STRIDE, y * STRIDE);
        let near: bool = inside(gx, gy);
        assert(call_ensures(*inside, (gx, gy), near));
        let share: u64 = if near {
            weight(temperatures[gy * width + gx], cold)
        } else {
            0
        };
        coarse.push(share);
        i += 1;
    }
    coarse
}

/// Whether adding numbers one after the other, from 0 on, may give `total`.
pub open spec fn totals_to<A: Fn(u64, u64) -> u64>(plus: A, numbers: Seq<u64>, total: u64) -> bool
    decreases numbers.len(),
{
    if numbers.len() == 0 {
        total == 0
    } else {
        exists|before: u64|
            #[trigger] call_ensures(plus, (before, numbers.last()), total) && totals_to(
                plus,
                numbers.drop_last(),
                before,
            )
    }
}

/// The side of the sliding window in coarse cells.
pub open spec fn window_side() -> int {
    TRACK_SEED_WINDOW as int / STRIDE as int
}

/// Whether `total` may be the weight that a window holds: its rows are added
/// up first.
pub open spec fn is_window_total<A: Fn(u64, u64) -> u64>(
    plus: A,
    coarse: Seq<u64>,
    size: int,
    y: int,
    x: int,
    total: u64,
) -> bool {
    exists|rows: Seq<u64>|
        #[trigger] are_row_totals(plus, coarse, size, y, x, rows) && rows.len() == window_side()
            && totals_to(plus, rows, total)
}

/// Whether `rows` may be the weights that the first rows of a window hold.
pub open spec fn are_row_totals<A: Fn(u64, u64) -> u64>(
    plus: A,
    coarse: Seq<u64>,
    size: int,
    y: int,
    x: int,
    rows: Seq<u64>,
) -> bool {
    forall|k: int|
        0 <= k < rows.len() ==> totals_to(
            plus,
            coarse.subrange(
                grid::place(size, y + k, x),
                grid::place(size, y + k, x) + window_side(),
            ),
            #[trigger] rows[k],
        )
}

/// Adds up numbers.
fn total<A: Fn(u64, u64) -> u64>(numbers: &[u64], start: usize, count: usize, plus: &A) -> (sum:
    u64)
    requires
        start + count <= numbers@.len(),
        forall|a: u64, b: u64| #[trigger] call_requires(*plus, (a, b)),
    ensures
        totals_to(*plus, numbers@.subrange(start as int, start + count), sum),
{
    let have: usize = numbers.len();
    let mut sum: u64 = 0;
    let mut k: usize = 0;
    assert(numbers@.subrange(start as int, start as int) =~= Seq::empty());
    while k < count
        invariant
            k <= count,
            start + count <= have,
            have == numbers@.len(),
            forall|a: u64, b: u64| #[trigger] call_requires(*plus, (a, b)),
            totals_to(*plus, numbers@.subrange(start as int, start + k), sum),
        decreases count - k,
    {
        let ghost before = sum;
        sum = plus(sum, numbers[start + k]);
        proof {
            let more = numbers@.subrange(start as int, start + k + 1);
            assert(more.drop_last() =~= numbers@.subrange(start as int, start + k));
            assert(more.last() == numbers@[start + k]);
            assert(call_ensures(*plus, (before, more.last()), sum));
            assert(totals_to(*plus, more, sum));
        }
        k += 1;
    }
    sum
}

/// The weight that a window holds.
fn window_total<A: Fn(u64, u64) -> u64>(
    coarse: &[u64],
    size: usize,
    y: usize,
    x: usize,
    plus: &A,
) -> (sum: u64)
    requires
        coarse@.len() == size * size,
        y + 32 <= size,
        x + 32 <= size,
        forall|a: u64, b: u64| #[trigger] call_requires(*plus, (a, b)),
    ensures
        is_window_total(*plus, coarse@, size as int, y as int, x as int, sum),
{
    let have: usize = coarse.len();
    let mut rows: Vec<u64> = Vec::with_capacity(32);
    let mut k: usize = 0;
    while k < 32
        invariant
            k <= 32,
            y + 32 <= size,
            x + 32 <= size,
            have == size * size,
            have == coarse@.len(),
            forall|a: u64, b: u64| #[trigger] call_requires(*plus, (a, b)),
            rows@.len() == k,
            are_row_totals(*plus, coarse@, size as int, y as int, x as int, rows@),
        decreases 32 - k,
    {
        proof {
            grid::cell_has_place(size as int, size as int, y + k, x as int);
            grid::cell_has_place(size as int, size as int, y + k, x + 31);
        }
        let start: usize = (y + k) * size + x;
        let row: u64 = total(coarse, start, 32, plus);
        let ghost before = rows@;
        rows.push(row);
        proof {
            assert forall|j: int| 0 <= j < rows@.len() implies totals_to(
                *plus,
                coarse@.subrange(
                    grid::place(size as int, y + j, x as int),
                    grid::place(size as int, y + j, x as int) + window_side(),
                ),
                #[trigger] rows@[j],
            ) by {
                if j < k {
                    assert(rows@[j] == before[j]);
                }
            }
        }
        k += 1;
    }
    let sum: u64 = total(rows.as_slice(), 0, 32, plus);
    assert(rows@.subrange(0, 32) =~= rows@);
    sum
}

/// How many windows are tried along each axis: one every quarter of a window.
pub open spec fn window_steps(size: int) -> int {
    if size > window_side() {
        (size - window_side() + window_side() / 4 - 1) / (window_side() / 4)
    } else {
        0
    }
}

/// Where window `i` starts along an axis.
pub open spec fn window_start(i: int) -> int {
    i * (window_side() / 4)
}

proof fn lemma_windows(size: int)
    requires
        0 <= size,
    ensures
        window_side() == 32,
        size > 32 ==> 8 * (window_steps(size) - 1) < size - 32 <= 8 * window_steps(size),
        size <= 32 ==> window_steps(size) == 0,
        forall|i: int| #[trigger] window_start(i) == 8 * i,
{
    assert(window_side() / 4 == 8);
    if size > 32 {
        assert(window_steps(size) == (size - 32 + 7) / 8);
    }
    assert forall|i: int| #[trigger] window_start(i) == 8 * i by {
        assert(i * (window_side() / 4) == i * 8);
    }
}

/// Whether `totals` may be the weights that the windows hold, row by row.
pub open spec fn are_window_totals<A: Fn(u64, u64) -> u64>(
    plus: A,
    coarse: Seq<u64>,
    size: int,
    totals: Seq<u64>,
) -> bool {
    forall|j: int|
        0 <= j < totals.len() ==> is_window_total(
            plus,
            coarse,
            size,
            window_start(j / window_steps(size)),
            window_start(j % window_steps(size)),
            #[trigger] totals[j],
        )
}

/// The first of the greatest positive numbers, if there is one.
pub open spec fn leader(totals: Seq<u64>) -> Option<int>
    decreases totals.len(),
{
    if totals.len() == 0 {
        None
    } else if ieee::less64(leading(totals.drop_last()), totals.last()) {
        Some(totals.len() - 1)
    } else {
        leader(totals.drop_last())
    }
}

/// The greatest of some numbers, and 0 if none is positive.
pub open spec fn leading(totals: Seq<u64>) -> u64
    decreases totals.len(),
{
    if totals.len() == 0 {
        0
    } else if ieee::less64(leading(totals.drop_last()), totals.last()) {
        totals.last()
    } else {
        leading(totals.drop_last())
    }
}

/// The window that leads holds more weight than any window before it, and no
/// window holds more than it.
pub proof fn leader_is_first_greatest(totals: Seq<u64>, j: int)
    requires
        0 <= j < totals.len(),
    ensures
        !ieee::less64(leading(totals), totals[j]),
        leader(totals) matches Some(k) ==> 0 <= k < totals.len() && totals[k] == leading(totals) && (
        j < k ==> !ieee::at_most64(leading(totals), totals[j])),
        leader(totals) is None ==> leading(totals) == 0,
    decreases totals.len(),
{
    let rest = totals.drop_last();
    lemma_leading_is_a_number(rest);
    lemma_leading_is_a_number(totals);
    if rest.len() > 0 {
        if j < rest.len() {
            assert(rest[j] == totals[j]);
            leader_is_first_greatest(rest, j);
        } else {
            leader_is_first_greatest(rest, 0);
        }
        if !ieee::less64(leading(rest), totals.last()) {
            if let Some(k) = leader(rest) {
                assert(rest[k] == totals[k]);
            }
        }
    }
}

proof fn lemma_leading_is_a_number(totals: Seq<u64>)
    ensures
        !ieee::nan64(leading(totals)),
        leader(totals) matches Some(k) ==> 0 <= k < totals.len(),
        leader(totals) is None ==> leading(totals) == 0,
    decreases totals.len(),
{
    if totals.len() > 0 {
        lemma_leading_is_a_number(totals.drop_last());
    }
}

/// The middle of the leading window, in B13 grid pixels.
pub open spec fn window_center(size: int, j: int) -> (int, int) {
    (
        (window_start(j % window_steps(size)) + window_side() / 2) * STRIDE,
        (window_start(j / window_steps(size)) + window_side() / 2) * STRIDE,
    )
}

/// Whether `fix` may be the centroid around a center, or what stands for the
/// center itself where there is none.
pub open spec fn is_refined<C, G, P, W>(
    temperatures: Seq<u32>,
    width: int,
    center: (int, int),
    cold: C,
    gather: G,
    place: P,
    whole: W,
    fix: Option<Position>,
) -> bool where
    C: Fn(u32) -> u64,
    G: Fn(Sums, u64, usize, usize) -> Sums,
    P: Fn(Sums) -> Position,
    W: Fn(usize, usize) -> Position,
 {
    exists|refined: Option<Position>|
        {
            &&& #[trigger] is_centroid(
                temperatures,
                width,
                center,
                cold,
                gather,
                place,
                refined,
            )
            &&& match refined {
                Some(position) => fix == Some(position),
                None => fix matches Some(position) && call_ensures(
                    whole,
                    (center.0 as usize, center.1 as usize),
                    position,
                ),
            }
        }
}

/// Whether `fix` may be the first fix of a track.
pub open spec fn is_seed<I, C, A, G, P, W>(
    temperatures: Seq<u32>,
    width: int,
    inside: I,
    cold: C,
    plus: A,
    gather: G,
    place: P,
    whole: W,
    fix: Option<Position>,
) -> bool where
    I: Fn(usize, usize) -> bool,
    C: Fn(u32) -> u64,
    A: Fn(u64, u64) -> u64,
    G: Fn(Sums, u64, usize, usize) -> Sums,
    P: Fn(Sums) -> Position,
    W: Fn(usize, usize) -> Position,
 {
    let size = width / STRIDE as int;
    exists|coarse: Seq<u64>, totals: Seq<u64>|
        {
            &&& is_coarse(temperatures, width, inside, cold, coarse)
            &&& #[trigger] are_window_totals(plus, coarse, size, totals)
            &&& totals.len() == window_steps(size) * window_steps(size)
            &&& if ieee::less64(leading(totals), TRACK_MIN_WEIGHT) {
                fix is None
            } else {
                leader(totals) matches Some(j) && is_refined(
                    temperatures,
                    width,
                    window_center(size, j),
                    cold,
                    gather,
                    place,
                    whole,
                    fix,
                )
            }
        }
}

/// First fix: slide a window over the (coarsely sampled) disk and pick the
/// one holding the most cold-cloud weight, then refine to its centroid. The
/// limb and high latitudes are excluded by `inside`, which is given a column
/// and a row: limb cooling and the winter polar surface both masquerade as
/// cold cloud.
///
/// `plus` adds two weights, `whole` turns a pixel of the B13 grid into a
/// position on the 1 km grid.
pub fn seed<I, C, A, G, P, W>(
    temperatures: &[u32],
    width: usize,
    inside: &I,
    cold: &C,
    plus: &A,
    gather: &G,
    place: &P,
    whole: &W,
) -> (fix: Option<Position>) where
    I: Fn(usize, usize) -> bool,
    C: Fn(u32) -> u64,
    A: Fn(u64, u64) -> u64,
    G: Fn(Sums, u64, usize, usize) -> Sums,
    P: Fn(Sums) -> Position,
    W: Fn(usize, usize) -> Position,

    requires
        width > 0,
        width * width <= temperatures@.len(),
        can_seed(*inside, *plus, *whole, width as int),
        can_gather(*cold, *gather, *place),
    ensures
        is_seed(
            temperatures@,
            width as int,
            *inside,
            *cold,
            *plus,
            *gather,
            *place,
            *whole,
            fix,
        ),
{
    let have: usize = temperatures.len();
    proof {
        assert(width <= 0xffff_ffff) by (nonlinear_arith)
            requires
                width * width <= have,
                have <= 0xffff_ffff_ffff_ffff,
        ;
    }
    let coarse: Vec<u64> = sample_coarsely(temperatures, width, inside, cold);
    let size: usize = width / STRIDE;
    let ghost steps = window_steps(size as int);
    let ghost mut totals: Seq<u64> = Seq::empty();
    let mut best: (u64, usize, usize) = (0, 0, 0);
    let mut y: usize = 0;
    let ghost mut row: int = 0;
    proof {
        lemma_windows(size as int);
        assert(0 * steps == 0) by (nonlinear_arith);
        assert(0 <= steps * steps) by (nonlinear_arith);
    }
    while y + 32 < size
        invariant
            size == width as int / STRIDE as int,
            width <= 0xffff_ffff,
            coarse@.len() == size * size,
            steps == window_steps(size as int),
            size > 32 ==> 8 * (steps - 1) < size - 32 <= 8 * steps,
            size <= 32 ==> steps == 0,
            forall|i: int| #[trigger] window_start(i) == 8 * i,
            forall|a: u64, b: u64| #[trigger] call_requires(*plus, (a, b)),
            0 <= row <= steps,
            y == 8 * row,
            totals.len() == row * steps,
            are_window_totals(*plus, coarse@, size as int, totals),
            best.0 == leading(totals),
            leader(totals) matches Some(j) ==> best.1 == window_start(j % steps) && best.2
                == window_start(j / steps) && 0 <= j < totals.len(),
            y + 32 < size || row == steps,
        decreases size - y,
    {
        let mut x: usize = 0;
        let ghost mut column: int = 0;
        assert(row < steps);
        while x + 32 < size
            invariant
                size == width as int / STRIDE as int,
                width <= 0xffff_ffff,
                coarse@.len() == size * size,
                steps == window_steps(size as int),
                size > 32 ==> 8 * (steps - 1) < size - 32 <= 8 * steps,
                size <= 32 ==> steps == 0,
                forall|i: int| #[trigger] window_start(i) == 8 * i,
                forall|a: u64, b: u64| #[trigger] call_requires(*plus, (a, b)),
                0 <= row < steps,
                y == 8 * row,
                y + 32 < size,
                0 <= column <= steps,
                x == 8 * column,
                totals.len() == row * steps + column,
                are_window_totals(*plus, coarse@, size as int, totals),
                best.0 == leading(totals),
                leader(totals) matches Some(j) ==> best.1 == window_start(j % steps) && best.2
                    == window_start(j / steps) && 0 <= j < totals.len(),
                x + 32 < size || column == steps,
            decreases size - x,
        {
            assert(column < steps);
            let held: u64 = window_total(coarse.as_slice(), size, y, x, plus);
            let ghost before = totals;
            proof {
                grid::cell_has_place(steps, steps, row, column);
                totals = totals.push(held);
                assert(totals.drop_last() =~= before);
                assert forall|j: int| 0 <= j < totals.len() implies is_window_total(
                    *plus,
                    coarse@,
                    size as int,
                    window_start(j / steps),
                    window_start(j % steps),
                    #[trigger] totals[j],
                ) by {
                    if j < before.len() {
                        assert(totals[j] == before[j]);
                    }
                }
            }
            if ieee::is_less64(best.0, held) {
                best = (held, x, y);
            }
            x += 8;
            proof {
                column = column + 1;
            }
        }
        proof {
            assert((row + 1) * steps == row * steps + steps) by (nonlinear_arith);
            row = row + 1;
        }
        y += 8;
    }
    proof {
        assert(are_window_totals(*plus, coarse@, size as int, totals));
        assert(row == steps);
    }
    if ieee::is_less64(best.0, TRACK_MIN_WEIGHT) {
        return None;
    }
    proof {
        lemma_leading_is_a_number(totals);
        assert(ieee::less64(0, TRACK_MIN_WEIGHT));
        let j = leader(totals)->0;
        grid::place_has_cell(steps, steps, j);
        assert(8 * (j / steps) + 32 < size && 8 * (j % steps) + 32 < size);
    }
    let (column, row): (usize, usize) = ((best.1 + 16) * STRIDE, (best.2 + 16) * STRIDE);
    let refined: Option<Position> = centroid(
        temperatures,
        width,
        (column as i64, row as i64),
        cold,
        gather,
        place,
    );
    assert(window_center(size as int, leader(totals)->0) == (column as int, row as int));
    assert(is_centroid(
        temperatures@,
        width as int,
        (column as int, row as int),
        *cold,
        *gather,
        *place,
        refined,
    ));
    match refined {
        Some(position) => Some(position),
        None => Some(whole(column, row)),
    }
}

/// Whether the functions that the first fix needs can be called.
pub open spec fn can_seed<I, A, W>(inside: I, plus: A, whole: W, width: int) -> bool where
    I: Fn(usize, usize) -> bool,
    A: Fn(u64, u64) -> u64,
    W: Fn(usize, usize) -> Position,
 {
    &&& forall|x: usize, y: usize|
        x < width && y < width ==> #[trigger] call_requires(inside, (x, y))
    &&& forall|a: u64, b: u64| #[trigger] call_requires(plus, (a, b))
    &&& forall|x: usize, y: usize|
        x < width && y < width ==> #[trigger] call_requires(whole, (x, y))
}

// ---------------------------------------------------------------------------
// Following
// ---------------------------------------------------------------------------

/// Whether the pixel of a position can be searched around.
pub open spec fn can_locate<L: Fn(Position) -> (i64, i64)>(locate: L, position: Position) -> bool {
    &&& call_requires(locate, (position,))
    &&& forall|pixel: (i64, i64)| #[trigger]
        call_ensures(locate, (position,), pixel) ==> i64::MIN + 150 <= pixel.0 <= i64::MAX - 150
            && i64::MIN + 150 <= pixel.1 <= i64::MAX - 150
}

/// Whether `fix` may be the centroid around the pixel of a position.
pub open spec fn is_fix_near<L, C, G, P>(
    temperatures: Seq<u32>,
    width: int,
    position: Position,
    locate: L,
    cold: C,
    gather: G,
    place: P,
    fix: Option<Position>,
) -> bool where
    L: Fn(Position) -> (i64, i64),
    C: Fn(u32) -> u64,
    G: Fn(Sums, u64, usize, usize) -> Sums,
    P: Fn(Sums) -> Position,
 {
    exists|pixel: (i64, i64)| #[trigger]
        call_ensures(locate, (position,), pixel) && is_centroid(
            temperatures,
            width,
            (pixel.0 as int, pixel.1 as int),
            cold,
            gather,
            place,
            fix,
        )
}

/// The centroid around the pixel of a position.
fn fix_near<L, C, G, P>(
    temperatures: &[u32],
    width: usize,
    position: Position,
    locate: &L,
    cold: &C,
    gather: &G,
    place: &P,
) -> (fix: Option<Position>) where
    L: Fn(Position) -> (i64, i64),
    C: Fn(u32) -> u64,
    G: Fn(Sums, u64, usize, usize) -> Sums,
    P: Fn(Sums) -> Position,

    requires
        width > 0,
        width * width <= temperatures@.len(),
        can_locate(*locate, position),
        can_gather(*cold, *gather, *place),
    ensures
        is_fix_near(
            temperatures@,
            width as int,
            position,
            *locate,
            *cold,
            *gather,
            *place,
            fix,
        ),
{
    let pixel: (i64, i64) = locate(position);
    assert(call_ensures(*locate, (position,), pixel));
    centroid(temperatures, width, pixel, cold, gather, place)
}

/// Lock onto the cold-cloud mass nearest a user-provided seed: an unsmoothed
/// centroid fix (falling back to the seed itself), so the first frame is
/// already centered instead of easing in over several frames. `locate` gives
/// the pixel of the B13 grid that a position falls on.
pub fn acquire<L, C, G, P>(
    temperatures: &[u32],
    width: usize,
    seed: Position,
    locate: &L,
    cold: &C,
    gather: &G,
    place: &P,
) -> (position: Position) where
    L: Fn(Position) -> (i64, i64),
    C: Fn(u32) -> u64,
    G: Fn(Sums, u64, usize, usize) -> Sums,
    P: Fn(Sums) -> Position,

    requires
        width > 0,
        width * width <= temperatures@.len(),
        can_locate(*locate, seed),
        can_gather(*cold, *gather, *place),
    ensures
        exists|fix: Option<Position>| #[trigger]
            is_fix_near(
                temperatures@,
                width as int,
                seed,
                *locate,
                *cold,
                *gather,
                *place,
                fix,
            ) && position == match fix {
                Some(found) => found,
                None => seed,
            },
{
    match fix_near(temperatures, width, seed, locate, cold, gather, place) {
        Some(found) => found,
        None => seed,
    }
}

/// Whether `position` may follow on `previous`: a blend of it with the fix
/// near it, or itself where there is none.
pub open spec fn is_followed<L, C, G, P, B>(
    temperatures: Seq<u32>,
    width: int,
    previous: Position,
    locate: L,
    cold: C,
    gather: G,
    place: P,
    blend: B,
    position: Position,
) -> bool where
    L: Fn(Position) -> (i64, i64),
    C: Fn(u32) -> u64,
    G: Fn(Sums, u64, usize, usize) -> Sums,
    P: Fn(Sums) -> Position,
    B: Fn(Position, Position) -> Position,
 {
    exists|fix: Option<Position>| #[trigger]
        is_fix_near(temperatures, width, previous, locate, cold, gather, place, fix) && match fix {
            Some(found) => call_ensures(blend, (previous, found), position),
            None => position == previous,
        }
}

/// The tracker holds its position when the storm's signal drops out: where
/// the weight around it is below the minimum, however it is gathered, the
/// next position is the previous one.
pub proof fn lost_signal_holds_position<L, C, G, P, B>(
    temperatures: Seq<u32>,
    width: int,
    previous: Position,
    locate: L,
    cold: C,
    gather: G,
    place: P,
    blend: B,
    position: Position,
) where
    L: Fn(Position) -> (i64, i64),
    C: Fn(u32) -> u64,
    G: Fn(Sums, u64, usize, usize) -> Sums,
    P: Fn(Sums) -> Position,
    B: Fn(Position, Position) -> Position,

    requires
        is_followed(
            temperatures,
            width,
            previous,
            locate,
            cold,
            gather,
            place,
            blend,
            position,
        ),
        forall|pixel: (i64, i64), sums: Sums|
            call_ensures(locate, (previous,), pixel) && #[trigger] gathers_to(
                temperatures,
                width,
                cold,
                gather,
                search_cells((pixel.0 as int, pixel.1 as int), width),
                sums,
            ) ==> ieee::less64(sums.0, TRACK_MIN_WEIGHT),
    ensures
        position == previous,
{
}

/// Subsequent frames: weighted centroid within the search radius of the
/// previous fix, blended in with `blend`. Holds position when the storm's
/// signal drops out (dissipation, or a housekeeping gap upstream).
pub fn follow<L, C, G, P, B>(
    temperatures: &[u32],
    width: usize,
    previous: Position,
    locate: &L,
    cold: &C,
    gather: &G,
    place: &P,
    blend: &B,
) -> (position: Position) where
    L: Fn(Position) -> (i64, i64),
    C: Fn(u32) -> u64,
    G: Fn(Sums, u64, usize, usize) -> Sums,
    P: Fn(Sums) -> Position,
    B: Fn(Position, Position) -> Position,

    requires
        width > 0,
        width * width <= temperatures@.len(),
        can_locate(*locate, previous),
        can_gather(*cold, *gather, *place),
        forall|fix: Position| #[trigger] call_requires(*blend, (previous, fix)),
    ensures
        is_followed(
            temperatures@,
            width as int,
            previous,
            *locate,
            *cold,
            *gather,
            *place,
            *blend,
            position,
        ),
{
    match fix_near(temperatures, width, previous, locate, cold, gather, place) {
        Some(found) => blend(previous, found),
        None => previous,
    }
}

/// Advance the track by one frame: seed if this is the first fix, otherwise
/// search near the previous position. None only when seeding fails (no
/// storm-like cloud anywhere usable on the disk).
pub fn update<I, A, W, L, C, G, P, B>(
    temperatures: &[u32],
    width: usize,
    previous: Option<Position>,
    inside: &I,
    plus: &A,
    whole: &W,
    locate: &L,
    cold: &C,
    gather: &G,
    place: &P,
    blend: &B,
) -> (position: Option<Position>) where
    I: Fn(usize, usize) -> bool,
    A: Fn(u64, u64) -> u64,
    W: Fn(usize, usize) -> Position,
    L: Fn(Position) -> (i64, i64),
    C: Fn(u32) -> u64,
    G: Fn(Sums, u64, usize, usize) -> Sums,
    P: Fn(Sums) -> Position,
    B: Fn(Position, Position) -> Position,

    requires
        width > 0,
        width * width <= temperatures@.len(),
        can_gather(*cold, *gather, *place),
        previous is None ==> can_seed(*inside, *plus, *whole, width as int),
        previous matches Some(at) ==> can_locate(*locate, at),
        previous matches Some(at) ==> forall|fix: Position| #[trigger]
            call_requires(*blend, (at, fix)),
    ensures
        match previous {
            Some(at) => position matches Some(next) && is_followed(
                temperatures@,
                width as int,
                at,
                *locate,
                *cold,
                *gather,
                *place,
                *blend,
                next,
            ),
            None => is_seed(
                temperatures@,
                width as int,
                *inside,
                *cold,
                *plus,
                *gather,
                *place,
                *whole,
                position,
            ),
        },
{
    match previous {
        Some(at) => Some(
            follow(temperatures, width, at, locate, cold, gather, place, blend),
        ),
        None => seed(temperatures, width, inside, cold, plus, gather, place, whole),
    }
}

} // verus!
