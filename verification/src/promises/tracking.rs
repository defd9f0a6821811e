//! Where the coldest cloud is: what a fix weighs, and where it is sought.

use vstd::prelude::*;

use crate::grid;
use crate::ieee;
use crate::promises::sampling;
use crate::track;
use crate::track::{acquire, centroid, follow, seed, update, weight, Position, Sums};

verus! {

// ---------------------------------------------------------------------------
// Sums over boxes
// ---------------------------------------------------------------------------

/// The amounts of `n` columns of a row, from a column on.
pub open spec fn row_amount(amount: spec_fn(int, int) -> int, x: int, y: int, n: nat) -> int
    decreases n,
{
    if n == 0 {
        0
    } else {
        row_amount(amount, x, y, (n - 1) as nat) + amount(x + n - 1, y)
    }
}

/// The amounts of a box, from a column and a row on.
pub open spec fn box_amount(
    amount: spec_fn(int, int) -> int,
    x: int,
    y: int,
    wide: nat,
    high: nat,
) -> int
    decreases high,
{
    if high == 0 {
        0
    } else {
        box_amount(amount, x, y, wide, (high - 1) as nat) + row_amount(
            amount,
            x,
            y + high - 1,
            wide,
        )
    }
}

/// Whether a double-precision pattern is not a number.
pub open spec fn is_no_number(bits: u64) -> bool {
    bits as int % 0x8000_0000_0000_0000 > 0x7ff0_0000_0000_0000
}

/// Where a double-precision pattern stands among the numbers.
pub open spec fn standing(bits: u64) -> int {
    if bits < 0x8000_0000_0000_0000 {
        bits as int
    } else {
        0x8000_0000_0000_0000 - bits
    }
}

/// Whether a double-precision number is less than another.
pub open spec fn is_below(a: u64, b: u64) -> bool {
    !is_no_number(a) && !is_no_number(b) && standing(a) < standing(b)
}

proof fn lemma_below(a: u64, b: u64)
    ensures
        ieee::less64(a, b) <==> is_below(a, b),
        ieee::at_most64(a, b) <==> !is_no_number(a) && !is_no_number(b) && !is_below(b, a),
{
}

// ---------------------------------------------------------------------------
// Fixes
// ---------------------------------------------------------------------------

/// What a temperature weighs: nothing where it is not a number.
pub open spec fn weighs(cold: spec_fn(u32) -> u64, bits: u32) -> u64 {
    if sampling::is_number(bits) {
        cold(bits)
    } else {
        0
    }
}

/// A pixel weighs what its temperature does, and nothing without one.
pub proof fn pixels_weigh_what_they_are_cold<C: Fn(u32) -> u64>(bits: u32, cold: &C, amount: u64)
    requires
        call_ensures(weight::<C>, (bits, cold), amount),
    ensures
        sampling::is_number(bits) ==> call_ensures(*cold, (bits,), amount),
        !sampling::is_number(bits) ==> amount == 0,
{
    sampling::lemma_number(bits);
}

/// How the parts of a fix are measured: what a temperature weighs, what a
/// weight adds at a column and a row, and how much sums hold.
pub ghost struct Measure {
    pub cold: spec_fn(u32) -> u64,
    pub part: spec_fn(u64, usize, usize) -> int,
    pub value: spec_fn(Sums) -> int,
}

/// Whether weights are given and gathered exactly as they are measured.
pub open spec fn is_exact<C, G>(cold: C, gather: G, measure: Measure) -> bool where
    C: Fn(u32) -> u64,
    G: Fn(Sums, u64, usize, usize) -> Sums,
 {
    &&& (measure.value)((0, 0, 0)) == 0
    &&& forall|bits: u32, weight: u64|
        #[trigger] call_ensures(cold, (bits,), weight) ==> weight == (measure.cold)(bits)
    &&& forall|sums: Sums, weight: u64, x: usize, y: usize, next: Sums|
        #[trigger] call_ensures(gather, (sums, weight, x, y), next) ==> (measure.value)(next) == (
        measure.value)(sums) + (measure.part)(weight, x, y)
}

/// What the pixel at a column and a row adds to a fix.
pub open spec fn pixel_amount(
    temperatures: Seq<u32>,
    width: int,
    measure: Measure,
) -> spec_fn(int, int) -> int {
    |x: int, y: int|
        (measure.part)(
            weighs(measure.cold, temperatures[y * width + x]),
            x as usize,
            y as usize,
        )
}

/// The larger of two numbers.
pub open spec fn greatest(a: int, b: int) -> int {
    if a > b {
        a
    } else {
        b
    }
}

/// Whether sums hold every pixel within 150 of a center, each once, and no
/// other.
pub open spec fn is_gathered(
    temperatures: Seq<u32>,
    width: int,
    center: (int, int),
    measure: Measure,
    sums: Sums,
) -> bool {
    let (left, top) = (greatest(center.0 - 150, 0), greatest(center.1 - 150, 0));
    let right = sampling::least(greatest(center.0, 0) + 150, width - 1);
    let bottom = sampling::least(greatest(center.1, 0) + 150, width - 1);
    (measure.value)(sums) == if left <= right && top <= bottom {
        box_amount(
            pixel_amount(temperatures, width, measure),
            left,
            top,
            (right - left + 1) as nat,
            (bottom - top + 1) as nat,
        )
    } else {
        0
    }
}

/// Whether a fix is that around a center: none where the weight is below 500.
pub open spec fn is_fix<P: Fn(Sums) -> Position>(
    temperatures: Seq<u32>,
    width: int,
    center: (int, int),
    measure: Measure,
    place: P,
    fix: Option<Position>,
) -> bool {
    exists|sums: Sums|
        {
            &&& #[trigger] is_gathered(temperatures, width, center, measure, sums)
            &&& if is_below(sums.0, 0x407f_4000_0000_0000) {
                fix is None
            } else {
                fix matches Some(position) && call_ensures(place, (sums,), position)
            }
        }
}

spec fn cells_amount(amount: spec_fn(int, int) -> int, cells: Seq<(usize, usize)>) -> int
    decreases cells.len(),
{
    if cells.len() == 0 {
        0
    } else {
        cells_amount(amount, cells.drop_last()) + amount(
            cells.last().0 as int,
            cells.last().1 as int,
        )
    }
}

proof fn lemma_gathers<C, G>(
    temperatures: Seq<u32>,
    width: int,
    cold: C,
    gather: G,
    measure: Measure,
    cells: Seq<(usize, usize)>,
    sums: Sums,
) where C: Fn(u32) -> u64, G: Fn(Sums, u64, usize, usize) -> Sums
    requires
        is_exact(cold, gather, measure),
        track::gathers_to(temperatures, width, cold, gather, cells, sums),
    ensures
        (measure.value)(sums) == cells_amount(pixel_amount(temperatures, width, measure), cells),
    decreases cells.len(),
{
    if cells.len() > 0 {
        let (x, y) = cells.last();
        let bits = temperatures[grid::place(width, y as int, x as int)];
        let (before, weight) = choose|before: Sums, weight: u64|
            {
                &&& #[trigger] call_ensures(gather, (before, weight, x, y), sums)
                &&& track::is_weight(cold, bits, weight)
                &&& track::gathers_to(temperatures, width, cold, gather, cells.drop_last(), before)
            };
        lemma_gathers(temperatures, width, cold, gather, measure, cells.drop_last(), before);
        sampling::lemma_number(bits);
        assert(weight == weighs(measure.cold, bits));
    }
}

proof fn lemma_box(
    amount: spec_fn(int, int) -> int,
    x0: int,
    y0: int,
    x1: int,
    y1: int,
    k: int,
)
    requires
        0 <= x0 <= x1 < usize::MAX,
        0 <= y0 <= y1 < usize::MAX,
        0 <= k <= (y1 + 1 - y0) * (x1 + 1 - x0),
    ensures
        ({
            let wide = x1 + 1 - x0;
            cells_amount(amount, track::box_cells(x0, y0, x1, y1).take(k)) == box_amount(
                amount,
                x0,
                y0,
                wide as nat,
                (k / wide) as nat,
            ) + row_amount(amount, x0, y0 + k / wide, (k % wide) as nat)
        }),
    decreases k,
{
    let (wide, high) = (x1 + 1 - x0, y1 + 1 - y0);
    let cells = track::box_cells(x0, y0, x1, y1);
    assert(0 <= high * wide) by (nonlinear_arith)
        requires
            wide > 0,
            high > 0,
    ;
    if k > 0 {
        let i = k - 1;
        lemma_box(amount, x0, y0, x1, y1, i);
        grid::place_has_cell(wide, high, i);
        assert(cells.take(k).drop_last() =~= cells.take(i));
        let (row, column) = (i / wide, i % wide);
        assert(cells[i] == ((x0 + column) as usize, (y0 + row) as usize));
        if column + 1 < wide {
            grid::cell_has_place(wide, high, row, column + 1);
            assert(k / wide == row && k % wide == column + 1);
        } else {
            assert(k == (row + 1) * wide) by (nonlinear_arith)
                requires
                    k == row * wide + column + 1,
                    column + 1 == wide,
            ;
            vstd::arithmetic::div_mod::lemma_fundamental_div_mod_converse(k, wide, row + 1, 0);
            assert(k / wide == row + 1 && k % wide == 0);
            assert(y0 + (row + 1) - 1 == y0 + row);
        }
    } else {
        vstd::arithmetic::div_mod::lemma_fundamental_div_mod_converse(0, wide, 0, 0);
    }
}

proof fn lemma_fix<C, G, P>(
    temperatures: Seq<u32>,
    width: int,
    center: (int, int),
    cold: C,
    gather: G,
    place: P,
    measure: Measure,
    fix: Option<Position>,
) where
    C: Fn(u32) -> u64,
    G: Fn(Sums, u64, usize, usize) -> Sums,
    P: Fn(Sums) -> Position,

    requires
        0 < width <= usize::MAX,
        is_exact(cold, gather, measure),
        track::is_centroid(temperatures, width, center, cold, gather, place, fix),
    ensures
        is_fix(temperatures, width, center, measure, place, fix),
{
    let cells = track::search_cells(center, width);
    let sums = choose|sums: Sums|
        {
            &&& #[trigger] track::gathers_to(temperatures, width, cold, gather, cells, sums)
            &&& if ieee::less64(sums.0, crate::tuning::TRACK_MIN_WEIGHT) {
                fix is None
            } else {
                fix matches Some(position) && call_ensures(place, (sums,), position)
            }
        };
    lemma_gathers(temperatures, width, cold, gather, measure, cells, sums);
    lemma_below(sums.0, 0x407f_4000_0000_0000);
    let (left, top) = (greatest(center.0 - 150, 0), greatest(center.1 - 150, 0));
    let right = sampling::least(greatest(center.0, 0) + 150, width - 1);
    let bottom = sampling::least(greatest(center.1, 0) + 150, width - 1);
    assert(cells == track::box_cells(left, top, right, bottom));
    if left <= right && top <= bottom {
        let amount = pixel_amount(temperatures, width, measure);
        let (wide, high) = (right + 1 - left, bottom + 1 - top);
        assert(0 <= high * wide) by (nonlinear_arith)
            requires
                wide > 0,
                high > 0,
        ;
        lemma_box(amount, left, top, right, bottom, high * wide);
        assert(cells.take(high * wide) =~= cells);
        vstd::arithmetic::div_mod::lemma_fundamental_div_mod_converse(high * wide, wide, high, 0);
    }
    assert(is_gathered(temperatures, width, center, measure, sums));
}

/// A centroid is placed with the weights of every pixel within 150 of its
/// center, and there is none where they are less than 500 together.
pub proof fn fixes_weigh_the_whole_neighborhood<C, G, P>(
    temperatures: &[u32],
    width: usize,
    center: (i64, i64),
    cold: &C,
    gather: &G,
    place: &P,
    measure: Measure,
    fix: Option<Position>,
) where
    C: Fn(u32) -> u64,
    G: Fn(Sums, u64, usize, usize) -> Sums,
    P: Fn(Sums) -> Position,

    requires
        call_ensures(
            centroid::<C, G, P>,
            (temperatures, width, center, cold, gather, place),
            fix,
        ),
        width > 0,
        is_exact(*cold, *gather, measure),
    ensures
        is_fix(
            temperatures@,
            width as int,
            (center.0 as int, center.1 as int),
            measure,
            *place,
            fix,
        ),
{
    lemma_fix(
        temperatures@,
        width as int,
        (center.0 as int, center.1 as int),
        *cold,
        *gather,
        *place,
        measure,
        fix,
    );
}

/// Whether a fix is that around a position.
pub open spec fn is_fix_around<L, P>(
    temperatures: Seq<u32>,
    width: int,
    position: Position,
    locate: L,
    measure: Measure,
    place: P,
    fix: Option<Position>,
) -> bool where L: Fn(Position) -> (i64, i64), P: Fn(Sums) -> Position {
    exists|pixel: (i64, i64)| #[trigger]
        call_ensures(locate, (position,), pixel) && is_fix(
            temperatures,
            width,
            (pixel.0 as int, pixel.1 as int),
            measure,
            place,
            fix,
        )
}

proof fn lemma_fix_around<L, C, G, P>(
    temperatures: Seq<u32>,
    width: int,
    position: Position,
    locate: L,
    cold: C,
    gather: G,
    place: P,
    measure: Measure,
    fix: Option<Position>,
) where
    L: Fn(Position) -> (i64, i64),
    C: Fn(u32) -> u64,
    G: Fn(Sums, u64, usize, usize) -> Sums,
    P: Fn(Sums) -> Position,

    requires
        0 < width <= usize::MAX,
        is_exact(cold, gather, measure),
        track::is_fix_near(temperatures, width, position, locate, cold, gather, place, fix),
    ensures
        is_fix_around(temperatures, width, position, locate, measure, place, fix),
{
    let pixel = choose|pixel: (i64, i64)| #[trigger]
        call_ensures(locate, (position,), pixel) && track::is_centroid(
            temperatures,
            width,
            (pixel.0 as int, pixel.1 as int),
            cold,
            gather,
            place,
            fix,
        );
    lemma_fix(
        temperatures,
        width,
        (pixel.0 as int, pixel.1 as int),
        cold,
        gather,
        place,
        measure,
        fix,
    );
    assert(call_ensures(locate, (position,), pixel));
}

/// The first position is the fix around the seed, and the seed where there is
/// none.
pub proof fn seeds_are_acquired<L, C, G, P>(
    temperatures: &[u32],
    width: usize,
    start: Position,
    locate: &L,
    cold: &C,
    gather: &G,
    place: &P,
    measure: Measure,
    position: Position,
) where
    L: Fn(Position) -> (i64, i64),
    C: Fn(u32) -> u64,
    G: Fn(Sums, u64, usize, usize) -> Sums,
    P: Fn(Sums) -> Position,

    requires
        call_ensures(
            acquire::<L, C, G, P>,
            (temperatures, width, start, locate, cold, gather, place),
            position,
        ),
        width > 0,
        is_exact(*cold, *gather, measure),
    ensures
        is_fix_around(
            temperatures@,
            width as int,
            start,
            *locate,
            measure,
            *place,
            Some(position),
        ) || is_fix_around(temperatures@, width as int, start, *locate, measure, *place, None)
            && position == start,
{
    let fix = choose|fix: Option<Position>| #[trigger]
        track::is_fix_near(
            temperatures@,
            width as int,
            start,
            *locate,
            *cold,
            *gather,
            *place,
            fix,
        ) && position == match fix {
            Some(found) => found,
            None => start,
        };
    lemma_fix_around(
        temperatures@,
        width as int,
        start,
        *locate,
        *cold,
        *gather,
        *place,
        measure,
        fix,
    );
}

/// Whether a position follows another: a blend of it and of the fix around
/// it, or the same where there is none.
pub open spec fn follows<L, P, B>(
    temperatures: Seq<u32>,
    width: int,
    previous: Position,
    locate: L,
    measure: Measure,
    place: P,
    blend: B,
    position: Position,
) -> bool where
    L: Fn(Position) -> (i64, i64),
    P: Fn(Sums) -> Position,
    B: Fn(Position, Position) -> Position,
 {
    exists|fix: Option<Position>|
        #[trigger] is_fix_around(temperatures, width, previous, locate, measure, place, fix)
            && match fix {
            Some(found) => call_ensures(blend, (previous, found), position),
            None => position == previous,
        }
}

proof fn lemma_follows<L, C, G, P, B>(
    temperatures: Seq<u32>,
    width: int,
    previous: Position,
    locate: L,
    cold: C,
    gather: G,
    place: P,
    blend: B,
    measure: Measure,
    position: Position,
) where
    L: Fn(Position) -> (i64, i64),
    C: Fn(u32) -> u64,
    G: Fn(Sums, u64, usize, usize) -> Sums,
    P: Fn(Sums) -> Position,
    B: Fn(Position, Position) -> Position,

    requires
        0 < width <= usize::MAX,
        is_exact(cold, gather, measure),
        track::is_followed(
            temperatures,
            width,
            previous,
            locate,
            cold,
            gather,
            place,
            blend,
            position,
        ),
    ensures
        follows(temperatures, width, previous, locate, measure, place, blend, position),
{
    let fix = choose|fix: Option<Position>| #[trigger]
        track::is_fix_near(temperatures, width, previous, locate, cold, gather, place, fix)
            && match fix {
            Some(found) => call_ensures(blend, (previous, found), position),
            None => position == previous,
        };
    lemma_fix_around(
        temperatures,
        width,
        previous,
        locate,
        cold,
        gather,
        place,
        measure,
        fix,
    );
}

/// A position follows the one before it.
pub proof fn positions_follow_each_other<L, C, G, P, B>(
    temperatures: &[u32],
    width: usize,
    previous: Position,
    locate: &L,
    cold: &C,
    gather: &G,
    place: &P,
    blend: &B,
    measure: Measure,
    position: Position,
) where
    L: Fn(Position) -> (i64, i64),
    C: Fn(u32) -> u64,
    G: Fn(Sums, u64, usize, usize) -> Sums,
    P: Fn(Sums) -> Position,
    B: Fn(Position, Position) -> Position,

    requires
        call_ensures(
            follow::<L, C, G, P, B>,
            (temperatures, width, previous, locate, cold, gather, place, blend),
            position,
        ),
        width > 0,
        is_exact(*cold, *gather, measure),
    ensures
        follows(
            temperatures@,
            width as int,
            previous,
            *locate,
            measure,
            *place,
            *blend,
            position,
        ),
{
    lemma_follows(
        temperatures@,
        width as int,
        previous,
        *locate,
        *cold,
        *gather,
        *place,
        *blend,
        measure,
        position,
    );
}

// ---------------------------------------------------------------------------
// Seeds
// ---------------------------------------------------------------------------

/// Whether a weight is that of every eighth pixel: nothing outside the area.
pub open spec fn is_coarse_cell<I: Fn(usize, usize) -> bool>(
    temperatures: Seq<u32>,
    width: int,
    inside: I,
    measure: Measure,
    x: int,
    y: int,
    weight: u64,
) -> bool {
    exists|near: bool| #[trigger]
        call_ensures(inside, ((8 * x) as usize, (8 * y) as usize), near) && weight == if near {
            weighs(measure.cold, temperatures[8 * y * width + 8 * x])
        } else {
            0
        }
}

/// Whether weights are those of every eighth pixel of every eighth row.
pub open spec fn are_coarse<I: Fn(usize, usize) -> bool>(
    temperatures: Seq<u32>,
    width: int,
    inside: I,
    measure: Measure,
    coarse: Seq<u64>,
) -> bool {
    let size = width / 8;
    &&& coarse.len() == size * size
    &&& forall|x: int, y: int|
        0 <= x < size && 0 <= y < size ==> is_coarse_cell(
            temperatures,
            width,
            inside,
            measure,
            x,
            y,
            #[trigger] coarse[y * size + x],
        )
}

/// Whether totals are those of the windows of 32 by 32, each 8 after the one
/// before it.
pub open spec fn are_totals(
    coarse: Seq<u64>,
    size: int,
    value: spec_fn(u64) -> int,
    n: int,
    totals: Seq<u64>,
) -> bool {
    &&& n >= 0
    &&& forall|i: int| i >= 0 ==> (i < n <==> #[trigger] (8 * i) + 32 < size)
    &&& totals.len() == n * n
    &&& forall|i: int, j: int|
        0 <= i < n && 0 <= j < n ==> value(#[trigger] totals[i * n + j]) == box_amount(
            |x: int, y: int| value(coarse[y * size + x]),
            8 * j,
            8 * i,
            32,
            32,
        )
}

/// Whether a total is the greatest, and the first of those.
pub open spec fn is_first_greatest(totals: Seq<u64>, k: int) -> bool {
    &&& 0 <= k < totals.len()
    &&& forall|j: int| 0 <= j < totals.len() ==> !is_below(totals[k], #[trigger] totals[j])
    &&& forall|j: int|
        0 <= j < k ==> is_no_number(#[trigger] totals[j]) || is_below(totals[j], totals[k])
}

/// Whether a total is enough for a fix: 500.
pub open spec fn is_enough(total: u64) -> bool {
    !is_no_number(total) && !is_below(total, 0x407f_4000_0000_0000)
}

/// Whether a fix is that in the first of the greatest windows: around its
/// middle, or the middle itself. There is none where no window is enough.
pub open spec fn is_first_fix<I, P, W>(
    temperatures: Seq<u32>,
    width: int,
    inside: I,
    measure: Measure,
    value: spec_fn(u64) -> int,
    place: P,
    whole: W,
    fix: Option<Position>,
) -> bool where
    I: Fn(usize, usize) -> bool,
    P: Fn(Sums) -> Position,
    W: Fn(usize, usize) -> Position,
 {
    exists|coarse: Seq<u64>, n: int, totals: Seq<u64>|
        {
            &&& are_coarse(temperatures, width, inside, measure, coarse)
            &&& #[trigger] are_totals(coarse, width / 8, value, n, totals)
            &&& if forall|k: int| 0 <= k < totals.len() ==> !is_enough(#[trigger] totals[k]) {
                fix is None
            } else {
                exists|k: int|
                    {
                        &&& #[trigger] is_first_greatest(totals, k)
                        &&& is_enough(totals[k])
                        &&& is_fix_or_middle(
                            temperatures,
                            width,
                            (64 * (k % n) + 128, 64 * (k / n) + 128),
                            measure,
                            place,
                            whole,
                            fix,
                        )
                    }
            }
        }
}

/// Whether a fix is that around a pixel, or the pixel itself.
pub open spec fn is_fix_or_middle<P, W>(
    temperatures: Seq<u32>,
    width: int,
    middle: (int, int),
    measure: Measure,
    place: P,
    whole: W,
    fix: Option<Position>,
) -> bool where P: Fn(Sums) -> Position, W: Fn(usize, usize) -> Position {
    fix matches Some(position) && {
        ||| is_fix(temperatures, width, middle, measure, place, fix)
        ||| is_fix(temperatures, width, middle, measure, place, None) && call_ensures(
            whole,
            (middle.0 as usize, middle.1 as usize),
            position,
        )
    }
}

/// Whether double-precision numbers are added up exactly under a reading.
pub open spec fn adds_up<A: Fn(u64, u64) -> u64>(plus: A, value: spec_fn(u64) -> int) -> bool {
    &&& value(0) == 0
    &&& forall|a: u64, b: u64, sum: u64|
        #[trigger] call_ensures(plus, (a, b), sum) ==> value(sum) == value(a) + value(b)
}

proof fn lemma_coarse<I, C>(
    temperatures: Seq<u32>,
    width: int,
    inside: I,
    cold: C,
    measure: Measure,
    coarse: Seq<u64>,
) where I: Fn(usize, usize) -> bool, C: Fn(u32) -> u64
    requires
        0 < width <= usize::MAX,
        forall|bits: u32, weight: u64|
            #[trigger] call_ensures(cold, (bits,), weight) ==> weight == (measure.cold)(bits),
        track::is_coarse(temperatures, width, inside, cold, coarse),
    ensures
        are_coarse(temperatures, width, inside, measure, coarse),
{
    let size = width / 8;
    assert forall|x: int, y: int| 0 <= x < size && 0 <= y < size implies is_coarse_cell(
        temperatures,
        width,
        inside,
        measure,
        x,
        y,
        #[trigger] coarse[y * size + x],
    ) by {
        let i = y * size + x;
        grid::cell_has_place(size, size, y, x);
        let weight = coarse[i];
        assert(track::is_coarse_weight(
            temperatures,
            width,
            inside,
            cold,
            i / size,
            i % size,
            weight,
        ));
        let near = choose|near: bool|
            {
                &&& #[trigger] call_ensures(inside, ((x * 8) as usize, (y * 8) as usize), near)
                &&& if near {
                    track::is_weight(
                        cold,
                        temperatures[grid::place(width, y * 8, x * 8)],
                        weight,
                    )
                } else {
                    weight == 0
                }
            };
        let bits = temperatures[grid::place(width, y * 8, x * 8)];
        sampling::lemma_number(bits);
        assert(call_ensures(inside, ((8 * x) as usize, (8 * y) as usize), near));
        assert(8 * y * width + 8 * x == grid::place(width, y * 8, x * 8));
    }
}

spec fn numbers_amount(value: spec_fn(u64) -> int, numbers: Seq<u64>) -> int
    decreases numbers.len(),
{
    if numbers.len() == 0 {
        0
    } else {
        numbers_amount(value, numbers.drop_last()) + value(numbers.last())
    }
}

proof fn lemma_totals<A: Fn(u64, u64) -> u64>(
    plus: A,
    value: spec_fn(u64) -> int,
    numbers: Seq<u64>,
    total: u64,
)
    requires
        adds_up(plus, value),
        track::totals_to(plus, numbers, total),
    ensures
        value(total) == numbers_amount(value, numbers),
    decreases numbers.len(),
{
    if numbers.len() > 0 {
        let before = choose|before: u64|
            #[trigger] call_ensures(plus, (before, numbers.last()), total) && track::totals_to(
                plus,
                numbers.drop_last(),
                before,
            );
        lemma_totals(plus, value, numbers.drop_last(), before);
    }
}

proof fn lemma_row(
    value: spec_fn(u64) -> int,
    coarse: Seq<u64>,
    size: int,
    x: int,
    y: int,
    n: nat,
)
    requires
        0 <= y * size + x,
        y * size + x + n <= coarse.len(),
    ensures
        numbers_amount(value, coarse.subrange(y * size + x, y * size + x + n)) == row_amount(
            |x: int, y: int| value(coarse[y * size + x]),
            x,
            y,
            n,
        ),
    decreases n,
{
    if n > 0 {
        lemma_row(value, coarse, size, x, y, (n - 1) as nat);
        let start = y * size + x;
        assert(coarse.subrange(start, start + n).drop_last() =~= coarse.subrange(
            start,
            start + n - 1,
        ));
        assert(y * size + (x + n - 1) == start + n - 1);
    }
}

proof fn lemma_rows<A: Fn(u64, u64) -> u64>(
    plus: A,
    value: spec_fn(u64) -> int,
    coarse: Seq<u64>,
    size: int,
    x: int,
    y: int,
    rows: Seq<u64>,
    n: nat,
)
    requires
        adds_up(plus, value),
        coarse.len() == size * size,
        0 <= x,
        0 <= y,
        x + 32 <= size,
        y + 32 <= size,
        track::are_row_totals(plus, coarse, size, y, x, rows),
        n <= rows.len() <= 32,
    ensures
        numbers_amount(value, rows.take(n as int)) == box_amount(
            |x: int, y: int| value(coarse[y * size + x]),
            x,
            y,
            32,
            n,
        ),
    decreases n,
{
    if n > 0 {
        let k = n - 1;
        lemma_rows(plus, value, coarse, size, x, y, rows, k as nat);
        assert(rows.take(n as int).drop_last() =~= rows.take(k));
        let start = grid::place(size, y + k, x);
        assert(track::totals_to(plus, coarse.subrange(start, start + 32), rows[k]));
        lemma_totals(plus, value, coarse.subrange(start, start + 32), rows[k]);
        assert(0 <= (y + k) * size && (y + k) * size + size <= size * size) by (nonlinear_arith)
            requires
                0 <= y + k < size,
        ;
        lemma_row(value, coarse, size, x, y + k, 32);
        assert(y + n - 1 == y + k);
    }
}

proof fn lemma_window<A: Fn(u64, u64) -> u64>(
    plus: A,
    value: spec_fn(u64) -> int,
    coarse: Seq<u64>,
    size: int,
    x: int,
    y: int,
    total: u64,
)
    requires
        adds_up(plus, value),
        coarse.len() == size * size,
        0 <= x,
        0 <= y,
        x + 32 <= size,
        y + 32 <= size,
        track::is_window_total(plus, coarse, size, y, x, total),
    ensures
        value(total) == box_amount(
            |x: int, y: int| value(coarse[y * size + x]),
            x,
            y,
            32,
            32,
        ),
{
    let rows = choose|rows: Seq<u64>|
        #[trigger] track::are_row_totals(plus, coarse, size, y, x, rows) && rows.len()
            == track::window_side() && track::totals_to(plus, rows, total);
    lemma_totals(plus, value, rows, total);
    lemma_rows(plus, value, coarse, size, x, y, rows, 32);
    assert(rows.take(32) =~= rows);
}

proof fn lemma_window_start(i: int)
    ensures
        track::window_start(i) == 8 * i,
{
    let step = track::window_side() / 4;
    assert(step == 8);
    assert(i * step == 8 * i) by (nonlinear_arith)
        requires
            step == 8,
    ;
}

proof fn lemma_window_totals<A: Fn(u64, u64) -> u64>(
    plus: A,
    value: spec_fn(u64) -> int,
    coarse: Seq<u64>,
    size: int,
    totals: Seq<u64>,
)
    requires
        adds_up(plus, value),
        0 <= size,
        coarse.len() == size * size,
        track::are_window_totals(plus, coarse, size, totals),
        totals.len() == track::window_steps(size) * track::window_steps(size),
    ensures
        are_totals(coarse, size, value, track::window_steps(size), totals),
{
    let n = track::window_steps(size);
    assert forall|i: int, j: int| 0 <= i < n && 0 <= j < n implies value(
        #[trigger] totals[i * n + j],
    ) == box_amount(|x: int, y: int| value(coarse[y * size + x]), 8 * j, 8 * i, 32, 32) by {
        let k = i * n + j;
        grid::cell_has_place(n, n, i, j);
        assert(track::is_window_total(
            plus,
            coarse,
            size,
            track::window_start(k / n),
            track::window_start(k % n),
            totals[k],
        ));
        assert(track::window_side() == 32);
        lemma_window_start(i);
        lemma_window_start(j);
        assert(k / n == i && k % n == j);
        lemma_window(plus, value, coarse, size, 8 * j, 8 * i, totals[k]);
    }
}

proof fn lemma_leader(totals: Seq<u64>)
    ensures
        ieee::less64(track::leading(totals), 0x407f_4000_0000_0000) <==> forall|k: int|
            0 <= k < totals.len() ==> !is_enough(#[trigger] totals[k]),
        track::leader(totals) matches Some(k) ==> is_first_greatest(totals, k) && totals[k]
            == track::leading(totals),
        track::leader(totals) is None ==> track::leading(totals) == 0,
        !ieee::nan64(track::leading(totals)),
{
    lemma_leading_is_number(totals);
    let top = track::leading(totals);
    assert forall|j: int| 0 <= j < totals.len() implies !ieee::less64(top, #[trigger] totals[j]) by {
        track::leader_is_first_greatest(totals, j);
    }
    lemma_below(top, 0x407f_4000_0000_0000);
    if let Some(k) = track::leader(totals) {
        lemma_leader_place(totals);
        assert(totals[k] == top);
        assert forall|j: int| 0 <= j < totals.len() implies !is_below(
            totals[k],
            #[trigger] totals[j],
        ) by {
            lemma_below(top, totals[j]);
        }
        assert forall|j: int| 0 <= j < k implies is_no_number(#[trigger] totals[j]) || is_below(
            totals[j],
            totals[k],
        ) by {
            track::leader_is_first_greatest(totals, j);
            lemma_below(top, totals[j]);
        }
        if !ieee::less64(top, 0x407f_4000_0000_0000) {
            assert(is_enough(totals[k]));
        }
    } else {
        lemma_leader_place(totals);
    }
    if ieee::less64(top, 0x407f_4000_0000_0000) {
        assert forall|j: int| 0 <= j < totals.len() implies !is_enough(#[trigger] totals[j]) by {
            lemma_below(top, totals[j]);
        }
    }
}

proof fn lemma_leader_place(totals: Seq<u64>)
    ensures
        track::leader(totals) matches Some(k) ==> 0 <= k < totals.len() && totals[k]
            == track::leading(totals),
        track::leader(totals) is None ==> track::leading(totals) == 0,
    decreases totals.len(),
{
    if totals.len() > 0 {
        lemma_leader_place(totals.drop_last());
    }
}

proof fn lemma_leading_is_number(totals: Seq<u64>)
    ensures
        !ieee::nan64(track::leading(totals)),
    decreases totals.len(),
{
    if totals.len() > 0 {
        lemma_leading_is_number(totals.drop_last());
    }
}

proof fn lemma_first_fix<I, C, A, G, P, W>(
    temperatures: Seq<u32>,
    width: int,
    inside: I,
    cold: C,
    plus: A,
    gather: G,
    place: P,
    whole: W,
    measure: Measure,
    value: spec_fn(u64) -> int,
    fix: Option<Position>,
) where
    I: Fn(usize, usize) -> bool,
    C: Fn(u32) -> u64,
    A: Fn(u64, u64) -> u64,
    G: Fn(Sums, u64, usize, usize) -> Sums,
    P: Fn(Sums) -> Position,
    W: Fn(usize, usize) -> Position,

    requires
        0 < width <= usize::MAX,
        is_exact(cold, gather, measure),
        adds_up(plus, value),
        track::is_seed(
            temperatures,
            width,
            inside,
            cold,
            plus,
            gather,
            place,
            whole,
            fix,
        ),
    ensures
        is_first_fix(temperatures, width, inside, measure, value, place, whole, fix),
{
    let size = width / 8;
    let n = track::window_steps(size);
    let (coarse, totals) = choose|coarse: Seq<u64>, totals: Seq<u64>|
        {
            &&& track::is_coarse(temperatures, width, inside, cold, coarse)
            &&& #[trigger] track::are_window_totals(plus, coarse, size, totals)
            &&& totals.len() == n * n
            &&& if ieee::less64(track::leading(totals), crate::tuning::TRACK_MIN_WEIGHT) {
                fix is None
            } else {
                track::leader(totals) matches Some(j) && track::is_refined(
                    temperatures,
                    width,
                    track::window_center(size, j),
                    cold,
                    gather,
                    place,
                    whole,
                    fix,
                )
            }
        };
    lemma_coarse(temperatures, width, inside, cold, measure, coarse);
    lemma_window_totals(plus, value, coarse, size, totals);
    lemma_leader(totals);
    if !ieee::less64(track::leading(totals), crate::tuning::TRACK_MIN_WEIGHT) {
        let k = track::leader(totals)->Some_0;
        let middle = track::window_center(size, k);
        assert(middle == (64 * (k % n) + 128, 64 * (k / n) + 128));
        let refined = choose|refined: Option<Position>|
            {
                &&& #[trigger] track::is_centroid(
                    temperatures,
                    width,
                    middle,
                    cold,
                    gather,
                    place,
                    refined,
                )
                &&& match refined {
                    Some(position) => fix == Some(position),
                    None => fix matches Some(position) && call_ensures(
                        whole,
                        (middle.0 as usize, middle.1 as usize),
                        position,
                    ),
                }
            };
        lemma_fix(temperatures, width, middle, cold, gather, place, measure, refined);
        lemma_below(totals[k], 0x407f_4000_0000_0000);
        assert(is_first_greatest(totals, k) && is_enough(totals[k]));
        assert(is_fix_or_middle(temperatures, width, middle, measure, place, whole, fix));
    }
    assert(are_totals(coarse, size, value, n, totals));
}

/// The track starts in the window with the most cold cloud.
pub proof fn the_coldest_window_is_the_seed<I, C, A, G, P, W>(
    temperatures: &[u32],
    width: usize,
    inside: &I,
    cold: &C,
    plus: &A,
    gather: &G,
    place: &P,
    whole: &W,
    measure: Measure,
    value: spec_fn(u64) -> int,
    fix: Option<Position>,
) where
    I: Fn(usize, usize) -> bool,
    C: Fn(u32) -> u64,
    A: Fn(u64, u64) -> u64,
    G: Fn(Sums, u64, usize, usize) -> Sums,
    P: Fn(Sums) -> Position,
    W: Fn(usize, usize) -> Position,

    requires
        call_ensures(
            seed::<I, C, A, G, P, W>,
            (temperatures, width, inside, cold, plus, gather, place, whole),
            fix,
        ),
        width > 0,
        is_exact(*cold, *gather, measure),
        adds_up(*plus, value),
    ensures
        is_first_fix(
            temperatures@,
            width as int,
            *inside,
            measure,
            value,
            *place,
            *whole,
            fix,
        ),
{
    lemma_first_fix(
        temperatures@,
        width as int,
        *inside,
        *cold,
        *plus,
        *gather,
        *place,
        *whole,
        measure,
        value,
        fix,
    );
}

/// A track starts with the coldest window, and then each position follows the
/// one before it.
pub proof fn tracks_start_once<I, A, W, L, C, G, P, B>(
    temperatures: &[u32],
    width: usize,
    previous: Option<Position>,
    inside: &I,
    plus: &A,
    whole: &W,
    locate: &L,
    cold: &C,
    gather: &G,
    place: &P,
    blend: &B,
    measure: Measure,
    value: spec_fn(u64) -> int,
    position: Option<Position>,
) where
    I: Fn(usize, usize) -> bool,
    A: Fn(u64, u64) -> u64,
    W: Fn(usize, usize) -> Position,
    L: Fn(Position) -> (i64, i64),
    C: Fn(u32) -> u64,
    G: Fn(Sums, u64, usize, usize) -> Sums,
    P: Fn(Sums) -> Position,
    B: Fn(Position, Position) -> Position,

    requires
        call_ensures(
            update::<I, A, W, L, C, G, P, B>,
            (
                temperatures,
                width,
                previous,
                inside,
                plus,
                whole,
                locate,
                cold,
                gather,
                place,
                blend,
            ),
            position,
        ),
        width > 0,
        is_exact(*cold, *gather, measure),
        adds_up(*plus, value),
    ensures
        match previous {
            Some(at) => position matches Some(next) && follows(
                temperatures@,
                width as int,
                at,
                *locate,
                measure,
                *place,
                *blend,
                next,
            ),
            None => is_first_fix(
                temperatures@,
                width as int,
                *inside,
                measure,
                value,
                *place,
                *whole,
                position,
            ),
        },
{
    if let Some(at) = previous {
        lemma_follows(
            temperatures@,
            width as int,
            at,
            *locate,
            *cold,
            *gather,
            *place,
            *blend,
            measure,
            position->Some_0,
        );
    } else {
        lemma_first_fix(
            temperatures@,
            width as int,
            *inside,
            *cold,
            *plus,
            *gather,
            *place,
            *whole,
            measure,
            value,
            position,
        );
    }
}

} // verus!
