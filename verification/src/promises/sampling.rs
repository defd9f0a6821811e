//! Bilinear samples of a grid.

use vstd::prelude::*;

use crate::compose;
use crate::ieee;
use crate::render::Quad;
use crate::sandwich;
use crate::sandwich::sample_bilinear;

verus! {

/// Whether a single-precision pattern is a finite number: its exponent is not
/// the largest one.
pub open spec fn is_number(bits: u32) -> bool {
    bits as int / 0x80_0000 % 0x100 < 0xff
}

/// Whether a single-precision pattern is a number above zero, or infinity.
pub open spec fn is_positive(bits: u32) -> bool {
    0 < bits <= 0x7f80_0000
}

/// An exact reading of single-precision patterns: zero is zero, and positive
/// patterns are positive.
pub open spec fn is_reading(value: spec_fn(u32) -> int) -> bool {
    &&& value(0) == 0
    &&& forall|bits: u32| #[trigger] value(bits) > 0 <==> is_positive(bits)
}

/// Whether weighted values are added up exactly under a reading.
pub open spec fn adds_up<M>(mix: M, value: spec_fn(u32) -> int) -> bool where
    M: Fn((u32, u32), (u32, u32)) -> (u32, u32),
 {
    forall|total: (u32, u32), tap: (u32, u32), next: (u32, u32)|
        #[trigger] call_ensures(mix, (total, tap), next) ==> value(next.0) == value(total.0)
            + value(tap.0) * value(tap.1) && value(next.1) == value(total.1) + value(tap.1)
}

/// The temperature of a grid at a column and a row.
pub open spec fn at(temperatures: Seq<u32>, width: int, x: int, y: int) -> u32 {
    temperatures[y * width + x]
}

/// What a neighbor adds to a weighted sum: nothing where it is not a number.
pub open spec fn share(bits: u32, amount: int) -> int {
    if is_number(bits) {
        amount
    } else {
        0
    }
}

/// The smaller of two numbers.
pub open spec fn least(a: int, b: int) -> int {
    if a < b {
        a
    } else {
        b
    }
}

proof fn lemma_mixes_add_up<M>(
    mix: M,
    value: spec_fn(u32) -> int,
    taps: Seq<(u32, u32)>,
    total: (u32, u32),
) where M: Fn((u32, u32), (u32, u32)) -> (u32, u32)
    requires
        value(0) == 0,
        adds_up(mix, value),
        sandwich::mixes_to(mix, taps, total),
    ensures
        value(total.0) == taps.map_values(
            |tap: (u32, u32)| value(tap.0) * value(tap.1),
        ).fold_left(0, |a: int, b: int| a + b),
        value(total.1) == taps.map_values(|tap: (u32, u32)| value(tap.1)).fold_left(
            0,
            |a: int, b: int| a + b,
        ),
    decreases taps.len(),
{
    let plus = |a: int, b: int| a + b;
    let product = |tap: (u32, u32)| value(tap.0) * value(tap.1);
    let weight = |tap: (u32, u32)| value(tap.1);
    if taps.len() > 0 {
        let rest = taps.drop_last();
        let before = choose|before: (u32, u32)|
            #[trigger] call_ensures(mix, (before, taps.last()), total) && sandwich::mixes_to(
                mix,
                rest,
                before,
            );
        lemma_mixes_add_up(mix, value, rest, before);
        assert(taps.map_values(product).drop_last() =~= rest.map_values(product));
        assert(taps.map_values(weight).drop_last() =~= rest.map_values(weight));
    }
}

/// Whether weighted sums are divided exactly under a reading.
pub open spec fn divides<D: Fn(u32, u32) -> u32>(divide: D, value: spec_fn(u32) -> int) -> bool {
    forall|sum: u32, weight: u32, mean: u32|
        #[trigger] call_ensures(divide, (sum, weight), mean) ==> value(mean) * value(weight)
            == value(sum)
}

/// Whether a sample is the mean of the four pixels around a position, each
/// with its weight: the pixel at the position, the one right of it, the one
/// below, and the one below right; past the edge they are those at the edge.
/// What is not a number is left out, and where no weight is left there is no
/// sample.
pub open spec fn is_mean(
    temperatures: Seq<u32>,
    width: usize,
    x0: usize,
    y0: usize,
    weights: Quad<u32>,
    value: spec_fn(u32) -> int,
    bits: u32,
) -> bool {
    let (w, h) = (width as int, temperatures.len() as int / width as int);
    let (x1, y1) = (least(x0 + 1, w - 1), least(y0 + 1, h - 1));
    let a = at(temperatures, w, x0 as int, y0 as int);
    let b = at(temperatures, w, x1, y0 as int);
    let c = at(temperatures, w, x0 as int, y1);
    let d = at(temperatures, w, x1, y1);
    let weight = share(a, value(weights.0)) + share(b, value(weights.1)) + share(
        c,
        value(weights.2),
    ) + share(d, value(weights.3));
    let sum = share(a, value(a) * value(weights.0)) + share(b, value(b) * value(weights.1))
        + share(c, value(c) * value(weights.2)) + share(d, value(d) * value(weights.3));
    &&& weight > 0 ==> value(bits) * weight == sum
    &&& weight <= 0 ==> bits == 0x7fc0_0000
}

/// A sample is the mean of the four pixels around a position, each with its
/// weight: the pixel at the position, the one right of it, the one below, and
/// the one below right; past the edge they are those at the edge. What is not
/// a number is left out, and where no weight is left there is no sample.
pub proof fn samples_are_means_of_the_neighbors<M, D>(
    temperatures: &[u32],
    width: usize,
    x0: usize,
    y0: usize,
    weights: Quad<u32>,
    mix: M,
    divide: D,
    bits: u32,
    value: spec_fn(u32) -> int,
) where M: Fn((u32, u32), (u32, u32)) -> (u32, u32), D: Fn(u32, u32) -> u32
    requires
        call_ensures(
            sample_bilinear::<M, D>,
            (temperatures, width, x0, y0, weights, mix, divide),
            bits,
        ),
        is_reading(value),
        adds_up(mix, value),
        divides(divide, value),
    ensures
        is_mean(temperatures@, width, x0, y0, weights, value, bits),
{
    lemma_mean(temperatures@, width, x0, y0, weights, mix, divide, bits, value);
}

/// A sample with all its weight on one neighbor is what that neighbor is.
pub proof fn whole_weights_take_one_neighbor<M, D>(
    temperatures: &[u32],
    width: usize,
    x0: usize,
    y0: usize,
    weight: u32,
    mix: M,
    divide: D,
    here: u32,
    right: u32,
    below: u32,
    across: u32,
    value: spec_fn(u32) -> int,
) where M: Fn((u32, u32), (u32, u32)) -> (u32, u32), D: Fn(u32, u32) -> u32
    requires
        is_positive(weight),
        is_reading(value),
        adds_up(mix, value),
        divides(divide, value),
        x0 + 1 < width,
        y0 + 1 < temperatures@.len() as int / width as int,
        call_ensures(
            sample_bilinear::<M, D>,
            (temperatures, width, x0, y0, (weight, 0u32, 0u32, 0u32), mix, divide),
            here,
        ),
        call_ensures(
            sample_bilinear::<M, D>,
            (temperatures, width, x0, y0, (0u32, weight, 0u32, 0u32), mix, divide),
            right,
        ),
        call_ensures(
            sample_bilinear::<M, D>,
            (temperatures, width, x0, y0, (0u32, 0u32, weight, 0u32), mix, divide),
            below,
        ),
        call_ensures(
            sample_bilinear::<M, D>,
            (temperatures, width, x0, y0, (0u32, 0u32, 0u32, weight), mix, divide),
            across,
        ),
    ensures
        is_number(temperatures@[y0 * width + x0]) ==> value(here) == value(
            temperatures@[y0 * width + x0],
        ),
        is_number(temperatures@[y0 * width + x0 + 1]) ==> value(right) == value(
            temperatures@[y0 * width + x0 + 1],
        ),
        is_number(temperatures@[(y0 + 1) * width + x0]) ==> value(below) == value(
            temperatures@[(y0 + 1) * width + x0],
        ),
        is_number(temperatures@[(y0 + 1) * width + x0 + 1]) ==> value(across) == value(
            temperatures@[(y0 + 1) * width + x0 + 1],
        ),
{
    let t = temperatures@;
    let w = value(weight);
    lemma_mean(t, width, x0, y0, (weight, 0u32, 0u32, 0u32), mix, divide, here, value);
    lemma_mean(t, width, x0, y0, (0u32, weight, 0u32, 0u32), mix, divide, right, value);
    lemma_mean(t, width, x0, y0, (0u32, 0u32, weight, 0u32), mix, divide, below, value);
    lemma_mean(t, width, x0, y0, (0u32, 0u32, 0u32, weight), mix, divide, across, value);
    lemma_one_weight(value(here), value(t[y0 * width + x0]), w);
    lemma_one_weight(value(right), value(t[y0 * width + x0 + 1]), w);
    lemma_one_weight(value(below), value(t[(y0 + 1) * width + x0]), w);
    lemma_one_weight(value(across), value(t[(y0 + 1) * width + x0 + 1]), w);
    assert(y0 * width + (x0 + 1) == y0 * width + x0 + 1);
    assert((y0 + 1) * width + (x0 + 1) == (y0 + 1) * width + x0 + 1);
}

proof fn lemma_one_weight(a: int, b: int, weight: int)
    requires
        weight > 0,
    ensures
        a * weight == b * weight ==> a == b,
        b * 0 == 0,
{
    if a * weight == b * weight {
        assert(a == b) by (nonlinear_arith)
            requires
                a * weight == b * weight,
                weight > 0,
        ;
    }
}

pub(crate) proof fn lemma_mean<M, D>(
    temperatures: Seq<u32>,
    width: usize,
    x0: usize,
    y0: usize,
    weights: Quad<u32>,
    mix: M,
    divide: D,
    bits: u32,
    value: spec_fn(u32) -> int,
) where M: Fn((u32, u32), (u32, u32)) -> (u32, u32), D: Fn(u32, u32) -> u32
    requires
        sandwich::is_bilinear_sample(
            sandwich::taps(temperatures, width as int, x0 as int, y0 as int, weights),
            mix,
            divide,
            bits,
        ),
        is_reading(value),
        adds_up(mix, value),
        divides(divide, value),
    ensures
        is_mean(temperatures, width, x0, y0, weights, value, bits),
{
    let (w, h) = (width as int, temperatures.len() as int / width as int);
    let taps = sandwich::taps(temperatures, w, x0 as int, y0 as int, weights);
    let finite = |tap: (u32, u32)| ieee::finite32(tap.0);
    let total = choose|total: (u32, u32)|
        {
            &&& #[trigger] sandwich::mixes_to(mix, sandwich::finite_taps(taps), total)
            &&& if ieee::less32(0, total.1) {
                call_ensures(divide, (total.0, total.1), bits)
            } else {
                bits == ieee::NAN32
            }
        };
    let product = |tap: (u32, u32)| value(tap.0) * value(tap.1);
    let weight = |tap: (u32, u32)| value(tap.1);
    assert(value(total.0) == sum_of_four(taps, product) && value(total.1) == sum_of_four(
        taps,
        weight,
    )) by {
        lemma_mixes_add_up(mix, value, taps.filter(finite), total);
        lemma_sum_of_four(taps, product);
        lemma_sum_of_four(taps, weight);
    }
    assert(ieee::less32(0, total.1) <==> is_positive(total.1)) by {
        lemma_positive(total.1);
    }
    let (x1, y1) = (least(x0 + 1, w - 1), least(y0 + 1, h - 1));
    assert(taps[0] == (at(temperatures, w, x0 as int, y0 as int), weights.0));
    assert(taps[1] == (at(temperatures, w, x1, y0 as int), weights.1));
    assert(taps[2] == (at(temperatures, w, x0 as int, y1), weights.2));
    assert(taps[3] == (at(temperatures, w, x1, y1), weights.3));
}

/// The amounts of four taps, of those that are numbers.
spec fn sum_of_four(taps: Seq<(u32, u32)>, amount: spec_fn((u32, u32)) -> int) -> int {
    share(taps[0].0, amount(taps[0])) + share(taps[1].0, amount(taps[1])) + share(
        taps[2].0,
        amount(taps[2]),
    ) + share(taps[3].0, amount(taps[3]))
}

pub(crate) proof fn lemma_number(bits: u32)
    ensures
        ieee::finite32(bits) <==> is_number(bits),
{
    assert(bits % 0x8000_0000 < 0x7f80_0000 <==> bits / 0x80_0000 % 0x100 < 0xff) by (bit_vector);
}

pub(crate) proof fn lemma_positive(bits: u32)
    ensures
        ieee::less32(0, bits) <==> is_positive(bits),
{
}

proof fn lemma_sum_of_four(taps: Seq<(u32, u32)>, amount: spec_fn((u32, u32)) -> int)
    requires
        taps.len() == 4,
    ensures
        taps.filter(|tap: (u32, u32)| ieee::finite32(tap.0)).map_values(amount).fold_left(
            0,
            |a: int, b: int| a + b,
        ) == sum_of_four(taps, amount),
{
    let finite = |tap: (u32, u32)| ieee::finite32(tap.0);
    lemma_kept(taps, 0, finite, amount);
    lemma_kept(taps, 1, finite, amount);
    lemma_kept(taps, 2, finite, amount);
    lemma_kept(taps, 3, finite, amount);
    lemma_number(taps[0].0);
    lemma_number(taps[1].0);
    lemma_number(taps[2].0);
    lemma_number(taps[3].0);
    assert(taps.take(0).filter(finite) =~= Seq::empty()) by {
        reveal(Seq::filter);
    }
    assert(taps.take(0).filter(finite).map_values(amount) =~= Seq::empty());
    assert(taps.take(4) =~= taps);
}

/// A tap that is kept adds its own amount, one that is not adds nothing.
proof fn lemma_kept(
    taps: Seq<(u32, u32)>,
    k: int,
    finite: spec_fn((u32, u32)) -> bool,
    amount: spec_fn((u32, u32)) -> int,
)
    requires
        0 <= k < taps.len(),
    ensures
        taps.take(k + 1).filter(finite).map_values(amount).fold_left(0, |a: int, b: int| a + b)
            == taps.take(k).filter(finite).map_values(amount).fold_left(
            0,
            |a: int, b: int| a + b,
        ) + if finite(taps[k]) {
            amount(taps[k])
        } else {
            0
        },
{
    compose::lemma_filter_step(taps, k, finite);
    let before = taps.take(k).filter(finite);
    let now = before.push(taps[k]);
    assert(now.map_values(amount).drop_last() =~= before.map_values(amount));
    assert(now.map_values(amount).last() == amount(taps[k]));
}

} // verus!
