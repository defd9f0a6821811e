//! Files that end within a header block.

use vstd::prelude::*;

use crate::blocks;
use crate::hsd;
use crate::hsd::{parse, HsdError, Segment, Walk};
use crate::promises::refusals;

verus! {

/// The fields of a block in the order in which they are read: each with its
/// offset and its width. Number and length come first, and what follows is
/// decided by the number and, for a calibration, by the band.
pub open spec fn reading_order(cut: Seq<u8>) -> Seq<(int, int)> {
    if cut.len() < 3 {
        seq![(0, 1), (1, 2)]
    } else if cut[0] == 2 {
        seq![(3, 2), (5, 2), (7, 2)]
    } else if cut[0] == 3 {
        seq![(3, 8), (11, 4), (15, 4), (19, 4), (23, 4), (27, 8), (35, 8), (43, 8)]
    } else if cut[0] == 5 {
        if cut.len() < 5 {
            seq![(3, 2)]
        } else if refusals::byte_worth(cut, 3, 2) <= 6 {
            seq![(35, 8), (15, 2), (17, 2), (19, 8), (27, 8)]
        } else {
            seq![
                (5, 8),
                (35, 8),
                (43, 8),
                (51, 8),
                (83, 8),
                (91, 8),
                (99, 8),
                (15, 2),
                (17, 2),
                (19, 8),
                (27, 8),
            ]
        }
    } else {
        seq![(3, 1), (4, 1), (5, 2)]
    }
}

/// Whether a field is the first in some order that is not all there.
pub open spec fn is_first_missing(cut: Seq<u8>, fields: Seq<(int, int)>, k: int) -> bool {
    &&& 0 <= k < fields.len()
    &&& fields[k].0 + fields[k].1 > cut.len()
    &&& forall|j: int| 0 <= j < k ==> (#[trigger] fields[j]).0 + fields[j].1 <= cut.len()
}

proof fn lemma_first_missing(buf: Seq<u8>, cut: Seq<u8>, pos: int, fields: Seq<(int, int)>, k: int)
    requires
        is_first_missing(cut, fields, k),
        buf.len() == pos + cut.len(),
    ensures
        hsd::first_cut(buf, pos, fields) == Some(
            hsd::cut_off(buf, pos + fields[k].0, fields[k].1),
        ),
    decreases fields.len(),
{
    let rest = fields.skip(1);
    if k > 0 {
        assert(fields[0].0 + fields[0].1 <= cut.len());
        assert(rest[k - 1] == fields[k]);
        assert forall|j: int| 0 <= j < k - 1 implies (#[trigger] rest[j]).0 + rest[j].1
            <= cut.len() by {
            assert(rest[j] == fields[j + 1]);
        }
        lemma_first_missing(buf, cut, pos, rest, k - 1);
    }
}

/// A step over a block that is cut ends with its first missing field.
proof fn lemma_cut_step(buf: Seq<u8>, head: Seq<u8>, cut: Seq<u8>, walk: Walk, k: int)
    requires
        buf == head + cut,
        walk.pos == head.len(),
        cut.len() >= 3 ==> cut[0] == 2 || cut[0] == 3 || cut[0] == 5 || cut[0] == 7,
        cut.len() >= 5 && cut[0] == 2 ==> refusals::byte_worth(cut, 3, 2) == 16,
        is_first_missing(cut, reading_order(cut), k),
    ensures
        hsd::walk_step(buf, walk) == Err::<Walk, HsdError>(
            hsd::cut_off(
                buf,
                walk.pos + reading_order(cut)[k].0,
                reading_order(cut)[k].1,
            ),
        ),
{
    let pos = walk.pos as int;
    let fields = reading_order(cut);
    lemma_first_missing(buf, cut, pos, fields, k);
    if cut.len() >= 3 {
        blocks::lemma_first_cut(buf, pos, seq![(0, 1), (1, 2)], 3);
        assert(buf.subrange(pos, pos + 1) =~= cut.subrange(0, 1));
        refusals::lemma_byte_worth(cut, 0, 1);
        assert(refusals::byte_worth(cut, 0, 1) == cut[0]) by {
            reveal_with_fuel(refusals::byte_worth, 2);
        }
        assert(hsd::le_at(buf, pos, 1) == cut[0]);
        if cut.len() >= 5 {
            assert(buf.subrange(pos + 3, pos + 5) =~= cut.subrange(3, 5));
            refusals::lemma_byte_worth(cut, 3, 2);
        }
        if cut[0] == 2 {
            lemma_size_cut(buf, cut, pos, k);
        } else if cut[0] == 3 {
            assert(hsd::projection_block(buf, pos) is Err);
        } else if cut[0] == 5 {
            lemma_calibration_cut(buf, cut, pos, k);
        } else {
            assert(hsd::segment_block(buf, pos) is Err);
        }
    }
}

proof fn lemma_size_cut(buf: Seq<u8>, cut: Seq<u8>, pos: int, k: int)
    requires
        buf.len() == pos + cut.len(),
        cut.len() >= 5 ==> hsd::le_at(buf, pos + 3, 2) == 16,
        is_first_missing(cut, seq![(3, 2), (5, 2), (7, 2)], k),
    ensures
        hsd::data_block(buf, pos) == Err::<hsd::DataInfo, HsdError>(
            hsd::cut_off(
                buf,
                pos + seq![(3int, 2int), (5int, 2int), (7int, 2int)][k].0,
                seq![(3int, 2int), (5int, 2int), (7int, 2int)][k].1,
            ),
        ),
{
    let all = seq![(3int, 2int), (5int, 2int), (7int, 2int)];
    let (one, two) = (seq![(3int, 2int)], seq![(5int, 2int), (7int, 2int)]);
    if k == 0 {
        lemma_first_missing(buf, cut, pos, one, 0);
    } else {
        assert(all[0].0 + all[0].1 <= cut.len());
        blocks::lemma_first_cut(buf, pos, one, cut.len() as int);
        assert(two[k - 1] == all[k]);
        assert forall|j: int| 0 <= j < k - 1 implies (#[trigger] two[j]).0 + two[j].1
            <= cut.len() by {
            assert(two[j] == all[j + 1]);
        }
        lemma_first_missing(buf, cut, pos, two, k - 1);
    }
}

proof fn lemma_calibration_cut(buf: Seq<u8>, cut: Seq<u8>, pos: int, k: int)
    requires
        buf.len() == pos + cut.len(),
        cut.len() >= 3,
        cut[0] == 5,
        cut.len() >= 5 ==> hsd::le_at(buf, pos + 3, 2) == refusals::byte_worth(cut, 3, 2),
        is_first_missing(cut, reading_order(cut), k),
    ensures
        hsd::calibration_block(buf, pos) == Err::<hsd::CalInfo, HsdError>(
            hsd::cut_off(buf, pos + reading_order(cut)[k].0, reading_order(cut)[k].1),
        ),
{
    let one = seq![(3int, 2int)];
    if cut.len() < 5 {
        lemma_first_missing(buf, cut, pos, one, k);
    } else {
        blocks::lemma_first_cut(buf, pos, one, cut.len() as int);
        assert(hsd::calibration_fields(hsd::le_at(buf, pos + 3, 2)) == reading_order(cut));
        lemma_first_missing(buf, cut, pos, reading_order(cut), k);
    }
}

/// A file that ends within a header block is refused with where the first
/// field that is missing should be, and how long it is.
pub proof fn cuts_are_told_at_the_first_missing_field(
    buf: &[u8],
    first: Seq<u8>,
    rest: Seq<Seq<u8>>,
    total: nat,
    cut: Seq<u8>,
    k: int,
    result: Result<Segment, HsdError>,
)
    requires
        call_ensures(parse, (buf,), result),
        blocks::is_first(first, total),
        rest.len() + 1 < total,
        blocks::are_whole(rest),
        refusals::have_sixteen_bits(rest),
        buf@ == blocks::file(first, rest, cut),
        cut.len() >= 3 ==> cut[0] == 2 || cut[0] == 3 || cut[0] == 5 || cut[0] == 7,
        cut.len() >= 5 && cut[0] == 2 ==> refusals::byte_worth(cut, 3, 2) == 16,
        is_first_missing(cut, reading_order(cut), k),
    ensures
        result == Err::<Segment, HsdError>(
            HsdError::Truncated {
                offset: (buf@.len() - cut.len() + reading_order(cut)[k].0) as usize,
                need: reading_order(cut)[k].1 as usize,
                have: buf@.len() as usize,
            },
        ),
{
    let all = seq![first] + rest;
    let head = blocks::joined(all);
    let b = buf@;
    assert forall|j: int| 0 <= j < all.len() implies blocks::is_whole(#[trigger] all[j]) by {
        if j > 0 {
            assert(all[j] == rest[j - 1]);
        }
    }
    assert forall|j: int|
        0 <= j < all.len() && blocks::number(
            #[trigger] all[j],
        ) == 2 implies refusals::byte_worth(all[j], 3, 2) == 16 by {
        if j > 0 {
            assert(all[j] == rest[j - 1]);
        }
    }
    refusals::lemma_no_error(all);
    blocks::lemma_walk(all, cut, all.len());
    assert(all.take(all.len() as int) =~= all);
    let walk = blocks::learned(all, head.len());
    assert(hsd::walk_headers(b, all.len()) == Ok::<Walk, HsdError>(walk));
    lemma_cut_step(b, head, cut, walk, k);
    assert(hsd::walk_headers(b, all.len() + 1) == hsd::walk_step(b, walk));
    hsd::lemma_walk_error_persists(b, all.len() + 1, total);
    blocks::lemma_block_stands(all, cut, 0);
    assert(all.take(0) =~= Seq::empty());
    assert(all[0] == first);
    assert(blocks::joined(all.take(0)).len() == 0);
    blocks::lemma_first_cut(b, 0, seq![(0, 1)], 6);
    blocks::lemma_first_cut(b, 0, seq![(3, 2), (5, 1)], 6);
    blocks::lemma_le_at(b, 0, first, 0, 1);
    blocks::lemma_le_at(b, 0, first, 3, 2);
    blocks::lemma_le_at(b, 0, first, 5, 1);
}

} // verus!
