//! HSD files as header blocks that follow each other, with the data block
//! behind them: what a file decodes to depends neither on the order of its
//! blocks nor on blocks that are of no interest.

use vstd::prelude::*;
use vstd::seq_lib::{to_multiset_contains, to_multiset_len};

use crate::hsd;
use crate::hsd::{HsdError, Walk};

verus! {

/// Pieces one after the other.
pub open spec fn joined(pieces: Seq<Seq<u8>>) -> Seq<u8>
    decreases pieces.len(),
{
    if pieces.len() == 0 {
        Seq::empty()
    } else {
        joined(pieces.drop_last()) + pieces.last()
    }
}

/// The number of a header block.
pub open spec fn number(block: Seq<u8>) -> nat {
    hsd::le_at(block, 0, 1)
}

/// How long a header block is at least, for the fields that are read from it.
pub open spec fn least_length(block: Seq<u8>) -> int {
    if number(block) == 2 {
        9
    } else if number(block) == 3 {
        51
    } else if number(block) == 5 {
        if hsd::le_at(block, 3, 2) <= 6 {
            43
        } else {
            107
        }
    } else if number(block) == 7 {
        7
    } else {
        3
    }
}

/// Whether a header block is as long as it says and holds the fields that are
/// read from it.
pub open spec fn is_whole(block: Seq<u8>) -> bool {
    &&& block.len() >= 5 || (block.len() >= 3 && number(block) != 5)
    &&& hsd::le_at(block, 1, 2) == block.len()
    &&& block.len() >= least_length(block)
}

/// Whether all header blocks are whole.
pub open spec fn are_whole(blocks: Seq<Seq<u8>>) -> bool {
    forall|k: int| 0 <= k < blocks.len() ==> is_whole(#[trigger] blocks[k])
}

/// Whether a block can come first: it has number 1, says how many blocks
/// there are, and that the file is in little-endian order.
pub open spec fn is_first(block: Seq<u8>, blocks: nat) -> bool {
    &&& is_whole(block)
    &&& block.len() >= 6
    &&& number(block) == 1
    &&& hsd::le_at(block, 3, 2) == blocks
    &&& hsd::le_at(block, 5, 1) == 0
}

/// The file that a first block, the blocks behind it and a data block make.
pub open spec fn file(first: Seq<u8>, rest: Seq<Seq<u8>>, data: Seq<u8>) -> Seq<u8> {
    joined(seq![first] + rest) + data
}

/// The last block with a number, if there is one.
pub open spec fn last_numbered(blocks: Seq<Seq<u8>>, wanted: nat) -> Option<Seq<u8>>
    decreases blocks.len(),
{
    if blocks.len() == 0 {
        None
    } else if number(blocks.last()) == wanted {
        Some(blocks.last())
    } else {
        last_numbered(blocks.drop_last(), wanted)
    }
}

/// What is learned from the header blocks of a file, whose walk ends at a
/// position.
pub open spec fn learned(blocks: Seq<Seq<u8>>, pos: nat) -> Walk {
    Walk {
        pos,
        data: match last_numbered(blocks, 2) {
            Some(block) => match hsd::data_block(block, 0) {
                Ok(data) => Some(data),
                Err(_) => None,
            },
            None => None,
        },
        projection: match last_numbered(blocks, 3) {
            Some(block) => match hsd::projection_block(block, 0) {
                Ok(projection) => Some(projection),
                Err(_) => None,
            },
            None => None,
        },
        calibration: match last_numbered(blocks, 5) {
            Some(block) => match hsd::calibration_block(block, 0) {
                Ok(calibration) => Some(calibration),
                Err(_) => None,
            },
            None => None,
        },
        segment: match last_numbered(blocks, 7) {
            Some(block) => match hsd::segment_block(block, 0) {
                Ok(segment) => Some(segment),
                Err(_) => None,
            },
            None => None,
        },
    }
}

// ---------------------------------------------------------------------------
// A block reads the same wherever it stands
// ---------------------------------------------------------------------------

/// Whether a block stands at a position of a file.
pub open spec fn stands(buf: Seq<u8>, pos: int, block: Seq<u8>) -> bool {
    0 <= pos && pos + block.len() <= buf.len() && buf.subrange(pos, pos + block.len()) == block
}

pub(crate) proof fn lemma_le_at(buf: Seq<u8>, pos: int, block: Seq<u8>, offset: int, width: int)
    requires
        stands(buf, pos, block),
        0 <= offset,
        0 <= width,
        offset + width <= block.len(),
    ensures
        hsd::le_at(buf, pos + offset, width) == hsd::le_at(block, offset, width),
{
    assert(buf.subrange(pos + offset, pos + offset + width) =~= block.subrange(
        offset,
        offset + width,
    ));
}

pub(crate) proof fn lemma_first_cut(buf: Seq<u8>, pos: int, fields: Seq<(int, int)>, length: int)
    requires
        pos + length <= buf.len(),
        forall|k: int|
            0 <= k < fields.len() ==> (#[trigger] fields[k]).0 + fields[k].1 <= length,
    ensures
        hsd::first_cut(buf, pos, fields) is None,
    decreases fields.len(),
{
    if fields.len() > 0 {
        let rest = fields.skip(1);
        assert forall|k: int| 0 <= k < rest.len() implies (#[trigger] rest[k]).0 + rest[k].1
            <= length by {
            assert(rest[k] == fields[k + 1]);
        }
        assert(fields[0].0 + fields[0].1 <= length);
        lemma_first_cut(buf, pos, rest, length);
    }
}

proof fn lemma_data_block(buf: Seq<u8>, pos: int, block: Seq<u8>)
    requires
        stands(buf, pos, block),
        block.len() >= 9,
    ensures
        hsd::data_block(buf, pos) == hsd::data_block(block, 0),
{
    lemma_first_cut(buf, pos, seq![(3, 2)], 9);
    lemma_first_cut(buf, pos, seq![(5, 2), (7, 2)], 9);
    lemma_first_cut(block, 0, seq![(3, 2)], 9);
    lemma_first_cut(block, 0, seq![(5, 2), (7, 2)], 9);
    lemma_le_at(buf, pos, block, 3, 2);
    lemma_le_at(buf, pos, block, 5, 2);
    lemma_le_at(buf, pos, block, 7, 2);
}

proof fn lemma_projection_block(buf: Seq<u8>, pos: int, block: Seq<u8>)
    requires
        stands(buf, pos, block),
        block.len() >= 51,
    ensures
        hsd::projection_block(buf, pos) == hsd::projection_block(block, 0),
        hsd::projection_block(block, 0) is Ok,
{
    lemma_first_cut(buf, pos, hsd::projection_fields(), 51);
    lemma_first_cut(block, 0, hsd::projection_fields(), 51);
    lemma_le_at(buf, pos, block, 3, 8);
    lemma_le_at(buf, pos, block, 11, 4);
    lemma_le_at(buf, pos, block, 15, 4);
    lemma_le_at(buf, pos, block, 19, 4);
    lemma_le_at(buf, pos, block, 23, 4);
    lemma_le_at(buf, pos, block, 27, 8);
    lemma_le_at(buf, pos, block, 35, 8);
    lemma_le_at(buf, pos, block, 43, 8);
}

proof fn lemma_calibration_block(buf: Seq<u8>, pos: int, block: Seq<u8>)
    requires
        stands(buf, pos, block),
        block.len() >= 43,
        hsd::le_at(block, 3, 2) > 6 ==> block.len() >= 107,
    ensures
        hsd::calibration_block(buf, pos) == hsd::calibration_block(block, 0),
        hsd::calibration_block(block, 0) is Ok,
{
    let fields = hsd::calibration_fields(hsd::le_at(block, 3, 2));
    let length: int = if hsd::le_at(block, 3, 2) <= 6 {
        43
    } else {
        107
    };
    lemma_first_cut(buf, pos, seq![(3, 2)], length);
    lemma_first_cut(block, 0, seq![(3, 2)], length);
    lemma_first_cut(buf, pos, fields, length);
    lemma_first_cut(block, 0, fields, length);
    lemma_le_at(buf, pos, block, 3, 2);
    lemma_le_at(buf, pos, block, 15, 2);
    lemma_le_at(buf, pos, block, 17, 2);
    lemma_le_at(buf, pos, block, 19, 8);
    lemma_le_at(buf, pos, block, 27, 8);
    lemma_le_at(buf, pos, block, 35, 8);
    if hsd::le_at(block, 3, 2) > 6 {
        lemma_le_at(buf, pos, block, 5, 8);
        lemma_le_at(buf, pos, block, 43, 8);
        lemma_le_at(buf, pos, block, 51, 8);
        lemma_le_at(buf, pos, block, 83, 8);
        lemma_le_at(buf, pos, block, 91, 8);
        lemma_le_at(buf, pos, block, 99, 8);
    }
}

proof fn lemma_segment_block(buf: Seq<u8>, pos: int, block: Seq<u8>)
    requires
        stands(buf, pos, block),
        block.len() >= 7,
    ensures
        hsd::segment_block(buf, pos) == hsd::segment_block(block, 0),
        hsd::segment_block(block, 0) is Ok,
{
    lemma_first_cut(buf, pos, seq![(3, 1), (4, 1), (5, 2)], 7);
    lemma_first_cut(block, 0, seq![(3, 1), (4, 1), (5, 2)], 7);
    lemma_le_at(buf, pos, block, 3, 1);
    lemma_le_at(buf, pos, block, 4, 1);
    lemma_le_at(buf, pos, block, 5, 2);
}

// ---------------------------------------------------------------------------
// The walk over the blocks of a file
// ---------------------------------------------------------------------------

/// One step of the walk adds what its block says to what was learned before.
proof fn lemma_step(buf: Seq<u8>, before: Seq<Seq<u8>>, block: Seq<u8>)
    requires
        is_whole(block),
        stands(buf, joined(before).len() as int, block),
    ensures
        ({
            let step = hsd::walk_step(buf, learned(before, joined(before).len()));
            let blocks = before.push(block);
            step == match block_error(block) {
                Some(error) => Err::<Walk, HsdError>(error),
                None => Ok(learned(blocks, joined(blocks).len())),
            }
        }),
{
    let pos = joined(before).len() as int;
    let blocks = before.push(block);
    assert(blocks.drop_last() =~= before && blocks.last() == block);
    lemma_first_cut(buf, pos, seq![(0, 1), (1, 2)], 3);
    lemma_le_at(buf, pos, block, 0, 1);
    lemma_le_at(buf, pos, block, 1, 2);
    if number(block) == 2 {
        lemma_data_block(buf, pos, block);
    } else if number(block) == 3 {
        lemma_projection_block(buf, pos, block);
    } else if number(block) == 5 {
        lemma_calibration_block(buf, pos, block);
    } else if number(block) == 7 {
        lemma_segment_block(buf, pos, block);
    }
}

/// The error of a block that gives a size of the image that cannot be read.
pub open spec fn block_error(block: Seq<u8>) -> Option<HsdError> {
    if number(block) == 2 {
        match hsd::data_block(block, 0) {
            Ok(_) => None,
            Err(error) => Some(error),
        }
    } else {
        None
    }
}

/// The error of the first of some blocks that has one.
pub open spec fn first_error(blocks: Seq<Seq<u8>>) -> Option<HsdError>
    decreases blocks.len(),
{
    if blocks.len() == 0 {
        None
    } else {
        match first_error(blocks.drop_last()) {
            Some(error) => Some(error),
            None => block_error(blocks.last()),
        }
    }
}

pub(crate) proof fn lemma_block_stands(blocks: Seq<Seq<u8>>, data: Seq<u8>, k: int)
    requires
        0 <= k < blocks.len(),
    ensures
        stands(joined(blocks) + data, joined(blocks.take(k)).len() as int, blocks[k]),
    decreases blocks.len(),
{
    let rest = blocks.drop_last();
    if k < rest.len() {
        lemma_block_stands(rest, blocks.last() + data, k);
        assert(rest.take(k) =~= blocks.take(k));
        assert(joined(rest) + (blocks.last() + data) =~= joined(blocks) + data);
    } else {
        assert(blocks.take(k) =~= rest);
        let buf = joined(blocks) + data;
        let pos = joined(rest).len() as int;
        assert(buf.subrange(pos, pos + blocks[k].len()) =~= blocks[k]);
    }
}

pub(crate) proof fn lemma_walk(blocks: Seq<Seq<u8>>, data: Seq<u8>, k: nat)
    requires
        are_whole(blocks),
        k <= blocks.len(),
    ensures
        hsd::walk_headers(joined(blocks) + data, k) == match first_error(blocks.take(k as int)) {
            Some(error) => Err::<Walk, HsdError>(error),
            None => Ok(learned(blocks.take(k as int), joined(blocks.take(k as int)).len())),
        },
    decreases k,
{
    if k > 0 {
        let (before, now) = (blocks.take(k - 1), blocks.take(k as int));
        lemma_walk(blocks, data, (k - 1) as nat);
        assert(now =~= before.push(blocks[k - 1]));
        assert(now.drop_last() =~= before && now.last() == blocks[k - 1]);
        lemma_block_stands(blocks, data, k - 1);
        lemma_step(joined(blocks) + data, before, blocks[k - 1]);
    }
}

/// What is made of a walk depends on the data block behind it alone, not on
/// where it starts.
proof fn lemma_finish(head: Seq<u8>, data: Seq<u8>, blocks: Seq<Seq<u8>>)
    ensures
        hsd::finish(head + data, learned(blocks, head.len())) == hsd::finish(
            data,
            learned(blocks, 0),
        ),
{
    let buf = head + data;
    let (here, there) = (learned(blocks, head.len()), learned(blocks, 0));
    let (a, b) = (hsd::finish(buf, here), hsd::finish(data, there));
    if a is Ok {
        let (left, right) = (a->Ok_0, b->Ok_0);
        assert forall|i: int| 0 <= i < left.counts.len() implies #[trigger] left.counts[i]
            == right.counts[i] by {
            assert(buf.subrange(head.len() + 2 * i, head.len() + 2 * i + 2) =~= data.subrange(
                0 + 2 * i,
                0 + 2 * i + 2,
            ));
        }
        assert(left =~= right);
    }
}

/// What a file of whole blocks decodes to.
pub(crate) proof fn lemma_decoded(first: Seq<u8>, rest: Seq<Seq<u8>>, data: Seq<u8>)
    requires
        is_first(first, rest.len() + 1),
        are_whole(rest),
    ensures
        ({
            let blocks = seq![first] + rest;
            match first_error(blocks) {
                Some(error) => hsd::decoded(file(first, rest, data)) matches Err(e) && e == error,
                None => hsd::decoded(file(first, rest, data)) == hsd::finish(
                    data,
                    learned(blocks, 0),
                ),
            }
        }),
{
    let blocks = seq![first] + rest;
    let buf = file(first, rest, data);
    assert forall|k: int| 0 <= k < blocks.len() implies is_whole(#[trigger] blocks[k]) by {
        if k > 0 {
            assert(blocks[k] == rest[k - 1]);
        }
    }
    lemma_block_stands(blocks, data, 0);
    assert(blocks.take(0) =~= Seq::empty());
    assert(blocks[0] == first);
    lemma_first_cut(buf, 0, seq![(0, 1)], 6);
    lemma_first_cut(buf, 0, seq![(3, 2), (5, 1)], 6);
    lemma_le_at(buf, 0, first, 0, 1);
    lemma_le_at(buf, 0, first, 3, 2);
    lemma_le_at(buf, 0, first, 5, 1);
    lemma_walk(blocks, data, blocks.len());
    assert(blocks.take(blocks.len() as int) =~= blocks);
    lemma_finish(joined(blocks), data, blocks);
}

// ---------------------------------------------------------------------------
// The order of blocks
// ---------------------------------------------------------------------------

proof fn lemma_last_numbered(blocks: Seq<Seq<u8>>, wanted: nat)
    ensures
        match last_numbered(blocks, wanted) {
            Some(block) => blocks.contains(block) && number(block) == wanted,
            None => forall|k: int| 0 <= k < blocks.len() ==> number(#[trigger] blocks[k]) != wanted,
        },
    decreases blocks.len(),
{
    if blocks.len() > 0 {
        let rest = blocks.drop_last();
        lemma_last_numbered(rest, wanted);
        assert(blocks[blocks.len() - 1] == blocks.last());
        if number(blocks.last()) != wanted {
            if let Some(block) = last_numbered(rest, wanted) {
                let k = choose|k: int| 0 <= k < rest.len() && rest[k] == block;
                assert(blocks[k] == block);
            } else {
                assert forall|k: int| 0 <= k < blocks.len() implies number(#[trigger] blocks[k])
                    != wanted by {
                    if k < rest.len() {
                        assert(rest[k] == blocks[k]);
                    }
                }
            }
        }
    }
}

/// A block that comes first has no error of this kind.
proof fn lemma_error_behind_first(first: Seq<u8>, rest: Seq<Seq<u8>>)
    requires
        number(first) == 1,
    ensures
        first_error(seq![first] + rest) == first_error(rest),
    decreases rest.len(),
{
    let blocks = seq![first] + rest;
    if rest.len() > 0 {
        assert(blocks.drop_last() =~= seq![first] + rest.drop_last());
        lemma_error_behind_first(first, rest.drop_last());
    } else {
        assert(blocks.drop_last() =~= Seq::empty());
        assert(first_error(blocks.drop_last()) is None);
    }
}

/// Where no number occurs twice, only the one block with the size of the
/// image can have an error.
proof fn lemma_error_of_last(blocks: Seq<Seq<u8>>)
    requires
        numbers_differ(blocks),
    ensures
        first_error(blocks) == match last_numbered(blocks, 2) {
            Some(block) => block_error(block),
            None => None,
        },
    decreases blocks.len(),
{
    if blocks.len() > 0 {
        let rest = blocks.drop_last();
        assert forall|i: int, j: int| 0 <= i < j < rest.len() implies number(#[trigger] rest[i])
            != number(#[trigger] rest[j]) by {
            assert(rest[i] == blocks[i] && rest[j] == blocks[j]);
        }
        lemma_error_of_last(rest);
        lemma_last_numbered(rest, 2);
        if let Some(block) = last_numbered(rest, 2) {
            let i = choose|i: int| 0 <= i < rest.len() && rest[i] == block;
            assert(blocks[i] == block && blocks[blocks.len() - 1] == blocks.last());
        }
    }
}

/// The last block with a number among a first block and others.
proof fn lemma_last_behind_first(first: Seq<u8>, rest: Seq<Seq<u8>>, wanted: nat)
    requires
        number(first) != wanted,
    ensures
        last_numbered(seq![first] + rest, wanted) == last_numbered(rest, wanted),
    decreases rest.len(),
{
    let blocks = seq![first] + rest;
    if rest.len() > 0 {
        assert(blocks.drop_last() =~= seq![first] + rest.drop_last());
        lemma_last_behind_first(first, rest.drop_last(), wanted);
    } else {
        assert(blocks.drop_last() =~= Seq::empty());
        assert(last_numbered(blocks.drop_last(), wanted) is None);
    }
}

proof fn lemma_same_learned(
    first: Seq<u8>,
    rest: Seq<Seq<u8>>,
    other_first: Seq<u8>,
    other: Seq<Seq<u8>>,
)
    requires
        number(first) == 1,
        number(other_first) == 1,
        last_numbered(rest, 2) == last_numbered(other, 2),
        last_numbered(rest, 3) == last_numbered(other, 3),
        last_numbered(rest, 5) == last_numbered(other, 5),
        last_numbered(rest, 7) == last_numbered(other, 7),
    ensures
        learned(seq![first] + rest, 0) == learned(seq![other_first] + other, 0),
{
    lemma_last_behind_first(first, rest, 2);
    lemma_last_behind_first(first, rest, 3);
    lemma_last_behind_first(first, rest, 5);
    lemma_last_behind_first(first, rest, 7);
    lemma_last_behind_first(other_first, other, 2);
    lemma_last_behind_first(other_first, other, 3);
    lemma_last_behind_first(other_first, other, 5);
    lemma_last_behind_first(other_first, other, 7);
}

/// Blocks that are moved stay the same blocks.
proof fn lemma_moved_contain(blocks: Seq<Seq<u8>>, moved: Seq<Seq<u8>>, block: Seq<u8>)
    requires
        blocks.to_multiset() == moved.to_multiset(),
    ensures
        blocks.contains(block) == moved.contains(block),
{
    to_multiset_contains(blocks, block);
    to_multiset_contains(moved, block);
}

proof fn lemma_same_last(blocks: Seq<Seq<u8>>, moved: Seq<Seq<u8>>, wanted: nat)
    requires
        blocks.to_multiset() == moved.to_multiset(),
        numbers_differ(blocks),
    ensures
        last_numbered(blocks, wanted) == last_numbered(moved, wanted),
{
    lemma_last_numbered(blocks, wanted);
    lemma_last_numbered(moved, wanted);
    match (last_numbered(blocks, wanted), last_numbered(moved, wanted)) {
        (Some(a), Some(b)) => {
            lemma_moved_contain(blocks, moved, b);
            let i = choose|i: int| 0 <= i < blocks.len() && blocks[i] == a;
            let j = choose|j: int| 0 <= j < blocks.len() && blocks[j] == b;
            assert(i == j);
        },
        (Some(a), None) => {
            lemma_moved_contain(blocks, moved, a);
        },
        (None, Some(b)) => {
            lemma_moved_contain(blocks, moved, b);
        },
        (None, None) => {},
    }
}

/// Blocks with different numbers have them in every order.
proof fn lemma_moved_differ(blocks: Seq<Seq<u8>>, moved: Seq<Seq<u8>>)
    requires
        blocks.to_multiset() == moved.to_multiset(),
        numbers_differ(blocks),
    ensures
        numbers_differ(moved),
{
    assert forall|i: int, j: int| 0 <= i < j < moved.len() implies number(#[trigger] moved[i])
        != number(#[trigger] moved[j]) by {
        lemma_moved_contain(blocks, moved, moved[i]);
        lemma_moved_contain(blocks, moved, moved[j]);
        let a = choose|a: int| 0 <= a < blocks.len() && blocks[a] == moved[i];
        let b = choose|b: int| 0 <= b < blocks.len() && blocks[b] == moved[j];
        if a == b {
            blocks.lemma_multiset_has_no_duplicates();
            assert(blocks.no_duplicates());
            moved.lemma_multiset_has_no_duplicates_conv();
        }
    }
}

/// Whether no two blocks have the same number.
pub open spec fn numbers_differ(blocks: Seq<Seq<u8>>) -> bool {
    forall|i: int, j: int|
        0 <= i < j < blocks.len() ==> number(#[trigger] blocks[i]) != number(#[trigger] blocks[j])
}

/// The order of the header blocks does not matter: a file whose blocks behind
/// the first one are moved into another order decodes to the same segment, or
/// fails with the same error, where no number occurs twice among them.
pub proof fn moved_blocks_decode_alike(
    first: Seq<u8>,
    rest: Seq<Seq<u8>>,
    moved: Seq<Seq<u8>>,
    data: Seq<u8>,
)
    requires
        is_first(first, rest.len() + 1),
        are_whole(rest),
        numbers_differ(rest),
        rest.to_multiset() == moved.to_multiset(),
    ensures
        hsd::decoded(file(first, moved, data)) == hsd::decoded(file(first, rest, data)),
{
    to_multiset_len(rest);
    to_multiset_len(moved);
    assert forall|k: int| 0 <= k < moved.len() implies rest.contains(#[trigger] moved[k]) by {
        lemma_moved_contain(rest, moved, moved[k]);
        assert(moved.contains(moved[k]));
    }
    assert forall|k: int| 0 <= k < moved.len() implies is_whole(#[trigger] moved[k]) by {
        assert(rest.contains(moved[k]));
    }
    lemma_decoded(first, rest, data);
    lemma_decoded(first, moved, data);
    lemma_moved_differ(rest, moved);
    lemma_same_last(rest, moved, 2);
    lemma_same_last(rest, moved, 3);
    lemma_same_last(rest, moved, 5);
    lemma_same_last(rest, moved, 7);
    lemma_error_of_last(rest);
    lemma_error_of_last(moved);
    lemma_error_behind_first(first, rest);
    lemma_error_behind_first(first, moved);
    lemma_same_learned(first, rest, first, moved);
}

proof fn lemma_last_inserted(blocks: Seq<Seq<u8>>, at: int, extra: Seq<u8>, wanted: nat)
    requires
        0 <= at <= blocks.len(),
        number(extra) != wanted,
    ensures
        last_numbered(blocks.insert(at, extra), wanted) == last_numbered(blocks, wanted),
    decreases blocks.len(),
{
    let longer = blocks.insert(at, extra);
    if at == blocks.len() {
        assert(longer.drop_last() =~= blocks);
    } else {
        assert(longer.drop_last() =~= blocks.drop_last().insert(at, extra));
        assert(longer.last() == blocks.last());
        lemma_last_inserted(blocks.drop_last(), at, extra, wanted);
    }
}

proof fn lemma_error_inserted(blocks: Seq<Seq<u8>>, at: int, extra: Seq<u8>)
    requires
        0 <= at <= blocks.len(),
        number(extra) != 2,
    ensures
        first_error(blocks.insert(at, extra)) == first_error(blocks),
    decreases blocks.len(),
{
    let longer = blocks.insert(at, extra);
    if at == blocks.len() {
        assert(longer.drop_last() =~= blocks);
    } else {
        assert(longer.drop_last() =~= blocks.drop_last().insert(at, extra));
        assert(longer.last() == blocks.last());
        lemma_error_inserted(blocks.drop_last(), at, extra);
    }
}

/// A block of a number that is of no interest can stand anywhere behind the
/// first one: with it, and counted by the first block, the file decodes to
/// the same segment, or fails with the same error.
pub proof fn other_blocks_are_skipped(
    first: Seq<u8>,
    counted: Seq<u8>,
    rest: Seq<Seq<u8>>,
    at: int,
    extra: Seq<u8>,
    data: Seq<u8>,
)
    requires
        is_first(first, rest.len() + 1),
        is_first(counted, rest.len() + 2),
        are_whole(rest),
        0 <= at <= rest.len(),
        is_whole(extra),
        number(extra) != 2 && number(extra) != 3 && number(extra) != 5 && number(extra) != 7,
    ensures
        hsd::decoded(file(counted, rest.insert(at, extra), data)) == hsd::decoded(
            file(first, rest, data),
        ),
{
    let longer = rest.insert(at, extra);
    assert forall|k: int| 0 <= k < longer.len() implies is_whole(#[trigger] longer[k]) by {
        if k < at {
            assert(longer[k] == rest[k]);
        } else if k > at {
            assert(longer[k] == rest[k - 1]);
        }
    }
    lemma_decoded(first, rest, data);
    lemma_decoded(counted, longer, data);
    lemma_last_inserted(rest, at, extra, 2);
    lemma_last_inserted(rest, at, extra, 3);
    lemma_last_inserted(rest, at, extra, 5);
    lemma_last_inserted(rest, at, extra, 7);
    lemma_error_inserted(rest, at, extra);
    lemma_error_behind_first(first, rest);
    lemma_error_behind_first(counted, longer);
    lemma_same_learned(first, rest, counted, longer);
}

} // verus!
