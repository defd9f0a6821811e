//! Files that are refused, and the fields of those that are not.

use vstd::prelude::*;

use crate::blocks;
use crate::hsd;
use crate::hsd::{parse, HsdError, Reader, Segment, SegmentModel};
use crate::promises::decoding;
use crate::promises::decoding::Filler;

verus! {

// ---------------------------------------------------------------------------
// Fields
// ---------------------------------------------------------------------------

/// What bytes are worth, the least significant one first.
pub open spec fn byte_worth(bytes: Seq<u8>, offset: int, width: nat) -> int
    decreases width,
{
    if width == 0 {
        0
    } else {
        bytes[offset] + 0x100 * byte_worth(bytes, offset + 1, (width - 1) as nat)
    }
}

pub(crate) proof fn lemma_byte_worth(bytes: Seq<u8>, offset: int, width: nat)
    requires
        0 <= offset,
        offset + width <= bytes.len(),
    ensures
        hsd::le_at(bytes, offset, width as int) == byte_worth(bytes, offset, width),
    decreases width,
{
    if width > 0 {
        lemma_byte_worth(bytes, offset + 1, (width - 1) as nat);
        let all = bytes.subrange(offset, offset + width);
        assert(all.skip(1) =~= bytes.subrange(offset + 1, offset + 1 + (width - 1)));
    }
}

/// Whether a field is read where it is: as what its bytes are worth, and not
/// at all where they are not all there.
pub open spec fn is_read(
    bytes: Seq<u8>,
    offset: usize,
    width: nat,
    value: Result<int, HsdError>,
) -> bool {
    match value {
        Ok(worth) => offset + width <= bytes.len() && worth == byte_worth(
            bytes,
            offset as int,
            width,
        ),
        Err(error) => offset + width > bytes.len() && error == (HsdError::Truncated {
            offset,
            need: width as usize,
            have: bytes.len() as usize,
        }),
    }
}

/// A result with its value as a number.
pub open spec fn as_number<T>(value: Result<T, HsdError>, number: spec_fn(T) -> int) -> Result<
    int,
    HsdError,
> {
    match value {
        Ok(v) => Ok(number(v)),
        Err(error) => Err(error),
    }
}

/// Each field is read where it is, with the least significant byte first.
pub proof fn fields_are_read_where_they_are(
    reader: &Reader,
    offset: usize,
    one: Result<u8, HsdError>,
    two: Result<u16, HsdError>,
    four: Result<u32, HsdError>,
    single: Result<u32, HsdError>,
    double: Result<u64, HsdError>,
)
    requires
        call_ensures(Reader::u8, (reader, offset), one),
        call_ensures(Reader::u16, (reader, offset), two),
        call_ensures(Reader::u32, (reader, offset), four),
        call_ensures(Reader::single, (reader, offset), single),
        call_ensures(Reader::double, (reader, offset), double),
    ensures
        is_read(reader.buf@, offset, 1, as_number(one, |v: u8| v as int)),
        is_read(reader.buf@, offset, 2, as_number(two, |v: u16| v as int)),
        is_read(reader.buf@, offset, 4, as_number(four, |v: u32| v as int)),
        is_read(reader.buf@, offset, 4, as_number(single, |v: u32| v as int)),
        is_read(reader.buf@, offset, 8, as_number(double, |v: u64| v as int)),
{
    let bytes = reader.buf@;
    if offset + 1 <= bytes.len() {
        lemma_byte_worth(bytes, offset as int, 1);
    }
    if offset + 2 <= bytes.len() {
        lemma_byte_worth(bytes, offset as int, 2);
    }
    if offset + 4 <= bytes.len() {
        lemma_byte_worth(bytes, offset as int, 4);
    }
    if offset + 8 <= bytes.len() {
        lemma_byte_worth(bytes, offset as int, 8);
    }
}

/// A piece of a file is the bytes from an offset on.
pub proof fn pieces_are_read_where_they_are<'a>(
    reader: &Reader<'a>,
    offset: usize,
    need: usize,
    piece: Result<&'a [u8], HsdError>,
)
    requires
        call_ensures(Reader::bytes, (reader, offset, need), piece),
    ensures
        match piece {
            Ok(bytes) => {
                &&& offset + need <= reader.buf@.len()
                &&& bytes@.len() == need
                &&& forall|i: int| 0 <= i < need ==> #[trigger] bytes@[i] == reader.buf@[offset + i]
            },
            Err(error) => offset + need > reader.buf@.len() && error == (HsdError::Truncated {
                offset,
                need,
                have: reader.buf@.len() as usize,
            }),
        },
{
}

// ---------------------------------------------------------------------------
// Refusals
// ---------------------------------------------------------------------------

proof fn lemma_cut(buf: Seq<u8>, pos: int, fields: Seq<(int, int)>)
    requires
        0 <= pos <= 0xffff * 0xffff,
        forall|k: int|
            0 <= k < fields.len() ==> 0 <= (#[trigger] fields[k]).0 <= 0xff && 0 <= fields[k].1
                <= 0xff,
    ensures
        hsd::first_cut(buf, pos, fields) matches Some(error) ==> is_cut(buf, error),
    decreases fields.len(),
{
    if fields.len() > 0 {
        let rest = fields.skip(1);
        assert forall|k: int| 0 <= k < rest.len() implies 0 <= (#[trigger] rest[k]).0 <= 0xff && 0
            <= rest[k].1 <= 0xff by {
            assert(rest[k] == fields[k + 1]);
        }
        assert(0 <= fields[0].0 <= 0xff && 0 <= fields[0].1 <= 0xff);
        lemma_cut(buf, pos, rest);
    }
}

/// Whether an error says what is missing at the end of a file.
pub open spec fn is_cut(buf: Seq<u8>, error: HsdError) -> bool {
    error matches HsdError::Truncated { offset, need, have } && offset + need > buf.len() && have
        == buf.len() as usize
}

/// Whether an error of the headers says what is wrong.
spec fn is_header_error(buf: Seq<u8>, error: HsdError) -> bool {
    is_cut(buf, error) || error is BitsPerPixel && error->BitsPerPixel_0 != 16
}

proof fn lemma_block_errors(buf: Seq<u8>, pos: int)
    requires
        0 <= pos <= 0xffff * 0xffff,
    ensures
        hsd::projection_block(buf, pos) matches Err(error) ==> is_cut(buf, error),
        hsd::calibration_block(buf, pos) matches Err(error) ==> is_cut(buf, error),
        hsd::segment_block(buf, pos) matches Err(error) ==> is_cut(buf, error),
{
    lemma_cut(buf, pos, hsd::projection_fields());
    lemma_cut(buf, pos, seq![(3, 2)]);
    lemma_cut(buf, pos, hsd::calibration_fields(hsd::le_at(buf, pos + 3, 2)));
    lemma_cut(buf, pos, seq![(3, 1), (4, 1), (5, 2)]);
}

proof fn lemma_size_errors(buf: Seq<u8>, pos: int)
    requires
        0 <= pos <= 0xffff * 0xffff,
    ensures
        hsd::data_block(buf, pos) matches Err(error) ==> is_header_error(buf, error),
{
    lemma_cut(buf, pos, seq![(3, 2)]);
    lemma_cut(buf, pos, seq![(5, 2), (7, 2)]);
    reveal_with_fuel(hsd::first_cut, 2);
    if pos + 5 <= buf.len() {
        decoding::lemma_two_bytes(buf.subrange(pos + 3, pos + 5));
    }
}

proof fn lemma_start_errors(buf: Seq<u8>, pos: int)
    requires
        0 <= pos <= 0xffff * 0xffff,
    ensures
        match hsd::first_cut(buf, pos, seq![(0, 1), (1, 2)]) {
            Some(error) => is_cut(buf, error),
            None => hsd::le_at(buf, pos + 1, 2) <= 0xffff,
        },
{
    lemma_cut(buf, pos, seq![(0, 1), (1, 2)]);
    reveal_with_fuel(hsd::first_cut, 3);
    assert(seq![(0int, 1int), (1int, 2int)].skip(1)[0] == (1int, 2int));
    if pos + 3 <= buf.len() {
        decoding::lemma_two_bytes(buf.subrange(pos + 1, pos + 3));
    }
}

proof fn lemma_headers_error(buf: Seq<u8>, count: nat)
    requires
        count <= 0xffff,
    ensures
        match hsd::walk_headers(buf, count) {
            Ok(walk) => walk.pos <= 0xffff * count,
            Err(error) => is_header_error(buf, error),
        },
    decreases count,
{
    if count > 0 {
        lemma_headers_error(buf, (count - 1) as nat);
        if let Ok(walk) = hsd::walk_headers(buf, (count - 1) as nat) {
            let pos = walk.pos as int;
            assert(pos <= 0xffff * 0xffff);
            lemma_start_errors(buf, pos);
            lemma_size_errors(buf, pos);
            lemma_block_errors(buf, pos);
        }
    }
}

/// Whatever a file holds, where it is refused for being cut something is
/// missing at its end, and where it is refused for its pixels they have no 16
/// bits.
pub proof fn refusals_say_what_is_wrong(buf: &[u8], result: Result<Segment, HsdError>)
    requires
        call_ensures(parse, (buf,), result),
    ensures
        result matches Err(error) ==> match error {
            HsdError::Truncated { offset, need, have } => offset + need > buf@.len() && have
                == buf@.len() as usize,
            HsdError::BitsPerPixel(bits) => bits != 16,
            HsdError::MissingBlock(number) => number == 2 || number == 3 || number == 5 || number
                == 7,
            HsdError::DataSize { expected, have } => have < expected || have == 0,
            _ => true,
        },
{
    let b = buf@;
    lemma_cut(b, 0, seq![(0, 1)]);
    lemma_cut(b, 0, seq![(3, 2), (5, 1)]);
    lemma_count_is_there(b);
    if b.len() >= 5 {
        decoding::lemma_two_bytes(b.subrange(3, 5));
        lemma_headers_error(b, hsd::le_at(b, 3, 2));
        if let Ok(walk) = hsd::walk_headers(b, hsd::le_at(b, 3, 2)) {
            lemma_sizes(b, hsd::le_at(b, 3, 2));
            if let Some(data) = walk.data {
                lemma_product(data.columns as int, data.lines as int);
            }
        }
    }
}

proof fn lemma_count_is_there(buf: Seq<u8>)
    ensures
        hsd::first_cut(buf, 0, seq![(3, 2), (5, 1)]) is None ==> buf.len() >= 5,
{
    reveal_with_fuel(hsd::first_cut, 2);
}

proof fn lemma_product(columns: int, lines: int)
    requires
        0 <= columns <= 0xffff,
        0 <= lines <= 0xffff,
    ensures
        0 <= columns * lines <= 0xffff * 0xffff,
{
    assert(0 <= columns * lines <= 0xffff * 0xffff) by (nonlinear_arith)
        requires
            0 <= columns <= 0xffff,
            0 <= lines <= 0xffff,
    ;
}

proof fn lemma_sizes(buf: Seq<u8>, count: nat)
    ensures
        hsd::walk_headers(buf, count) matches Ok(walk) ==> (walk.data matches Some(data)
            ==> data.columns <= 0xffff && data.lines <= 0xffff),
    decreases count,
{
    if count > 0 {
        lemma_sizes(buf, (count - 1) as nat);
        if let Ok(walk) = hsd::walk_headers(buf, (count - 1) as nat) {
            let pos = walk.pos as int;
            reveal_with_fuel(hsd::first_cut, 3);
            assert(seq![(5int, 2int), (7int, 2int)].skip(1)[0] == (7int, 2int));
            if pos + 9 <= buf.len() {
                decoding::lemma_two_bytes(buf.subrange(pos + 5, pos + 7));
                decoding::lemma_two_bytes(buf.subrange(pos + 7, pos + 9));
            }
        }
    }
}

/// The headers of a file that holds a segment.
pub open spec fn headers(s: SegmentModel, filler: Filler) -> Seq<u8> {
    decoding::first_block(filler) + decoding::size_block(s, filler) + decoding::projection_block(
        s.projection,
        filler,
    ) + decoding::band_block(s, filler) + decoding::place_block(s, filler)
}

proof fn lemma_short(
    first: Seq<u8>,
    size: Seq<u8>,
    projection: Seq<u8>,
    band: Seq<u8>,
    place: Seq<u8>,
    data: Seq<u8>,
    s: SegmentModel,
)
    requires
        blocks::is_first(first, 5),
        blocks::number(size) == 2,
        blocks::number(projection) == 3,
        blocks::number(band) == 5,
        blocks::number(place) == 7,
        blocks::is_whole(size),
        blocks::is_whole(projection),
        blocks::is_whole(band),
        blocks::is_whole(place),
        hsd::data_block(size, 0) == Ok::<hsd::DataInfo, HsdError>(
            hsd::DataInfo { columns: s.columns, lines: s.lines },
        ),
        hsd::projection_block(projection, 0) is Ok,
        hsd::calibration_block(band, 0) is Ok,
        hsd::segment_block(place, 0) is Ok,
        s.columns <= 0xffff,
        s.lines <= 0xffff,
        data.len() < 2 * (s.columns * s.lines),
    ensures
        hsd::decoded(first + size + projection + band + place + data) == Err::<
            SegmentModel,
            HsdError,
        >(
            HsdError::DataSize {
                expected: (s.columns * s.lines) as usize,
                have: (data.len() / 2) as usize,
            },
        ),
{
    let rest = seq![size, projection, band, place];
    let all = seq![first] + rest;
    assert(all.len() == 5 && all[0] == first && all[1] == size && all[2] == projection && all[3]
        == band && all[4] == place);
    assert(blocks::are_whole(rest));
    blocks::lemma_decoded(first, rest, data);
    decoding::lemma_five(all, data);
    decoding::lemma_learned(all);
    lemma_product(s.columns as int, s.lines as int);
    assert(data.len() as int / 2 == data.len() / 2);
}

/// A file with too few counts is refused with how many there are, and how
/// many there should be.
pub proof fn missing_counts_are_counted(
    buf: &[u8],
    s: SegmentModel,
    filler: Filler,
    data: Seq<u8>,
    result: Result<Segment, HsdError>,
)
    requires
        call_ensures(parse, (buf,), result),
        decoding::can_be_written(s),
        decoding::fits_layout(filler),
        buf@ == headers(s, filler) + data,
        data.len() < 2 * (s.columns * s.lines),
    ensures
        result matches Err(HsdError::DataSize { expected, have }) && expected == s.columns * s.lines
            && have == data.len() / 2,
{
    decoding::lemma_first(filler);
    decoding::lemma_size(s, filler);
    decoding::lemma_projection(s.projection, filler);
    decoding::lemma_band(s, filler);
    decoding::lemma_place(s, filler);
    lemma_product(s.columns as int, s.lines as int);
    lemma_short(
        decoding::first_block(filler),
        decoding::size_block(s, filler),
        decoding::projection_block(s.projection, filler),
        decoding::band_block(s, filler),
        decoding::place_block(s, filler),
        data,
        s,
    );
}

// ---------------------------------------------------------------------------
// Missing blocks
// ---------------------------------------------------------------------------

/// The first block of a file with four blocks.
pub open spec fn first_of_four(filler: Filler) -> Seq<u8> {
    decoding::header_block(1, decoding::bytes_of(4, 2) + seq![0u8] + filler.name)
}

proof fn lemma_first_of_four(filler: Filler)
    requires
        decoding::fits_layout(filler),
    ensures
        blocks::is_first(first_of_four(filler), 4),
{
    let body = decoding::bytes_of(4, 2) + seq![0u8] + filler.name;
    decoding::lemma_reads_back(4, 2);
    decoding::lemma_header(1, body);
    assert(body =~= Seq::<u8>::empty() + decoding::bytes_of(4, 2) + (seq![0u8] + filler.name));
    decoding::lemma_body_field(1, body, Seq::empty(), 4, 2, seq![0u8] + filler.name);
    assert(decoding::bytes_of(0, 1) =~= seq![0u8]) by {
        reveal_with_fuel(decoding::bytes_of, 2);
    }
    decoding::lemma_body_field(1, body, decoding::bytes_of(4, 2), 0, 1, filler.name);
}

proof fn lemma_four(all: Seq<Seq<u8>>, data: Seq<u8>)
    requires
        all.len() == 4,
    ensures
        blocks::joined(all) + data == all[0] + all[1] + all[2] + all[3] + data,
{
    reveal_with_fuel(blocks::joined, 5);
    let three = all.drop_last();
    let two = three.drop_last();
    let one = two.drop_last();
    assert(blocks::joined(one.drop_last()) =~= Seq::empty());
    assert(blocks::joined(all) =~= all[0] + all[1] + all[2] + all[3]);
}

proof fn lemma_missing(first: Seq<u8>, a: Seq<u8>, b: Seq<u8>, c: Seq<u8>, data: Seq<u8>, n: nat)
    requires
        blocks::is_first(first, 4),
        blocks::is_whole(a),
        blocks::is_whole(b),
        blocks::is_whole(c),
        blocks::number(a) == 2 ==> hsd::data_block(a, 0) is Ok,
        blocks::number(a) == 3 ==> hsd::projection_block(a, 0) is Ok,
        blocks::number(b) == 3 ==> hsd::projection_block(b, 0) is Ok,
        blocks::number(b) == 5 ==> hsd::calibration_block(b, 0) is Ok,
        blocks::number(c) == 5 ==> hsd::calibration_block(c, 0) is Ok,
        blocks::number(c) == 7 ==> hsd::segment_block(c, 0) is Ok,
        n == 2 && blocks::number(a) == 3 && blocks::number(b) == 5 && blocks::number(c) == 7 || n
            == 3 && blocks::number(a) == 2 && blocks::number(b) == 5 && blocks::number(c) == 7 || n
            == 5 && blocks::number(a) == 2 && blocks::number(b) == 3 && blocks::number(c) == 7 || n
            == 7 && blocks::number(a) == 2 && blocks::number(b) == 3 && blocks::number(c) == 5,
    ensures
        hsd::decoded(first + a + b + c + data) == Err::<SegmentModel, HsdError>(
            HsdError::MissingBlock(n as u8),
        ),
{
    let rest = seq![a, b, c];
    let all = seq![first] + rest;
    assert(all.len() == 4 && all[0] == first && all[1] == a && all[2] == b && all[3] == c);
    assert(blocks::are_whole(rest));
    blocks::lemma_decoded(first, rest, data);
    lemma_four(all, data);
    reveal_with_fuel(blocks::last_numbered, 5);
    reveal_with_fuel(blocks::first_error, 5);
    let three = all.drop_last();
    let two = three.drop_last();
    let one = two.drop_last();
    assert(three.last() == b && two.last() == a && one.last() == first);
    assert(one.drop_last() =~= Seq::empty());
}

/// A file without the block with the size, the projection, the calibration or
/// the segment is refused with the number of the block that is missing.
pub proof fn missing_blocks_are_named(
    buf: &[u8],
    s: SegmentModel,
    filler: Filler,
    data: Seq<u8>,
    result: Result<Segment, HsdError>,
)
    requires
        call_ensures(parse, (buf,), result),
        decoding::can_be_written(s),
        decoding::fits_layout(filler),
    ensures
        ({
            let first = first_of_four(filler);
            let size = decoding::size_block(s, filler);
            let projection = decoding::projection_block(s.projection, filler);
            let band = decoding::band_block(s, filler);
            let place = decoding::place_block(s, filler);
            &&& buf@ == first + projection + band + place + data ==> result == Err::<
                Segment,
                HsdError,
            >(HsdError::MissingBlock(2))
            &&& buf@ == first + size + band + place + data ==> result == Err::<Segment, HsdError>(
                HsdError::MissingBlock(3),
            )
            &&& buf@ == first + size + projection + place + data ==> result == Err::<
                Segment,
                HsdError,
            >(HsdError::MissingBlock(5))
            &&& buf@ == first + size + projection + band + data ==> result == Err::<
                Segment,
                HsdError,
            >(HsdError::MissingBlock(7))
        }),
{
    let first = first_of_four(filler);
    let size = decoding::size_block(s, filler);
    let projection = decoding::projection_block(s.projection, filler);
    let band = decoding::band_block(s, filler);
    let place = decoding::place_block(s, filler);
    lemma_first_of_four(filler);
    decoding::lemma_size(s, filler);
    decoding::lemma_projection(s.projection, filler);
    decoding::lemma_band(s, filler);
    decoding::lemma_place(s, filler);
    lemma_missing(first, projection, band, place, data, 2);
    lemma_missing(first, size, band, place, data, 3);
    lemma_missing(first, size, projection, place, data, 5);
    lemma_missing(first, size, projection, band, data, 7);
}

// ---------------------------------------------------------------------------
// Other pixels, and blocks that come twice
// ---------------------------------------------------------------------------

/// A block with the size of the image, of some number of bits for each pixel.
pub open spec fn wide_block(bits: u16, s: SegmentModel, filler: Filler) -> Seq<u8> {
    decoding::header_block(
        2,
        decoding::bytes_of(bits as nat, 2) + decoding::bytes_of(s.columns as nat, 2)
            + decoding::bytes_of(s.lines as nat, 2) + filler.ends.0,
    )
}

proof fn lemma_wide(bits: u16, s: SegmentModel, filler: Filler)
    requires
        decoding::fits_layout(filler),
        bits != 16,
    ensures
        blocks::number(wide_block(bits, s, filler)) == 2,
        blocks::is_whole(wide_block(bits, s, filler)),
        hsd::data_block(wide_block(bits, s, filler), 0) == Err::<hsd::DataInfo, HsdError>(
            HsdError::BitsPerPixel(bits),
        ),
{
    let a = decoding::bytes_of(bits as nat, 2);
    let b = decoding::bytes_of(s.columns as nat, 2);
    let c = decoding::bytes_of(s.lines as nat, 2);
    let body = a + b + c + filler.ends.0;
    decoding::lemma_reads_back(bits as nat, 2);
    decoding::lemma_reads_back(s.columns as nat, 2);
    decoding::lemma_reads_back(s.lines as nat, 2);
    decoding::lemma_header(2, body);
    assert(body =~= Seq::<u8>::empty() + a + (b + c + filler.ends.0));
    decoding::lemma_body_field(2, body, Seq::empty(), bits as nat, 2, b + c + filler.ends.0);
    decoding::lemma_no_cut(wide_block(bits, s, filler), seq![(3, 2)]);
}

proof fn lemma_first_error(
    first: Seq<u8>,
    size: Seq<u8>,
    projection: Seq<u8>,
    band: Seq<u8>,
    place: Seq<u8>,
    data: Seq<u8>,
    bits: u16,
)
    requires
        blocks::is_first(first, 5),
        blocks::number(size) == 2,
        blocks::number(projection) == 3,
        blocks::number(band) == 5,
        blocks::number(place) == 7,
        blocks::is_whole(size),
        blocks::is_whole(projection),
        blocks::is_whole(band),
        blocks::is_whole(place),
        hsd::data_block(size, 0) == Err::<hsd::DataInfo, HsdError>(HsdError::BitsPerPixel(bits)),
    ensures
        hsd::decoded(first + size + projection + band + place + data) == Err::<
            SegmentModel,
            HsdError,
        >(HsdError::BitsPerPixel(bits)),
{
    let rest = seq![size, projection, band, place];
    let all = seq![first] + rest;
    assert(all.len() == 5 && all[0] == first && all[1] == size && all[2] == projection && all[3]
        == band && all[4] == place);
    assert(blocks::are_whole(rest));
    blocks::lemma_decoded(first, rest, data);
    decoding::lemma_five(all, data);
    reveal_with_fuel(blocks::first_error, 6);
    let four = all.drop_last();
    let three = four.drop_last();
    let two = three.drop_last();
    let one = two.drop_last();
    assert(four.last() == band && three.last() == projection && two.last() == size && one.last()
        == first);
    assert(one.drop_last() =~= Seq::empty());
}

/// A file whose pixels have other than 16 bits is refused with how many they
/// have.
pub proof fn other_pixels_are_refused(
    buf: &[u8],
    bits: u16,
    s: SegmentModel,
    filler: Filler,
    data: Seq<u8>,
    result: Result<Segment, HsdError>,
)
    requires
        call_ensures(parse, (buf,), result),
        decoding::can_be_written(s),
        decoding::fits_layout(filler),
        bits != 16,
        buf@ == decoding::first_block(filler) + wide_block(bits, s, filler)
            + decoding::projection_block(s.projection, filler) + decoding::band_block(s, filler)
            + decoding::place_block(s, filler) + data,
    ensures
        result == Err::<Segment, HsdError>(HsdError::BitsPerPixel(bits)),
{
    decoding::lemma_first(filler);
    lemma_wide(bits, s, filler);
    decoding::lemma_projection(s.projection, filler);
    decoding::lemma_band(s, filler);
    decoding::lemma_place(s, filler);
    lemma_first_error(
        decoding::first_block(filler),
        wide_block(bits, s, filler),
        decoding::projection_block(s.projection, filler),
        decoding::band_block(s, filler),
        decoding::place_block(s, filler),
        data,
        bits,
    );
}

/// The first block of a file with six blocks.
pub open spec fn first_of_six(filler: Filler) -> Seq<u8> {
    decoding::header_block(1, decoding::bytes_of(6, 2) + seq![0u8] + filler.name)
}

proof fn lemma_first_of_six(filler: Filler)
    requires
        decoding::fits_layout(filler),
    ensures
        blocks::is_first(first_of_six(filler), 6),
{
    let body = decoding::bytes_of(6, 2) + seq![0u8] + filler.name;
    decoding::lemma_reads_back(6, 2);
    decoding::lemma_header(1, body);
    assert(body =~= Seq::<u8>::empty() + decoding::bytes_of(6, 2) + (seq![0u8] + filler.name));
    decoding::lemma_body_field(1, body, Seq::empty(), 6, 2, seq![0u8] + filler.name);
    assert(decoding::bytes_of(0, 1) =~= seq![0u8]) by {
        reveal_with_fuel(decoding::bytes_of, 2);
    }
    decoding::lemma_body_field(1, body, decoding::bytes_of(6, 2), 0, 1, filler.name);
}

proof fn lemma_six(all: Seq<Seq<u8>>, data: Seq<u8>)
    requires
        all.len() == 6,
    ensures
        blocks::joined(all) + data == all[0] + all[1] + all[2] + all[3] + all[4] + all[5] + data,
{
    reveal_with_fuel(blocks::joined, 7);
    let five = all.drop_last();
    let four = five.drop_last();
    let three = four.drop_last();
    let two = three.drop_last();
    let one = two.drop_last();
    assert(blocks::joined(one.drop_last()) =~= Seq::empty());
    assert(blocks::joined(all) =~= all[0] + all[1] + all[2] + all[3] + all[4] + all[5]);
}

proof fn lemma_six_learned(all: Seq<Seq<u8>>)
    requires
        all.len() == 6,
        blocks::number(all[0]) == 1,
        blocks::number(all[2]) == 2,
        blocks::number(all[3]) == 3,
        blocks::number(all[4]) == 5,
        blocks::number(all[5]) == 7,
        blocks::number(all[1]) == 2 ==> hsd::data_block(all[1], 0) is Ok,
        hsd::data_block(all[2], 0) is Ok,
    ensures
        blocks::last_numbered(all, 2) == Some(all[2]),
        blocks::last_numbered(all, 3) == Some(all[3]),
        blocks::last_numbered(all, 5) == Some(all[4]),
        blocks::last_numbered(all, 7) == Some(all[5]),
        blocks::first_error(all) is None,
{
    reveal_with_fuel(blocks::last_numbered, 7);
    reveal_with_fuel(blocks::first_error, 7);
    let five = all.drop_last();
    let four = five.drop_last();
    let three = four.drop_last();
    let two = three.drop_last();
    let one = two.drop_last();
    assert(five.last() == all[4] && four.last() == all[3] && three.last() == all[2] && two.last()
        == all[1] && one.last() == all[0]);
    assert(one.drop_last() =~= Seq::empty());
}

/// What a file with a block before those of a segment decodes to.
proof fn lemma_replaced(
    first: Seq<u8>,
    extra: Seq<u8>,
    size: Seq<u8>,
    projection: Seq<u8>,
    band: Seq<u8>,
    place: Seq<u8>,
    data: Seq<u8>,
    s: SegmentModel,
)
    requires
        blocks::is_first(first, 6),
        blocks::is_whole(extra),
        blocks::number(extra) == 2 ==> hsd::data_block(extra, 0) is Ok,
        blocks::number(size) == 2,
        blocks::number(projection) == 3,
        blocks::number(band) == 5,
        blocks::number(place) == 7,
        blocks::is_whole(size),
        blocks::is_whole(projection),
        blocks::is_whole(band),
        blocks::is_whole(place),
        hsd::data_block(size, 0) == Ok::<hsd::DataInfo, HsdError>(
            hsd::DataInfo { columns: s.columns, lines: s.lines },
        ),
        hsd::projection_block(projection, 0) == Ok::<hsd::Projection, HsdError>(s.projection),
        hsd::calibration_block(band, 0) == Ok::<hsd::CalInfo, HsdError>(
            hsd::CalInfo { band_number: s.band_number, calibration: s.calibration },
        ),
        hsd::segment_block(place, 0) == Ok::<hsd::SegmentInfo, HsdError>(
            hsd::SegmentInfo {
                total_segments: s.total_segments,
                segment_number: s.segment_number,
                first_line: s.first_line,
            },
        ),
        s.counts.len() == s.columns * s.lines,
        data.len() >= 2 * s.counts.len(),
        forall|i: int|
            0 <= i < s.counts.len() ==> #[trigger] hsd::le_at(data, 2 * i, 2) == s.counts[i],
    ensures
        hsd::decoded(first + extra + size + projection + band + place + data) == Ok::<
            SegmentModel,
            HsdError,
        >(s),
{
    let rest = seq![extra, size, projection, band, place];
    let all = seq![first] + rest;
    assert(all.len() == 6 && all[0] == first && all[1] == extra && all[2] == size && all[3]
        == projection && all[4] == band && all[5] == place);
    assert(blocks::are_whole(rest));
    blocks::lemma_decoded(first, rest, data);
    lemma_six(all, data);
    lemma_six_learned(all);
    let model = hsd::finish(data, blocks::learned(all, 0));
    assert(model is Ok);
    assert forall|i: int| 0 <= i < s.counts.len() implies #[trigger] model->Ok_0.counts[i]
        == s.counts[i] by {
        assert(hsd::le_at(data, 2 * i, 2) == s.counts[i]);
        assert(0 + 2 * i == 2 * i);
    }
    assert(model->Ok_0.counts =~= s.counts);
}

/// Of two blocks with the same number the later one counts.
pub proof fn later_blocks_replace_earlier_ones(
    buf: &[u8],
    s: SegmentModel,
    filler: Filler,
    earlier: SegmentModel,
    other: Filler,
    extra: Seq<u8>,
    result: Result<Segment, HsdError>,
)
    requires
        call_ensures(parse, (buf,), result),
        decoding::can_be_written(s),
        decoding::fits_layout(filler),
        decoding::can_be_written(earlier),
        decoding::fits_layout(other),
        extra == decoding::size_block(earlier, other) || extra == decoding::projection_block(
            earlier.projection,
            other,
        ) || extra == decoding::band_block(earlier, other) || extra == decoding::place_block(
            earlier,
            other,
        ),
        buf@ == first_of_six(filler) + extra + decoding::size_block(s, filler)
            + decoding::projection_block(s.projection, filler) + decoding::band_block(s, filler)
            + decoding::place_block(s, filler) + (decoding::count_bytes(s.counts) + filler.rest),
    ensures
        result matches Ok(segment) && segment@ == s,
{
    lemma_first_of_six(filler);
    decoding::lemma_size(s, filler);
    decoding::lemma_projection(s.projection, filler);
    decoding::lemma_band(s, filler);
    decoding::lemma_place(s, filler);
    decoding::lemma_size(earlier, other);
    decoding::lemma_projection(earlier.projection, other);
    decoding::lemma_band(earlier, other);
    decoding::lemma_place(earlier, other);
    let data = decoding::count_bytes(s.counts) + filler.rest;
    decoding::lemma_count_number(s.counts);
    assert forall|i: int| 0 <= i < s.counts.len() implies #[trigger] hsd::le_at(data, 2 * i, 2)
        == s.counts[i] by {
        decoding::lemma_counts(s.counts, filler.rest, i);
    }
    lemma_replaced(
        first_of_six(filler),
        extra,
        decoding::size_block(s, filler),
        decoding::projection_block(s.projection, filler),
        decoding::band_block(s, filler),
        decoding::place_block(s, filler),
        data,
        s,
    );
}

// ---------------------------------------------------------------------------
// Any blocks
// ---------------------------------------------------------------------------

/// Whether there is a block with a number.
pub open spec fn has_block(rest: Seq<Seq<u8>>, number: nat) -> bool {
    exists|k: int| 0 <= k < rest.len() && blocks::number(#[trigger] rest[k]) == number
}

/// Whether each block with a size has pixels of 16 bits.
pub open spec fn have_sixteen_bits(rest: Seq<Seq<u8>>) -> bool {
    forall|k: int|
        0 <= k < rest.len() && blocks::number(#[trigger] rest[k]) == 2 ==> byte_worth(
            rest[k],
            3,
            2,
        ) == 16
}

proof fn lemma_last_numbered(all: Seq<Seq<u8>>, number: nat)
    ensures
        match blocks::last_numbered(all, number) {
            Some(block) => has_block(all, number) && all.contains(block) && blocks::number(block)
                == number,
            None => !has_block(all, number),
        },
    decreases all.len(),
{
    if all.len() > 0 {
        let rest = all.drop_last();
        let n = all.len() - 1;
        lemma_last_numbered(rest, number);
        if blocks::number(all.last()) == number {
            assert(all[n] == all.last());
        } else {
            if let Some(block) = blocks::last_numbered(rest, number) {
                let k = choose|k: int| 0 <= k < rest.len() && rest[k] == block;
                assert(all[k] == block);
            } else {
                assert forall|k: int| 0 <= k < all.len() implies blocks::number(
                    #[trigger] all[k],
                ) != number by {
                    if k < n {
                        assert(rest[k] == all[k]);
                    } else {
                        assert(all[k] == all.last());
                    }
                }
            }
        }
    }
}

proof fn lemma_whole_block(block: Seq<u8>)
    requires
        blocks::is_whole(block),
    ensures
        blocks::number(block) == 2 && byte_worth(block, 3, 2) == 16 ==> hsd::data_block(
            block,
            0,
        ) is Ok,
        blocks::number(block) == 3 ==> hsd::projection_block(block, 0) is Ok,
        blocks::number(block) == 5 ==> hsd::calibration_block(block, 0) is Ok,
        blocks::number(block) == 7 ==> hsd::segment_block(block, 0) is Ok,
{
    if blocks::number(block) == 2 {
        lemma_byte_worth(block, 3, 2);
        decoding::lemma_no_cut(block, seq![(3, 2)]);
        decoding::lemma_no_cut(block, seq![(5, 2), (7, 2)]);
    } else if blocks::number(block) == 3 {
        decoding::lemma_no_cut(block, hsd::projection_fields());
    } else if blocks::number(block) == 5 {
        decoding::lemma_no_cut(block, seq![(3, 2)]);
        decoding::lemma_no_cut(block, hsd::calibration_fields(hsd::le_at(block, 3, 2)));
    } else if blocks::number(block) == 7 {
        decoding::lemma_no_cut(block, seq![(3, 1), (4, 1), (5, 2)]);
    }
}

pub(crate) proof fn lemma_no_error(all: Seq<Seq<u8>>)
    requires
        blocks::are_whole(all),
        have_sixteen_bits(all),
    ensures
        blocks::first_error(all) is None,
    decreases all.len(),
{
    if all.len() > 0 {
        let rest = all.drop_last();
        let n = all.len() - 1;
        assert forall|k: int| 0 <= k < rest.len() implies blocks::is_whole(#[trigger] rest[k]) by {
            assert(rest[k] == all[k]);
        }
        assert forall|k: int|
            0 <= k < rest.len() && blocks::number(#[trigger] rest[k]) == 2 implies byte_worth(
            rest[k],
            3,
            2,
        ) == 16 by {
            assert(rest[k] == all[k]);
        }
        lemma_no_error(rest);
        assert(all[n] == all.last());
        assert(blocks::is_whole(all[n]));
        lemma_whole_block(all[n]);
    }
}

proof fn lemma_learns(all: Seq<Seq<u8>>, number: nat)
    requires
        blocks::are_whole(all),
        have_sixteen_bits(all),
    ensures
        blocks::last_numbered(all, number) matches Some(block) ==> blocks::is_whole(block)
            && blocks::number(block) == number && (number == 2 ==> byte_worth(block, 3, 2) == 16),
        blocks::last_numbered(all, number) is Some <==> has_block(all, number),
{
    lemma_last_numbered(all, number);
    if let Some(block) = blocks::last_numbered(all, number) {
        let k = choose|k: int| 0 <= k < all.len() && all[k] == block;
        assert(blocks::is_whole(all[k]));
    }
}

/// Whatever blocks a file has, it is refused with the smallest of the numbers
/// 2, 3, 5 and 7 that none of them has; and not so where each is there.
pub proof fn the_first_missing_block_is_named(
    buf: &[u8],
    first: Seq<u8>,
    rest: Seq<Seq<u8>>,
    data: Seq<u8>,
    result: Result<Segment, HsdError>,
)
    requires
        call_ensures(parse, (buf,), result),
        blocks::is_first(first, rest.len() + 1),
        blocks::are_whole(rest),
        have_sixteen_bits(rest),
        buf@ == blocks::file(first, rest, data),
    ensures
        result == Err::<Segment, HsdError>(HsdError::MissingBlock(2)) <==> !has_block(rest, 2),
        result == Err::<Segment, HsdError>(HsdError::MissingBlock(3)) <==> has_block(rest, 2)
            && !has_block(rest, 3),
        result == Err::<Segment, HsdError>(HsdError::MissingBlock(5)) <==> has_block(rest, 2)
            && has_block(rest, 3) && !has_block(rest, 5),
        result == Err::<Segment, HsdError>(HsdError::MissingBlock(7)) <==> has_block(rest, 2)
            && has_block(rest, 3) && has_block(rest, 5) && !has_block(rest, 7),
{
    let all = seq![first] + rest;
    assert forall|k: int| 0 <= k < all.len() implies blocks::is_whole(#[trigger] all[k]) by {
        if k > 0 {
            assert(all[k] == rest[k - 1]);
        }
    }
    assert forall|k: int|
        0 <= k < all.len() && blocks::number(#[trigger] all[k]) == 2 implies byte_worth(
        all[k],
        3,
        2,
    ) == 16 by {
        if k > 0 {
            assert(all[k] == rest[k - 1]);
        }
    }
    blocks::lemma_decoded(first, rest, data);
    lemma_no_error(all);
    lemma_behind(first, rest, 2);
    lemma_behind(first, rest, 3);
    lemma_behind(first, rest, 5);
    lemma_behind(first, rest, 7);
    lemma_learns(all, 2);
    lemma_learns(all, 3);
    lemma_learns(all, 5);
    lemma_learns(all, 7);
    lemma_learned_there(all);
}

proof fn lemma_learned_there(all: Seq<Seq<u8>>)
    requires
        blocks::are_whole(all),
        have_sixteen_bits(all),
    ensures
        ({
            let walk = blocks::learned(all, 0);
            &&& walk.data is Some <==> has_block(all, 2)
            &&& walk.projection is Some <==> has_block(all, 3)
            &&& walk.calibration is Some <==> has_block(all, 5)
            &&& walk.segment is Some <==> has_block(all, 7)
        }),
{
    lemma_learns(all, 2);
    lemma_learns(all, 3);
    lemma_learns(all, 5);
    lemma_learns(all, 7);
    if let Some(block) = blocks::last_numbered(all, 2) {
        lemma_whole_block(block);
    }
    if let Some(block) = blocks::last_numbered(all, 3) {
        lemma_whole_block(block);
    }
    if let Some(block) = blocks::last_numbered(all, 5) {
        lemma_whole_block(block);
    }
    if let Some(block) = blocks::last_numbered(all, 7) {
        lemma_whole_block(block);
    }
}

proof fn lemma_behind(first: Seq<u8>, rest: Seq<Seq<u8>>, number: nat)
    requires
        blocks::number(first) == 1,
        number != 1,
    ensures
        has_block(seq![first] + rest, number) <==> has_block(rest, number),
{
    let all = seq![first] + rest;
    if has_block(all, number) {
        let k = choose|k: int| 0 <= k < all.len() && blocks::number(#[trigger] all[k]) == number;
        assert(all[k] == rest[k - 1]);
    }
    if has_block(rest, number) {
        let k = choose|k: int| 0 <= k < rest.len() && blocks::number(#[trigger] rest[k]) == number;
        assert(all[k + 1] == rest[k]);
    }
}

} // verus!
