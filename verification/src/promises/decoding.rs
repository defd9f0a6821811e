//! Files and what they decode to.

use vstd::prelude::*;

use crate::band::{Band, IrBand};
use crate::blocks;
use crate::fetch::{decode_raw, SegmentError};
use crate::hsd;
use crate::hsd::{
    parse, CalibrationKind, HsdError, Projection, Segment, SegmentModel,
};

verus! {

// ---------------------------------------------------------------------------
// Writing a file
// ---------------------------------------------------------------------------

/// A number in so many bytes, the least significant one first.
pub open spec fn bytes_of(n: nat, width: nat) -> Seq<u8>
    decreases width,
{
    if width == 0 {
        Seq::empty()
    } else {
        seq![(n % 0x100) as u8] + bytes_of(n / 0x100, (width - 1) as nat)
    }
}

/// What stands in a file beside the fields that are decoded.
pub ghost struct Filler {
    /// The bytes of the first block behind its byte order.
    pub name: Seq<u8>,
    /// The bytes between the band's fields in the calibration block.
    pub gap: Seq<u8>,
    pub wide_gap: Seq<u8>,
    /// The fields of the calibration block that a reflective band has no use
    /// for.
    pub wavelength: u64,
    pub c1: u64,
    pub c2: u64,
    pub constants: (u64, u64, u64),
    /// The ends of the blocks, and of the file.
    pub ends: (Seq<u8>, Seq<u8>, Seq<u8>, Seq<u8>),
    pub rest: Seq<u8>,
}

/// A header block of a number with a body.
#[verifier::opaque]
pub open spec fn header_block(number: nat, body: Seq<u8>) -> Seq<u8> {
    bytes_of(number, 1) + bytes_of(3 + body.len(), 2) + body
}

/// The first block: how many there are, and that numbers are little-endian.
#[verifier::opaque]
pub open spec fn first_block(filler: Filler) -> Seq<u8> {
    header_block(1, bytes_of(5, 2) + seq![0u8] + filler.name)
}

/// The block with the size of the image, of 16 bits for each pixel.
#[verifier::opaque]
pub open spec fn size_block(s: SegmentModel, filler: Filler) -> Seq<u8> {
    header_block(
        2,
        bytes_of(16, 2) + bytes_of(s.columns as nat, 2) + bytes_of(s.lines as nat, 2)
            + filler.ends.0,
    )
}

/// The block with the projection.
#[verifier::opaque]
pub open spec fn projection_block(p: Projection, filler: Filler) -> Seq<u8> {
    header_block(
        3,
        bytes_of(p.sub_lon_deg as nat, 8) + bytes_of(p.cfac as nat, 4) + bytes_of(p.lfac as nat, 4)
            + bytes_of(p.coff as nat, 4) + bytes_of(p.loff as nat, 4) + bytes_of(
            p.distance_km as nat,
            8,
        ) + bytes_of(p.equatorial_radius_km as nat, 8) + bytes_of(p.polar_radius_km as nat, 8)
            + filler.ends.1,
    )
}

/// The coefficients of a calibration block: wavelength, c0, c1, c2, and the
/// speed of light, Planck's and Boltzmann's constant. A reflective band has
/// its albedo coefficient in place of c0.
pub open spec fn coefficients(kind: CalibrationKind, filler: Filler) -> (
    u64,
    u64,
    u64,
    u64,
    u64,
    u64,
    u64,
) {
    match kind {
        CalibrationKind::Reflective { albedo_coeff } => (
            filler.wavelength,
            albedo_coeff,
            filler.c1,
            filler.c2,
            filler.constants.0,
            filler.constants.1,
            filler.constants.2,
        ),
        CalibrationKind::Emissive {
            wavelength_um,
            c0,
            c1,
            c2,
            speed_of_light,
            planck,
            boltzmann,
        } => (wavelength_um, c0, c1, c2, speed_of_light, planck, boltzmann),
    }
}

/// The block with the band and its calibration.
#[verifier::opaque]
pub open spec fn band_block(s: SegmentModel, filler: Filler) -> Seq<u8> {
    let cal = s.calibration;
    let (wavelength, c0, c1, c2, light, planck, boltzmann) = coefficients(cal.kind, filler);
    header_block(
        5,
        bytes_of(s.band_number as nat, 2) + bytes_of(wavelength as nat, 8) + filler.gap + bytes_of(
            cal.error_count as nat,
            2,
        ) + bytes_of(cal.outside_scan_count as nat, 2) + bytes_of(cal.gain as nat, 8) + bytes_of(
            cal.offset as nat,
            8,
        ) + bytes_of(c0 as nat, 8) + bytes_of(c1 as nat, 8) + bytes_of(c2 as nat, 8)
            + filler.wide_gap + bytes_of(light as nat, 8) + bytes_of(planck as nat, 8) + bytes_of(
            boltzmann as nat,
            8,
        ) + filler.ends.2,
    )
}

/// The block that says which segment of the disk this is.
#[verifier::opaque]
pub open spec fn place_block(s: SegmentModel, filler: Filler) -> Seq<u8> {
    header_block(
        7,
        bytes_of(s.total_segments as nat, 1) + bytes_of(s.segment_number as nat, 1) + bytes_of(
            s.first_line as nat,
            2,
        ) + filler.ends.3,
    )
}

/// The counts, pixel by pixel.
#[verifier::opaque]
pub open spec fn count_bytes(counts: Seq<u16>) -> Seq<u8> {
    Seq::new(2 * counts.len(), |j: int| bytes_of(counts[j / 2] as nat, 2)[j % 2])
}

/// A file that holds a segment.
pub open spec fn written(s: SegmentModel, filler: Filler) -> Seq<u8> {
    first_block(filler) + size_block(s, filler) + projection_block(s.projection, filler)
        + band_block(s, filler) + place_block(s, filler) + count_bytes(s.counts) + filler.rest
}

/// Whether a file has the gaps that its layout asks for, and no block is too
/// long for its length to be written down.
pub open spec fn fits_layout(filler: Filler) -> bool {
    &&& filler.gap.len() == 2
    &&& filler.wide_gap.len() == 24
    &&& filler.name.len() <= 60_000
    &&& filler.ends.0.len() <= 60_000
    &&& filler.ends.1.len() <= 60_000
    &&& filler.ends.2.len() <= 60_000
    &&& filler.ends.3.len() <= 60_000
}

/// Whether a segment is one that a file can hold: its numbers fit the fields,
/// it has a count for each pixel, and bands 1 to 6 are the reflective ones.
pub open spec fn can_be_written(s: SegmentModel) -> bool {
    &&& s.columns <= 0xffff
    &&& s.lines <= 0xffff
    &&& s.first_line <= 0xffff
    &&& s.counts.len() == s.columns * s.lines
    &&& s.band_number <= 6 <==> s.calibration.kind is Reflective
}

// ---------------------------------------------------------------------------
// Reading it back
// ---------------------------------------------------------------------------

pub(crate) proof fn lemma_reads_back(n: nat, width: nat)
    ensures
        bytes_of(n, width).len() == width,
        width == 1 && n < 0x100 ==> hsd::le_value(bytes_of(n, width)) == n,
        width == 2 && n < 0x1_0000 ==> hsd::le_value(bytes_of(n, width)) == n,
        width == 4 && n < 0x1_0000_0000 ==> hsd::le_value(bytes_of(n, width)) == n,
        width == 8 && n < 0x1_0000_0000_0000_0000 ==> hsd::le_value(bytes_of(n, width)) == n,
{
    lemma_value_back(n, width);
    assert(limit(1) == 0x100 && limit(2) == 0x1_0000 && limit(4) == 0x1_0000_0000 && limit(8)
        == 0x1_0000_0000_0000_0000) by {
        reveal_with_fuel(limit, 9);
    }
}

spec fn limit(width: nat) -> nat
    decreases width,
{
    if width == 0 {
        1
    } else {
        0x100 * limit((width - 1) as nat)
    }
}

proof fn lemma_value_back(n: nat, width: nat)
    ensures
        bytes_of(n, width).len() == width,
        n < limit(width) ==> hsd::le_value(bytes_of(n, width)) == n,
    decreases width,
{
    if width > 0 {
        let (low, high) = (n % 0x100, n / 0x100);
        lemma_value_back(high, (width - 1) as nat);
        let bytes = bytes_of(n, width);
        assert(bytes.skip(1) =~= bytes_of(high, (width - 1) as nat));
        assert(bytes[0] == low);
    }
}

/// A number that was written at an offset is read there.
proof fn lemma_field(block: Seq<u8>, before: Seq<u8>, n: nat, width: nat, after: Seq<u8>)
    requires
        block == before + bytes_of(n, width) + after,
        width == 1 && n < 0x100 || width == 2 && n < 0x1_0000 || width == 4 && n < 0x1_0000_0000
            || width == 8 && n < 0x1_0000_0000_0000_0000,
    ensures
        hsd::le_at(block, before.len() as int, width as int) == n,
        block.len() == before.len() + width + after.len(),
{
    lemma_reads_back(n, width);
    assert(block.subrange(before.len() as int, (before.len() + width) as int) =~= bytes_of(n, width));
}

pub(crate) proof fn lemma_header(number: nat, body: Seq<u8>)
    requires
        number < 0x100,
        3 + body.len() < 0x1_0000,
    ensures
        ({
            let block = header_block(number, body);
            &&& block.len() == 3 + body.len()
            &&& blocks::number(block) == number
            &&& hsd::le_at(block, 1, 2) == block.len()
            &&& block.subrange(3, block.len() as int) == body
        }),
{
    reveal(header_block);
    let block = header_block(number, body);
    lemma_reads_back(number, 1);
    lemma_reads_back(3 + body.len(), 2);
    assert(block =~= Seq::<u8>::empty() + bytes_of(number, 1) + (bytes_of(3 + body.len(), 2)
        + body));
    lemma_field(block, Seq::empty(), number, 1, bytes_of(3 + body.len(), 2) + body);
    lemma_field(block, bytes_of(number, 1), 3 + body.len(), 2, body);
    assert(block.subrange(3, block.len() as int) =~= body);
}

/// A number that was written at an offset of a block's body is read behind
/// the block's header.
pub(crate) proof fn lemma_body_field(
    number: nat,
    body: Seq<u8>,
    before: Seq<u8>,
    n: nat,
    width: nat,
    after: Seq<u8>,
)
    requires
        number < 0x100,
        3 + body.len() < 0x1_0000,
        body == before + bytes_of(n, width) + after,
        width == 1 && n < 0x100 || width == 2 && n < 0x1_0000 || width == 4 && n < 0x1_0000_0000
            || width == 8 && n < 0x1_0000_0000_0000_0000,
    ensures
        hsd::le_at(header_block(number, body), 3 + before.len() as int, width as int) == n,
{
    reveal(header_block);
    let block = header_block(number, body);
    lemma_header(number, body);
    lemma_field(body, before, n, width, after);
    let at = before.len() as int;
    assert(block.subrange(3 + at, 3 + at + width) =~= body.subrange(at, at + width));
}

pub(crate) proof fn lemma_first(filler: Filler)
    requires
        fits_layout(filler),
    ensures
        blocks::is_first(first_block(filler), 5),
{
    reveal(first_block);
    let body = bytes_of(5, 2) + seq![0u8] + filler.name;
    lemma_reads_back(5, 2);
    lemma_header(1, body);
    assert(body =~= Seq::<u8>::empty() + bytes_of(5, 2) + (seq![0u8] + filler.name));
    lemma_body_field(1, body, Seq::empty(), 5, 2, seq![0u8] + filler.name);
    assert(bytes_of(0, 1) =~= seq![0u8]) by {
        reveal_with_fuel(bytes_of, 2);
    }
    lemma_body_field(1, body, bytes_of(5, 2), 0, 1, filler.name);
}

pub(crate) proof fn lemma_size(s: SegmentModel, filler: Filler)
    requires
        fits_layout(filler),
        can_be_written(s),
    ensures
        blocks::number(size_block(s, filler)) == 2,
        blocks::is_whole(size_block(s, filler)),
        hsd::data_block(size_block(s, filler), 0) == Ok::<hsd::DataInfo, HsdError>(
            hsd::DataInfo { columns: s.columns, lines: s.lines },
        ),
{
    reveal(size_block);
    let (a, b, c) = (bytes_of(16, 2), bytes_of(s.columns as nat, 2), bytes_of(s.lines as nat, 2));
    let end = filler.ends.0;
    let body = a + b + c + end;
    lemma_reads_back(16, 2);
    lemma_reads_back(s.columns as nat, 2);
    lemma_reads_back(s.lines as nat, 2);
    lemma_header(2, body);
    assert(body =~= Seq::<u8>::empty() + a + (b + c + end));
    lemma_body_field(2, body, Seq::empty(), 16, 2, b + c + end);
    assert(body =~= a + b + (c + end));
    lemma_body_field(2, body, a, s.columns as nat, 2, c + end);
    lemma_body_field(2, body, a + b, s.lines as nat, 2, end);
    let block = size_block(s, filler);
    reveal_with_fuel(hsd::first_cut, 3);
    assert(seq![(5int, 2int), (7int, 2int)].skip(1) =~= seq![(7int, 2int)]);
    assert(seq![(5int, 2int), (7int, 2int)].skip(1).skip(1) =~= Seq::empty());
    assert(seq![(3int, 2int)].skip(1) =~= Seq::empty());
}

pub(crate) proof fn lemma_projection(p: Projection, filler: Filler)
    requires
        fits_layout(filler),
    ensures
        blocks::number(projection_block(p, filler)) == 3,
        blocks::is_whole(projection_block(p, filler)),
        hsd::projection_block(projection_block(p, filler), 0) == Ok::<Projection, HsdError>(p),
{
    reveal(projection_block);
    let f0 = bytes_of(p.sub_lon_deg as nat, 8);
    let f1 = bytes_of(p.cfac as nat, 4);
    let f2 = bytes_of(p.lfac as nat, 4);
    let f3 = bytes_of(p.coff as nat, 4);
    let f4 = bytes_of(p.loff as nat, 4);
    let f5 = bytes_of(p.distance_km as nat, 8);
    let f6 = bytes_of(p.equatorial_radius_km as nat, 8);
    let f7 = bytes_of(p.polar_radius_km as nat, 8);
    let end = filler.ends.1;
    let body = f0 + f1 + f2 + f3 + f4 + f5 + f6 + f7 + end;
    lemma_reads_back(p.sub_lon_deg as nat, 8);
    lemma_reads_back(p.cfac as nat, 4);
    lemma_reads_back(p.lfac as nat, 4);
    lemma_reads_back(p.coff as nat, 4);
    lemma_reads_back(p.loff as nat, 4);
    lemma_reads_back(p.distance_km as nat, 8);
    lemma_reads_back(p.equatorial_radius_km as nat, 8);
    lemma_reads_back(p.polar_radius_km as nat, 8);
    lemma_header(3, body);
    let block = projection_block(p, filler);
    assert(hsd::le_at(block, 3, 8) == p.sub_lon_deg) by {
        assert(body =~= Seq::<u8>::empty() + f0 + (f1 + f2 + f3 + f4 + f5 + f6 + f7 + end));
        lemma_body_field(
            3,
            body,
            Seq::empty(),
            p.sub_lon_deg as nat,
            8,
            f1 + f2 + f3 + f4 + f5 + f6 + f7 + end,
        );
    }
    assert(hsd::le_at(block, 11, 4) == p.cfac) by {
        assert(body =~= f0 + f1 + (f2 + f3 + f4 + f5 + f6 + f7 + end));
        lemma_body_field(3, body, f0, p.cfac as nat, 4, f2 + f3 + f4 + f5 + f6 + f7 + end);
    }
    assert(hsd::le_at(block, 15, 4) == p.lfac) by {
        assert(body =~= f0 + f1 + f2 + (f3 + f4 + f5 + f6 + f7 + end));
        lemma_body_field(3, body, f0 + f1, p.lfac as nat, 4, f3 + f4 + f5 + f6 + f7 + end);
    }
    assert(hsd::le_at(block, 19, 4) == p.coff) by {
        assert(body =~= f0 + f1 + f2 + f3 + (f4 + f5 + f6 + f7 + end));
        lemma_body_field(3, body, f0 + f1 + f2, p.coff as nat, 4, f4 + f5 + f6 + f7 + end);
    }
    assert(hsd::le_at(block, 23, 4) == p.loff) by {
        assert(body =~= f0 + f1 + f2 + f3 + f4 + (f5 + f6 + f7 + end));
        lemma_body_field(3, body, f0 + f1 + f2 + f3, p.loff as nat, 4, f5 + f6 + f7 + end);
    }
    assert(hsd::le_at(block, 27, 8) == p.distance_km) by {
        let before = f0 + f1 + f2 + f3 + f4;
        assert(body =~= before + f5 + (f6 + f7 + end));
        lemma_body_field(3, body, before, p.distance_km as nat, 8, f6 + f7 + end);
    }
    assert(hsd::le_at(block, 35, 8) == p.equatorial_radius_km) by {
        let before = f0 + f1 + f2 + f3 + f4 + f5;
        assert(body =~= before + f6 + (f7 + end));
        lemma_body_field(3, body, before, p.equatorial_radius_km as nat, 8, f7 + end);
    }
    assert(hsd::le_at(block, 43, 8) == p.polar_radius_km) by {
        let before = f0 + f1 + f2 + f3 + f4 + f5 + f6;
        lemma_body_field(3, body, before, p.polar_radius_km as nat, 8, end);
    }
    assert(hsd::first_cut(block, 0, hsd::projection_fields()) is None) by {
        lemma_no_cut(block, hsd::projection_fields());
    }
}

/// A block that holds all of some fields is not cut.
pub(crate) proof fn lemma_no_cut(block: Seq<u8>, fields: Seq<(int, int)>)
    requires
        forall|k: int|
            0 <= k < fields.len() ==> (#[trigger] fields[k]).0 + fields[k].1 <= block.len(),
    ensures
        hsd::first_cut(block, 0, fields) is None,
    decreases fields.len(),
{
    if fields.len() > 0 {
        let rest = fields.skip(1);
        assert forall|k: int| 0 <= k < rest.len() implies (#[trigger] rest[k]).0 + rest[k].1
            <= block.len() by {
            assert(rest[k] == fields[k + 1]);
        }
        assert(fields[0].0 + fields[0].1 <= block.len());
        lemma_no_cut(block, rest);
    }
}

#[verifier::rlimit(40)]
pub(crate) proof fn lemma_band(s: SegmentModel, filler: Filler)
    requires
        fits_layout(filler),
        can_be_written(s),
    ensures
        blocks::number(band_block(s, filler)) == 5,
        blocks::is_whole(band_block(s, filler)),
        hsd::calibration_block(band_block(s, filler), 0) == Ok::<hsd::CalInfo, HsdError>(
            hsd::CalInfo { band_number: s.band_number, calibration: s.calibration },
        ),
{
    reveal(band_block);
    let cal = s.calibration;
    let (wavelength, c0, c1, c2, light, planck, boltzmann) = coefficients(cal.kind, filler);
    let f0 = bytes_of(s.band_number as nat, 2);
    let f1 = bytes_of(wavelength as nat, 8);
    let f2 = bytes_of(cal.error_count as nat, 2);
    let f3 = bytes_of(cal.outside_scan_count as nat, 2);
    let f4 = bytes_of(cal.gain as nat, 8);
    let f5 = bytes_of(cal.offset as nat, 8);
    let f6 = bytes_of(c0 as nat, 8);
    let f7 = bytes_of(c1 as nat, 8);
    let f8 = bytes_of(c2 as nat, 8);
    let f9 = bytes_of(light as nat, 8);
    let g0 = bytes_of(planck as nat, 8);
    let g1 = bytes_of(boltzmann as nat, 8);
    let (gap, wide, end) = (filler.gap, filler.wide_gap, filler.ends.2);
    let body = f0 + f1 + gap + f2 + f3 + f4 + f5 + f6 + f7 + f8 + wide + f9 + g0 + g1 + end;
    lemma_reads_back(s.band_number as nat, 2);
    lemma_reads_back(wavelength as nat, 8);
    lemma_reads_back(cal.error_count as nat, 2);
    lemma_reads_back(cal.outside_scan_count as nat, 2);
    lemma_reads_back(cal.gain as nat, 8);
    lemma_reads_back(cal.offset as nat, 8);
    lemma_reads_back(c0 as nat, 8);
    lemma_reads_back(c1 as nat, 8);
    lemma_reads_back(c2 as nat, 8);
    lemma_reads_back(light as nat, 8);
    lemma_reads_back(planck as nat, 8);
    lemma_reads_back(boltzmann as nat, 8);
    let tail8 = wide + f9 + g0 + g1 + end;
    let tail5 = f6 + f7 + f8 + tail8;
    let tail2 = f3 + f4 + f5 + tail5;
    let block = band_block(s, filler);
    lemma_header(5, body);
    assert(hsd::le_at(block, 3, 2) == s.band_number) by {
        assert(body =~= Seq::<u8>::empty() + f0 + (f1 + gap + f2 + tail2));
        lemma_body_field(5, body, Seq::empty(), s.band_number as nat, 2, f1 + gap + f2 + tail2);
    }
    assert(hsd::le_at(block, 5, 8) == wavelength) by {
        assert(body =~= f0 + f1 + (gap + f2 + tail2));
        lemma_body_field(5, body, f0, wavelength as nat, 8, gap + f2 + tail2);
    }
    let head1 = f0 + f1 + gap;
    assert(hsd::le_at(block, 15, 2) == cal.error_count) by {
        assert(body =~= head1 + f2 + tail2);
        lemma_body_field(5, body, head1, cal.error_count as nat, 2, tail2);
    }
    assert(hsd::le_at(block, 17, 2) == cal.outside_scan_count) by {
        assert(body =~= (head1 + f2) + f3 + (f4 + f5 + tail5));
        lemma_body_field(
            5,
            body,
            head1 + f2,
            cal.outside_scan_count as nat,
            2,
            f4 + f5 + tail5,
        );
    }
    let head3 = head1 + f2 + f3;
    assert(hsd::le_at(block, 19, 8) == cal.gain) by {
        assert(body =~= head3 + f4 + (f5 + tail5));
        lemma_body_field(5, body, head3, cal.gain as nat, 8, f5 + tail5);
    }
    assert(hsd::le_at(block, 27, 8) == cal.offset) by {
        assert(body =~= (head3 + f4) + f5 + tail5);
        lemma_body_field(5, body, head3 + f4, cal.offset as nat, 8, tail5);
    }
    let head5 = head3 + f4 + f5;
    assert(hsd::le_at(block, 35, 8) == c0) by {
        assert(body =~= head5 + f6 + (f7 + f8 + tail8));
        lemma_body_field(5, body, head5, c0 as nat, 8, f7 + f8 + tail8);
    }
    assert(hsd::le_at(block, 43, 8) == c1) by {
        assert(body =~= (head5 + f6) + f7 + (f8 + tail8));
        lemma_body_field(5, body, head5 + f6, c1 as nat, 8, f8 + tail8);
    }
    assert(hsd::le_at(block, 51, 8) == c2) by {
        assert(body =~= (head5 + f6 + f7) + f8 + tail8);
        lemma_body_field(5, body, head5 + f6 + f7, c2 as nat, 8, tail8);
    }
    let head9 = head5 + f6 + f7 + f8 + wide;
    assert(hsd::le_at(block, 83, 8) == light) by {
        assert(body =~= head9 + f9 + (g0 + g1 + end));
        lemma_body_field(5, body, head9, light as nat, 8, g0 + g1 + end);
    }
    assert(hsd::le_at(block, 91, 8) == planck) by {
        assert(body =~= (head9 + f9) + g0 + (g1 + end));
        lemma_body_field(5, body, head9 + f9, planck as nat, 8, g1 + end);
    }
    assert(hsd::le_at(block, 99, 8) == boltzmann) by {
        assert(body =~= (head9 + f9 + g0) + g1 + end);
        lemma_body_field(5, body, head9 + f9 + g0, boltzmann as nat, 8, end);
    }
    assert(block.len() >= 107);
    lemma_no_cut(block, seq![(3, 2)]);
    lemma_no_cut(block, hsd::calibration_fields(s.band_number as nat));
}

pub(crate) proof fn lemma_place(s: SegmentModel, filler: Filler)
    requires
        fits_layout(filler),
        can_be_written(s),
    ensures
        blocks::number(place_block(s, filler)) == 7,
        blocks::is_whole(place_block(s, filler)),
        hsd::segment_block(place_block(s, filler), 0) == Ok::<hsd::SegmentInfo, HsdError>(
            hsd::SegmentInfo {
                total_segments: s.total_segments,
                segment_number: s.segment_number,
                first_line: s.first_line,
            },
        ),
{
    reveal(place_block);
    let f0 = bytes_of(s.total_segments as nat, 1);
    let f1 = bytes_of(s.segment_number as nat, 1);
    let f2 = bytes_of(s.first_line as nat, 2);
    let end = filler.ends.3;
    let body = f0 + f1 + f2 + end;
    lemma_reads_back(s.total_segments as nat, 1);
    lemma_reads_back(s.segment_number as nat, 1);
    lemma_reads_back(s.first_line as nat, 2);
    lemma_header(7, body);
    let block = place_block(s, filler);
    assert(body =~= Seq::<u8>::empty() + f0 + (f1 + f2 + end));
    lemma_body_field(7, body, Seq::empty(), s.total_segments as nat, 1, f1 + f2 + end);
    assert(body =~= f0 + f1 + (f2 + end));
    lemma_body_field(7, body, f0, s.segment_number as nat, 1, f2 + end);
    lemma_body_field(7, body, f0 + f1, s.first_line as nat, 2, end);
    lemma_no_cut(block, seq![(3, 1), (4, 1), (5, 2)]);
}

pub(crate) proof fn lemma_count_number(counts: Seq<u16>)
    ensures
        count_bytes(counts).len() == 2 * counts.len(),
{
    reveal(count_bytes);
}

pub(crate) proof fn lemma_counts(counts: Seq<u16>, rest: Seq<u8>, i: int)
    requires
        0 <= i < counts.len(),
    ensures
        hsd::le_at(count_bytes(counts) + rest, 2 * i, 2) == counts[i],
{
    reveal(count_bytes);
    let bytes = count_bytes(counts);
    lemma_reads_back(counts[i] as nat, 2);
    assert((2 * i) / 2 == i && (2 * i + 1) / 2 == i && (2 * i) % 2 == 0 && (2 * i + 1) % 2 == 1);
    assert((bytes + rest).subrange(2 * i, 2 * i + 2) =~= bytes_of(counts[i] as nat, 2));
}

/// What was written into a file is what is decoded from it: every field of
/// the segment, and every count.
pub proof fn files_decode_to_what_was_written(
    buf: &[u8],
    s: SegmentModel,
    filler: Filler,
    result: Result<Segment, HsdError>,
)
    requires
        call_ensures(parse, (buf,), result),
        can_be_written(s),
        fits_layout(filler),
        buf@ == written(s, filler),
    ensures
        result matches Ok(segment) && segment@ == s,
{
    lemma_written(s, filler);
}

proof fn lemma_written(s: SegmentModel, filler: Filler)
    requires
        can_be_written(s),
        fits_layout(filler),
    ensures
        hsd::decoded(written(s, filler)) == Ok::<SegmentModel, HsdError>(s),
{
    reveal(count_bytes);
    let data = count_bytes(s.counts) + filler.rest;
    let (first, size) = (first_block(filler), size_block(s, filler));
    let (projection, band) = (projection_block(s.projection, filler), band_block(s, filler));
    let place = place_block(s, filler);
    assert(blocks::is_first(first, 5)) by {
        lemma_first(filler);
    }
    lemma_size(s, filler);
    lemma_projection(s.projection, filler);
    lemma_band(s, filler);
    lemma_place(s, filler);
    assert forall|i: int| 0 <= i < s.counts.len() implies #[trigger] hsd::le_at(data, 2 * i, 2)
        == s.counts[i] by {
        lemma_counts(s.counts, filler.rest, i);
    }
    lemma_five_blocks(first, size, projection, band, place, data, s);
    lemma_regroup(
        first + size + projection + band + place,
        count_bytes(s.counts),
        filler.rest,
    );
}

pub(crate) proof fn lemma_regroup(a: Seq<u8>, b: Seq<u8>, c: Seq<u8>)
    ensures
        a + b + c == a + (b + c),
{
    assert(a + b + c =~= a + (b + c));
}

proof fn lemma_five_blocks(
    first: Seq<u8>,
    size: Seq<u8>,
    projection: Seq<u8>,
    band: Seq<u8>,
    place: Seq<u8>,
    data: Seq<u8>,
    s: SegmentModel,
)
    requires
        blocks::is_first(first, 5),
        blocks::number(size) == 2,
        blocks::number(projection) == 3,
        blocks::number(band) == 5,
        blocks::number(place) == 7,
        blocks::is_whole(size),
        blocks::is_whole(projection),
        blocks::is_whole(band),
        blocks::is_whole(place),
        hsd::data_block(size, 0) == Ok::<hsd::DataInfo, HsdError>(
            hsd::DataInfo { columns: s.columns, lines: s.lines },
        ),
        hsd::projection_block(projection, 0) == Ok::<Projection, HsdError>(s.projection),
        hsd::calibration_block(band, 0) == Ok::<hsd::CalInfo, HsdError>(
            hsd::CalInfo { band_number: s.band_number, calibration: s.calibration },
        ),
        hsd::segment_block(place, 0) == Ok::<hsd::SegmentInfo, HsdError>(
            hsd::SegmentInfo {
                total_segments: s.total_segments,
                segment_number: s.segment_number,
                first_line: s.first_line,
            },
        ),
        s.counts.len() == s.columns * s.lines,
        data.len() >= 2 * s.counts.len(),
        forall|i: int|
            0 <= i < s.counts.len() ==> #[trigger] hsd::le_at(data, 2 * i, 2) == s.counts[i],
    ensures
        hsd::decoded(first + size + projection + band + place + data) == Ok::<
            SegmentModel,
            HsdError,
        >(s),
{
    let rest = seq![size, projection, band, place];
    let all = seq![first] + rest;
    assert(all.len() == 5 && all[0] == first && all[1] == size && all[2] == projection && all[3]
        == band && all[4] == place);
    assert(blocks::are_whole(rest));
    blocks::lemma_decoded(first, rest, data);
    lemma_five(all, data);
    lemma_learned(all);
    let model = hsd::finish(data, blocks::learned(all, 0));
    assert(model is Ok);
    assert forall|i: int| 0 <= i < s.counts.len() implies #[trigger] model->Ok_0.counts[i]
        == s.counts[i] by {
        assert(hsd::le_at(data, 2 * i, 2) == s.counts[i]);
        assert(0 + 2 * i == 2 * i);
    }
    assert(model->Ok_0.counts =~= s.counts);
}

pub(crate) proof fn lemma_five(all: Seq<Seq<u8>>, data: Seq<u8>)
    requires
        all.len() == 5,
    ensures
        blocks::joined(all) + data == all[0] + all[1] + all[2] + all[3] + all[4] + data,
{
    reveal_with_fuel(blocks::joined, 6);
    let four = all.drop_last();
    let three = four.drop_last();
    let two = three.drop_last();
    let one = two.drop_last();
    assert(blocks::joined(one.drop_last()) =~= Seq::empty());
    assert(blocks::joined(all) =~= all[0] + all[1] + all[2] + all[3] + all[4]);
}

pub(crate) proof fn lemma_learned(all: Seq<Seq<u8>>)
    requires
        all.len() == 5,
        blocks::number(all[0]) == 1,
        blocks::number(all[1]) == 2,
        blocks::number(all[2]) == 3,
        blocks::number(all[3]) == 5,
        blocks::number(all[4]) == 7,
        hsd::data_block(all[1], 0) is Ok,
    ensures
        blocks::last_numbered(all, 2) == Some(all[1]),
        blocks::last_numbered(all, 3) == Some(all[2]),
        blocks::last_numbered(all, 5) == Some(all[3]),
        blocks::last_numbered(all, 7) == Some(all[4]),
        blocks::first_error(all) is None,
{
    reveal_with_fuel(blocks::last_numbered, 6);
    reveal_with_fuel(blocks::first_error, 6);
    let four = all.drop_last();
    let three = four.drop_last();
    let two = three.drop_last();
    let one = two.drop_last();
    assert(four.last() == all[3] && three.last() == all[2] && two.last() == all[1] && one.last()
        == all[0]);
    assert(one.drop_last() =~= Seq::empty());
}

// ---------------------------------------------------------------------------
// Any file
// ---------------------------------------------------------------------------

proof fn lemma_kind(buf: Seq<u8>, count: nat)
    ensures
        hsd::walk_headers(buf, count) matches Ok(walk) ==> (walk.calibration matches Some(info)
            ==> (info.calibration.kind is Reflective <==> info.band_number <= 6)),
    decreases count,
{
    if count > 0 {
        lemma_kind(buf, (count - 1) as nat);
        if let Ok(walk) = hsd::walk_headers(buf, (count - 1) as nat) {
            let pos = walk.pos as int;
            if pos + 5 <= buf.len() {
                lemma_two_bytes(buf.subrange(pos + 3, pos + 5));
            }
        }
    }
}

pub(crate) proof fn lemma_two_bytes(bytes: Seq<u8>)
    requires
        bytes.len() == 2,
    ensures
        hsd::le_value(bytes) < 0x1_0000,
{
    reveal_with_fuel(hsd::le_value, 3);
}

/// Whatever a file holds, bands 1 to 6 are decoded as reflective ones and all
/// others as thermal ones, and there is a count for each pixel.
pub proof fn the_band_decides_the_calibration(buf: &[u8], segment: Segment)
    requires
        call_ensures(parse, (buf,), Ok(segment)),
    ensures
        segment.calibration.kind is Reflective <==> segment.band_number <= 6,
        segment.calibration.kind is Emissive <==> segment.band_number >= 7,
        segment.counts@.len() == segment.columns * segment.lines,
        buf@.len() >= 2 * (segment.columns * segment.lines),
{
    lemma_kind(buf@, hsd::le_at(buf@, 3, 2));
}

// ---------------------------------------------------------------------------
// Refusals
// ---------------------------------------------------------------------------

/// A file is refused for its kind exactly where its first byte is not that of
/// a first block, and for its byte order exactly where the sixth byte is not
/// zero.
pub proof fn the_first_bytes_decide_the_kind(buf: &[u8], result: Result<Segment, HsdError>)
    requires
        call_ensures(parse, (buf,), result),
    ensures
        result matches Err(HsdError::NotHsd(number)) ==> buf@.len() > 0 && number == buf@[0],
        result is Err && result->Err_0 is NotHsd <==> buf@.len() > 0 && buf@[0] != 1,
        result is Err && result->Err_0 is BigEndian <==> buf@.len() >= 6 && buf@[0] == 1 && buf@[5]
            != 0,
        result is Ok ==> buf@.len() >= 6 && buf@[0] == 1 && buf@[5] == 0,
        buf@.len() < 6 && (buf@.len() > 0 ==> buf@[0] == 1) ==> result is Err
            && result->Err_0 is Truncated,
{
    let b = buf@;
    if b.len() > 0 {
        lemma_one_byte(b, 0);
    }
    if b.len() >= 6 {
        lemma_one_byte(b, 5);
    }
    lemma_cut(b, seq![(0, 1)]);
    lemma_cut(b, seq![(3, 2), (5, 1)]);
    lemma_walk_errors(b, hsd::le_at(b, 3, 2));
}

proof fn lemma_one_byte(buf: Seq<u8>, at: int)
    requires
        0 <= at < buf.len(),
    ensures
        hsd::le_at(buf, at, 1) == buf[at],
{
    reveal_with_fuel(hsd::le_value, 2);
    let bytes = buf.subrange(at, at + 1);
    assert(bytes.skip(1) =~= Seq::empty());
}

proof fn lemma_cut(buf: Seq<u8>, fields: Seq<(int, int)>)
    ensures
        hsd::first_cut(buf, 0, fields) matches Some(e) ==> e is Truncated,
        hsd::first_cut(buf, 0, fields) is None <==> forall|k: int|
            0 <= k < fields.len() ==> (#[trigger] fields[k]).0 + fields[k].1 <= buf.len(),
    decreases fields.len(),
{
    if fields.len() > 0 {
        let rest = fields.skip(1);
        lemma_cut(buf, rest);
        assert forall|k: int| 0 <= k < rest.len() implies #[trigger] rest[k] == fields[k + 1] by {}
        if hsd::first_cut(buf, 0, fields) is None {
            assert forall|k: int| 0 <= k < fields.len() implies (#[trigger] fields[k]).0
                + fields[k].1 <= buf.len() by {
                if k > 0 {
                    assert(rest[k - 1] == fields[k]);
                }
            }
        } else if hsd::first_cut(buf, 0, rest) is Some {
            let k = choose|k: int|
                0 <= k < rest.len() && !((#[trigger] rest[k]).0 + rest[k].1 <= buf.len());
            assert(fields[k + 1] == rest[k]);
        } else {
            assert(fields[0].0 + fields[0].1 > buf.len());
        }
    }
}

proof fn lemma_first_cut_is_truncated(buf: Seq<u8>, pos: int, fields: Seq<(int, int)>)
    ensures
        hsd::first_cut(buf, pos, fields) matches Some(e) ==> e is Truncated,
    decreases fields.len(),
{
    if fields.len() > 0 {
        lemma_first_cut_is_truncated(buf, pos, fields.skip(1));
    }
}

proof fn lemma_walk_errors(buf: Seq<u8>, count: nat)
    ensures
        hsd::walk_headers(buf, count) matches Err(e) ==> e is Truncated || e is BitsPerPixel,
    decreases count,
{
    if count > 0 {
        lemma_walk_errors(buf, (count - 1) as nat);
        if let Ok(walk) = hsd::walk_headers(buf, (count - 1) as nat) {
            let pos = walk.pos as int;
            lemma_first_cut_is_truncated(buf, pos, seq![(0, 1), (1, 2)]);
            lemma_first_cut_is_truncated(buf, pos, seq![(3, 2)]);
            lemma_first_cut_is_truncated(buf, pos, seq![(5, 2), (7, 2)]);
            lemma_first_cut_is_truncated(buf, pos, hsd::projection_fields());
            lemma_first_cut_is_truncated(
                buf,
                pos,
                hsd::calibration_fields(hsd::le_at(buf, pos + 3, 2)),
            );
            lemma_first_cut_is_truncated(buf, pos, seq![(3, 1), (4, 1), (5, 2)]);
        }
    }
}

// ---------------------------------------------------------------------------
// Segments that were asked for
// ---------------------------------------------------------------------------

/// The contents of a file are accepted for a thermal band exactly where they
/// are the asked-for segment of ten of that band, at the width of 2 km
/// pixels; what is accepted is what the file decodes to.
pub proof fn thermal_files_hold_the_asked_segment(
    raw: &[u8],
    band: IrBand,
    segment: u8,
    parsed: Result<Segment, HsdError>,
    result: Result<Segment, SegmentError>,
)
    requires
        call_ensures(parse, (raw,), parsed),
        call_ensures(decode_raw::<IrBand>, (raw, band, segment), result),
    ensures
        result is Ok <==> parsed is Ok && ({
            let s = parsed->Ok_0;
            &&& s.band_number == band@
            &&& s.segment_number == segment
            &&& s.total_segments == 10
            &&& s.columns == 5_500
        }),
        result matches Ok(s) ==> s@ == parsed->Ok_0@,
        result matches Ok(s) ==> (band@ >= 7 ==> s.calibration.kind is Emissive),
        result matches Err(SegmentError::Parse(e)) ==> parsed == Err::<Segment, HsdError>(e),
        parsed is Err ==> result is Err && result->Err_0 is Parse,
{
    if let Ok(s) = parsed {
        lemma_kind(raw@, hsd::le_at(raw@, 3, 2));
    }
}

/// The number of a visible band.
pub open spec fn visible_number(band: Band) -> int {
    match band {
        Band::B01 => 1,
        Band::B02 => 2,
        Band::B03 => 3,
        Band::B04 => 4,
        Band::B05 => 5,
    }
}

/// The width of a visible band's disk: pixels of 0.5 km for the red band, of
/// 2 km for band 5, of 1 km for the others.
pub open spec fn visible_width(band: Band) -> int {
    match band {
        Band::B03 => 22_000,
        Band::B05 => 5_500,
        _ => 11_000,
    }
}

/// The contents of a file are accepted for a visible band exactly where they
/// are the asked-for segment of ten of that band, at the band's width; what
/// is accepted is what the file decodes to.
pub proof fn visible_files_hold_the_asked_segment(
    raw: &[u8],
    band: Band,
    segment: u8,
    parsed: Result<Segment, HsdError>,
    result: Result<Segment, SegmentError>,
)
    requires
        call_ensures(parse, (raw,), parsed),
        call_ensures(decode_raw::<Band>, (raw, band, segment), result),
    ensures
        result is Ok <==> parsed is Ok && ({
            let s = parsed->Ok_0;
            &&& s.band_number == visible_number(band)
            &&& s.segment_number == segment
            &&& s.total_segments == 10
            &&& s.columns == visible_width(band)
        }),
        result matches Ok(s) ==> s@ == parsed->Ok_0@ && s.calibration.kind is Reflective,
        result matches Err(SegmentError::Parse(e)) ==> parsed == Err::<Segment, HsdError>(e),
        parsed is Err ==> result is Err && result->Err_0 is Parse,
{
    if let Ok(s) = parsed {
        lemma_kind(raw@, hsd::le_at(raw@, 3, 2));
    }
}

} // verus!
