//! Parser for the JMA Himawari Standard Data (HSD) format, as distributed in
//! the `noaa-himawari9` S3 bucket (one bzip2-compressed `.DAT` file per band
//! and full-disk segment).
//!
//! Only the header blocks needed for image reconstruction are decoded:
//!   block 2 - data information (pixel geometry)
//!   block 3 - projection (normalized geostationary grid)
//!   block 5 - calibration (count -> radiance -> reflectance or temperature)
//!   block 7 - segment information (where this segment sits in the full disk)
//!
//! Floating-point fields are handed on as their IEEE 754 bit patterns.

use vstd::prelude::*;
use vstd::slice::slice_subrange;
use vstd::string::*;

use crate::decimal;
use crate::ieee;

verus! {

/// Why a file was not decoded.
#[derive(Debug, Clone, Copy, PartialEq, Eq, Structural)]
pub enum HsdError {
    /// The file ends inside a field.
    Truncated { offset: usize, need: usize, have: usize },
    /// The first header block does not carry number 1.
    NotHsd(u8),
    /// The file is in big-endian byte order.
    BigEndian,
    /// The counts are not 16 bits wide.
    BitsPerPixel(u16),
    /// A required header block is absent.
    MissingBlock(u8),
    /// The data block is shorter than the image.
    DataSize { expected: usize, have: usize },
}

/// Normalized geostationary projection of the band's native grid (header
/// block 3): everything needed to invert pixel coordinates to latitude and
/// longitude and to reconstruct the viewing geometry.
#[derive(Debug, Clone, Copy, PartialEq, Eq, Structural)]
pub struct Projection {
    /// Sub-satellite longitude, degrees east (double-precision pattern).
    pub sub_lon_deg: u64,
    /// Column/line scaling factors (CFAC/LFAC).
    pub cfac: u32,
    pub lfac: u32,
    /// Column/line offsets (COFF/LOFF, single-precision patterns).
    pub coff: u32,
    pub loff: u32,
    /// Distance from Earth center to the satellite, km (double-precision
    /// pattern).
    pub distance_km: u64,
    /// Earth equatorial and polar radii, km (double-precision patterns).
    pub equatorial_radius_km: u64,
    pub polar_radius_km: u64,
}

/// The band-specific part of a calibration. All numbers are double-precision
/// patterns.
#[derive(Debug, Clone, Copy, PartialEq, Eq, Structural)]
pub enum CalibrationKind {
    /// Visible / near-IR: `reflectance = albedo_coeff * radiance`.
    Reflective { albedo_coeff: u64 },
    /// Thermal IR: inverse Planck at the band's central wavelength gives an
    /// effective temperature, corrected to brightness temperature with the
    /// quadratic coefficients `c0`, `c1` and `c2`. The physical constants are
    /// read from the file rather than hard-coded, matching JMA's processing.
    Emissive {
        wavelength_um: u64,
        c0: u64,
        c1: u64,
        c2: u64,
        speed_of_light: u64,
        planck: u64,
        boltzmann: u64,
    },
}

/// Radiometric calibration (header block 5). Counts convert to radiance with
/// the affine `gain`/`offset` (double-precision patterns); the band-specific
/// `kind` then carries the coefficients for reflectance (bands 1-6) or
/// brightness temperature (bands 7-16).
#[derive(Debug, Clone, Copy, PartialEq, Eq, Structural)]
pub struct Calibration {
    pub gain: u64,
    pub offset: u64,
    pub error_count: u16,
    pub outside_scan_count: u16,
    pub kind: CalibrationKind,
}

/// One decoded full-disk segment of one band.
#[derive(Debug)]
pub struct Segment {
    pub band_number: u16,
    pub columns: usize,
    pub lines: usize,
    /// 1-based line number of this segment's first line within the full
    /// disk, at the band's native resolution.
    pub first_line: usize,
    pub segment_number: u8,
    pub total_segments: u8,
    pub calibration: Calibration,
    pub projection: Projection,
    /// Row-major raw counts, `columns * lines` long.
    pub counts: Vec<u16>,
}

/// What a segment holds, with its counts as a sequence.
#[verifier::ext_equal]
pub struct SegmentModel {
    pub band_number: u16,
    pub columns: usize,
    pub lines: usize,
    pub first_line: usize,
    pub segment_number: u8,
    pub total_segments: u8,
    pub calibration: Calibration,
    pub projection: Projection,
    pub counts: Seq<u16>,
}

impl View for Segment {
    type V = SegmentModel;

    open spec fn view(&self) -> SegmentModel {
        SegmentModel {
            band_number: self.band_number,
            columns: self.columns,
            lines: self.lines,
            first_line: self.first_line,
            segment_number: self.segment_number,
            total_segments: self.total_segments,
            calibration: self.calibration,
            projection: self.projection,
            counts: self.counts@,
        }
    }
}

impl SegmentModel {
    /// A segment's dimensions come from 16-bit fields, and it has one count
    /// for each of its pixels.
    pub open spec fn wf(self) -> bool {
        &&& self.columns <= 0xffff
        &&& self.lines <= 0xffff
        &&& self.first_line <= 0xffff
        &&& self.counts.len() == self.columns * self.lines
    }
}

/// Block 2: the size of the image.
#[derive(Debug, Clone, Copy, PartialEq, Eq, Structural)]
pub struct DataInfo {
    pub columns: usize,
    pub lines: usize,
}

/// Block 7: the place of the segment in the full disk.
#[derive(Debug, Clone, Copy, PartialEq, Eq, Structural)]
pub struct SegmentInfo {
    pub total_segments: u8,
    pub segment_number: u8,
    pub first_line: usize,
}

/// Block 5: which band this is, and its calibration.
#[derive(Debug, Clone, Copy, PartialEq, Eq, Structural)]
pub struct CalInfo {
    pub band_number: u16,
    pub calibration: Calibration,
}

/// What has been learned from the header blocks so far, and where the next
/// block starts.
pub struct Walk {
    pub pos: nat,
    pub data: Option<DataInfo>,
    pub projection: Option<Projection>,
    pub calibration: Option<CalInfo>,
    pub segment: Option<SegmentInfo>,
}

// ---------------------------------------------------------------------------
// The format
// ---------------------------------------------------------------------------

/// The number that bytes spell in little-endian order.
pub open spec fn le_value(bytes: Seq<u8>) -> nat
    decreases bytes.len(),
{
    if bytes.len() == 0 {
        0
    } else {
        bytes[0] as nat + 256 * le_value(bytes.skip(1))
    }
}

/// The `width`-byte little-endian number at an offset of a file.
pub open spec fn le_at(buf: Seq<u8>, offset: int, width: int) -> nat {
    le_value(buf.subrange(offset, offset + width))
}

/// The error of a file that ends before `offset + width`.
pub open spec fn cut_off(buf: Seq<u8>, offset: int, width: int) -> HsdError {
    HsdError::Truncated {
        offset: offset as usize,
        need: width as usize,
        have: buf.len() as usize,
    }
}

/// The first of some fields, given as (offset, width) from `pos`, that the
/// file is too short for.
pub open spec fn first_cut(buf: Seq<u8>, pos: int, fields: Seq<(int, int)>) -> Option<HsdError>
    decreases fields.len(),
{
    if fields.len() == 0 {
        None
    } else if pos + fields[0].0 + fields[0].1 > buf.len() {
        Some(cut_off(buf, pos + fields[0].0, fields[0].1))
    } else {
        first_cut(buf, pos, fields.skip(1))
    }
}

/// The fields of block 3, in reading order.
pub open spec fn projection_fields() -> Seq<(int, int)> {
    seq![(3, 8), (11, 4), (15, 4), (19, 4), (23, 4), (27, 8), (35, 8), (43, 8)]
}

/// The fields of block 5 behind the band number, in reading order: first
/// those of the band's kind, then those that all bands share.
pub open spec fn calibration_fields(band_number: nat) -> Seq<(int, int)> {
    if band_number <= 6 {
        seq![(35, 8), (15, 2), (17, 2), (19, 8), (27, 8)]
    } else {
        seq![
            (5, 8),
            (35, 8),
            (43, 8),
            (51, 8),
            (83, 8),
            (91, 8),
            (99, 8),
            (15, 2),
            (17, 2),
            (19, 8),
            (27, 8),
        ]
    }
}

/// Block 2 at `pos`.
pub open spec fn data_block(buf: Seq<u8>, pos: int) -> Result<DataInfo, HsdError> {
    if let Some(e) = first_cut(buf, pos, seq![(3, 2)]) {
        Err(e)
    } else if le_at(buf, pos + 3, 2) != 16 {
        Err(HsdError::BitsPerPixel(le_at(buf, pos + 3, 2) as u16))
    } else if let Some(e) = first_cut(buf, pos, seq![(5, 2), (7, 2)]) {
        Err(e)
    } else {
        Ok(
            DataInfo {
                columns: le_at(buf, pos + 5, 2) as usize,
                lines: le_at(buf, pos + 7, 2) as usize,
            },
        )
    }
}

/// Block 3 at `pos`.
pub open spec fn projection_block(buf: Seq<u8>, pos: int) -> Result<Projection, HsdError> {
    if let Some(e) = first_cut(buf, pos, projection_fields()) {
        Err(e)
    } else {
        Ok(
            Projection {
                sub_lon_deg: le_at(buf, pos + 3, 8) as u64,
                cfac: le_at(buf, pos + 11, 4) as u32,
                lfac: le_at(buf, pos + 15, 4) as u32,
                coff: le_at(buf, pos + 19, 4) as u32,
                loff: le_at(buf, pos + 23, 4) as u32,
                distance_km: le_at(buf, pos + 27, 8) as u64,
                equatorial_radius_km: le_at(buf, pos + 35, 8) as u64,
                polar_radius_km: le_at(buf, pos + 43, 8) as u64,
            },
        )
    }
}

/// The kind of calibration that block 5 at `pos` holds: reflective up to band
/// 6, emissive above.
pub open spec fn calibration_kind(buf: Seq<u8>, pos: int) -> CalibrationKind {
    if le_at(buf, pos + 3, 2) <= 6 {
        CalibrationKind::Reflective { albedo_coeff: le_at(buf, pos + 35, 8) as u64 }
    } else {
        CalibrationKind::Emissive {
            wavelength_um: le_at(buf, pos + 5, 8) as u64,
            c0: le_at(buf, pos + 35, 8) as u64,
            c1: le_at(buf, pos + 43, 8) as u64,
            c2: le_at(buf, pos + 51, 8) as u64,
            speed_of_light: le_at(buf, pos + 83, 8) as u64,
            planck: le_at(buf, pos + 91, 8) as u64,
            boltzmann: le_at(buf, pos + 99, 8) as u64,
        }
    }
}

/// Block 5 at `pos`.
pub open spec fn calibration_block(buf: Seq<u8>, pos: int) -> Result<CalInfo, HsdError> {
    if let Some(e) = first_cut(buf, pos, seq![(3, 2)]) {
        Err(e)
    } else if let Some(e) = first_cut(buf, pos, calibration_fields(le_at(buf, pos + 3, 2))) {
        Err(e)
    } else {
        Ok(
            CalInfo {
                band_number: le_at(buf, pos + 3, 2) as u16,
                calibration: Calibration {
                    gain: le_at(buf, pos + 19, 8) as u64,
                    offset: le_at(buf, pos + 27, 8) as u64,
                    error_count: le_at(buf, pos + 15, 2) as u16,
                    outside_scan_count: le_at(buf, pos + 17, 2) as u16,
                    kind: calibration_kind(buf, pos),
                },
            },
        )
    }
}

/// Block 7 at `pos`.
pub open spec fn segment_block(buf: Seq<u8>, pos: int) -> Result<SegmentInfo, HsdError> {
    if let Some(e) = first_cut(buf, pos, seq![(3, 1), (4, 1), (5, 2)]) {
        Err(e)
    } else {
        Ok(
            SegmentInfo {
                total_segments: le_at(buf, pos + 3, 1) as u8,
                segment_number: le_at(buf, pos + 4, 1) as u8,
                first_line: le_at(buf, pos + 5, 2) as usize,
            },
        )
    }
}

/// Reads the header block at the walk's position: its number, its length,
/// and the contents of the blocks that matter. A later block of the same
/// number replaces an earlier one.
pub open spec fn walk_step(buf: Seq<u8>, walk: Walk) -> Result<Walk, HsdError> {
    let pos = walk.pos as int;
    if let Some(e) = first_cut(buf, pos, seq![(0, 1), (1, 2)]) {
        Err(e)
    } else {
        let number = le_at(buf, pos, 1);
        let next = Walk { pos: walk.pos + le_at(buf, pos + 1, 2), ..walk };
        if number == 2 {
            match data_block(buf, pos) {
                Ok(data) => Ok(Walk { data: Some(data), ..next }),
                Err(e) => Err(e),
            }
        } else if number == 3 {
            match projection_block(buf, pos) {
                Ok(projection) => Ok(Walk { projection: Some(projection), ..next }),
                Err(e) => Err(e),
            }
        } else if number == 5 {
            match calibration_block(buf, pos) {
                Ok(calibration) => Ok(Walk { calibration: Some(calibration), ..next }),
                Err(e) => Err(e),
            }
        } else if number == 7 {
            match segment_block(buf, pos) {
                Ok(segment) => Ok(Walk { segment: Some(segment), ..next }),
                Err(e) => Err(e),
            }
        } else {
            Ok(next)
        }
    }
}

/// The walk over the first `blocks` chained header blocks.
pub open spec fn walk_headers(buf: Seq<u8>, blocks: nat) -> Result<Walk, HsdError>
    decreases blocks,
{
    if blocks == 0 {
        Ok(Walk { pos: 0, data: None, projection: None, calibration: None, segment: None })
    } else {
        match walk_headers(buf, (blocks - 1) as nat) {
            Ok(walk) => walk_step(buf, walk),
            Err(e) => Err(e),
        }
    }
}

/// The segment that the header blocks and the data block behind them make.
pub open spec fn finish(buf: Seq<u8>, walk: Walk) -> Result<SegmentModel, HsdError> {
    if walk.data is None {
        Err(HsdError::MissingBlock(2))
    } else if walk.projection is None {
        Err(HsdError::MissingBlock(3))
    } else if walk.calibration is None {
        Err(HsdError::MissingBlock(5))
    } else if walk.segment is None {
        Err(HsdError::MissingBlock(7))
    } else {
        let data = walk.data->0;
        let expected = (data.columns * data.lines) as nat;
        if walk.pos + 2 * expected > buf.len() {
            let have = if walk.pos <= buf.len() {
                (buf.len() - walk.pos) / 2
            } else {
                0
            };
            Err(HsdError::DataSize { expected: expected as usize, have: have as usize })
        } else {
            Ok(
                SegmentModel {
                    band_number: walk.calibration->0.band_number,
                    columns: data.columns,
                    lines: data.lines,
                    first_line: walk.segment->0.first_line,
                    segment_number: walk.segment->0.segment_number,
                    total_segments: walk.segment->0.total_segments,
                    calibration: walk.calibration->0.calibration,
                    projection: walk.projection->0,
                    counts: Seq::new(
                        expected,
                        |i: int| le_at(buf, walk.pos + 2 * i, 2) as u16,
                    ),
                },
            )
        }
    }
}

/// What a file decodes to.
pub open spec fn decoded(buf: Seq<u8>) -> Result<SegmentModel, HsdError> {
    if let Some(e) = first_cut(buf, 0, seq![(0, 1)]) {
        Err(e)
    } else if le_at(buf, 0, 1) != 1 {
        Err(HsdError::NotHsd(le_at(buf, 0, 1) as u8))
    } else if let Some(e) = first_cut(buf, 0, seq![(3, 2), (5, 1)]) {
        Err(e)
    } else if le_at(buf, 5, 1) != 0 {
        Err(HsdError::BigEndian)
    } else {
        match walk_headers(buf, le_at(buf, 3, 2)) {
            Ok(walk) => finish(buf, walk),
            Err(e) => Err(e),
        }
    }
}

// ---------------------------------------------------------------------------
// Reading
// ---------------------------------------------------------------------------

proof fn lemma_le_value_bound(bytes: Seq<u8>)
    requires
        bytes.len() <= 8,
    ensures
        bytes.len() == 0 ==> le_value(bytes) == 0,
        bytes.len() == 1 ==> le_value(bytes) < 0x100,
        bytes.len() == 2 ==> le_value(bytes) < 0x1_0000,
        bytes.len() == 3 ==> le_value(bytes) < 0x100_0000,
        bytes.len() == 4 ==> le_value(bytes) < 0x1_0000_0000,
        bytes.len() == 5 ==> le_value(bytes) < 0x100_0000_0000,
        bytes.len() == 6 ==> le_value(bytes) < 0x1_0000_0000_0000,
        bytes.len() == 7 ==> le_value(bytes) < 0x100_0000_0000_0000,
        bytes.len() == 8 ==> le_value(bytes) < 0x1_0000_0000_0000_0000,
    decreases bytes.len(),
{
    if bytes.len() > 0 {
        lemma_le_value_bound(bytes.skip(1));
    }
}

/// Reads the number that up to eight bytes spell in little-endian order.
fn le_uint(bytes: &[u8]) -> (value: u64)
    requires
        bytes@.len() <= 8,
    ensures
        value as nat == le_value(bytes@),
{
    let mut value: u64 = 0;
    let mut i: usize = bytes.len();
    assert(bytes@.skip(i as int) =~= Seq::<u8>::empty());
    while i > 0
        invariant
            0 <= i <= bytes@.len() <= 8,
            value as nat == le_value(bytes@.skip(i as int)),
        decreases i,
    {
        proof {
            lemma_le_value_bound(bytes@.skip(i as int));
            lemma_le_value_bound(bytes@.skip(i - 1));
            assert(bytes@.skip(i - 1).skip(1) =~= bytes@.skip(i as int));
        }
        i -= 1;
        value = bytes[i] as u64 + 256 * value;
    }
    assert(bytes@.skip(0) =~= bytes@);
    value
}

/// Whether a read of `width` bytes at `offset` gave what the file holds
/// there.
pub open spec fn read_gives(
    buf: Seq<u8>,
    offset: int,
    width: int,
    value: Result<nat, HsdError>,
) -> bool {
    value == (if offset + width <= buf.len() {
        Ok::<nat, HsdError>(le_at(buf, offset, width))
    } else {
        Err(cut_off(buf, offset, width))
    })
}

/// Bounds-checked little-endian reads over the raw file.
pub struct Reader<'a> {
    pub buf: &'a [u8],
}

impl<'a> Reader<'a> {
    /// The `need` bytes at `offset`.
    pub fn bytes(&self, offset: usize, need: usize) -> (bytes: Result<&'a [u8], HsdError>)
        ensures
            match bytes {
                Ok(slice) => offset + need <= self.buf@.len() && slice@ == self.buf@.subrange(
                    offset as int,
                    offset + need,
                ),
                Err(e) => offset + need > self.buf@.len() && e == cut_off(
                    self.buf@,
                    offset as int,
                    need as int,
                ),
            },
    {
        let have: usize = self.buf.len();
        if need <= have && offset <= have - need {
            Ok(slice_subrange(self.buf, offset, offset + need))
        } else {
            Err(HsdError::Truncated { offset, need, have })
        }
    }

    /// The byte at `offset`.
    pub fn u8(&self, offset: usize) -> (value: Result<u8, HsdError>)
        ensures
            match value {
                Ok(v) => read_gives(self.buf@, offset as int, 1, Ok(v as nat)),
                Err(e) => read_gives(self.buf@, offset as int, 1, Err(e)),
            },
    {
        let bytes = self.bytes(offset, 1)?;
        proof {
            lemma_le_value_bound(bytes@);
        }
        Ok(le_uint(bytes) as u8)
    }

    /// The 16-bit number at `offset`.
    pub fn u16(&self, offset: usize) -> (value: Result<u16, HsdError>)
        ensures
            match value {
                Ok(v) => read_gives(self.buf@, offset as int, 2, Ok(v as nat)),
                Err(e) => read_gives(self.buf@, offset as int, 2, Err(e)),
            },
    {
        let bytes = self.bytes(offset, 2)?;
        proof {
            lemma_le_value_bound(bytes@);
        }
        Ok(le_uint(bytes) as u16)
    }

    /// The 32-bit number at `offset`.
    pub fn u32(&self, offset: usize) -> (value: Result<u32, HsdError>)
        ensures
            match value {
                Ok(v) => read_gives(self.buf@, offset as int, 4, Ok(v as nat)),
                Err(e) => read_gives(self.buf@, offset as int, 4, Err(e)),
            },
    {
        let bytes = self.bytes(offset, 4)?;
        proof {
            lemma_le_value_bound(bytes@);
        }
        Ok(le_uint(bytes) as u32)
    }

    /// The pattern of the single-precision number at `offset`.
    pub fn single(&self, offset: usize) -> (bits: Result<u32, HsdError>)
        ensures
            match bits {
                Ok(v) => read_gives(self.buf@, offset as int, 4, Ok(v as nat)),
                Err(e) => read_gives(self.buf@, offset as int, 4, Err(e)),
            },
    {
        self.u32(offset)
    }

    /// The pattern of the double-precision number at `offset`.
    pub fn double(&self, offset: usize) -> (bits: Result<u64, HsdError>)
        ensures
            match bits {
                Ok(v) => read_gives(self.buf@, offset as int, 8, Ok(v as nat)),
                Err(e) => read_gives(self.buf@, offset as int, 8, Err(e)),
            },
    {
        let bytes = self.bytes(offset, 8)?;
        Ok(le_uint(bytes))
    }

    fn data_info(&self, pos: usize) -> (info: Result<DataInfo, HsdError>)
        requires
            pos <= 0xffff * 0xffff,
        ensures
            info == data_block(self.buf@, pos as int),
    {
        proof {
            reveal_with_fuel(first_cut, 4);
        }
        let bits = self.u16(pos + 3)?;
        if bits != 16 {
            return Err(HsdError::BitsPerPixel(bits));
        }
        let columns: usize = self.u16(pos + 5)? as usize;
        let lines: usize = self.u16(pos + 7)? as usize;
        Ok(DataInfo { columns, lines })
    }

    fn projection(&self, pos: usize) -> (projection: Result<Projection, HsdError>)
        requires
            pos <= 0xffff * 0xffff,
        ensures
            projection == projection_block(self.buf@, pos as int),
    {
        proof {
            reveal_with_fuel(first_cut, 10);
        }
        let sub_lon_deg = self.double(pos + 3)?;
        let cfac = self.u32(pos + 11)?;
        let lfac = self.u32(pos + 15)?;
        let coff = self.single(pos + 19)?;
        let loff = self.single(pos + 23)?;
        let distance_km = self.double(pos + 27)?;
        let equatorial_radius_km = self.double(pos + 35)?;
        let polar_radius_km = self.double(pos + 43)?;
        Ok(
            Projection {
                sub_lon_deg,
                cfac,
                lfac,
                coff,
                loff,
                distance_km,
                equatorial_radius_km,
                polar_radius_km,
            },
        )
    }

    fn calibration(&self, pos: usize) -> (info: Result<CalInfo, HsdError>)
        requires
            pos <= 0xffff * 0xffff,
        ensures
            info == calibration_block(self.buf@, pos as int),
    {
        proof {
            reveal_with_fuel(first_cut, 13);
        }
        let band_number = self.u16(pos + 3)?;
        let kind = if band_number <= 6 {
            CalibrationKind::Reflective { albedo_coeff: self.double(pos + 35)? }
        } else {
            let wavelength_um = self.double(pos + 5)?;
            let c0 = self.double(pos + 35)?;
            let c1 = self.double(pos + 43)?;
            let c2 = self.double(pos + 51)?;
            let speed_of_light = self.double(pos + 83)?;
            let planck = self.double(pos + 91)?;
            let boltzmann = self.double(pos + 99)?;
            CalibrationKind::Emissive {
                wavelength_um,
                c0,
                c1,
                c2,
                speed_of_light,
                planck,
                boltzmann,
            }
        };
        let error_count = self.u16(pos + 15)?;
        let outside_scan_count = self.u16(pos + 17)?;
        let gain = self.double(pos + 19)?;
        let offset = self.double(pos + 27)?;
        let calibration = Calibration { gain, offset, error_count, outside_scan_count, kind };
        Ok(CalInfo { band_number, calibration })
    }

    fn segment_info(&self, pos: usize) -> (info: Result<SegmentInfo, HsdError>)
        requires
            pos <= 0xffff * 0xffff,
        ensures
            info == segment_block(self.buf@, pos as int),
    {
        proof {
            reveal_with_fuel(first_cut, 5);
        }
        let total_segments = self.u8(pos + 3)?;
        let segment_number = self.u8(pos + 4)?;
        let first_line: usize = self.u16(pos + 5)? as usize;
        Ok(SegmentInfo { total_segments, segment_number, first_line })
    }
}

proof fn lemma_two_bytes_bound(buf: Seq<u8>, offset: int)
    requires
        0 <= offset,
        offset + 2 <= buf.len(),
    ensures
        le_at(buf, offset, 2) <= 0xffff,
{
    lemma_le_value_bound(buf.subrange(offset, offset + 2));
}

proof fn lemma_block_bounds(buf: Seq<u8>, pos: int)
    requires
        0 <= pos,
    ensures
        first_cut(buf, pos, seq![(0, 1), (1, 2)]) is None ==> le_at(buf, pos + 1, 2) <= 0xffff,
        data_block(buf, pos) matches Ok(data) ==> data.columns <= 0xffff && data.lines <= 0xffff,
        segment_block(buf, pos) matches Ok(segment) ==> segment.first_line <= 0xffff,
{
    reveal_with_fuel(first_cut, 4);
    if pos + 3 <= buf.len() {
        lemma_two_bytes_bound(buf, pos + 1);
    }
    if pos + 7 <= buf.len() {
        lemma_two_bytes_bound(buf, pos + 5);
    }
    if pos + 9 <= buf.len() {
        lemma_two_bytes_bound(buf, pos + 7);
    }
}

/// The dimensions that a successful walk has found come from 16-bit fields.
proof fn lemma_walk_bounds(buf: Seq<u8>, blocks: nat)
    ensures
        walk_headers(buf, blocks) matches Ok(walk) ==> {
            &&& walk.data matches Some(data) ==> data.columns <= 0xffff && data.lines <= 0xffff
            &&& walk.segment matches Some(segment) ==> segment.first_line <= 0xffff
        },
    decreases blocks,
{
    if blocks > 0 {
        lemma_walk_bounds(buf, (blocks - 1) as nat);
        if let Ok(walk) = walk_headers(buf, (blocks - 1) as nat) {
            lemma_block_bounds(buf, walk.pos as int);
        }
    }
}

pub(crate) proof fn lemma_walk_error_persists(buf: Seq<u8>, fewer: nat, more: nat)
    requires
        fewer <= more,
        walk_headers(buf, fewer) is Err,
    ensures
        walk_headers(buf, more) == walk_headers(buf, fewer),
    decreases more,
{
    if fewer < more {
        lemma_walk_error_persists(buf, fewer, (more - 1) as nat);
    }
}

/// Reads the row-major counts of the data block at `pos`.
fn read_counts(r: &Reader, pos: usize, expected: usize) -> (counts: Vec<u16>)
    requires
        pos + 2 * expected <= r.buf@.len(),
    ensures
        counts@ == Seq::new(
            expected as nat,
            |i: int| le_at(r.buf@, pos + 2 * i, 2) as u16,
        ),
{
    let mut counts: Vec<u16> = Vec::with_capacity(expected);
    let have: usize = r.buf.len();
    let mut i: usize = 0;
    while i < expected
        invariant
            i <= expected,
            have == r.buf@.len(),
            pos + 2 * expected <= r.buf@.len(),
            counts@ =~= Seq::new(i as nat, |k: int| le_at(r.buf@, pos + 2 * k, 2) as u16),
        decreases expected - i,
    {
        let at: usize = pos + 2 * i;
        let pair = slice_subrange(r.buf, at, at + 2);
        proof {
            lemma_le_value_bound(pair@);
        }
        counts.push(le_uint(pair) as u16);
        i += 1;
    }
    counts
}

/// The first fields of a block are cut where its number or its length is.
proof fn lemma_block_start(buf: Seq<u8>, pos: int)
    ensures
        first_cut(buf, pos, seq![(0, 1), (1, 2)]) == if pos + 1 > buf.len() {
            Some(cut_off(buf, pos, 1))
        } else if pos + 3 > buf.len() {
            Some(cut_off(buf, pos + 1, 2))
        } else {
            None
        },
{
    reveal_with_fuel(first_cut, 3);
    let fields = seq![(0int, 1int), (1int, 2int)];
    assert(fields.skip(1)[0] == (1int, 2int));
    assert(fields.skip(1).skip(1).len() == 0);
}

/// Decodes one file.
#[verifier::rlimit(40)]
pub fn parse(buf: &[u8]) -> (segment: Result<Segment, HsdError>)
    ensures
        match segment {
            Ok(s) => decoded(buf@) == Ok::<SegmentModel, HsdError>(s@) && s@.wf(),
            Err(e) => decoded(buf@) == Err::<SegmentModel, HsdError>(e),
        },
{
    proof {
        reveal_with_fuel(first_cut, 4);
    }
    let r = Reader { buf };

    // Block 1 (basic information): validate magic-ish fields and learn how
    // many header blocks to walk.
    let first_block = r.u8(0)?;
    if first_block != 1 {
        return Err(HsdError::NotHsd(first_block));
    }
    let total_blocks = r.u16(3)?;
    if r.u8(5)? != 0 {
        return Err(HsdError::BigEndian);
    }
    let mut data_info: Option<DataInfo> = None;
    let mut proj_info: Option<Projection> = None;
    let mut cal_info: Option<CalInfo> = None;
    let mut seg_info: Option<SegmentInfo> = None;

    // Walk the chained header blocks; each starts with (u8 number, u16 length).
    let mut pos: usize = 0;
    let mut block: u16 = 0;
    while block < total_blocks
        invariant
            r.buf@ == buf@,
            block <= total_blocks,
            pos <= 0xffff * block,
            walk_headers(buf@, block as nat) == Ok::<Walk, HsdError>(
                Walk {
                    pos: pos as nat,
                    data: data_info,
                    projection: proj_info,
                    calibration: cal_info,
                    segment: seg_info,
                },
            ),
            decoded(buf@) == (match walk_headers(buf@, total_blocks as nat) {
                Ok(walk) => finish(buf@, walk),
                Err(e) => Err(e),
            }),
        decreases total_blocks - block,
    {
        proof {
            lemma_block_start(buf@, pos as int);
            if walk_headers(buf@, (block + 1) as nat) is Err {
                lemma_walk_error_persists(buf@, (block + 1) as nat, total_blocks as nat);
            }
        }
        let number = r.u8(pos)?;
        let length: usize = r.u16(pos + 1)? as usize;
        match number {
            2 => {
                data_info = Some(r.data_info(pos)?);
            },
            3 => {
                proj_info = Some(r.projection(pos)?);
            },
            5 => {
                cal_info = Some(r.calibration(pos)?);
            },
            7 => {
                seg_info = Some(r.segment_info(pos)?);
            },
            _ => {},
        }
        pos += length;
        block += 1;
    }

    let Some(data) = data_info else {
        return Err(HsdError::MissingBlock(2));
    };
    let Some(projection) = proj_info else {
        return Err(HsdError::MissingBlock(3));
    };
    let Some(cal) = cal_info else {
        return Err(HsdError::MissingBlock(5));
    };
    let Some(seg) = seg_info else {
        return Err(HsdError::MissingBlock(7));
    };
    proof {
        lemma_walk_bounds(buf@, total_blocks as nat);
        assert(data.columns * data.lines <= 0xffff * 0xffff) by (nonlinear_arith)
            requires
                data.columns <= 0xffff,
                data.lines <= 0xffff,
        ;
    }

    let expected: usize = data.columns * data.lines;
    let behind: usize = if pos <= buf.len() { buf.len() - pos } else { 0 };
    if pos > buf.len() || expected > behind / 2 {
        return Err(HsdError::DataSize { expected, have: behind / 2 });
    }
    let counts = read_counts(&r, pos, expected);
    Ok(
        Segment {
            band_number: cal.band_number,
            columns: data.columns,
            lines: data.lines,
            first_line: seg.first_line,
            segment_number: seg.segment_number,
            total_segments: seg.total_segments,
            calibration: cal.calibration,
            projection,
            counts,
        },
    )
}

// ---------------------------------------------------------------------------
// Extra bytes
// ---------------------------------------------------------------------------

proof fn lemma_le_at_extends(buf: Seq<u8>, extra: Seq<u8>, offset: int, width: int)
    requires
        0 <= offset,
        0 <= width,
        offset + width <= buf.len(),
    ensures
        le_at(buf + extra, offset, width) == le_at(buf, offset, width),
{
    assert((buf + extra).subrange(offset, offset + width) =~= buf.subrange(
        offset,
        offset + width,
    ));
}

proof fn lemma_first_cut_extends(
    buf: Seq<u8>,
    extra: Seq<u8>,
    pos: int,
    fields: Seq<(int, int)>,
)
    requires
        first_cut(buf, pos, fields) is None,
    ensures
        first_cut(buf + extra, pos, fields) is None,
    decreases fields.len(),
{
    if fields.len() > 0 {
        lemma_first_cut_extends(buf, extra, pos, fields.skip(1));
    }
}

proof fn lemma_data_block_extends(buf: Seq<u8>, extra: Seq<u8>, pos: int)
    requires
        0 <= pos,
        data_block(buf, pos) is Ok,
    ensures
        data_block(buf + extra, pos) == data_block(buf, pos),
{
    reveal_with_fuel(first_cut, 4);
    lemma_first_cut_extends(buf, extra, pos, seq![(3, 2)]);
    lemma_first_cut_extends(buf, extra, pos, seq![(5, 2), (7, 2)]);
    lemma_le_at_extends(buf, extra, pos + 3, 2);
    lemma_le_at_extends(buf, extra, pos + 5, 2);
    lemma_le_at_extends(buf, extra, pos + 7, 2);
}

proof fn lemma_projection_block_extends(buf: Seq<u8>, extra: Seq<u8>, pos: int)
    requires
        0 <= pos,
        projection_block(buf, pos) is Ok,
    ensures
        projection_block(buf + extra, pos) == projection_block(buf, pos),
{
    reveal_with_fuel(first_cut, 10);
    lemma_first_cut_extends(buf, extra, pos, projection_fields());
    lemma_le_at_extends(buf, extra, pos + 3, 8);
    lemma_le_at_extends(buf, extra, pos + 11, 4);
    lemma_le_at_extends(buf, extra, pos + 15, 4);
    lemma_le_at_extends(buf, extra, pos + 19, 4);
    lemma_le_at_extends(buf, extra, pos + 23, 4);
    lemma_le_at_extends(buf, extra, pos + 27, 8);
    lemma_le_at_extends(buf, extra, pos + 35, 8);
    lemma_le_at_extends(buf, extra, pos + 43, 8);
}

proof fn lemma_calibration_block_extends(buf: Seq<u8>, extra: Seq<u8>, pos: int)
    requires
        0 <= pos,
        calibration_block(buf, pos) is Ok,
    ensures
        calibration_block(buf + extra, pos) == calibration_block(buf, pos),
{
    reveal_with_fuel(first_cut, 13);
    lemma_first_cut_extends(buf, extra, pos, seq![(3, 2)]);
    lemma_le_at_extends(buf, extra, pos + 3, 2);
    lemma_first_cut_extends(buf, extra, pos, calibration_fields(le_at(buf, pos + 3, 2)));
    lemma_le_at_extends(buf, extra, pos + 15, 2);
    lemma_le_at_extends(buf, extra, pos + 17, 2);
    lemma_le_at_extends(buf, extra, pos + 19, 8);
    lemma_le_at_extends(buf, extra, pos + 27, 8);
    lemma_le_at_extends(buf, extra, pos + 35, 8);
    if le_at(buf, pos + 3, 2) > 6 {
        lemma_le_at_extends(buf, extra, pos + 5, 8);
        lemma_le_at_extends(buf, extra, pos + 43, 8);
        lemma_le_at_extends(buf, extra, pos + 51, 8);
        lemma_le_at_extends(buf, extra, pos + 83, 8);
        lemma_le_at_extends(buf, extra, pos + 91, 8);
        lemma_le_at_extends(buf, extra, pos + 99, 8);
    }
}

proof fn lemma_segment_block_extends(buf: Seq<u8>, extra: Seq<u8>, pos: int)
    requires
        0 <= pos,
        segment_block(buf, pos) is Ok,
    ensures
        segment_block(buf + extra, pos) == segment_block(buf, pos),
{
    reveal_with_fuel(first_cut, 5);
    lemma_first_cut_extends(buf, extra, pos, seq![(3, 1), (4, 1), (5, 2)]);
    lemma_le_at_extends(buf, extra, pos + 3, 1);
    lemma_le_at_extends(buf, extra, pos + 4, 1);
    lemma_le_at_extends(buf, extra, pos + 5, 2);
}

proof fn lemma_walk_extends(buf: Seq<u8>, extra: Seq<u8>, blocks: nat)
    requires
        walk_headers(buf, blocks) is Ok,
    ensures
        walk_headers(buf + extra, blocks) == walk_headers(buf, blocks),
    decreases blocks,
{
    if blocks > 0 {
        lemma_walk_extends(buf, extra, (blocks - 1) as nat);
        let walk = walk_headers(buf, (blocks - 1) as nat)->Ok_0;
        let pos = walk.pos as int;
        assert(first_cut(buf, pos, seq![(0, 1), (1, 2)]) is None);
        lemma_first_cut_extends(buf, extra, pos, seq![(0, 1), (1, 2)]);
        assert(pos + 3 <= buf.len()) by {
            reveal_with_fuel(first_cut, 4);
        }
        lemma_le_at_extends(buf, extra, pos, 1);
        lemma_le_at_extends(buf, extra, pos + 1, 2);
        let number = le_at(buf, pos, 1);
        if number == 2 {
            lemma_data_block_extends(buf, extra, pos);
        } else if number == 3 {
            lemma_projection_block_extends(buf, extra, pos);
        } else if number == 5 {
            lemma_calibration_block_extends(buf, extra, pos);
        } else if number == 7 {
            lemma_segment_block_extends(buf, extra, pos);
        }
    }
}

/// Bytes behind the data block do not matter: a file that decodes still
/// decodes, to the same segment, when more bytes follow it.
pub proof fn trailing_bytes_are_ignored(buf: Seq<u8>, extra: Seq<u8>)
    requires
        decoded(buf) is Ok,
    ensures
        decoded(buf + extra) == decoded(buf),
{
    assert(buf.len() >= 6) by {
        reveal_with_fuel(first_cut, 4);
    }
    lemma_first_cut_extends(buf, extra, 0, seq![(0, 1)]);
    lemma_first_cut_extends(buf, extra, 0, seq![(3, 2), (5, 1)]);
    lemma_le_at_extends(buf, extra, 0, 1);
    lemma_le_at_extends(buf, extra, 3, 2);
    lemma_le_at_extends(buf, extra, 5, 1);
    let blocks = le_at(buf, 3, 2);
    lemma_walk_extends(buf, extra, blocks);
    let walk = walk_headers(buf, blocks)->Ok_0;
    let whole = decoded(buf)->Ok_0;
    let longer = decoded(buf + extra)->Ok_0;
    assert forall|i: int| 0 <= i < whole.counts.len() implies #[trigger] longer.counts[i]
        == whole.counts[i] by {
        lemma_le_at_extends(buf, extra, walk.pos + 2 * i, 2);
    }
    assert(longer =~= whole);
}

// ---------------------------------------------------------------------------
// Calibration
// ---------------------------------------------------------------------------

/// Whether a lookup table maps each valid count to a value that the given
/// conversion may give for it, and each sentinel count to NaN.
pub open spec fn is_count_table(
    calibration: Calibration,
    table: Seq<u32>,
    converts: spec_fn(u16, u32) -> bool,
) -> bool {
    &&& table.len() == 0x1_0000
    &&& forall|count: u16|
        if calibration.valid(count) {
            converts(count, #[trigger] table[count as int])
        } else {
            table[count as int] == ieee::NAN32
        }
}

impl Calibration {
    /// Whether a count is a measurement, not one of the two sentinels.
    pub open spec fn valid(self, count: u16) -> bool {
        count != self.error_count && count != self.outside_scan_count
    }

    /// Whether a count is a measurement, not one of the two sentinels.
    pub fn is_valid(&self, count: u16) -> (valid: bool)
        ensures
            valid == self.valid(count),
    {
        count != self.error_count && count != self.outside_scan_count
    }

    /// Lookup table mapping every possible 16-bit count to a single-precision
    /// reflectance; invalid sentinel counts map to NaN. None for thermal
    /// bands. `reflectance` converts a valid count, given the albedo
    /// coefficient, the gain and the offset.
    pub fn reflectance_lut<F: Fn(u64, u64, u64, u16) -> u32>(&self, reflectance: F) -> (lut: Option<
        Vec<u32>,
    >)
        requires
            self.kind matches CalibrationKind::Reflective { albedo_coeff } ==> forall|count: u16|
                self.valid(count) ==> call_requires(
                    reflectance,
                    (albedo_coeff, self.gain, self.offset, count),
                ),
        ensures
            match lut {
                Some(table) => self.kind is Reflective && is_count_table(
                    *self,
                    table@,
                    |count: u16, bits: u32|
                        call_ensures(
                            reflectance,
                            (self.kind->albedo_coeff, self.gain, self.offset, count),
                            bits,
                        ),
                ),
                None => !(self.kind is Reflective),
            },
    {
        let CalibrationKind::Reflective { albedo_coeff } = self.kind else {
            return None;
        };
        let mut table: Vec<u32> = Vec::with_capacity(0x1_0000);
        let mut next: u32 = 0;
        while next <= 0xffff
            invariant
                next <= 0x1_0000,
                self.kind == (CalibrationKind::Reflective { albedo_coeff }),
                forall|count: u16|
                    self.valid(count) ==> call_requires(
                        reflectance,
                        (albedo_coeff, self.gain, self.offset, count),
                    ),
                table@.len() == next,
                forall|count: u16|
                    count < next ==> if self.valid(count) {
                        call_ensures(
                            reflectance,
                            (albedo_coeff, self.gain, self.offset, count),
                            #[trigger] table@[count as int],
                        )
                    } else {
                        table@[count as int] == ieee::NAN32
                    },
            decreases 0x1_0000 - next,
        {
            let count: u16 = next as u16;
            if self.is_valid(count) {
                table.push(reflectance(albedo_coeff, self.gain, self.offset, count));
            } else {
                table.push(ieee::NAN32);
            }
            next += 1;
        }
        Some(table)
    }

    /// Whether `bits` may stand in the brightness-temperature table for a
    /// valid count: NaN where the radiance is not positive, and otherwise
    /// what the inverse Planck relation gives for it.
    pub open spec fn temperature_of<R, T>(
        self,
        radiance: R,
        temperature: T,
        count: u16,
        bits: u32,
    ) -> bool where R: Fn(u64, u64, u16) -> u64, T: Fn(&CalibrationKind, u64) -> u32 {
        exists|level: u64|
            {
                &&& #[trigger] call_ensures(radiance, (self.gain, self.offset, count), level)
                &&& if ieee::at_most64(level, 0) {
                    bits == ieee::NAN32
                } else {
                    call_ensures(temperature, (&self.kind, level), bits)
                }
            }
    }

    /// Lookup table mapping every possible 16-bit count to a single-precision
    /// brightness temperature in kelvin; invalid counts and non-positive
    /// radiances map to NaN. None for reflective bands. `radiance` applies
    /// the gain and the offset to a count, `temperature` the inverse Planck
    /// relation to a radiance.
    pub fn brightness_temperature_lut<R, T>(&self, radiance: R, temperature: T) -> (lut: Option<
        Vec<u32>,
    >) where R: Fn(u64, u64, u16) -> u64, T: Fn(&CalibrationKind, u64) -> u32
        requires
            self.kind is Emissive ==> forall|count: u16|
                self.valid(count) ==> call_requires(radiance, (self.gain, self.offset, count)),
            self.kind is Emissive ==> forall|level: u64|
                !ieee::at_most64(level, 0) ==> call_requires(temperature, (&self.kind, level)),
        ensures
            match lut {
                Some(table) => self.kind is Emissive && is_count_table(
                    *self,
                    table@,
                    |count: u16, bits: u32|
                        self.temperature_of(radiance, temperature, count, bits),
                ),
                None => !(self.kind is Emissive),
            },
    {
        if let CalibrationKind::Reflective { .. } = self.kind {
            return None;
        }
        let mut table: Vec<u32> = Vec::with_capacity(0x1_0000);
        let mut next: u32 = 0;
        while next <= 0xffff
            invariant
                next <= 0x1_0000,
                self.kind is Emissive,
                forall|count: u16|
                    self.valid(count) ==> call_requires(radiance, (self.gain, self.offset, count)),
                forall|level: u64|
                    !ieee::at_most64(level, 0) ==> call_requires(temperature, (&self.kind, level)),
                table@.len() == next,
                forall|count: u16|
                    count < next ==> if self.valid(count) {
                        self.temperature_of(
                            radiance,
                            temperature,
                            count,
                            #[trigger] table@[count as int],
                        )
                    } else {
                        table@[count as int] == ieee::NAN32
                    },
            decreases 0x1_0000 - next,
        {
            let count: u16 = next as u16;
            if self.is_valid(count) {
                let level: u64 = radiance(self.gain, self.offset, count);
                let bits: u32 = if ieee::is_at_most64(level, 0) {
                    ieee::NAN32
                } else {
                    temperature(&self.kind, level)
                };
                assert(call_ensures(radiance, (self.gain, self.offset, count), level));
                table.push(bits);
            } else {
                table.push(ieee::NAN32);
            }
            next += 1;
        }
        Some(table)
    }
}

// ---------------------------------------------------------------------------
// Messages
// ---------------------------------------------------------------------------

impl HsdError {
    /// The error in words.
    pub open spec fn words(self) -> Seq<char> {
        match self {
            HsdError::Truncated { offset, need, have } => "file truncated: need "@
                + decimal::numeral(need as nat) + " bytes at offset "@ + decimal::numeral(
                offset as nat,
            ) + ", have "@ + decimal::numeral(have as nat),
            HsdError::NotHsd(number) => "not an HSD file: first header block number is "@
                + decimal::numeral(number as nat) + ", expected 1"@,
            HsdError::BigEndian => "big-endian HSD files are not supported"@,
            HsdError::BitsPerPixel(bits) => "unsupported bits per pixel: "@ + decimal::numeral(
                bits as nat,
            ) + " (expected 16)"@,
            HsdError::MissingBlock(number) => "missing required header block "@
                + decimal::numeral(number as nat),
            HsdError::DataSize { expected, have } => "data block too small: expected "@
                + decimal::numeral(expected as nat) + " pixels, have "@ + decimal::numeral(
                have as nat,
            ),
        }
    }

    /// The error in words.
    pub fn message(&self) -> (text: String)
        ensures
            text@ == self.words(),
    {
        match *self {
            HsdError::Truncated { offset, need, have } => {
                let mut text = "file truncated: need ".to_owned();
                text.append(decimal::decimal(need as u64).as_str());
                text.append(" bytes at offset ");
                text.append(decimal::decimal(offset as u64).as_str());
                text.append(", have ");
                text.append(decimal::decimal(have as u64).as_str());
                text
            },
            HsdError::NotHsd(number) => {
                let mut text = "not an HSD file: first header block number is ".to_owned();
                text.append(decimal::decimal(number as u64).as_str());
                text.append(", expected 1");
                text
            },
            HsdError::BigEndian => "big-endian HSD files are not supported".to_owned(),
            HsdError::BitsPerPixel(bits) => {
                let mut text = "unsupported bits per pixel: ".to_owned();
                text.append(decimal::decimal(bits as u64).as_str());
                text.append(" (expected 16)");
                text
            },
            HsdError::MissingBlock(number) => {
                let mut text = "missing required header block ".to_owned();
                text.append(decimal::decimal(number as u64).as_str());
                text
            },
            HsdError::DataSize { expected, have } => {
                let mut text = "data block too small: expected ".to_owned();
                text.append(decimal::decimal(expected as u64).as_str());
                text.append(" pixels, have ");
                text.append(decimal::decimal(have as u64).as_str());
                text
            },
        }
    }
}

} // verus!
