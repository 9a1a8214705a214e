//! Interpreting the 13-byte IHDR payload into validated image parameters.

use vstd::prelude::*;
use crate::bytes::{be32_at, read_be32};
use crate::error::PngError;

verus! {

/// The validated image parameters from the IHDR chunk.
#[derive(Clone, Copy, Debug, PartialEq, Eq, Structural)]
pub struct ImageHeader {
    /// Image width in pixels.
    pub width: u32,
    /// Image height in pixels.
    pub height: u32,
    /// Bits per sample: 1, 2, 4, 8 or 16, as the color type allows.
    pub bit_depth: u8,
    /// Color model: 0 gray, 2 RGB, 3 indexed, 4 gray+alpha, 6 RGBA.
    pub color_type: u8,
    /// Must be 0 (deflate).
    pub compression_method: u8,
    /// Must be 0 (adaptive five-filter set).
    pub filter_method: u8,
    /// Must be 0; interlacing (1) is unsupported.
    pub interlace_method: u8,
}

/// Samples per pixel for each color type.
pub open spec fn channels_spec(color_type: u8) -> int {
    match color_type {
        0u8 => 1,
        2u8 => 3,
        3u8 => 1,
        4u8 => 2,
        6u8 => 4,
        _ => 0,
    }
}

/// Samples per pixel for each color type.
pub fn channels(color_type: u8) -> (r: u8)
    ensures
        r as int == channels_spec(color_type),
        r <= 4,
{
    match color_type {
        0u8 => 1,
        2u8 => 3,
        3u8 => 1,
        4u8 => 2,
        6u8 => 4,
        _ => 0,
    }
}

/// The fixed bit-depth/color-type compatibility table.
pub open spec fn valid_combination(color_type: u8, bit_depth: u8) -> bool {
    match color_type {
        0u8 => bit_depth == 1 || bit_depth == 2 || bit_depth == 4 || bit_depth == 8 || bit_depth
            == 16,
        2u8 => bit_depth == 8 || bit_depth == 16,
        3u8 => bit_depth == 1 || bit_depth == 2 || bit_depth == 4 || bit_depth == 8,
        4u8 => bit_depth == 8 || bit_depth == 16,
        6u8 => bit_depth == 8 || bit_depth == 16,
        _ => false,
    }
}

impl ImageHeader {
    /// A fully validated header: positive dimensions, zero compression and
    /// filter methods, no interlacing, and a legal depth/color pairing.
    pub open spec fn wf(self) -> bool {
        &&& self.width > 0
        &&& self.height > 0
        &&& self.compression_method == 0
        &&& self.filter_method == 0
        &&& self.interlace_method == 0
        &&& valid_combination(self.color_type, self.bit_depth)
    }
}

/// The header fields laid out at fixed offsets in the IHDR payload.
pub open spec fn header_fields(data: Seq<u8>) -> ImageHeader
    recommends
        data.len() >= 13,
{
    ImageHeader {
        width: be32_at(data, 0),
        height: be32_at(data, 4),
        bit_depth: data[8],
        color_type: data[9],
        compression_method: data[10],
        filter_method: data[11],
        interlace_method: data[12],
    }
}

/// Interpretation of an IHDR payload: the validated header, or the first
/// validation failure.
pub open spec fn interpret_header_spec(data: Seq<u8>) -> Result<ImageHeader, PngError> {
    if data.len() != 13 {
        Err(PngError::TruncatedChunk)
    } else {
        let h = header_fields(data);
        if h.compression_method != 0 || h.filter_method != 0 {
            Err(PngError::UnsupportedFeature)
        } else if h.interlace_method != 0 {
            Err(PngError::UnsupportedFeature)
        } else if h.width == 0 || h.height == 0 {
            Err(PngError::UnsupportedFeature)
        } else if !valid_combination(h.color_type, h.bit_depth) {
            Err(PngError::UnsupportedFeature)
        } else {
            Ok(h)
        }
    }
}

/// Parses and validates the IHDR payload.
///
/// Succeeds exactly on a 13-byte payload with positive dimensions, zero
/// compression and filter methods, interlace method 0, and a bit depth the
/// color type allows; interlace method 1 (and any other non-zero value) is
/// rejected as an unsupported feature before any pixel processing.
pub fn interpret_header(data: &[u8]) -> (r: Result<ImageHeader, PngError>)
    ensures
        r == interpret_header_spec(data@),
        r is Ok ==> r->Ok_0.wf(),
{
    if data.len() != 13 {
        return Err(PngError::TruncatedChunk);
    }
    let h = ImageHeader {
        width: read_be32(data, 0),
        height: read_be32(data, 4),
        bit_depth: data[8],
        color_type: data[9],
        compression_method: data[10],
        filter_method: data[11],
        interlace_method: data[12],
    };
    if h.compression_method != 0 || h.filter_method != 0 {
        return Err(PngError::UnsupportedFeature);
    }
    if h.interlace_method != 0 {
        return Err(PngError::UnsupportedFeature);
    }
    if h.width == 0 || h.height == 0 {
        return Err(PngError::UnsupportedFeature);
    }
    let valid = match h.color_type {
        0u8 => h.bit_depth == 1 || h.bit_depth == 2 || h.bit_depth == 4 || h.bit_depth == 8
            || h.bit_depth == 16,
        2u8 => h.bit_depth == 8 || h.bit_depth == 16,
        3u8 => h.bit_depth == 1 || h.bit_depth == 2 || h.bit_depth == 4 || h.bit_depth == 8,
        4u8 => h.bit_depth == 8 || h.bit_depth == 16,
        6u8 => h.bit_depth == 8 || h.bit_depth == 16,
        _ => false,
    };
    if !valid {
        return Err(PngError::UnsupportedFeature);
    }
    Ok(h)
}

} // verus!
