//! Errors raised by the decoding pipeline, together with the category
//! (pipeline stage family) each one belongs to.

use vstd::prelude::*;

verus! {

/// Everything that can go wrong while decoding a PNG stream.
///
/// Decoding is fail-fast: the first error aborts the whole decode and is
/// surfaced to the caller unchanged; no partial image is ever returned.
#[derive(Clone, Copy, Debug, PartialEq, Eq, Structural)]
pub enum PngError {
    /// The first 8 bytes are not the fixed PNG signature.
    SignatureMismatch,
    /// Fewer bytes remain than a chunk's declared layout requires.
    TruncatedChunk,
    /// A chunk's stored CRC does not match the CRC-32 of its type and data.
    BadCrc,
    /// PLTE data whose length is not a multiple of 3 or exceeds 256 entries.
    MalformedPalette,
    /// No IHDR chunk precedes the image data.
    MissingHeader,
    /// Interlacing, a non-zero compression or filter method, or an invalid
    /// bit-depth/color-type pairing.
    UnsupportedFeature,
    /// A chunk with an uppercase (critical) first type letter that is none of
    /// IHDR, PLTE, IDAT, IEND.
    UnsupportedCriticalChunk,
    /// The zlib header's compression-method nibble is not 8 (deflate).
    UnsupportedCompression,
    /// A DEFLATE block with BTYPE bits 11.
    InvalidBlockType,
    /// A bit pattern that no Huffman code of the active table matches.
    InvalidHuffmanCode,
    /// A back-reference distance exceeding the bytes produced so far.
    InvalidBackReference,
    /// A stored block whose NLEN is not the one's complement of LEN.
    BlockLengthMismatch,
    /// The Adler-32 trailer does not match the inflated bytes.
    ChecksumMismatch,
    /// A scanline filter byte outside 0..=4.
    InvalidFilterType,
    /// Fewer inflated bytes remain than a scanline requires.
    TruncatedScanline,
    /// An indexed-color image without a palette before its image data.
    MissingPalette,
    /// A palette index at least as large as the palette length.
    PaletteIndexOutOfRange,
}

/// The five families of decoding errors, one per layer of the pipeline.
#[derive(Clone, Copy, Debug, PartialEq, Eq, Structural)]
pub enum ErrorKind {
    /// Malformed container structure: signature, framing, CRC, palette shape,
    /// or a missing header.
    Format,
    /// Well-formed but outside what this decoder supports.
    UnsupportedFeatureError,
    /// A malformed zlib/DEFLATE payload.
    Decompression,
    /// A malformed scanline during filter reversal.
    Reconstruction,
    /// A missing palette or an out-of-range palette reference.
    Palette,
}

impl PngError {
    /// The category an error belongs to.
    pub open spec fn kind_spec(self) -> ErrorKind {
        match self {
            PngError::SignatureMismatch => ErrorKind::Format,
            PngError::TruncatedChunk => ErrorKind::Format,
            PngError::BadCrc => ErrorKind::Format,
            PngError::MalformedPalette => ErrorKind::Format,
            PngError::MissingHeader => ErrorKind::Format,
            PngError::UnsupportedFeature => ErrorKind::UnsupportedFeatureError,
            PngError::UnsupportedCriticalChunk => ErrorKind::UnsupportedFeatureError,
            PngError::UnsupportedCompression => ErrorKind::UnsupportedFeatureError,
            PngError::InvalidBlockType => ErrorKind::Decompression,
            PngError::InvalidHuffmanCode => ErrorKind::Decompression,
            PngError::InvalidBackReference => ErrorKind::Decompression,
            PngError::BlockLengthMismatch => ErrorKind::Decompression,
            PngError::ChecksumMismatch => ErrorKind::Decompression,
            PngError::InvalidFilterType => ErrorKind::Reconstruction,
            PngError::TruncatedScanline => ErrorKind::Reconstruction,
            PngError::MissingPalette => ErrorKind::Palette,
            PngError::PaletteIndexOutOfRange => ErrorKind::Palette,
        }
    }

    /// The category an error belongs to.
    pub fn kind(&self) -> (k: ErrorKind)
        ensures
            k == self.kind_spec(),
    {
        match self {
            PngError::SignatureMismatch => ErrorKind::Format,
            PngError::TruncatedChunk => ErrorKind::Format,
            PngError::BadCrc => ErrorKind::Format,
            PngError::MalformedPalette => ErrorKind::Format,
            PngError::MissingHeader => ErrorKind::Format,
            PngError::UnsupportedFeature => ErrorKind::UnsupportedFeatureError,
            PngError::UnsupportedCriticalChunk => ErrorKind::UnsupportedFeatureError,
            PngError::UnsupportedCompression => ErrorKind::UnsupportedFeatureError,
            PngError::InvalidBlockType => ErrorKind::Decompression,
            PngError::InvalidHuffmanCode => ErrorKind::Decompression,
            PngError::InvalidBackReference => ErrorKind::Decompression,
            PngError::BlockLengthMismatch => ErrorKind::Decompression,
            PngError::ChecksumMismatch => ErrorKind::Decompression,
            PngError::InvalidFilterType => ErrorKind::Reconstruction,
            PngError::TruncatedScanline => ErrorKind::Reconstruction,
            PngError::MissingPalette => ErrorKind::Palette,
            PngError::PaletteIndexOutOfRange => ErrorKind::Palette,
        }
    }
}

} // verus!
