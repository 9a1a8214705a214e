//! A verified decoder for the PNG raster-image container format.
//!
//! The pipeline splits a byte stream into CRC-protected chunks, interprets
//! the image header, reassembles the compressed pixel payload, inflates it
//! (DEFLATE inside a zlib wrapper), reverses the per-scanline filters, and
//! reconstructs the final pixel grid. Interlaced images are rejected.

pub mod error;
pub mod checksum;
pub mod bytes;
pub mod chunks;
pub mod header;
pub mod palette;
pub mod filter;
pub mod inflate;
pub mod pixels;

use vstd::prelude::*;
use crate::bytes::copy_range;
use crate::chunks::{
    chunks_view, parse_png_spec, read_chunks, type_is, Chunk, SpecChunk, type_idat, type_ihdr,
    type_plte, lemma_chunks_from_wf, is_png_signature,
};
use crate::error::PngError;
use crate::filter::{lemma_rows_from_props, row_bytes_spec, rows_view, unfilter, unfilter_spec};
use crate::header::{interpret_header, interpret_header_spec, ImageHeader};
use crate::inflate::{inflate, inflate_spec};
use crate::palette::{build_palette, palette_spec, Palette};
use crate::pixels::{
    assemble_pixels, assemble_spec, pal_view, pixel_rows_view, DecodedImage, Pixel,
};

verus! {

/// The payload of the first IHDR chunk, provided it precedes any PLTE or
/// IDAT chunk; `MissingHeader` otherwise.
pub open spec fn first_ihdr(chunks: Seq<SpecChunk>, i: int) -> Result<Seq<u8>, PngError>
    recommends
        0 <= i,
    decreases chunks.len() - i,
{
    if i >= chunks.len() {
        Err(PngError::MissingHeader)
    } else if chunks[i].ctype == type_ihdr() {
        Ok(chunks[i].data)
    } else if chunks[i].ctype == type_idat() || chunks[i].ctype == type_plte() {
        Err(PngError::MissingHeader)
    } else {
        first_ihdr(chunks, i + 1)
    }
}

/// The payload of the first PLTE chunk that precedes every IDAT chunk, if
/// there is one.
pub open spec fn plte_data(chunks: Seq<SpecChunk>, i: int) -> Option<Seq<u8>>
    recommends
        0 <= i,
    decreases chunks.len() - i,
{
    if i >= chunks.len() {
        None
    } else if chunks[i].ctype == type_plte() {
        Some(chunks[i].data)
    } else if chunks[i].ctype == type_idat() {
        None
    } else {
        plte_data(chunks, i + 1)
    }
}

/// The concatenation of every IDAT payload in document order; DEFLATE
/// blocks may straddle chunk boundaries, so the chunk boundaries carry no
/// framing significance.
pub open spec fn idat_from(chunks: Seq<SpecChunk>, i: int) -> Seq<u8>
    recommends
        0 <= i,
    decreases chunks.len() - i,
{
    if i >= chunks.len() {
        Seq::empty()
    } else {
        (if chunks[i].ctype == type_idat() {
            chunks[i].data
        } else {
            Seq::empty()
        }) + idat_from(chunks, i + 1)
    }
}

/// Everything the decode pipeline settles before inflation: the validated
/// header, the palette (when one precedes the image data), and the DEFLATE
/// body after the checked 2-byte zlib header; or the first error of those
/// stages.
pub open spec fn decode_meta(bytes: Seq<u8>) -> Result<
    (ImageHeader, Option<Seq<(u8, u8, u8)>>, Seq<u8>),
    PngError,
> {
    match parse_png_spec(bytes) {
        Err(e) => Err(e),
        Ok(chunks) => match first_ihdr(chunks, 0) {
            Err(e) => Err(e),
            Ok(hdata) => match interpret_header_spec(hdata) {
                Err(e) => Err(e),
                Ok(h) => {
                    let palr: Result<Option<Seq<(u8, u8, u8)>>, PngError> = match plte_data(
                        chunks,
                        0,
                    ) {
                        None => Ok(None),
                        Some(pd) => match palette_spec(pd) {
                            Err(e) => Err(e),
                            Ok(p) => Ok(Some(p)),
                        },
                    };
                    match palr {
                        Err(e) => Err(e),
                        Ok(pal) => {
                            let s = idat_from(chunks, 0);
                            if s.len() < 2 {
                                Err(PngError::TruncatedChunk)
                            } else if s[0] & 0x0F != 8 {
                                Err(PngError::UnsupportedCompression)
                            } else {
                                Ok((h, pal, s.subrange(2, s.len() as int)))
                            }
                        },
                    }
                },
            },
        },
    }
}

/// The whole decode, as a function of the input bytes alone: the metadata
/// stages, then inflation, filter reversal and pixel assembly, each exactly
/// as its stage spec describes; the first failing stage's error, or the
/// image dimensions and pixel grid.
pub open spec fn decode_spec(bytes: Seq<u8>) -> Result<(u32, u32, Seq<Seq<Pixel>>), PngError> {
    match decode_meta(bytes) {
        Err(e) => Err(e),
        Ok((h, pal, s)) => match inflate_spec(s) {
            Err(e) => Err(e),
            Ok(infl) => match unfilter_spec(infl, h) {
                Err(e) => Err(e),
                Ok(rows) => match assemble_spec(rows, h, pal) {
                    Err(e) => Err(e),
                    Ok(grid) => Ok((h.width, h.height, grid)),
                },
            },
        },
    }
}

/// A stream whose header names interlace method 1 is rejected as an
/// unsupported feature before any pixel processing: the metadata stage
/// already fails, whatever the image data holds.
pub proof fn lemma_interlace_rejected(bytes: Seq<u8>)
    requires
        parse_png_spec(bytes) is Ok,
        first_ihdr(parse_png_spec(bytes)->Ok_0, 0) is Ok,
        first_ihdr(parse_png_spec(bytes)->Ok_0, 0)->Ok_0.len() == 13,
        first_ihdr(parse_png_spec(bytes)->Ok_0, 0)->Ok_0[12] == 1,
    ensures
        decode_meta(bytes) == Err::<(ImageHeader, Option<Seq<(u8, u8, u8)>>, Seq<u8>), PngError>(
            PngError::UnsupportedFeature,
        ),
        decode_spec(bytes) == Err::<(u32, u32, Seq<Seq<Pixel>>), PngError>(
            PngError::UnsupportedFeature,
        ),
{
}

/// Finds the first IHDR chunk, failing when image data or a palette comes
/// first or no IHDR exists.
fn find_ihdr(chunks: &Vec<Chunk>) -> (r: Result<usize, PngError>)
    requires
        forall|k: int| 0 <= k < chunks@.len() ==> (#[trigger] chunks@[k])@.ctype.len() == 4,
    ensures
        match r {
            Ok(i) => i < chunks@.len() && first_ihdr(chunks_view(chunks@), 0) == Ok::<
                Seq<u8>,
                PngError,
            >(chunks@[i as int]@.data),
            Err(e) => first_ihdr(chunks_view(chunks@), 0) == Err::<Seq<u8>, PngError>(e),
        },
{
    let mut i: usize = 0;
    while i < chunks.len()
        invariant
            0 <= i <= chunks@.len(),
            forall|k: int| 0 <= k < chunks@.len() ==> (#[trigger] chunks@[k])@.ctype.len() == 4,
            first_ihdr(chunks_view(chunks@), 0) == first_ihdr(chunks_view(chunks@), i as int),
        decreases chunks@.len() - i,
    {
        let t = &chunks[i].ctype;
        if type_is(t, 73, 72, 68, 82) {
            return Ok(i);
        }
        if type_is(t, 73, 68, 65, 84) || type_is(t, 80, 76, 84, 69) {
            return Err(PngError::MissingHeader);
        }
        i = i + 1;
    }
    Err(PngError::MissingHeader)
}

/// Finds the first PLTE chunk standing before every IDAT chunk.
fn find_plte(chunks: &Vec<Chunk>) -> (r: Option<usize>)
    requires
        forall|k: int| 0 <= k < chunks@.len() ==> (#[trigger] chunks@[k])@.ctype.len() == 4,
    ensures
        match r {
            Some(i) => i < chunks@.len() && plte_data(chunks_view(chunks@), 0) == Some(
                chunks@[i as int]@.data,
            ),
            None => plte_data(chunks_view(chunks@), 0) is None,
        },
{
    let mut i: usize = 0;
    while i < chunks.len()
        invariant
            0 <= i <= chunks@.len(),
            forall|k: int| 0 <= k < chunks@.len() ==> (#[trigger] chunks@[k])@.ctype.len() == 4,
            plte_data(chunks_view(chunks@), 0) == plte_data(chunks_view(chunks@), i as int),
        decreases chunks@.len() - i,
    {
        let t = &chunks[i].ctype;
        if type_is(t, 80, 76, 84, 69) {
            return Some(i);
        }
        if type_is(t, 73, 68, 65, 84) {
            return None;
        }
        i = i + 1;
    }
    None
}

/// Appends all bytes of `src` to `dst`.
fn append_bytes(dst: &mut Vec<u8>, src: &Vec<u8>)
    ensures
        final(dst)@ == old(dst)@ + src@,
{
    let mut i: usize = 0;
    while i < src.len()
        invariant
            0 <= i <= src@.len(),
            dst@ == old(dst)@ + src@.subrange(0, i as int),
        decreases src@.len() - i,
    {
        dst.push(src[i]);
        proof {
            assert(dst@ =~= old(dst)@ + src@.subrange(0, i as int + 1));
        }
        i = i + 1;
    }
    proof {
        assert(dst@ =~= old(dst)@ + src@);
    }
}

/// Concatenates every IDAT payload in document order into one compressed
/// stream.
fn concat_idat(chunks: &Vec<Chunk>) -> (r: Vec<u8>)
    requires
        forall|k: int| 0 <= k < chunks@.len() ==> (#[trigger] chunks@[k])@.ctype.len() == 4,
    ensures
        r@ == idat_from(chunks_view(chunks@), 0),
{
    let mut acc: Vec<u8> = Vec::new();
    let mut i: usize = 0;
    proof {
        assert(Seq::<u8>::empty() + idat_from(chunks_view(chunks@), 0) =~= idat_from(
            chunks_view(chunks@),
            0,
        ));
    }
    while i < chunks.len()
        invariant
            0 <= i <= chunks@.len(),
            forall|k: int| 0 <= k < chunks@.len() ==> (#[trigger] chunks@[k])@.ctype.len() == 4,
            idat_from(chunks_view(chunks@), 0) == acc@ + idat_from(chunks_view(chunks@), i as int),
        decreases chunks@.len() - i,
    {
        let t = &chunks[i].ctype;
        let ghost old_acc = acc@;
        if type_is(t, 73, 68, 65, 84) {
            let d = &chunks[i].data;
            append_bytes(&mut acc, d);
        }
        proof {
            assert(old_acc + idat_from(chunks_view(chunks@), i as int) =~= acc@ + idat_from(
                chunks_view(chunks@),
                i as int + 1,
            ));
        }
        i = i + 1;
    }
    proof {
        assert(idat_from(chunks_view(chunks@), chunks@.len() as int) =~= Seq::<u8>::empty());
        assert(acc@ + Seq::<u8>::empty() =~= acc@);
    }
    acc
}

/// Decodes a complete PNG byte stream into its pixel grid, returning
/// exactly what `decode_spec` describes: every stage error is surfaced
/// unchanged, and a valid stream is owed its decoded image — the header's
/// dimensions over the unfiltered, pixel-assembled form of the inflated
/// DEFLATE payload.
pub fn decode(bytes: &[u8]) -> (r: Result<DecodedImage, PngError>)
    ensures
        match r {
            Ok(img) => {
                &&& decode_spec(bytes@) == Ok::<(u32, u32, Seq<Seq<Pixel>>), PngError>(
                    (img.width, img.height, pixel_rows_view(img.pixels@)),
                )
                &&& img.wf()
            },
            Err(e) => decode_spec(bytes@) == Err::<(u32, u32, Seq<Seq<Pixel>>), PngError>(e),
        },
{
    let chunks = match read_chunks(bytes) {
        Ok(c) => c,
        Err(e) => {
            return Err(e);
        },
    };
    proof {
        if is_png_signature(bytes@) {
            lemma_chunks_from_wf(bytes@, 8);
        }
        assert(forall|k: int|
            0 <= k < chunks@.len() ==> (#[trigger] chunks@[k])@.ctype.len() == 4) by {
            assert(forall|k: int|
                0 <= k < chunks@.len() ==> chunks_view(chunks@)[k] == (#[trigger] chunks@[k])@);
            assert(forall|k: int|
                0 <= k < chunks_view(chunks@).len() ==> (#[trigger] chunks_view(chunks@)[k]).wf());
        }
    }
    let hidx = match find_ihdr(&chunks) {
        Ok(i) => i,
        Err(e) => {
            return Err(e);
        },
    };
    let h = match interpret_header(chunks[hidx].data.as_slice()) {
        Ok(h) => h,
        Err(e) => {
            return Err(e);
        },
    };
    let pal: Option<Palette> = match find_plte(&chunks) {
        None => None,
        Some(pi) => match build_palette(chunks[pi].data.as_slice()) {
            Ok(p) => Some(p),
            Err(e) => {
                return Err(e);
            },
        },
    };
    let stream = concat_idat(&chunks);
    if stream.len() < 2 {
        return Err(PngError::TruncatedChunk);
    }
    if stream[0] & 0x0F != 8 {
        return Err(PngError::UnsupportedCompression);
    }
    let body = copy_range(stream.as_slice(), 2, stream.len());
    let ghost palv: Option<Seq<(u8, u8, u8)>> = match &pal {
        None => None,
        Some(p) => Some(p@),
    };
    proof {
        assert(decode_meta(bytes@) == Ok::<
            (ImageHeader, Option<Seq<(u8, u8, u8)>>, Seq<u8>),
            PngError,
        >((h, palv, body@)));
    }
    let inflated = match inflate(body.as_slice()) {
        Ok(v) => v,
        Err(e) => {
            proof {
                assert(decode_spec(bytes@) == Err::<(u32, u32, Seq<Seq<Pixel>>), PngError>(e));
            }
            return Err(e);
        },
    };
    proof {
        assert(inflate_spec(body@) == Ok::<Seq<u8>, PngError>(inflated@));
    }
    let rows = match unfilter(inflated.as_slice(), &h) {
        Ok(v) => v,
        Err(e) => {
            proof {
                assert(decode_spec(bytes@) == Err::<(u32, u32, Seq<Seq<Pixel>>), PngError>(e));
            }
            return Err(e);
        },
    };
    proof {
        lemma_rows_from_props(
            inflated@,
            0,
            crate::filter::zero_row(row_bytes_spec(h)),
            h.height as nat,
            row_bytes_spec(h),
            crate::filter::bpp_spec(h),
        );
        assert(forall|y: int|
            0 <= y < rows@.len() ==> (#[trigger] rows@[y])@.len() == row_bytes_spec(h)) by {
            assert(forall|y: int|
                0 <= y < rows@.len() ==> rows_view(rows@)[y] == (#[trigger] rows@[y])@);
        }
        assert(rows@.len() == h.height);
    }
    let pal_ref: Option<&Palette> = match &pal {
        None => None,
        Some(p) => Some(p),
    };
    proof {
        assert(pal_view(pal_ref) == palv);
    }
    let img_rows = match assemble_pixels(&rows, &h, pal_ref) {
        Ok(v) => v,
        Err(e) => {
            proof {
                assert(decode_spec(bytes@) == Err::<(u32, u32, Seq<Seq<Pixel>>), PngError>(e));
            }
            return Err(e);
        },
    };
    let img = DecodedImage { width: h.width, height: h.height, pixels: img_rows };
    proof {
        assert(unfilter_spec(inflated@, h) == Ok::<Seq<Seq<u8>>, PngError>(rows_view(rows@)));
        assert(assemble_spec(rows_view(rows@), h, palv) == Ok::<Seq<Seq<Pixel>>, PngError>(
            pixel_rows_view(img.pixels@),
        ));
        assert(img.wf());
        assert(decode_spec(bytes@) == Ok::<(u32, u32, Seq<Seq<Pixel>>), PngError>(
            (h.width, h.height, pixel_rows_view(img.pixels@)),
        ));
    }
    Ok(img)
}

} // verus!
