//! Unpacking reconstructed scanlines into the final pixel grid: sub-byte
//! samples are read most-significant-bit first, 16-bit samples big-endian,
//! and indexed samples are resolved through the palette.

use vstd::prelude::*;
use crate::error::PngError;
use crate::filter::row_bytes_spec;
use crate::header::{channels, channels_spec, ImageHeader};
use crate::palette::Palette;

verus! {

/// One decoded pixel, shaped by the image's color type. Channel values are
/// kept at their stored precision (16-bit samples are not truncated;
/// narrower samples occupy the low bits).
#[derive(Clone, Copy, Debug, PartialEq, Eq, Structural)]
pub enum Pixel {
    /// Color type 0: a grayscale value.
    Gray(u16),
    /// Color type 4: gray plus alpha.
    GrayAlpha(u16, u16),
    /// Color types 2 and 3: red, green, blue.
    Rgb(u16, u16, u16),
    /// Color type 6: red, green, blue, alpha.
    Rgba(u16, u16, u16, u16),
}

/// Sample `i` of a reconstructed row: two big-endian bytes at depth 16, one
/// byte at depth 8, and at depths 1/2/4 the `i`-th group of `depth` bits,
/// most significant bits first.
pub open spec fn sample_spec(row: Seq<u8>, depth: u8, i: int) -> u16
    recommends
        depth == 1 || depth == 2 || depth == 4 || depth == 8 || depth == 16,
        0 <= i,
{
    if depth == 16 {
        ((row[2 * i] as u16) * 256 + (row[2 * i + 1] as u16)) as u16
    } else if depth == 8 {
        row[i] as u16
    } else {
        let spb = 8int / (depth as int);
        let off = (i % spb) * depth;
        ((((row[i / spb] as u32) >> ((8 - depth - off) as u32)) & (((1u32 << (depth as u32))
            - 1) as u32)) as u16)
    }
}

/// Reads sample `i` of a reconstructed row.
pub fn sample_at(row: &[u8], depth: u8, i: usize) -> (r: u16)
    requires
        depth == 1 || depth == 2 || depth == 4 || depth == 8 || depth == 16,
        depth == 16 ==> 2 * i + 1 < row@.len(),
        depth == 8 ==> i < row@.len(),
        (depth == 1 || depth == 2 || depth == 4) ==> (i as int) / (8int / (depth as int)) < row@.len(),
    ensures
        r == sample_spec(row@, depth, i as int),
{
    let _rl = row.len();
    if depth == 16 {
        (row[2 * i] as u16) * 256 + (row[2 * i + 1] as u16)
    } else if depth == 8 {
        row[i] as u16
    } else {
        let spb: usize = if depth == 1 {
            8
        } else if depth == 2 {
            4
        } else {
            2
        };
        let m: usize = i % spb;
        let off: usize = if depth == 1 {
            m
        } else if depth == 2 {
            m * 2
        } else {
            m * 4
        };
        proof {
            if depth == 1 {
                assert(off as int == (i as int % (8int / (depth as int))) * depth)
                    by (nonlinear_arith)
                    requires
                        depth == 1,
                        off == m,
                        m == i % 8,
                ;
            } else if depth == 2 {
                assert(off as int == (i as int % (8int / (depth as int))) * depth)
                    by (nonlinear_arith)
                    requires
                        depth == 2,
                        off == m * 2,
                        m == i % 4,
                ;
            } else {
                assert(off as int == (i as int % (8int / (depth as int))) * depth)
                    by (nonlinear_arith)
                    requires
                        depth == 4,
                        off == m * 4,
                        m == i % 2,
                ;
            }
            assert(off + depth <= 8);
            assert(1u32 << (depth as u32) >= 1) by (bit_vector)
                requires
                    depth < 8,
            ;
        }
        ((((row[i / spb] as u32) >> ((8 - (depth as u32) - (off as u32)) as u32)) & ((1u32 << (
        depth as u32)) - 1)) as u16)
    }
}

/// The view of an optional palette.
pub open spec fn pal_view(pal: Option<&Palette>) -> Option<Seq<(u8, u8, u8)>> {
    match pal {
        None => None,
        Some(p) => Some(p@),
    }
}

/// Pixel `x` of a reconstructed row under the header's color model, or the
/// palette failure an indexed sample runs into.
pub open spec fn pixel_spec(
    row: Seq<u8>,
    h: ImageHeader,
    pal: Option<Seq<(u8, u8, u8)>>,
    x: int,
) -> Result<Pixel, PngError>
    recommends
        h.wf(),
{
    let d = h.bit_depth;
    match h.color_type {
        0u8 => Ok(Pixel::Gray(sample_spec(row, d, x))),
        2u8 => Ok(
            Pixel::Rgb(
                sample_spec(row, d, 3 * x),
                sample_spec(row, d, 3 * x + 1),
                sample_spec(row, d, 3 * x + 2),
            ),
        ),
        3u8 => {
            let idx = sample_spec(row, d, x) as int;
            match pal {
                None => Err(PngError::MissingPalette),
                Some(p) => if idx >= p.len() {
                    Err(PngError::PaletteIndexOutOfRange)
                } else {
                    Ok(Pixel::Rgb(p[idx].0 as u16, p[idx].1 as u16, p[idx].2 as u16))
                },
            }
        },
        4u8 => Ok(Pixel::GrayAlpha(sample_spec(row, d, 2 * x), sample_spec(row, d, 2 * x + 1))),
        6u8 => Ok(
            Pixel::Rgba(
                sample_spec(row, d, 4 * x),
                sample_spec(row, d, 4 * x + 1),
                sample_spec(row, d, 4 * x + 2),
                sample_spec(row, d, 4 * x + 3),
            ),
        ),
        _ => Err(PngError::UnsupportedFeature),
    }
}

/// The pixels of one row from column `x` on, or the first palette failure.
pub open spec fn pix_from(
    row: Seq<u8>,
    h: ImageHeader,
    pal: Option<Seq<(u8, u8, u8)>>,
    x: int,
) -> Result<Seq<Pixel>, PngError>
    recommends
        h.wf(),
        0 <= x,
    decreases h.width - x,
{
    if x >= h.width {
        Ok(Seq::empty())
    } else {
        match pixel_spec(row, h, pal, x) {
            Err(e) => Err(e),
            Ok(p) => match pix_from(row, h, pal, x + 1) {
                Ok(rest) => Ok(seq![p] + rest),
                Err(e) => Err(e),
            },
        }
    }
}

/// The pixel grid from row `y` on, or the first palette failure.
pub open spec fn img_from(
    rows: Seq<Seq<u8>>,
    h: ImageHeader,
    pal: Option<Seq<(u8, u8, u8)>>,
    y: int,
) -> Result<Seq<Seq<Pixel>>, PngError>
    recommends
        h.wf(),
        0 <= y,
    decreases rows.len() - y,
{
    if y >= rows.len() {
        Ok(Seq::empty())
    } else {
        match pix_from(rows[y], h, pal, 0) {
            Err(e) => Err(e),
            Ok(r) => match img_from(rows, h, pal, y + 1) {
                Ok(rest) => Ok(seq![r] + rest),
                Err(e) => Err(e),
            },
        }
    }
}

/// The whole decoded pixel grid of the reconstructed rows.
pub open spec fn assemble_spec(
    rows: Seq<Seq<u8>>,
    h: ImageHeader,
    pal: Option<Seq<(u8, u8, u8)>>,
) -> Result<Seq<Seq<Pixel>>, PngError>
    recommends
        h.wf(),
{
    img_from(rows, h, pal, 0)
}

/// The views of a vector of pixel rows.
pub open spec fn pixel_rows_view(s: Seq<Vec<Pixel>>) -> Seq<Seq<Pixel>> {
    s.map_values(|v: Vec<Pixel>| v@)
}

/// The fully decoded image: a `height` x `width` grid of pixels, row-major,
/// top row first.
#[derive(Clone, Debug, PartialEq, Eq)]
pub struct DecodedImage {
    /// Width in pixels.
    pub width: u32,
    /// Height in pixels.
    pub height: u32,
    /// The pixel grid: `height` rows of `width` pixels.
    pub pixels: Vec<Vec<Pixel>>,
}

impl DecodedImage {
    /// The grid has exactly the header's dimensions.
    pub open spec fn wf(self) -> bool {
        &&& self.pixels@.len() == self.height
        &&& forall|y: int|
            0 <= y < self.pixels@.len() ==> (#[trigger] self.pixels@[y])@.len() == self.width
    }
}

/// Samples of one row are in bounds whenever the row has the full stride.
proof fn lemma_sample_in_bounds(h: ImageHeader, len: int, i: int)
    requires
        h.wf(),
        len == row_bytes_spec(h),
        0 <= i < h.width * channels_spec(h.color_type),
    ensures
        h.bit_depth == 16 ==> 2 * i + 1 < len,
        h.bit_depth == 8 ==> i < len,
        (h.bit_depth == 1 || h.bit_depth == 2 || h.bit_depth == 4) ==> i / (8int / (
        h.bit_depth as int)) < len,
{
    let w = h.width as int;
    let c = channels_spec(h.color_type);
    let d = h.bit_depth as int;
    assert(len == (w * c * d + 7) / 8);
    if d == 16 {
        assert(2 * i + 1 < (w * c * 16 + 7) / 8) by (nonlinear_arith)
            requires
                0 <= i < w * c,
        ;
    } else if d == 8 {
        assert(i < (w * c * 8 + 7) / 8) by (nonlinear_arith)
            requires
                0 <= i < w * c,
        ;
    } else {
        assert(c == 1);
        assert(i / (8int / d) < (w * 1 * d + 7) / 8) by (nonlinear_arith)
            requires
                0 <= i < w,
                d == 1 || d == 2 || d == 4,
        ;
    }
}

/// Maps the reconstructed rows to the final pixel grid: sub-byte samples
/// unpacked MSB-first, indexed samples resolved through the palette
/// (`MissingPalette` without one, `PaletteIndexOutOfRange` for an index at
/// or past its length), exactly as `assemble_spec` describes.
pub fn assemble_pixels(rows: &Vec<Vec<u8>>, h: &ImageHeader, pal: Option<&Palette>) -> (r: Result<
    Vec<Vec<Pixel>>,
    PngError,
>)
    requires
        h.wf(),
        forall|y: int| 0 <= y < rows@.len() ==> (#[trigger] rows@[y])@.len() == row_bytes_spec(*h),
    ensures
        match r {
            Ok(img) => assemble_spec(crate::filter::rows_view(rows@), *h, pal_view(pal)) == Ok::<
                Seq<Seq<Pixel>>,
                PngError,
            >(pixel_rows_view(img@)) && img@.len() == rows@.len() && (forall|y: int|
                0 <= y < img@.len() ==> (#[trigger] img@[y])@.len() == h.width),
            Err(e) => assemble_spec(crate::filter::rows_view(rows@), *h, pal_view(pal)) == Err::<
                Seq<Seq<Pixel>>,
                PngError,
            >(e),
        },
{
    let ghost rows_s = crate::filter::rows_view(rows@);
    let ghost pv = pal_view(pal);
    let ch = channels(h.color_type) as usize;
    let depth = h.bit_depth;
    let width = h.width;
    let mut img: Vec<Vec<Pixel>> = Vec::new();
    let mut y: usize = 0;
    while y < rows.len()
        invariant
            0 <= y <= rows@.len(),
            rows_s == crate::filter::rows_view(rows@),
            rows_s.len() == rows@.len(),
            pv == pal_view(pal),
            h.wf(),
            ch == channels_spec(h.color_type),
            depth == h.bit_depth,
            width == h.width,
            forall|k: int|
                0 <= k < rows@.len() ==> (#[trigger] rows@[k])@.len() == row_bytes_spec(*h),
            img@.len() == y,
            forall|k: int| 0 <= k < y ==> (#[trigger] img@[k])@.len() == h.width,
            img_from(rows_s, *h, pv, 0) == (match img_from(rows_s, *h, pv, y as int) {
                Ok(rest) => Ok::<Seq<Seq<Pixel>>, PngError>(pixel_rows_view(img@) + rest),
                Err(e) => Err::<Seq<Seq<Pixel>>, PngError>(e),
            }),
        decreases rows@.len() - y,
    {
        let row = &rows[y];
        let ghost row_s = rows_s[y as int];
        proof {
            assert(row@ == row_s);
        }
        let mut out_row: Vec<Pixel> = Vec::new();
        let mut x: usize = 0;
        while x < width as usize
            invariant
                0 <= x <= width,
                row@ == row_s,
                row@.len() == row_bytes_spec(*h),
                pv == pal_view(pal),
                h.wf(),
                ch == channels_spec(h.color_type),
                depth == h.bit_depth,
                width == h.width,
                out_row@.len() == x,
                rows_s == crate::filter::rows_view(rows@),
                rows_s.len() == rows@.len(),
                0 <= y < rows@.len(),
                rows_s[y as int] == row_s,
                img_from(rows_s, *h, pv, 0) == (match img_from(rows_s, *h, pv, y as int) {
                    Ok(rest) => Ok::<Seq<Seq<Pixel>>, PngError>(pixel_rows_view(img@) + rest),
                    Err(e) => Err::<Seq<Seq<Pixel>>, PngError>(e),
                }),
                pix_from(row_s, *h, pv, 0) == (match pix_from(row_s, *h, pv, x as int) {
                    Ok(rest) => Ok::<Seq<Pixel>, PngError>(out_row@ + rest),
                    Err(e) => Err::<Seq<Pixel>, PngError>(e),
                }),
            decreases width - x,
        {
            let _rl = row.len();
            let px: Pixel = if h.color_type == 0 {
                proof {
                    lemma_sample_in_bounds(*h, row@.len() as int, x as int);
                }
                Pixel::Gray(sample_at(row.as_slice(), depth, x))
            } else if h.color_type == 2 {
                proof {
                    lemma_sample_in_bounds(*h, row@.len() as int, 3 * (x as int));
                    lemma_sample_in_bounds(*h, row@.len() as int, 3 * (x as int) + 1);
                    lemma_sample_in_bounds(*h, row@.len() as int, 3 * (x as int) + 2);
                }
                Pixel::Rgb(
                    sample_at(row.as_slice(), depth, 3 * x),
                    sample_at(row.as_slice(), depth, 3 * x + 1),
                    sample_at(row.as_slice(), depth, 3 * x + 2),
                )
            } else if h.color_type == 3 {
                proof {
                    lemma_sample_in_bounds(*h, row@.len() as int, x as int);
                }
                let idx = sample_at(row.as_slice(), depth, x) as usize;
                match pal {
                    None => {
                        proof {
                            assert(pixel_spec(row_s, *h, pv, x as int) == Err::<Pixel, PngError>(
                                PngError::MissingPalette,
                            ));
                            assert(img_from(rows_s, *h, pv, y as int) == Err::<
                                Seq<Seq<Pixel>>,
                                PngError,
                            >(PngError::MissingPalette));
                        }
                        return Err(PngError::MissingPalette);
                    },
                    Some(p) => {
                        if idx >= p.entries.len() {
                            proof {
                                assert(pixel_spec(row_s, *h, pv, x as int) == Err::<
                                    Pixel,
                                    PngError,
                                >(PngError::PaletteIndexOutOfRange));
                                assert(img_from(rows_s, *h, pv, y as int) == Err::<
                                    Seq<Seq<Pixel>>,
                                    PngError,
                                >(PngError::PaletteIndexOutOfRange));
                            }
                            return Err(PngError::PaletteIndexOutOfRange);
                        }
                        let e = p.entries[idx];
                        Pixel::Rgb(e.0 as u16, e.1 as u16, e.2 as u16)
                    },
                }
            } else if h.color_type == 4 {
                proof {
                    lemma_sample_in_bounds(*h, row@.len() as int, 2 * (x as int));
                    lemma_sample_in_bounds(*h, row@.len() as int, 2 * (x as int) + 1);
                }
                Pixel::GrayAlpha(
                    sample_at(row.as_slice(), depth, 2 * x),
                    sample_at(row.as_slice(), depth, 2 * x + 1),
                )
            } else {
                proof {
                    lemma_sample_in_bounds(*h, row@.len() as int, 4 * (x as int));
                    lemma_sample_in_bounds(*h, row@.len() as int, 4 * (x as int) + 1);
                    lemma_sample_in_bounds(*h, row@.len() as int, 4 * (x as int) + 2);
                    lemma_sample_in_bounds(*h, row@.len() as int, 4 * (x as int) + 3);
                }
                Pixel::Rgba(
                    sample_at(row.as_slice(), depth, 4 * x),
                    sample_at(row.as_slice(), depth, 4 * x + 1),
                    sample_at(row.as_slice(), depth, 4 * x + 2),
                    sample_at(row.as_slice(), depth, 4 * x + 3),
                )
            };
            proof {
                assert(pixel_spec(row_s, *h, pv, x as int) == Ok::<Pixel, PngError>(px));
            }
            let ghost old_row = out_row@;
            out_row.push(px);
            proof {
                if pix_from(row_s, *h, pv, x as int + 1) is Ok {
                    let rest = pix_from(row_s, *h, pv, x as int + 1)->Ok_0;
                    assert(old_row + (seq![px] + rest) =~= (old_row + seq![px]) + rest);
                }
                assert(out_row@ =~= old_row + seq![px]);
            }
            x = x + 1;
        }
        proof {
            assert(pix_from(row_s, *h, pv, width as int) == Ok::<Seq<Pixel>, PngError>(
                Seq::empty(),
            ));
            assert(out_row@ + Seq::<Pixel>::empty() =~= out_row@);
        }
        let ghost old_img = img@;
        let ghost row_px = out_row@;
        img.push(out_row);
        proof {
            assert(pixel_rows_view(img@) =~= pixel_rows_view(old_img) + seq![row_px]);
            if img_from(rows_s, *h, pv, y as int + 1) is Ok {
                let rest = img_from(rows_s, *h, pv, y as int + 1)->Ok_0;
                assert(pixel_rows_view(old_img) + (seq![row_px] + rest) =~= (pixel_rows_view(
                    old_img,
                ) + seq![row_px]) + rest);
            }
        }
        y = y + 1;
    }
    proof {
        assert(img_from(rows_s, *h, pv, rows_s.len() as int) == Ok::<Seq<Seq<Pixel>>, PngError>(
            Seq::empty(),
        ));
        assert(pixel_rows_view(img@) + Seq::<Seq<Pixel>>::empty() =~= pixel_rows_view(img@));
    }
    Ok(img)
}

} // verus!
