//! Reversing the per-scanline filters (None/Sub/Up/Average/Paeth) on the
//! inflated bytes, and the law that reconstruction inverts filtering.

use vstd::prelude::*;
use crate::error::PngError;
use crate::header::{channels_spec, channels, ImageHeader};

verus! {

/// Addition modulo 256.
pub open spec fn add8(a: u8, b: u8) -> u8 {
    ((a + b) % 256) as u8
}

/// Subtraction modulo 256.
pub open spec fn sub8(a: u8, b: u8) -> u8 {
    ((a - b + 256) % 256) as u8
}

/// The absolute value.
pub open spec fn abs1(x: int) -> int {
    if x < 0 {
        -x
    } else {
        x
    }
}

/// The floor average of the left and above bytes.
pub open spec fn avg8(l: u8, u: u8) -> u8 {
    (((l + u) / 2) as int) as u8
}

/// The Paeth predictor: whichever of left, above, upper-left is closest to
/// `left + above - upper_left`, ties resolved left, then above.
pub open spec fn paeth8(a: u8, b: u8, c: u8) -> u8 {
    let p = a + b - c;
    let pa = abs1(p - a);
    let pb = abs1(p - b);
    let pc = abs1(p - c);
    if pa <= pb && pa <= pc {
        a
    } else if pb <= pc {
        b
    } else {
        c
    }
}

/// The predicted byte each filter type subtracts at encode time and adds
/// back at decode time.
pub open spec fn predictor(ft: u8, left: u8, up: u8, upper_left: u8) -> u8 {
    match ft {
        0u8 => 0u8,
        1u8 => left,
        2u8 => up,
        3u8 => avg8(left, up),
        4u8 => paeth8(left, up, upper_left),
        _ => 0u8,
    }
}

/// The reconstructed (unfiltered) byte at position `x` of a scanline whose
/// filtered bytes are `raw`, given the reconstructed previous row `prev`
/// (all zeros for the top row) and the pixel width `bpp` in bytes.
pub open spec fn recon_byte(ft: u8, raw: Seq<u8>, prev: Seq<u8>, bpp: int, x: int) -> u8
    recommends
        bpp >= 1,
        0 <= x < raw.len(),
        prev.len() == raw.len(),
    decreases x,
{
    let left = if 1 <= bpp && bpp <= x {
        recon_byte(ft, raw, prev, bpp, x - bpp)
    } else {
        0u8
    };
    let up = prev[x];
    let upper_left = if 1 <= bpp && bpp <= x {
        prev[x - bpp]
    } else {
        0u8
    };
    add8(raw[x], predictor(ft, left, up, upper_left))
}

/// The whole reconstructed scanline.
pub open spec fn recon_row(ft: u8, raw: Seq<u8>, prev: Seq<u8>, bpp: int) -> Seq<u8> {
    Seq::new(raw.len(), |x: int| recon_byte(ft, raw, prev, bpp, x))
}

/// The filtered byte at position `x` an encoder would emit for the original
/// scanline `orig` over the reconstructed previous row `prev`.
pub open spec fn filt_byte(ft: u8, orig: Seq<u8>, prev: Seq<u8>, bpp: int, x: int) -> u8
    recommends
        bpp >= 1,
        0 <= x < orig.len(),
        prev.len() == orig.len(),
{
    let left = if 1 <= bpp && bpp <= x {
        orig[x - bpp]
    } else {
        0u8
    };
    let up = prev[x];
    let upper_left = if 1 <= bpp && bpp <= x {
        prev[x - bpp]
    } else {
        0u8
    };
    sub8(orig[x], predictor(ft, left, up, upper_left))
}

/// The whole filtered scanline.
pub open spec fn filt_row(ft: u8, orig: Seq<u8>, prev: Seq<u8>, bpp: int) -> Seq<u8> {
    Seq::new(orig.len(), |x: int| filt_byte(ft, orig, prev, bpp, x))
}

/// Adding a predictor back undoes subtracting it, modulo 256.
proof fn lemma_add_sub_cancel(o: u8, p: u8)
    ensures
        add8(sub8(o, p), p) == o,
{
    assert((((o - p + 256) % 256) + p) % 256 == o) by (bit_vector);
}

/// Reconstruction inverts filtering byte by byte.
proof fn lemma_recon_byte_inverts(ft: u8, orig: Seq<u8>, prev: Seq<u8>, bpp: int, x: int)
    requires
        bpp >= 1,
        0 <= x < orig.len(),
        prev.len() == orig.len(),
    ensures
        recon_byte(ft, filt_row(ft, orig, prev, bpp), prev, bpp, x) == orig[x],
    decreases x,
{
    let f = filt_row(ft, orig, prev, bpp);
    assert(f.len() == orig.len());
    assert(f[x] == filt_byte(ft, orig, prev, bpp, x));
    if 1 <= bpp && bpp <= x {
        lemma_recon_byte_inverts(ft, orig, prev, bpp, x - bpp);
    }
    let left = if 1 <= bpp && bpp <= x {
        orig[x - bpp]
    } else {
        0u8
    };
    let up = prev[x];
    let upper_left = if 1 <= bpp && bpp <= x {
        prev[x - bpp]
    } else {
        0u8
    };
    lemma_add_sub_cancel(orig[x], predictor(ft, left, up, upper_left));
}

/// Round-trip law: for every filter type, unfiltering a scanline that was
/// filtered against the same previous row returns the original scanline,
/// whatever the bit depth (the byte-level transform never inspects it).
pub proof fn lemma_filter_round_trip(ft: u8, orig: Seq<u8>, prev: Seq<u8>, bpp: int)
    requires
        ft <= 4,
        bpp >= 1,
        prev.len() == orig.len(),
    ensures
        recon_row(ft, filt_row(ft, orig, prev, bpp), prev, bpp) == orig,
{
    let f = filt_row(ft, orig, prev, bpp);
    assert forall|x: int| 0 <= x < orig.len() implies recon_row(ft, f, prev, bpp)[x] == orig[x] by {
        lemma_recon_byte_inverts(ft, orig, prev, bpp, x);
    }
    assert(recon_row(ft, f, prev, bpp) =~= orig);
}

/// Bytes per complete pixel, at least 1; the lookback distance for the Sub
/// and Paeth filters.
pub open spec fn bpp_spec(h: ImageHeader) -> int {
    let b = channels_spec(h.color_type) * h.bit_depth / 8;
    if b >= 1 {
        b
    } else {
        1
    }
}

/// Filtered bytes per scanline, excluding the leading filter-type byte.
pub open spec fn row_bytes_spec(h: ImageHeader) -> int {
    (h.width * channels_spec(h.color_type) * h.bit_depth + 7) / 8
}

/// An all-zero previous row, used above the top scanline.
pub open spec fn zero_row(n: int) -> Seq<u8> {
    Seq::new(n as nat, |i: int| 0u8)
}

/// The reconstructed rows laid out from `off`: each scanline is one filter
/// byte then `stride` filtered bytes, reconstructed against the previous
/// reconstructed row; or the first failure (a filter byte outside 0..=4, or
/// too few bytes for a full scanline).
pub open spec fn rows_from(
    data: Seq<u8>,
    off: int,
    prev: Seq<u8>,
    remaining: nat,
    stride: int,
    bpp: int,
) -> Result<Seq<Seq<u8>>, PngError>
    recommends
        0 <= off,
        prev.len() == stride,
        bpp >= 1,
    decreases remaining,
{
    if remaining == 0 {
        Ok(Seq::empty())
    } else if off + 1 + stride > data.len() {
        Err(PngError::TruncatedScanline)
    } else {
        let ft = data[off];
        if ft > 4 {
            Err(PngError::InvalidFilterType)
        } else {
            let raw = data.subrange(off + 1, off + 1 + stride);
            let row = recon_row(ft, raw, prev, bpp);
            match rows_from(data, off + 1 + stride, row, (remaining - 1) as nat, stride, bpp) {
                Ok(rest) => Ok(seq![row] + rest),
                Err(e) => Err(e),
            }
        }
    }
}

/// A successful unfiltering yields exactly `remaining` rows, each of the
/// full stride.
pub proof fn lemma_rows_from_props(
    data: Seq<u8>,
    off: int,
    prev: Seq<u8>,
    remaining: nat,
    stride: int,
    bpp: int,
)
    requires
        0 <= off,
        0 <= stride,
        rows_from(data, off, prev, remaining, stride, bpp) is Ok,
    ensures
        rows_from(data, off, prev, remaining, stride, bpp)->Ok_0.len() == remaining,
        forall|k: int|
            0 <= k < remaining ==> (#[trigger] rows_from(
                data,
                off,
                prev,
                remaining,
                stride,
                bpp,
            )->Ok_0[k]).len() == stride,
    decreases remaining,
{
    if remaining != 0 {
        let ft = data[off];
        let raw = data.subrange(off + 1, off + 1 + stride);
        let row = recon_row(ft, raw, prev, bpp);
        lemma_rows_from_props(data, off + 1 + stride, row, (remaining - 1) as nat, stride, bpp);
        let rowsq = rows_from(data, off, prev, remaining, stride, bpp)->Ok_0;
        let rest = rows_from(data, off + 1 + stride, row, (remaining - 1) as nat, stride, bpp)->Ok_0;
        assert(rowsq == seq![row] + rest);
        assert(row.len() == stride);
        assert forall|k: int| 0 <= k < remaining implies (#[trigger] rowsq[k]).len() == stride by {
            if k == 0 {
                assert(rowsq[0] == row);
            } else {
                assert(rowsq[k] == rest[k - 1]);
            }
        }
    }
}

/// The fully unfiltered image: `height` reconstructed scanlines from the
/// start of the inflated bytes, the top row reconstructed over zeros.
pub open spec fn unfilter_spec(data: Seq<u8>, h: ImageHeader) -> Result<Seq<Seq<u8>>, PngError>
    recommends
        h.wf(),
{
    rows_from(data, 0, zero_row(row_bytes_spec(h)), h.height as nat, row_bytes_spec(h), bpp_spec(h))
}

/// The views of a vector of reconstructed rows.
pub open spec fn rows_view(s: Seq<Vec<u8>>) -> Seq<Seq<u8>> {
    s.map_values(|v: Vec<u8>| v@)
}

/// A vector of `n` zero bytes.
fn make_zero_row(n: usize) -> (r: Vec<u8>)
    ensures
        r@ == zero_row(n as int),
{
    let mut v: Vec<u8> = Vec::new();
    let mut i: usize = 0;
    while i < n
        invariant
            0 <= i <= n,
            v@.len() == i,
            forall|k: int| 0 <= k < i ==> v@[k] == 0u8,
        decreases n - i,
    {
        v.push(0u8);
        i = i + 1;
    }
    proof {
        assert(v@ =~= zero_row(n as int));
    }
    v
}

/// The Paeth predictor of left, above and upper-left.
pub fn paeth(a: u8, b: u8, c: u8) -> (r: u8)
    ensures
        r == paeth8(a, b, c),
{
    let p: i32 = a as i32 + b as i32 - c as i32;
    let da: i32 = p - a as i32;
    let pa: i32 = if da < 0 {
        -da
    } else {
        da
    };
    let db: i32 = p - b as i32;
    let pb: i32 = if db < 0 {
        -db
    } else {
        db
    };
    let dc: i32 = p - c as i32;
    let pc: i32 = if dc < 0 {
        -dc
    } else {
        dc
    };
    if pa <= pb && pa <= pc {
        a
    } else if pb <= pc {
        b
    } else {
        c
    }
}

/// Bytes per complete pixel, at least 1.
pub fn bpp_of(h: &ImageHeader) -> (r: usize)
    requires
        h.wf(),
    ensures
        r as int == bpp_spec(*h),
        1 <= r <= 8,
{
    let ch = channels(h.color_type) as usize;
    let b = ch * (h.bit_depth as usize) / 8;
    if b >= 1 {
        b
    } else {
        1
    }
}

/// Filtered bytes per scanline, excluding the filter-type byte.
pub fn row_bytes_of(h: &ImageHeader) -> (r: u64)
    requires
        h.wf(),
    ensures
        r as int == row_bytes_spec(*h),
        r < 0x40_0000_0000u64,
{
    proof {
        assert(h.bit_depth <= 16);
    }
    let ch = channels(h.color_type);
    let w = h.width as u64;
    let c = ch as u64;
    let d = h.bit_depth as u64;
    proof {
        assert(w * c * d <= 0xFFFF_FFFFu64 * 4 * 16) by (nonlinear_arith)
            requires
                w <= 0xFFFF_FFFFu64,
                c <= 4u64,
                d <= 16u64,
        ;
    }
    (w * c * d + 7) / 8
}

/// Reverses the per-scanline filtering of the inflated bytes, producing the
/// image's `height` reconstructed rows exactly as `unfilter_spec` describes:
/// each row is its filtered bytes plus the per-filter prediction from bytes
/// to the left and the previous reconstructed row, modulo 256.
pub fn unfilter(data: &[u8], h: &ImageHeader) -> (r: Result<Vec<Vec<u8>>, PngError>)
    requires
        h.wf(),
    ensures
        match r {
            Ok(rows) => unfilter_spec(data@, *h) == Ok::<Seq<Seq<u8>>, PngError>(rows_view(rows@)),
            Err(e) => unfilter_spec(data@, *h) == Err::<Seq<Seq<u8>>, PngError>(e),
        },
{
    let stride_u64 = row_bytes_of(h);
    let bpp = bpp_of(h);
    let ghost stride_i = row_bytes_spec(*h);
    let mut acc: Vec<Vec<u8>> = Vec::new();
    let mut y: u32 = 0;
    let mut off: usize = 0;
    let height = h.height;

    // The top row is reconstructed over an all-zero previous row, but its
    // length is only known to fit in usize once the first scanline check
    // passes; start with an empty vector and fill it lazily.
    if height == 0 {
        return Ok(acc);
    }
    if stride_u64 + 1 > (data.len() as u64) {
        return Err(PngError::TruncatedScanline);
    }
    let stride = stride_u64 as usize;
    let mut prev: Vec<u8> = make_zero_row(stride);
    proof {
        assert(prev@ == zero_row(stride_i));
    }
    while y < height
        invariant
            0 <= y <= height,
            height == h.height,
            h.wf(),
            bpp as int == bpp_spec(*h),
            1 <= bpp,
            stride as int == stride_i,
            stride_i == row_bytes_spec(*h),
            off <= data@.len(),
            prev@.len() == stride,
            unfilter_spec(data@, *h) == (match rows_from(
                data@,
                off as int,
                prev@,
                (height - y) as nat,
                stride_i,
                bpp as int,
            ) {
                Ok(rest) => Ok::<Seq<Seq<u8>>, PngError>(rows_view(acc@) + rest),
                Err(e) => Err::<Seq<Seq<u8>>, PngError>(e),
            }),
        decreases height - y,
    {
        if (stride as u64) + 1 > ((data.len() - off) as u64) {
            return Err(PngError::TruncatedScanline);
        }
        let ft = data[off];
        if ft > 4 {
            return Err(PngError::InvalidFilterType);
        }
        let ghost raw = data@.subrange(off as int + 1, off as int + 1 + stride_i);
        let mut row: Vec<u8> = Vec::new();
        let mut x: usize = 0;
        while x < stride
            invariant
                0 <= x <= stride,
                off + 1 + stride <= data@.len(),
                data@.len() <= usize::MAX,
                raw == data@.subrange(off as int + 1, off as int + 1 + stride as int),
                prev@.len() == stride,
                1 <= bpp,
                row@.len() == x,
                forall|k: int|
                    0 <= k < x ==> #[trigger] row@[k] == recon_byte(
                        ft,
                        raw,
                        prev@,
                        bpp as int,
                        k,
                    ),
            decreases stride - x,
        {
            let left: u8 = if x >= bpp {
                row[x - bpp]
            } else {
                0
            };
            let up: u8 = prev[x];
            let upper_left: u8 = if x >= bpp {
                prev[x - bpp]
            } else {
                0
            };
            let pred: u8 = match ft {
                0u8 => 0u8,
                1u8 => left,
                2u8 => up,
                3u8 => (((left as u16) + (up as u16)) / 2) as u8,
                4u8 => paeth(left, up, upper_left),
                _ => 0u8,
            };
            let val: u8 = (((data[off + 1 + x] as u16) + (pred as u16)) % 256) as u8;
            proof {
                assert(raw[x as int] == data@[off as int + 1 + x as int]);
                assert(pred == predictor(ft, left, up, upper_left));
                assert(val == add8(raw[x as int], pred));
                assert(recon_byte(ft, raw, prev@, bpp as int, x as int) == val);
            }
            row.push(val);
            x = x + 1;
        }
        proof {
            assert(row@ =~= recon_row(ft, raw, prev@, bpp as int));
        }
        let ghost old_acc = acc@;
        let ghost row_s = row@;
        let prev_next = clone_row(&row);
        acc.push(row);
        proof {
            assert(rows_view(acc@) =~= rows_view(old_acc) + seq![row_s]);
            let rest_r = rows_from(
                data@,
                off as int + 1 + stride_i,
                row_s,
                (height - y - 1) as nat,
                stride_i,
                bpp as int,
            );
            if rest_r is Ok {
                let rest = rest_r->Ok_0;
                assert(rows_from(data@, off as int, prev@, (height - y) as nat, stride_i, bpp as int)
                    == Ok::<Seq<Seq<u8>>, PngError>(seq![row_s] + rest));
                assert(rows_view(old_acc) + (seq![row_s] + rest) =~= (rows_view(old_acc)
                    + seq![row_s]) + rest);
            }
        }
        prev = prev_next;
        off = off + 1 + stride;
        y = y + 1;
    }
    proof {
        assert(rows_from(data@, off as int, prev@, 0, stride_i, bpp as int) == Ok::<
            Seq<Seq<u8>>,
            PngError,
        >(Seq::empty()));
        assert(rows_view(acc@) + Seq::<Seq<u8>>::empty() =~= rows_view(acc@));
    }
    Ok(acc)
}

/// A byte-for-byte copy of a reconstructed row.
fn clone_row(v: &Vec<u8>) -> (r: Vec<u8>)
    ensures
        r@ == v@,
{
    let mut out: Vec<u8> = Vec::new();
    let mut i: usize = 0;
    while i < v.len()
        invariant
            0 <= i <= v@.len(),
            out@ == v@.subrange(0, i as int),
        decreases v@.len() - i,
    {
        out.push(v[i]);
        proof {
            assert(out@ =~= v@.subrange(0, i as int + 1));
        }
        i = i + 1;
    }
    proof {
        assert(out@ =~= v@);
    }
    out
}

} // verus!
