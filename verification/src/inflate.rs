//! DEFLATE decompression over the assembled IDAT stream: stored,
//! fixed-Huffman and dynamic-Huffman blocks, with canonical Huffman
//! decoding, followed by the Adler-32 trailer check.

use vstd::prelude::*;
use crate::bytes::{be32_at, le16_at, read_be32, read_le16};
use crate::checksum::{adler32, adler32_spec};
use crate::error::PngError;

verus! {

/// Bit `i` of the stream, least-significant bit of each byte first.
pub open spec fn stream_bit(s: Seq<u8>, i: int) -> u32
    recommends
        0 <= i < 8 * s.len(),
{
    ((s[i / 8] as u32) >> ((i % 8) as u32)) & 1
}

/// Two to the `n`.
pub open spec fn pow2i(n: nat) -> int
    decreases n,
{
    if n == 0 {
        1
    } else {
        2 * pow2i((n - 1) as nat)
    }
}

/// Powers of two are positive.
pub proof fn lemma_pow2i_pos(n: nat)
    ensures
        pow2i(n) >= 1,
    decreases n,
{
    if n > 0 {
        lemma_pow2i_pos((n - 1) as nat);
    }
}

/// Powers of two grow with the exponent.
pub proof fn lemma_pow2i_monotone(a: nat, b: nat)
    requires
        a <= b,
    ensures
        pow2i(a) <= pow2i(b),
    decreases b,
{
    if a < b {
        lemma_pow2i_monotone(a, (b - 1) as nat);
        lemma_pow2i_pos((b - 1) as nat);
    }
}

/// The small power-of-two values the decoder works with.
pub proof fn lemma_pow2i_vals()
    ensures
        pow2i(0) == 1,
        pow2i(1) == 2,
        pow2i(2) == 4,
        pow2i(3) == 8,
        pow2i(4) == 16,
        pow2i(5) == 32,
        pow2i(7) == 128,
        pow2i(13) == 8192,
        pow2i(14) == 16384,
        pow2i(15) == 32768,
        pow2i(16) == 65536,
{
    reveal_with_fuel(pow2i, 17);
}

/// The value of the `n` bits starting at bit `pos`, packed LSB-first.
pub open spec fn bits_value(s: Seq<u8>, pos: int, n: nat) -> int
    decreases n,
{
    if n == 0 {
        0
    } else {
        bits_value(s, pos, (n - 1) as nat) + stream_bit(s, pos + n - 1) * pow2i((n - 1) as nat)
    }
}

/// A packed bit value is bounded by two to its width.
pub proof fn lemma_bits_value_bound(s: Seq<u8>, pos: int, n: nat)
    ensures
        0 <= bits_value(s, pos, n) < pow2i(n),
    decreases n,
{
    if n != 0 {
        lemma_bits_value_bound(s, pos, (n - 1) as nat);
        let by: u8 = s[(pos + n - 1) / 8];
        let sh: u32 = ((pos + n - 1) % 8) as u32;
        assert(((by as u32) >> sh) & 1 <= 1) by (bit_vector);
        let b = stream_bit(s, pos + n - 1);
        assert(b <= 1);
        let pp = pow2i((n - 1) as nat);
        if b == 0 {
            assert(b * pp == 0) by (nonlinear_arith)
                requires
                    b == 0,
            ;
        } else {
            assert(b * pp == pp) by (nonlinear_arith)
                requires
                    b == 1,
            ;
        }
    }
}

/// How many entries of `lens[..n]` equal `l`.
pub open spec fn count_len_prefix(lens: Seq<u8>, l: int, n: int) -> int
    decreases n,
{
    if n <= 0 {
        0
    } else {
        count_len_prefix(lens, l, n - 1) + if lens[n - 1] == l {
            1int
        } else {
            0int
        }
    }
}

/// How many code lengths equal `l`.
pub open spec fn count_len(lens: Seq<u8>, l: int) -> int {
    count_len_prefix(lens, l, lens.len() as int)
}

/// Prefix counts are non-negative and bounded by the prefix length.
pub proof fn lemma_count_prefix_bounds(lens: Seq<u8>, l: int, n: int)
    ensures
        0 <= count_len_prefix(lens, l, n),
        n >= 0 ==> count_len_prefix(lens, l, n) <= n,
    decreases n,
{
    if n > 0 {
        lemma_count_prefix_bounds(lens, l, n - 1);
    }
}

/// How many symbols have a code length in `1..=maxl`.
pub open spec fn total_syms(lens: Seq<u8>, maxl: int) -> int
    decreases maxl,
{
    if maxl <= 0 {
        0
    } else {
        total_syms(lens, maxl - 1) + count_len(lens, maxl)
    }
}

/// Symbol totals are non-negative and grow with the length bound.
pub proof fn lemma_total_syms_monotone(lens: Seq<u8>, a: int, b: int)
    requires
        a <= b,
    ensures
        total_syms(lens, a) <= total_syms(lens, b),
        0 <= total_syms(lens, b) || b < 0,
    decreases b - a, b,
{
    if a < b {
        lemma_total_syms_monotone(lens, a, b - 1);
        lemma_count_prefix_bounds(lens, b, lens.len() as int);
    } else if b > 0 {
        lemma_total_syms_monotone(lens, b - 1, b - 1);
        lemma_count_prefix_bounds(lens, b, lens.len() as int);
    }
}

/// With at most 320 code lengths, at most `320 * m` symbols have a length
/// in `1..=m`.
pub proof fn lemma_total_syms_numeric(lens: Seq<u8>, m: int)
    requires
        lens.len() <= 320,
        m >= 0,
    ensures
        total_syms(lens, m) <= 320 * m,
    decreases m,
{
    if m > 0 {
        lemma_total_syms_numeric(lens, m - 1);
        lemma_count_prefix_bounds(lens, m, lens.len() as int);
    }
}

/// The symbols among the first `n` whose code length is `l`, in increasing
/// order.
pub open spec fn syms_of_len(lens: Seq<u8>, l: int, n: int) -> Seq<u16>
    decreases n,
{
    if n <= 0 {
        Seq::empty()
    } else if lens[n - 1] == l {
        syms_of_len(lens, l, n - 1).push((n - 1) as u16)
    } else {
        syms_of_len(lens, l, n - 1)
    }
}

/// All symbols of code length 1..=maxl, sorted by length then value: the
/// canonical Huffman code assignment order.
pub open spec fn syms_upto(lens: Seq<u8>, maxl: int) -> Seq<u16>
    decreases maxl,
{
    if maxl <= 0 {
        Seq::empty()
    } else {
        syms_upto(lens, maxl - 1) + syms_of_len(lens, maxl, lens.len() as int)
    }
}

/// There are as many symbols of one length as the count says.
pub proof fn lemma_syms_of_len_len(lens: Seq<u8>, l: int, n: int)
    ensures
        syms_of_len(lens, l, n).len() == count_len_prefix(lens, l, n),
    decreases n,
{
    if n > 0 {
        lemma_syms_of_len_len(lens, l, n - 1);
        lemma_count_prefix_bounds(lens, l, n - 1);
    }
}

/// The sorted symbol sequence has one entry per counted symbol.
pub proof fn lemma_syms_upto_len(lens: Seq<u8>, maxl: int)
    ensures
        syms_upto(lens, maxl).len() == total_syms(lens, maxl),
    decreases maxl,
{
    if maxl > 0 {
        lemma_syms_upto_len(lens, maxl - 1);
        lemma_syms_of_len_len(lens, maxl, lens.len() as int);
    }
}

/// One walk of the canonical Huffman decoder: bits are collected MSB-first
/// into `code`; at depth `l` the codes of length `l` occupy the interval
/// `[first, first + count)`, and a hit returns the symbol at the matching
/// rank of the canonical (length, value) order.
pub open spec fn huff_step(
    data: Seq<u8>,
    lens: Seq<u8>,
    pos: int,
    l: int,
    code: int,
    first: int,
    index: int,
) -> Result<(u16, int), PngError>
    decreases 16 - l,
{
    if l > 15 {
        Err(PngError::InvalidHuffmanCode)
    } else if pos >= 8 * data.len() {
        Err(PngError::TruncatedChunk)
    } else {
        let code2 = 2 * code + stream_bit(data, pos);
        let count = count_len(lens, l);
        if code2 >= first && code2 - first < count {
            Ok((syms_upto(lens, 15)[index + code2 - first], pos + 1))
        } else if first > 0x20000 {
            Err(PngError::InvalidHuffmanCode)
        } else {
            huff_step(data, lens, pos + 1, l + 1, code2, (first + count) * 2, index + count)
        }
    }
}

/// Decoding one symbol of the canonical code that `lens` assigns, starting
/// at bit `pos`: the decoded symbol and the position after its code.
pub open spec fn decode_sym_spec(data: Seq<u8>, lens: Seq<u8>, pos: int) -> Result<
    (u16, int),
    PngError,
> {
    huff_step(data, lens, pos, 1, 0, 0, 0)
}

/// A canonical Huffman decoding table: how many codes exist of each length
/// (index 1..=15), and the symbols ordered by (length, symbol value).
pub struct HuffTable {
    /// `counts[l]` is the number of symbols with code length `l`.
    pub counts: Vec<u16>,
    /// The symbols with non-zero code length, sorted by length then value.
    pub symbols: Vec<u16>,
    /// The code-length array this table was built from.
    pub lens: Ghost<Seq<u8>>,
}

impl HuffTable {
    /// The table agrees with its code-length array.
    pub open spec fn wf(self) -> bool {
        &&& self.counts@.len() == 16
        &&& self.lens@.len() <= 320
        &&& forall|l: int| 0 <= l < 16 ==> #[trigger] self.counts@[l] as int == count_len(self.lens@, l)
        &&& self.symbols@.len() == total_syms(self.lens@, 15)
        &&& self.symbols@ == syms_upto(self.lens@, 15)
        &&& forall|k: int|
            0 <= k < self.symbols@.len() ==> (#[trigger] self.symbols@[k] as int)
                < self.lens@.len() && self.lens@[self.symbols@[k] as int] > 0
    }
}

/// Builds the canonical decoding table for a code-length array: counts per
/// length, and the symbols of non-zero length sorted by length then value.
pub fn build_huff(lens: &Vec<u8>) -> (r: HuffTable)
    requires
        lens@.len() <= 320,
        forall|i: int| 0 <= i < lens@.len() ==> #[trigger] lens@[i] <= 15,
    ensures
        r.wf(),
        r.lens@ == lens@,
{
    let n = lens.len();
    let mut counts: Vec<u16> = Vec::new();
    let mut l: usize = 0;
    while l < 16
        invariant
            0 <= l <= 16,
            counts@.len() == l,
            forall|k: int| 0 <= k < l ==> #[trigger] counts@[k] == 0u16,
        decreases 16 - l,
    {
        counts.push(0);
        l = l + 1;
    }
    let mut i: usize = 0;
    while i < n
        invariant
            0 <= i <= n,
            n == lens@.len(),
            n <= 320,
            forall|k: int| 0 <= k < n ==> #[trigger] lens@[k] <= 15,
            counts@.len() == 16,
            forall|k: int|
                0 <= k < 16 ==> #[trigger] counts@[k] as int == count_len_prefix(
                    lens@,
                    k,
                    i as int,
                ),
        decreases n - i,
    {
        let li = lens[i] as usize;
        proof {
            lemma_count_prefix_bounds(lens@, li as int, i as int);
        }
        let c = counts[li];
        counts.set(li, c + 1);
        proof {
            assert(forall|k: int|
                0 <= k < 16 ==> #[trigger] count_len_prefix(lens@, k, i as int + 1)
                    == count_len_prefix(lens@, k, i as int) + if lens@[i as int] == k {
                    1int
                } else {
                    0int
                });
        }
        i = i + 1;
    }
    let mut symbols: Vec<u16> = Vec::new();
    let mut l: usize = 1;
    while l < 16
        invariant
            1 <= l <= 16,
            n == lens@.len(),
            n <= 320,
            forall|k: int| 0 <= k < n ==> #[trigger] lens@[k] <= 15,
            symbols@.len() == total_syms(lens@, l as int - 1),
            symbols@ == syms_upto(lens@, l as int - 1),
            forall|k: int|
                0 <= k < symbols@.len() ==> (#[trigger] symbols@[k] as int) < n && lens@[
                    symbols@[k] as int
                ] > 0,
        decreases 16 - l,
    {
        let mut s: usize = 0;
        while s < n
            invariant
                0 <= s <= n,
                1 <= l <= 15,
                n == lens@.len(),
                n <= 320,
                forall|k: int| 0 <= k < n ==> #[trigger] lens@[k] <= 15,
                symbols@.len() == total_syms(lens@, l as int - 1) + count_len_prefix(
                    lens@,
                    l as int,
                    s as int,
                ),
                symbols@ == syms_upto(lens@, l as int - 1) + syms_of_len(lens@, l as int, s as int),
                forall|k: int|
                    0 <= k < symbols@.len() ==> (#[trigger] symbols@[k] as int) < n && lens@[
                        symbols@[k] as int
                    ] > 0,
            decreases n - s,
        {
            proof {
                lemma_count_prefix_bounds(lens@, l as int, s as int);
                lemma_total_syms_monotone(lens@, 0, l as int - 1);
            }
            let ghost old_syms = symbols@;
            if lens[s] as usize == l {
                symbols.push(s as u16);
                proof {
                    assert(syms_of_len(lens@, l as int, s as int + 1) == syms_of_len(
                        lens@,
                        l as int,
                        s as int,
                    ).push(s as u16));
                    assert(symbols@ =~= syms_upto(lens@, l as int - 1) + syms_of_len(
                        lens@,
                        l as int,
                        s as int + 1,
                    ));
                }
            } else {
                proof {
                    assert(syms_of_len(lens@, l as int, s as int + 1) == syms_of_len(
                        lens@,
                        l as int,
                        s as int,
                    ));
                }
            }
            s = s + 1;
        }
        proof {
            assert(symbols@ =~= syms_upto(lens@, l as int));
        }
        l = l + 1;
    }
    proof {
        lemma_total_syms_monotone(lens@, 15, 15);
    }
    HuffTable { counts, symbols, lens: Ghost(lens@) }
}

/// The base length a length symbol (257..=285) denotes.
pub open spec fn len_base(s: u16) -> int {
    if s == 257 { 3 } else if s == 258 { 4 } else if s == 259 { 5 } else if s == 260 { 6 }
    else if s == 261 { 7 } else if s == 262 { 8 } else if s == 263 { 9 } else if s == 264 { 10 }
    else if s == 265 { 11 } else if s == 266 { 13 } else if s == 267 { 15 } else if s == 268 { 17 }
    else if s == 269 { 19 } else if s == 270 { 23 } else if s == 271 { 27 } else if s == 272 { 31 }
    else if s == 273 { 35 } else if s == 274 { 43 } else if s == 275 { 51 } else if s == 276 { 59 }
    else if s == 277 { 67 } else if s == 278 { 83 } else if s == 279 { 99 } else if s == 280 { 115 }
    else if s == 281 { 131 } else if s == 282 { 163 } else if s == 283 { 195 }
    else if s == 284 { 227 } else { 258 }
}

/// The extra-bit count of a length symbol.
pub open spec fn len_extra(s: u16) -> int {
    if s <= 264 { 0 } else if s <= 268 { 1 } else if s <= 272 { 2 } else if s <= 276 { 3 }
    else if s <= 280 { 4 } else if s <= 284 { 5 } else { 0 }
}

/// The base distance a distance symbol (0..=29) denotes.
pub open spec fn dist_base(d: u16) -> int {
    if d == 0 { 1 } else if d == 1 { 2 } else if d == 2 { 3 } else if d == 3 { 4 }
    else if d == 4 { 5 } else if d == 5 { 7 } else if d == 6 { 9 } else if d == 7 { 13 }
    else if d == 8 { 17 } else if d == 9 { 25 } else if d == 10 { 33 } else if d == 11 { 49 }
    else if d == 12 { 65 } else if d == 13 { 97 } else if d == 14 { 129 } else if d == 15 { 193 }
    else if d == 16 { 257 } else if d == 17 { 385 } else if d == 18 { 513 } else if d == 19 { 769 }
    else if d == 20 { 1025 } else if d == 21 { 1537 } else if d == 22 { 2049 }
    else if d == 23 { 3073 } else if d == 24 { 4097 } else if d == 25 { 6145 }
    else if d == 26 { 8193 } else if d == 27 { 12289 } else if d == 28 { 16385 } else { 24577 }
}

/// The extra-bit count of a distance symbol.
pub open spec fn dist_extra(d: u16) -> int {
    if d <= 3 { 0 } else { (d as int - 2) / 2 }
}

/// The fixed literal/length code lengths of RFC 1951.
pub open spec fn fixed_lit_lens_spec() -> Seq<u8> {
    Seq::new(
        288,
        |i: int|
            if i < 144 {
                8u8
            } else if i < 256 {
                9u8
            } else if i < 280 {
                7u8
            } else {
                8u8
            },
    )
}

/// The fixed distance code lengths of RFC 1951.
pub open spec fn fixed_dist_lens_spec() -> Seq<u8> {
    Seq::new(30, |i: int| 5u8)
}

/// The order in which a dynamic header stores the code-length-code lengths.
pub open spec fn clen_order_spec(i: int) -> int {
    if i == 0 { 16 } else if i == 1 { 17 } else if i == 2 { 18 } else if i == 3 { 0 }
    else if i == 4 { 8 } else if i == 5 { 7 } else if i == 6 { 9 } else if i == 7 { 6 }
    else if i == 8 { 10 } else if i == 9 { 5 } else if i == 10 { 11 } else if i == 11 { 4 }
    else if i == 12 { 12 } else if i == 13 { 3 } else if i == 14 { 13 } else if i == 15 { 2 }
    else if i == 16 { 14 } else if i == 17 { 1 } else { 15 }
}

/// A back-reference copy: `k` bytes appended one at a time, each read
/// `dist` positions back in the output produced so far.
pub open spec fn back_copy(out: Seq<u8>, dist: int, k: int) -> Seq<u8>
    recommends
        1 <= dist <= out.len(),
        0 <= k,
    decreases k,
{
    if k <= 0 {
        out
    } else {
        back_copy(out.push(out[out.len() - dist]), dist, k - 1)
    }
}

/// The literal/length-and-distance symbol loop of one Huffman-coded block:
/// literals are emitted, length/distance pairs copy from the output, symbol
/// 256 ends the block. The two cursor guards only bound the recursion; a
/// decode never moves the cursor backward or past the stream.
pub open spec fn huff_symbols(
    data: Seq<u8>,
    litlens: Seq<u8>,
    distlens: Seq<u8>,
    pos: int,
    out: Seq<u8>,
) -> Result<(Seq<u8>, int), PngError>
    decreases 8 * data.len() - pos,
{
    match decode_sym_spec(data, litlens, pos) {
        Err(e) => Err(e),
        Ok((s, p2)) => {
            if p2 <= pos || p2 > 8 * data.len() {
                Err(PngError::InvalidHuffmanCode)
            } else if s < 256 {
                huff_symbols(data, litlens, distlens, p2, out.push(s as u8))
            } else if s == 256 {
                Ok((out, p2))
            } else if s <= 285 {
                if p2 + len_extra(s) > 8 * data.len() {
                    Err(PngError::TruncatedChunk)
                } else {
                    let length = len_base(s) + bits_value(data, p2, len_extra(s) as nat);
                    let p3 = p2 + len_extra(s);
                    match decode_sym_spec(data, distlens, p3) {
                        Err(e) => Err(e),
                        Ok((d, p4)) => {
                            if p4 <= p3 || p4 > 8 * data.len() {
                                Err(PngError::InvalidHuffmanCode)
                            } else if p4 + dist_extra(d) > 8 * data.len() {
                                Err(PngError::TruncatedChunk)
                            } else {
                                let distance = dist_base(d) + bits_value(
                                    data,
                                    p4,
                                    dist_extra(d) as nat,
                                );
                                let p5 = p4 + dist_extra(d);
                                if distance > out.len() {
                                    Err(PngError::InvalidBackReference)
                                } else {
                                    huff_symbols(
                                        data,
                                        litlens,
                                        distlens,
                                        p5,
                                        back_copy(out, distance, length),
                                    )
                                }
                            }
                        },
                    }
                }
            } else {
                Err(PngError::InvalidHuffmanCode)
            }
        },
    }
}

/// A successful symbol loop moves the cursor forward and keeps it inside
/// the stream.
pub proof fn lemma_huff_symbols_pos(
    data: Seq<u8>,
    litlens: Seq<u8>,
    distlens: Seq<u8>,
    pos: int,
    out: Seq<u8>,
)
    ensures
        huff_symbols(data, litlens, distlens, pos, out) is Ok ==> pos < huff_symbols(
            data,
            litlens,
            distlens,
            pos,
            out,
        )->Ok_0.1 <= 8 * data.len(),
    decreases 8 * data.len() - pos,
{
    match decode_sym_spec(data, litlens, pos) {
        Err(_) => {},
        Ok((s, p2)) => {
            if p2 <= pos || p2 > 8 * data.len() {
            } else if s < 256 {
                lemma_huff_symbols_pos(data, litlens, distlens, p2, out.push(s as u8));
            } else if s == 256 {
            } else if s <= 285 {
                if p2 + len_extra(s) <= 8 * data.len() {
                    let p3 = p2 + len_extra(s);
                    match decode_sym_spec(data, distlens, p3) {
                        Err(_) => {},
                        Ok((d, p4)) => {
                            if !(p4 <= p3 || p4 > 8 * data.len()) && p4 + dist_extra(d) <= 8
                                * data.len() {
                                let length = len_base(s) + bits_value(
                                    data,
                                    p2,
                                    len_extra(s) as nat,
                                );
                                let distance = dist_base(d) + bits_value(
                                    data,
                                    p4,
                                    dist_extra(d) as nat,
                                );
                                let p5 = p4 + dist_extra(d);
                                if distance <= out.len() {
                                    lemma_huff_symbols_pos(
                                        data,
                                        litlens,
                                        distlens,
                                        p5,
                                        back_copy(out, distance, length),
                                    );
                                }
                            }
                        },
                    }
                }
            }
        },
    }
}

/// One stored block: byte-align, LEN and NLEN, then LEN literal bytes.
pub open spec fn stored_spec(data: Seq<u8>, pos: int, out: Seq<u8>) -> Result<
    (Seq<u8>, int),
    PngError,
> {
    let b0 = (pos + 7) / 8;
    if b0 + 4 > data.len() {
        Err(PngError::TruncatedChunk)
    } else if le16_at(data, b0 + 2) != !le16_at(data, b0) {
        Err(PngError::BlockLengthMismatch)
    } else if b0 + 4 + le16_at(data, b0) > data.len() {
        Err(PngError::TruncatedChunk)
    } else {
        Ok(
            (
                out + data.subrange(b0 + 4, b0 + 4 + le16_at(data, b0) as int),
                8 * (b0 + 4 + le16_at(data, b0) as int),
            ),
        )
    }
}

/// The code-length-code lengths stored in a dynamic header: `hclen` 3-bit
/// values written into the fixed permuted order, the rest zero.
pub open spec fn clen_lens_spec(data: Seq<u8>, pos: int, hclen: int, i: int, acc: Seq<u8>) -> Seq<
    u8,
>
    decreases hclen - i,
{
    if i >= hclen {
        acc
    } else {
        clen_lens_spec(
            data,
            pos,
            hclen,
            i + 1,
            acc.update(clen_order_spec(i), bits_value(data, pos + 3 * i, 3) as u8),
        )
    }
}

/// The combined literal/length and distance code lengths of a dynamic
/// block, decoded with the code-length code and its repeat codes 16/17/18.
pub open spec fn code_lens_spec(
    data: Seq<u8>,
    clens: Seq<u8>,
    pos: int,
    acc: Seq<u8>,
    target: int,
) -> Result<(Seq<u8>, int), PngError>
    decreases target - acc.len(),
{
    if acc.len() >= target {
        Ok((acc, pos))
    } else {
        match decode_sym_spec(data, clens, pos) {
            Err(e) => Err(e),
            Ok((sym, p2)) => {
                if sym < 16 {
                    code_lens_spec(data, clens, p2, acc.push(sym as u8), target)
                } else if sym == 16 {
                    if acc.len() == 0 {
                        Err(PngError::InvalidHuffmanCode)
                    } else if p2 + 2 > 8 * data.len() {
                        Err(PngError::TruncatedChunk)
                    } else {
                        let rep = bits_value(data, p2, 2) + 3;
                        if rep < 3 || acc.len() + rep > target {
                            Err(PngError::InvalidHuffmanCode)
                        } else {
                            code_lens_spec(
                                data,
                                clens,
                                p2 + 2,
                                acc + Seq::new(rep as nat, |j: int| acc.last()),
                                target,
                            )
                        }
                    }
                } else {
                    let nb: int = if sym == 17 {
                        3
                    } else {
                        7
                    };
                    let base: int = if sym == 17 {
                        3
                    } else {
                        11
                    };
                    if p2 + nb > 8 * data.len() {
                        Err(PngError::TruncatedChunk)
                    } else {
                        let rep = bits_value(data, p2, nb as nat) + base;
                        if rep < 3 || acc.len() + rep > target {
                            Err(PngError::InvalidHuffmanCode)
                        } else {
                            code_lens_spec(
                                data,
                                clens,
                                p2 + nb,
                                acc + Seq::new(rep as nat, |j: int| 0u8),
                                target,
                            )
                        }
                    }
                }
            },
        }
    }
}

/// A dynamic block header: HLIT, HDIST and HCLEN, the code-length code, and
/// the two decoded code-length arrays, with the cursor after them.
pub open spec fn dyn_tables_spec(data: Seq<u8>, pos: int) -> Result<
    (Seq<u8>, Seq<u8>, int),
    PngError,
> {
    if pos + 5 > 8 * data.len() {
        Err(PngError::TruncatedChunk)
    } else {
        let hlit = bits_value(data, pos, 5) + 257;
        if hlit > 286 {
            Err(PngError::InvalidHuffmanCode)
        } else if pos + 10 > 8 * data.len() {
            Err(PngError::TruncatedChunk)
        } else {
            let hdist = bits_value(data, pos + 5, 5) + 1;
            if hdist > 30 {
                Err(PngError::InvalidHuffmanCode)
            } else if pos + 14 > 8 * data.len() {
                Err(PngError::TruncatedChunk)
            } else {
                let hclen = bits_value(data, pos + 10, 4) + 4;
                if pos + 14 + 3 * hclen > 8 * data.len() {
                    Err(PngError::TruncatedChunk)
                } else {
                    let clens = clen_lens_spec(
                        data,
                        pos + 14,
                        hclen,
                        0,
                        Seq::new(19, |j: int| 0u8),
                    );
                    match code_lens_spec(
                        data,
                        clens,
                        pos + 14 + 3 * hclen,
                        Seq::empty(),
                        hlit + hdist,
                    ) {
                        Err(e) => Err(e),
                        Ok((lens, p2)) => Ok(
                            (lens.subrange(0, hlit), lens.subrange(hlit, hlit + hdist), p2),
                        ),
                    }
                }
            }
        }
    }
}

/// The DEFLATE block sequence: BFINAL and BTYPE, one block body, repeated
/// until a final block; the inflated bytes and the cursor after the last
/// block. The two cursor guards only bound the recursion; a block never
/// moves the cursor backward or past the stream.
pub open spec fn inflate_blocks(data: Seq<u8>, pos: int, out: Seq<u8>) -> Result<
    (Seq<u8>, int),
    PngError,
>
    decreases 8 * data.len() - pos,
{
    if pos + 3 > 8 * data.len() {
        Err(PngError::TruncatedChunk)
    } else {
        let bfinal = stream_bit(data, pos);
        let btype = bits_value(data, pos + 1, 2);
        let body: Result<(Seq<u8>, int), PngError> = if btype == 0 {
            stored_spec(data, pos + 3, out)
        } else if btype == 1 {
            huff_symbols(data, fixed_lit_lens_spec(), fixed_dist_lens_spec(), pos + 3, out)
        } else if btype == 2 {
            match dyn_tables_spec(data, pos + 3) {
                Err(e) => Err(e),
                Ok((ll, dl, p2)) => huff_symbols(data, ll, dl, p2, out),
            }
        } else {
            Err(PngError::InvalidBlockType)
        };
        match body {
            Err(e) => Err(e),
            Ok((out2, p3)) => {
                if bfinal == 1 {
                    Ok((out2, p3))
                } else if p3 <= pos || p3 > 8 * data.len() {
                    Err(PngError::TruncatedChunk)
                } else {
                    inflate_blocks(data, p3, out2)
                }
            },
        }
    }
}

/// The whole inflation of a raw DEFLATE stream: the block sequence, then
/// the big-endian Adler-32 trailer at the byte boundary after the last
/// block, checked against the inflated bytes.
pub open spec fn inflate_spec(data: Seq<u8>) -> Result<Seq<u8>, PngError> {
    match inflate_blocks(data, 0, Seq::empty()) {
        Err(e) => Err(e),
        Ok((out, pos)) => {
            let b = (pos + 7) / 8;
            if b + 4 > data.len() {
                Err(PngError::TruncatedChunk)
            } else if be32_at(data, b) != adler32_spec(out) {
                Err(PngError::ChecksumMismatch)
            } else {
                Ok(out)
            }
        },
    }
}

/// The inflater's cursor over the compressed bit stream and its output.
pub struct Inflater {
    /// Index of the byte the cursor stands in.
    pub byte: usize,
    /// Bit offset within that byte, 0..=7.
    pub bit: u8,
    /// The inflated bytes produced so far.
    pub out: Vec<u8>,
}

impl Inflater {
    /// The cursor as an absolute bit position.
    pub open spec fn pos(self) -> int {
        8 * self.byte + self.bit
    }

    /// The cursor stays inside the stream.
    pub open spec fn wf(self, data: Seq<u8>) -> bool {
        &&& self.byte <= data.len()
        &&& self.bit < 8
        &&& (self.bit != 0 ==> self.byte < data.len())
    }

    /// Reads one bit, LSB of each byte first; fails when the stream is
    /// exhausted.
    pub fn read_bit(&mut self, data: &[u8]) -> (r: Result<u32, PngError>)
        requires
            old(self).wf(data@),
        ensures
            final(self).wf(data@),
            final(self).out == old(self).out,
            r is Ok <==> old(self).pos() < 8 * data@.len(),
            match r {
                Ok(b) => {
                    &&& b == stream_bit(data@, old(self).pos())
                    &&& b <= 1
                    &&& final(self).pos() == old(self).pos() + 1
                },
                Err(e) => {
                    &&& e == PngError::TruncatedChunk
                    &&& *final(self) == *old(self)
                },
            },
    {
        if self.byte >= data.len() {
            return Err(PngError::TruncatedChunk);
        }
        let b = ((data[self.byte] as u32) >> (self.bit as u32)) & 1;
        proof {
            assert(old(self).pos() / 8 == self.byte && old(self).pos() % 8 == self.bit as int);
            let byv: u8 = data@[self.byte as int];
            let sh: u32 = self.bit as u32;
            assert(((byv as u32) >> sh) & 1 <= 1) by (bit_vector);
        }
        if self.bit == 7 {
            self.bit = 0;
            self.byte = self.byte + 1;
        } else {
            self.bit = self.bit + 1;
        }
        Ok(b)
    }

    /// Reads `n` bits (at most 16), packed LSB-first.
    pub fn read_bits(&mut self, data: &[u8], n: u32) -> (r: Result<u32, PngError>)
        requires
            old(self).wf(data@),
            n <= 16,
        ensures
            final(self).wf(data@),
            final(self).out == old(self).out,
            r is Ok <==> old(self).pos() + n <= 8 * data@.len(),
            match r {
                Ok(v) => {
                    &&& v as int == bits_value(data@, old(self).pos(), n as nat)
                    &&& (v as int) < pow2i(n as nat)
                    &&& v < 0x10000
                    &&& final(self).pos() == old(self).pos() + n
                },
                Err(e) => {
                    &&& e == PngError::TruncatedChunk
                    &&& final(self).pos() >= old(self).pos()
                },
            },
    {
        let mut v: u32 = 0;
        let mut k: u32 = 0;
        let ghost p0 = self.pos();
        while k < n
            invariant
                0 <= k <= n,
                n <= 16,
                self.wf(data@),
                self.out == old(self).out,
                self.pos() == p0 + k,
                p0 == old(self).pos(),
                v as int == bits_value(data@, p0, k as nat),
            decreases n - k,
        {
            let b = match self.read_bit(data) {
                Ok(b) => b,
                Err(e) => {
                    return Err(e);
                },
            };
            proof {
                lemma_bits_value_bound(data@, p0, k as nat);
                lemma_pow2i_vals();
                lemma_pow2i_monotone(k as nat, 15);
                lemma_pow2_shift(k);
            }
            let add: u32 = if b == 1 {
                1u32 << k
            } else {
                0u32
            };
            proof {
                assert(bits_value(data@, p0, (k + 1) as nat) == bits_value(data@, p0, k as nat)
                    + stream_bit(data@, p0 + k) * pow2i(k as nat));
                assert(stream_bit(data@, p0 + k) == b);
                let pp = pow2i(k as nat);
                if b == 1 {
                    assert(b * pp == pp) by (nonlinear_arith)
                        requires
                            b == 1,
                    ;
                } else {
                    assert(b == 0);
                    assert(b * pp == 0) by (nonlinear_arith)
                        requires
                            b == 0,
                    ;
                }
            }
            v = v + add;
            k = k + 1;
        }
        proof {
            lemma_bits_value_bound(data@, p0, n as nat);
            lemma_pow2i_vals();
            lemma_pow2i_monotone(n as nat, 16);
        }
        Ok(v)
    }

    /// Moves the cursor to the next byte boundary.
    pub fn align(&mut self, Ghost(data): Ghost<Seq<u8>>)
        requires
            old(self).wf(data),
            data.len() <= usize::MAX,
        ensures
            final(self).wf(data),
            final(self).bit == 0,
            final(self).out == old(self).out,
            final(self).byte <= data.len(),
            final(self).pos() >= old(self).pos(),
            final(self).pos() == 8 * ((old(self).pos() + 7) / 8),
    {
        if self.bit != 0 {
            self.bit = 0;
            self.byte = self.byte + 1;
        }
    }

    /// Decodes one symbol with a canonical Huffman table: collect bits
    /// MSB-first until they name a code of the current length; fails when no
    /// code matches.
    pub fn decode_sym(&mut self, data: &[u8], table: &HuffTable) -> (r: Result<u16, PngError>)
        requires
            old(self).wf(data@),
            table.wf(),
        ensures
            final(self).wf(data@),
            final(self).out == old(self).out,
            match r {
                Ok(s) => {
                    &&& decode_sym_spec(data@, table.lens@, old(self).pos()) == Ok::<
                        (u16, int),
                        PngError,
                    >((s, final(self).pos()))
                    &&& (s as int) < table.lens@.len()
                    &&& table.lens@[s as int] > 0
                    &&& old(self).pos() < final(self).pos() <= old(self).pos() + 15
                },
                Err(e) => {
                    &&& decode_sym_spec(data@, table.lens@, old(self).pos()) == Err::<
                        (u16, int),
                        PngError,
                    >(e)
                    &&& final(self).pos() >= old(self).pos()
                },
            },
    {
        let mut code: u32 = 0;
        let mut first: u32 = 0;
        let mut index: u32 = 0;
        let mut l: u32 = 1;
        let ghost p0 = self.pos();
        while l <= 15
            invariant
                1 <= l <= 16,
                self.wf(data@),
                self.out == old(self).out,
                table.wf(),
                self.pos() == p0 + l - 1,
                p0 == old(self).pos(),
                index as int == total_syms(table.lens@, l as int - 1),
                index <= 4800,
                first <= 0x40280,
                (code as int) < pow2i((l - 1) as nat),
                decode_sym_spec(data@, table.lens@, p0) == huff_step(
                    data@,
                    table.lens@,
                    self.pos(),
                    l as int,
                    code as int,
                    first as int,
                    index as int,
                ),
            decreases 16 - l,
        {
            proof {
                lemma_pow2i_vals();
                lemma_pow2i_monotone((l - 1) as nat, 14);
            }
            let ghost pos_here = self.pos();
            let ghost code0 = code as int;
            let ghost first0 = first as int;
            let ghost index0 = index as int;
            let b = match self.read_bit(data) {
                Ok(b) => b,
                Err(e) => {
                    proof {
                        assert(huff_step(
                            data@,
                            table.lens@,
                            pos_here,
                            l as int,
                            code0,
                            first0,
                            index0,
                        ) == Err::<(u16, int), PngError>(PngError::TruncatedChunk));
                    }
                    return Err(e);
                },
            };
            code = code * 2 + b;
            let count = table.counts[l as usize] as u32;
            proof {
                lemma_count_prefix_bounds(table.lens@, l as int, table.lens@.len() as int);
                assert(count as int == count_len(table.lens@, l as int));
                assert(count <= 320);
                assert(total_syms(table.lens@, l as int) == total_syms(table.lens@, l as int - 1)
                    + count_len(table.lens@, l as int));
            }
            if code >= first && code - first < count {
                proof {
                    lemma_total_syms_monotone(table.lens@, l as int, 15);
                    assert(index + (code - first) < total_syms(table.lens@, l as int));
                    assert(((index + (code - first)) as int) < table.symbols@.len());
                }
                let sym = table.symbols[(index + (code - first)) as usize];
                proof {
                    assert(huff_step(data@, table.lens@, pos_here, l as int, code0, first0, index0)
                        == Ok::<(u16, int), PngError>((sym, self.pos())));
                }
                return Ok(sym);
            }
            proof {
                lemma_total_syms_numeric(table.lens@, l as int);
            }
            index = index + count;
            if first > 0x20000 {
                proof {
                    assert(huff_step(data@, table.lens@, pos_here, l as int, code0, first0, index0)
                        == Err::<(u16, int), PngError>(PngError::InvalidHuffmanCode));
                }
                return Err(PngError::InvalidHuffmanCode);
            }
            first = (first + count) * 2;
            l = l + 1;
        }
        Err(PngError::InvalidHuffmanCode)
    }

    /// Handles one stored block: byte-align, read LEN and its one's
    /// complement NLEN, check they match, and copy exactly LEN literal bytes
    /// from the following positions to the output.
    fn stored_block(&mut self, data: &[u8]) -> (r: Result<(), PngError>)
        requires
            old(self).wf(data@),
        ensures
            final(self).wf(data@),
            final(self).pos() >= old(self).pos(),
            match r {
                Ok(u) => stored_spec(data@, old(self).pos(), old(self).out@) == Ok::<
                    (Seq<u8>, int),
                    PngError,
                >((final(self).out@, final(self).pos())),
                Err(e) => {
                    &&& stored_spec(data@, old(self).pos(), old(self).out@) == Err::<
                        (Seq<u8>, int),
                        PngError,
                    >(e)
                    &&& final(self).out == old(self).out
                },
            },
    {
        let dlen = data.len();
        proof {
            assert(data@.len() == dlen);
        }
        self.align(Ghost(data@));
        let ghost b0 = (old(self).pos() + 7) / 8;
        proof {
            assert(self.byte as int == b0);
        }
        if data.len() - self.byte < 4 {
            return Err(PngError::TruncatedChunk);
        }
        let len = read_le16(data, self.byte);
        let nlen = read_le16(data, self.byte + 2);
        if nlen != !len {
            return Err(PngError::BlockLengthMismatch);
        }
        self.byte = self.byte + 4;
        if data.len() - self.byte < len as usize {
            return Err(PngError::TruncatedChunk);
        }
        let ghost out0 = self.out@;
        let mut k: usize = 0;
        proof {
            assert(self.out@ =~= out0 + data@.subrange(b0 + 4, b0 + 4));
        }
        while k < len as usize
            invariant
                0 <= k <= len,
                self.wf(data@),
                self.byte as int == b0 + 4,
                self.byte + len <= data@.len(),
                data@.len() <= usize::MAX,
                self.bit == 0,
                0 <= b0,
                self.out@ == out0 + data@.subrange(b0 + 4, b0 + 4 + k),
            decreases len - k,
        {
            let b = data[self.byte + k];
            self.out.push(b);
            proof {
                assert(self.out@ =~= out0 + data@.subrange(b0 + 4, b0 + 4 + k + 1));
            }
            k = k + 1;
        }
        self.byte = self.byte + len as usize;
        Ok(())
    }

    /// Decodes one Huffman-coded block with the given literal/length and
    /// distance tables: literals are emitted, length/distance pairs copy
    /// from the already-produced output, symbol 256 ends the block.
    fn huff_block(&mut self, data: &[u8], lit: &HuffTable, dist: &HuffTable) -> (r: Result<
        (),
        PngError,
    >)
        requires
            old(self).wf(data@),
            lit.wf(),
            lit.lens@.len() <= 288,
            dist.wf(),
            dist.lens@.len() <= 30,
        ensures
            final(self).wf(data@),
            final(self).pos() >= old(self).pos(),
            match r {
                Ok(u) => huff_symbols(data@, lit.lens@, dist.lens@, old(self).pos(), old(self).out@)
                    == Ok::<(Seq<u8>, int), PngError>((final(self).out@, final(self).pos())),
                Err(e) => huff_symbols(
                    data@,
                    lit.lens@,
                    dist.lens@,
                    old(self).pos(),
                    old(self).out@,
                ) == Err::<(Seq<u8>, int), PngError>(e),
            },
    {
        let ghost p_start = self.pos();
        let ghost out_start = self.out@;
        loop
            invariant
                self.wf(data@),
                lit.wf(),
                lit.lens@.len() <= 288,
                dist.wf(),
                dist.lens@.len() <= 30,
                self.pos() >= old(self).pos(),
                p_start == old(self).pos(),
                out_start == old(self).out@,
                huff_symbols(data@, lit.lens@, dist.lens@, p_start, out_start) == huff_symbols(
                    data@,
                    lit.lens@,
                    dist.lens@,
                    self.pos(),
                    self.out@,
                ),
            decreases 8 * data@.len() - self.pos(),
        {
            let ghost pos_before = self.pos();
            let ghost out_before = self.out@;
            let s = match self.decode_sym(data, lit) {
                Ok(s) => s,
                Err(e) => {
                    proof {
                        assert(huff_symbols(data@, lit.lens@, dist.lens@, pos_before, out_before)
                            == Err::<(Seq<u8>, int), PngError>(e));
                    }
                    return Err(e);
                },
            };
            if s < 256 {
                self.out.push(s as u8);
                proof {
                    assert(huff_symbols(data@, lit.lens@, dist.lens@, pos_before, out_before)
                        == huff_symbols(data@, lit.lens@, dist.lens@, self.pos(), self.out@));
                }
            } else if s == 256 {
                proof {
                    assert(huff_symbols(data@, lit.lens@, dist.lens@, pos_before, out_before)
                        == Ok::<(Seq<u8>, int), PngError>((self.out@, self.pos())));
                }
                return Ok(());
            } else if s <= 285 {
                let ghost p2 = self.pos();
                let (lbase, lextra) = length_params(s);
                let ext = match self.read_bits(data, lextra) {
                    Ok(v) => v,
                    Err(e) => {
                        proof {
                            assert(huff_symbols(
                                data@,
                                lit.lens@,
                                dist.lens@,
                                pos_before,
                                out_before,
                            ) == Err::<(Seq<u8>, int), PngError>(e));
                        }
                        return Err(e);
                    },
                };
                let length = (lbase as u32) + ext;
                let ghost p3 = self.pos();
                let d = match self.decode_sym(data, dist) {
                    Ok(d) => d,
                    Err(e) => {
                        proof {
                            assert(huff_symbols(
                                data@,
                                lit.lens@,
                                dist.lens@,
                                pos_before,
                                out_before,
                            ) == Err::<(Seq<u8>, int), PngError>(e));
                        }
                        return Err(e);
                    },
                };
                let (dbase, dextra) = dist_params(d);
                let ghost p4 = self.pos();
                let dext = match self.read_bits(data, dextra) {
                    Ok(v) => v,
                    Err(e) => {
                        proof {
                            assert(huff_symbols(
                                data@,
                                lit.lens@,
                                dist.lens@,
                                pos_before,
                                out_before,
                            ) == Err::<(Seq<u8>, int), PngError>(e));
                        }
                        return Err(e);
                    },
                };
                let distance = (dbase as u32) + dext;
                if distance as usize > self.out.len() {
                    proof {
                        assert(huff_symbols(data@, lit.lens@, dist.lens@, pos_before, out_before)
                            == Err::<(Seq<u8>, int), PngError>(PngError::InvalidBackReference));
                    }
                    return Err(PngError::InvalidBackReference);
                }
                let ghost pos_here = self.pos();
                let ghost out_here = self.out@;
                let mut k: u32 = 0;
                while k < length
                    invariant
                        0 <= k <= length,
                        self.wf(data@),
                        1 <= distance,
                        distance as int <= self.out@.len(),
                        self.pos() == pos_here,
                        pos_here > pos_before,
                        pos_here >= old(self).pos(),
                        back_copy(out_here, distance as int, length as int) == back_copy(
                            self.out@,
                            distance as int,
                            length as int - k,
                        ),
                    decreases length - k,
                {
                    let idx = self.out.len() - distance as usize;
                    let b = self.out[idx];
                    self.out.push(b);
                    k = k + 1;
                }
                proof {
                    assert(self.out@ == back_copy(out_here, distance as int, length as int));
                    assert(huff_symbols(data@, lit.lens@, dist.lens@, pos_before, out_before)
                        == huff_symbols(data@, lit.lens@, dist.lens@, self.pos(), self.out@));
                }
            } else {
                proof {
                    assert(huff_symbols(data@, lit.lens@, dist.lens@, pos_before, out_before)
                        == Err::<(Seq<u8>, int), PngError>(PngError::InvalidHuffmanCode));
                }
                return Err(PngError::InvalidHuffmanCode);
            }
        }
    }
}

/// Two to the `k` as a left shift.
proof fn lemma_pow2_shift(k: u32)
    requires
        k < 16,
    ensures
        pow2i(k as nat) == (1u32 << k),
    decreases k,
{
    if k == 0 {
        assert(1u32 << 0u32 == 1) by (bit_vector);
    } else {
        lemma_pow2_shift((k - 1) as u32);
        assert((1u32 << k) == 2 * (1u32 << (k - 1) as u32)) by (bit_vector)
            requires
                0 < k < 16u32,
        ;
    }
}

/// The base length and extra-bit count of a length symbol (257..=285).
fn length_params(s: u16) -> (r: (u16, u32))
    requires
        257 <= s <= 285,
    ensures
        r.0 as int == len_base(s),
        r.1 as int == len_extra(s),
        3 <= r.0 <= 258,
        r.1 <= 5,
{
    match s {
        257u16 => (3, 0),
        258u16 => (4, 0),
        259u16 => (5, 0),
        260u16 => (6, 0),
        261u16 => (7, 0),
        262u16 => (8, 0),
        263u16 => (9, 0),
        264u16 => (10, 0),
        265u16 => (11, 1),
        266u16 => (13, 1),
        267u16 => (15, 1),
        268u16 => (17, 1),
        269u16 => (19, 2),
        270u16 => (23, 2),
        271u16 => (27, 2),
        272u16 => (31, 2),
        273u16 => (35, 3),
        274u16 => (43, 3),
        275u16 => (51, 3),
        276u16 => (59, 3),
        277u16 => (67, 4),
        278u16 => (83, 4),
        279u16 => (99, 4),
        280u16 => (115, 4),
        281u16 => (131, 5),
        282u16 => (163, 5),
        283u16 => (195, 5),
        284u16 => (227, 5),
        _ => (258, 0),
    }
}

/// The base distance and extra-bit count of a distance symbol (0..=29).
fn dist_params(d: u16) -> (r: (u16, u32))
    requires
        d <= 29,
    ensures
        r.0 as int == dist_base(d),
        r.1 as int == dist_extra(d),
        1 <= r.0 <= 24577,
        r.1 <= 13,
{
    match d {
        0u16 => (1, 0),
        1u16 => (2, 0),
        2u16 => (3, 0),
        3u16 => (4, 0),
        4u16 => (5, 1),
        5u16 => (7, 1),
        6u16 => (9, 2),
        7u16 => (13, 2),
        8u16 => (17, 3),
        9u16 => (25, 3),
        10u16 => (33, 4),
        11u16 => (49, 4),
        12u16 => (65, 5),
        13u16 => (97, 5),
        14u16 => (129, 6),
        15u16 => (193, 6),
        16u16 => (257, 7),
        17u16 => (385, 7),
        18u16 => (513, 8),
        19u16 => (769, 8),
        20u16 => (1025, 9),
        21u16 => (1537, 9),
        22u16 => (2049, 10),
        23u16 => (3073, 10),
        24u16 => (4097, 11),
        25u16 => (6145, 11),
        26u16 => (8193, 12),
        27u16 => (12289, 12),
        28u16 => (16385, 13),
        _ => (24577, 13),
    }
}

/// The fixed literal/length code lengths: 288 symbols with the lengths
/// 8 (0..=143), 9 (144..=255), 7 (256..=279), 8 (280..=287).
fn fixed_litlen_lens() -> (r: Vec<u8>)
    ensures
        r@ == fixed_lit_lens_spec(),
        r@.len() == 288,
        forall|i: int| 0 <= i < 288 ==> #[trigger] r@[i] <= 15,
{
    let mut v: Vec<u8> = Vec::new();
    let mut i: usize = 0;
    while i < 288
        invariant
            0 <= i <= 288,
            v@.len() == i,
            forall|k: int| 0 <= k < i ==> #[trigger] v@[k] <= 15,
            forall|k: int| 0 <= k < i ==> #[trigger] v@[k] == fixed_lit_lens_spec()[k],
        decreases 288 - i,
    {
        let l: u8 = if i < 144 {
            8
        } else if i < 256 {
            9
        } else if i < 280 {
            7
        } else {
            8
        };
        v.push(l);
        i = i + 1;
    }
    proof {
        assert(v@ =~= fixed_lit_lens_spec());
    }
    v
}

/// The fixed distance code lengths: 30 symbols of length 5.
fn fixed_dist_lens() -> (r: Vec<u8>)
    ensures
        r@ == fixed_dist_lens_spec(),
        r@.len() == 30,
        forall|i: int| 0 <= i < 30 ==> #[trigger] r@[i] <= 15,
{
    let mut v: Vec<u8> = Vec::new();
    let mut i: usize = 0;
    while i < 30
        invariant
            0 <= i <= 30,
            v@.len() == i,
            forall|k: int| 0 <= k < i ==> #[trigger] v@[k] <= 15,
            forall|k: int| 0 <= k < i ==> #[trigger] v@[k] == fixed_dist_lens_spec()[k],
        decreases 30 - i,
    {
        v.push(5);
        i = i + 1;
    }
    proof {
        assert(v@ =~= fixed_dist_lens_spec());
    }
    v
}

/// The order in which the code-length-code lengths are stored in a dynamic
/// block header.
fn clen_order(i: usize) -> (r: usize)
    requires
        i < 19,
    ensures
        r as int == clen_order_spec(i as int),
        r < 19,
{
    match i {
        0usize => 16,
        1usize => 17,
        2usize => 18,
        3usize => 0,
        4usize => 8,
        5usize => 7,
        6usize => 9,
        7usize => 6,
        8usize => 10,
        9usize => 5,
        10usize => 11,
        11usize => 4,
        12usize => 12,
        13usize => 3,
        14usize => 13,
        15usize => 2,
        16usize => 14,
        17usize => 1,
        _ => 15,
    }
}

/// Reads a dynamic block's header and builds its literal/length and
/// distance tables: the code-length-code lengths, then the two length
/// arrays decoded with them (with the repeat codes 16, 17 and 18), exactly
/// as `dyn_tables_spec` describes.
fn dynamic_tables(st: &mut Inflater, data: &[u8]) -> (r: Result<(HuffTable, HuffTable), PngError>)
    requires
        old(st).wf(data@),
    ensures
        final(st).wf(data@),
        final(st).out == old(st).out,
        final(st).pos() >= old(st).pos(),
        match r {
            Ok(t) => {
                &&& dyn_tables_spec(data@, old(st).pos()) == Ok::<(Seq<u8>, Seq<u8>, int), PngError>(
                    (t.0.lens@, t.1.lens@, final(st).pos()),
                )
                &&& t.0.wf()
                &&& t.0.lens@.len() <= 288
                &&& t.1.wf()
                &&& t.1.lens@.len() <= 30
            },
            Err(e) => dyn_tables_spec(data@, old(st).pos()) == Err::<
                (Seq<u8>, Seq<u8>, int),
                PngError,
            >(e),
        },
{
    let ghost p0 = old(st).pos();
    let hlit_raw = match st.read_bits(data, 5) {
        Ok(v) => v,
        Err(e) => {
            return Err(e);
        },
    };
    let hlit = hlit_raw as usize + 257;
    if hlit > 286 {
        return Err(PngError::InvalidHuffmanCode);
    }
    let hdist_raw = match st.read_bits(data, 5) {
        Ok(v) => v,
        Err(e) => {
            return Err(e);
        },
    };
    let hdist = hdist_raw as usize + 1;
    if hdist > 30 {
        return Err(PngError::InvalidHuffmanCode);
    }
    let hclen_raw = match st.read_bits(data, 4) {
        Ok(v) => v,
        Err(e) => {
            return Err(e);
        },
    };
    let hclen = hclen_raw as usize + 4;
    proof {
        lemma_pow2i_vals();
        assert(hclen <= 19);
    }
    let ghost zeros_v = Seq::new(19, |j: int| 0u8);
    let mut clen_lens: Vec<u8> = Vec::new();
    let mut i: usize = 0;
    while i < 19
        invariant
            0 <= i <= 19,
            clen_lens@.len() == i,
            forall|k: int| 0 <= k < i ==> #[trigger] clen_lens@[k] == 0u8,
        decreases 19 - i,
    {
        clen_lens.push(0);
        i = i + 1;
    }
    proof {
        assert(clen_lens@ =~= zeros_v);
    }
    let mut i: usize = 0;
    while i < hclen
        invariant
            0 <= i <= hclen,
            4 <= hclen <= 19,
            st.wf(data@),
            st.out == old(st).out,
            p0 == old(st).pos(),
            st.pos() == p0 + 14 + 3 * i,
            hlit as int == bits_value(data@, p0, 5) + 257,
            257 <= hlit <= 286,
            hdist as int == bits_value(data@, p0 + 5, 5) + 1,
            1 <= hdist <= 30,
            hclen as int == bits_value(data@, p0 + 10, 4) + 4,
            zeros_v == Seq::new(19, |j: int| 0u8),
            clen_lens@.len() == 19,
            forall|k: int| 0 <= k < 19 ==> #[trigger] clen_lens@[k] <= 15,
            clen_lens_spec(data@, p0 + 14, hclen as int, 0, zeros_v) == clen_lens_spec(
                data@,
                p0 + 14,
                hclen as int,
                i as int,
                clen_lens@,
            ),
        decreases hclen - i,
    {
        let v = match st.read_bits(data, 3) {
            Ok(v) => v,
            Err(e) => {
                proof {
                    assert(p0 + 14 + 3 * (hclen as int) > 8 * data@.len());
                    assert(dyn_tables_spec(data@, p0) == Err::<(Seq<u8>, Seq<u8>, int), PngError>(
                        e,
                    ));
                }
                return Err(e);
            },
        };
        proof {
            lemma_pow2i_vals();
            assert(v < 8);
        }
        let ghost old_clens = clen_lens@;
        clen_lens.set(clen_order(i), v as u8);
        proof {
            assert(clen_lens@ == old_clens.update(
                clen_order_spec(i as int),
                bits_value(data@, p0 + 14 + 3 * i, 3) as u8,
            ));
        }
        i = i + 1;
    }
    let ghost clens_v = clen_lens_spec(data@, p0 + 14, hclen as int, 0, zeros_v);
    proof {
        assert(clens_v == clen_lens@);
    }
    let clen_table = build_huff(&clen_lens);
    let target = hlit + hdist;
    let ghost p_cl0 = p0 + 14 + 3 * (hclen as int);
    let mut lens: Vec<u8> = Vec::new();
    while lens.len() < target
        invariant
            st.wf(data@),
            st.out == old(st).out,
            p0 == old(st).pos(),
            st.pos() >= old(st).pos(),
            clen_table.wf(),
            clen_table.lens@ == clens_v,
            clen_table.lens@.len() == 19,
            hlit as int == bits_value(data@, p0, 5) + 257,
            257 <= hlit <= 286,
            hdist as int == bits_value(data@, p0 + 5, 5) + 1,
            1 <= hdist <= 30,
            hclen as int == bits_value(data@, p0 + 10, 4) + 4,
            4 <= hclen <= 19,
            p_cl0 == p0 + 14 + 3 * (hclen as int),
            p_cl0 <= 8 * data@.len(),
            zeros_v == Seq::new(19, |j: int| 0u8),
            clens_v == clen_lens_spec(data@, p0 + 14, hclen as int, 0, zeros_v),
            target == hlit + hdist,
            target <= 316,
            lens@.len() <= target,
            forall|k: int| 0 <= k < lens@.len() ==> #[trigger] lens@[k] <= 15,
            code_lens_spec(data@, clens_v, p_cl0, Seq::empty(), target as int) == code_lens_spec(
                data@,
                clens_v,
                st.pos(),
                lens@,
                target as int,
            ),
        decreases 8 * data@.len() - st.pos(),
    {
        let ghost acc0 = lens@;
        let ghost pp0 = st.pos();
        let sym = match st.decode_sym(data, &clen_table) {
            Ok(v) => v,
            Err(e) => {
                proof {
                    assert(code_lens_spec(data@, clens_v, pp0, acc0, target as int) == Err::<
                        (Seq<u8>, int),
                        PngError,
                    >(e));
                    assert(dyn_tables_spec(data@, p0) == Err::<(Seq<u8>, Seq<u8>, int), PngError>(
                        e,
                    ));
                }
                return Err(e);
            },
        };
        if sym < 16 {
            lens.push(sym as u8);
        } else if sym == 16 {
            if lens.len() == 0 {
                proof {
                    assert(dyn_tables_spec(data@, p0) == Err::<(Seq<u8>, Seq<u8>, int), PngError>(
                        PngError::InvalidHuffmanCode,
                    ));
                }
                return Err(PngError::InvalidHuffmanCode);
            }
            let ghost p2 = st.pos();
            let rep_raw = match st.read_bits(data, 2) {
                Ok(v) => v,
                Err(e) => {
                    proof {
                        assert(dyn_tables_spec(data@, p0) == Err::<
                            (Seq<u8>, Seq<u8>, int),
                            PngError,
                        >(e));
                    }
                    return Err(e);
                },
            };
            let rep = rep_raw as usize + 3;
            proof {
                lemma_bits_value_bound(data@, p2, 2);
            }
            if lens.len() + rep > target {
                proof {
                    assert(dyn_tables_spec(data@, p0) == Err::<(Seq<u8>, Seq<u8>, int), PngError>(
                        PngError::InvalidHuffmanCode,
                    ));
                }
                return Err(PngError::InvalidHuffmanCode);
            }
            let last = lens[lens.len() - 1];
            let ghost before_rep = lens@;
            let mut k: usize = 0;
            while k < rep
                invariant
                    0 <= k <= rep,
                    lens@.len() + rep - k <= target,
                    target <= 316,
                    last <= 15,
                    lens@ == before_rep + Seq::new(k as nat, |j: int| last),
                    forall|j: int| 0 <= j < lens@.len() ==> #[trigger] lens@[j] <= 15,
                decreases rep - k,
            {
                lens.push(last);
                proof {
                    assert(lens@ =~= before_rep + Seq::new((k + 1) as nat, |j: int| last));
                }
                k = k + 1;
            }
            proof {
                assert(last == before_rep.last());
                assert(Seq::new(rep as nat, |j: int| last) =~= Seq::new(
                    rep as nat,
                    |j: int| before_rep.last(),
                ));
            }
        } else {
            let (nbits, base) = if sym == 17 {
                (3u32, 3usize)
            } else {
                (7u32, 11usize)
            };
            let ghost p2 = st.pos();
            let rep_raw = match st.read_bits(data, nbits) {
                Ok(v) => v,
                Err(e) => {
                    proof {
                        assert(dyn_tables_spec(data@, p0) == Err::<
                            (Seq<u8>, Seq<u8>, int),
                            PngError,
                        >(e));
                    }
                    return Err(e);
                },
            };
            let rep = rep_raw as usize + base;
            proof {
                lemma_bits_value_bound(data@, p2, nbits as nat);
            }
            if lens.len() + rep > target {
                proof {
                    assert(dyn_tables_spec(data@, p0) == Err::<(Seq<u8>, Seq<u8>, int), PngError>(
                        PngError::InvalidHuffmanCode,
                    ));
                }
                return Err(PngError::InvalidHuffmanCode);
            }
            let ghost before_rep = lens@;
            let mut k: usize = 0;
            while k < rep
                invariant
                    0 <= k <= rep,
                    lens@.len() + rep - k <= target,
                    target <= 316,
                    lens@ == before_rep + Seq::new(k as nat, |j: int| 0u8),
                    forall|j: int| 0 <= j < lens@.len() ==> #[trigger] lens@[j] <= 15,
                decreases rep - k,
            {
                lens.push(0);
                proof {
                    assert(lens@ =~= before_rep + Seq::new((k + 1) as nat, |j: int| 0u8));
                }
                k = k + 1;
            }
        }
    }
    let ghost lens_v = lens@;
    let ghost p_end = st.pos();
    proof {
        assert(code_lens_spec(data@, clens_v, p_cl0, Seq::empty(), target as int) == Ok::<
            (Seq<u8>, int),
            PngError,
        >((lens_v, p_end)));
    }
    let mut lit_lens: Vec<u8> = Vec::new();
    let mut i: usize = 0;
    while i < hlit
        invariant
            0 <= i <= hlit,
            hlit <= lens@.len(),
            lit_lens@.len() == i,
            forall|k: int| 0 <= k < lens@.len() ==> #[trigger] lens@[k] <= 15,
            forall|k: int| 0 <= k < i ==> #[trigger] lit_lens@[k] == lens@[k],
            forall|k: int| 0 <= k < i ==> #[trigger] lit_lens@[k] <= 15,
        decreases hlit - i,
    {
        lit_lens.push(lens[i]);
        i = i + 1;
    }
    let mut dist_lens: Vec<u8> = Vec::new();
    let mut i: usize = hlit;
    while i < target
        invariant
            hlit <= i <= target,
            target == lens@.len(),
            target - hlit <= 30,
            dist_lens@.len() == i - hlit,
            forall|k: int| 0 <= k < lens@.len() ==> #[trigger] lens@[k] <= 15,
            forall|k: int| 0 <= k < dist_lens@.len() ==> #[trigger] dist_lens@[k] == lens@[
                hlit + k
            ],
            forall|k: int| 0 <= k < dist_lens@.len() ==> #[trigger] dist_lens@[k] <= 15,
        decreases target - i,
    {
        dist_lens.push(lens[i]);
        i = i + 1;
    }
    proof {
        assert(lit_lens@ =~= lens_v.subrange(0, hlit as int));
        assert(dist_lens@ =~= lens_v.subrange(hlit as int, hlit as int + hdist as int));
    }
    let lit_table = build_huff(&lit_lens);
    let dist_table = build_huff(&dist_lens);
    proof {
        assert(dyn_tables_spec(data@, p0) == Ok::<(Seq<u8>, Seq<u8>, int), PngError>(
            (lit_table.lens@, dist_table.lens@, p_end),
        ));
    }
    Ok((lit_table, dist_table))
}

/// Inflates a raw DEFLATE stream (the bytes after the 2-byte zlib header):
/// processes stored, fixed-Huffman and dynamic-Huffman blocks until a block
/// with BFINAL set, then byte-aligns and checks the big-endian Adler-32
/// trailer against the inflated bytes — exactly as `inflate_spec`
/// describes, in both the success and every failure case.
#[verifier::rlimit(100)]
pub fn inflate(data: &[u8]) -> (r: Result<Vec<u8>, PngError>)
    ensures
        match r {
            Ok(out) => inflate_spec(data@) == Ok::<Seq<u8>, PngError>(out@),
            Err(e) => inflate_spec(data@) == Err::<Seq<u8>, PngError>(e),
        },
{
    let mut st = Inflater { byte: 0, bit: 0, out: Vec::new() };
    let mut done = false;
    while !done
        invariant
            st.wf(data@),
            inflate_blocks(data@, 0, Seq::empty()) == (if done {
                Ok::<(Seq<u8>, int), PngError>((st.out@, st.pos()))
            } else {
                inflate_blocks(data@, st.pos(), st.out@)
            }),
        decreases 8 * data@.len() - st.pos() + (if done {
            0int
        } else {
            1int
        }),
    {
        let ghost pos_b = st.pos();
        let ghost out_b = st.out@;
        let bfinal = match st.read_bit(data) {
            Ok(b) => b,
            Err(e) => {
                proof {
                    assert(inflate_blocks(data@, pos_b, out_b) == Err::<(Seq<u8>, int), PngError>(
                        e,
                    ));
                }
                return Err(e);
            },
        };
        let btype = match st.read_bits(data, 2) {
            Ok(v) => v,
            Err(e) => {
                proof {
                    assert(inflate_blocks(data@, pos_b, out_b) == Err::<(Seq<u8>, int), PngError>(
                        e,
                    ));
                }
                return Err(e);
            },
        };
        proof {
            assert(bfinal == stream_bit(data@, pos_b));
            assert(btype as int == bits_value(data@, pos_b + 1, 2));
            assert(st.pos() == pos_b + 3);
        }
        if btype == 0 {
            match st.stored_block(data) {
                Ok(()) => {
                    proof {
                        let b0 = (pos_b + 3 + 7) / 8;
                        assert(st.pos() == 8 * (b0 + 4 + le16_at(data@, b0) as int));
                        assert(8 * b0 >= pos_b + 3 - 7);
                        assert(st.pos() > pos_b + 3);
                    }
                },
                Err(e) => {
                    proof {
                        assert(inflate_blocks(data@, pos_b, out_b) == Err::<
                            (Seq<u8>, int),
                            PngError,
                        >(e));
                    }
                    return Err(e);
                },
            }
        } else if btype == 1 {
            let lit_lens = fixed_litlen_lens();
            let dist_lens = fixed_dist_lens();
            let lit = build_huff(&lit_lens);
            let dist = build_huff(&dist_lens);
            match st.huff_block(data, &lit, &dist) {
                Ok(()) => {
                    proof {
                        lemma_huff_symbols_pos(
                            data@,
                            fixed_lit_lens_spec(),
                            fixed_dist_lens_spec(),
                            pos_b + 3,
                            out_b,
                        );
                        assert(st.pos() > pos_b + 3);
                    }
                },
                Err(e) => {
                    proof {
                        assert(inflate_blocks(data@, pos_b, out_b) == Err::<
                            (Seq<u8>, int),
                            PngError,
                        >(e));
                    }
                    return Err(e);
                },
            }
        } else if btype == 2 {
            let tables = match dynamic_tables(&mut st, data) {
                Ok(t) => t,
                Err(e) => {
                    proof {
                        assert(inflate_blocks(data@, pos_b, out_b) == Err::<
                            (Seq<u8>, int),
                            PngError,
                        >(e));
                    }
                    return Err(e);
                },
            };
            let ghost pd = st.pos();
            match st.huff_block(data, &tables.0, &tables.1) {
                Ok(()) => {
                    proof {
                        lemma_huff_symbols_pos(data@, tables.0.lens@, tables.1.lens@, pd, out_b);
                        assert(st.pos() > pd >= pos_b + 3);
                    }
                },
                Err(e) => {
                    proof {
                        assert(inflate_blocks(data@, pos_b, out_b) == Err::<
                            (Seq<u8>, int),
                            PngError,
                        >(e));
                    }
                    return Err(e);
                },
            }
        } else {
            proof {
                assert(inflate_blocks(data@, pos_b, out_b) == Err::<(Seq<u8>, int), PngError>(
                    PngError::InvalidBlockType,
                ));
            }
            return Err(PngError::InvalidBlockType);
        }
        proof {
            assert(st.pos() <= 8 * data@.len());
            if bfinal == 1 {
                assert(inflate_blocks(data@, pos_b, out_b) == Ok::<(Seq<u8>, int), PngError>(
                    (st.out@, st.pos()),
                ));
            } else {
                assert(inflate_blocks(data@, pos_b, out_b) == inflate_blocks(
                    data@,
                    st.pos(),
                    st.out@,
                ));
            }
        }
        done = bfinal == 1;
    }
    let dlen = data.len();
    proof {
        assert(data@.len() == dlen);
    }
    let ghost pos_last = st.pos();
    st.align(Ghost(data@));
    proof {
        assert(st.byte as int == (pos_last + 7) / 8);
    }
    if data.len() - st.byte < 4 {
        proof {
            assert(inflate_spec(data@) == Err::<Seq<u8>, PngError>(PngError::TruncatedChunk));
        }
        return Err(PngError::TruncatedChunk);
    }
    let stored = read_be32(data, st.byte);
    let computed = adler32(st.out.as_slice());
    if stored != computed {
        proof {
            assert(inflate_spec(data@) == Err::<Seq<u8>, PngError>(PngError::ChecksumMismatch));
        }
        return Err(PngError::ChecksumMismatch);
    }
    proof {
        assert(inflate_spec(data@) == Ok::<Seq<u8>, PngError>(st.out@));
    }
    Ok(st.out)
}

} // verus!
