//! Splitting a PNG byte stream into typed, CRC-checked chunks.

use vstd::prelude::*;
use crate::bytes::{be32_at, copy_range, read_be32};
use crate::checksum::{crc32_pair, crc32_spec};
use crate::error::PngError;

verus! {

/// One chunk of the container: a 4-byte ASCII type code, its payload, and
/// the CRC stored after the payload.
pub struct Chunk {
    /// The 4-byte type code, e.g. `IHDR`.
    pub ctype: Vec<u8>,
    /// The payload bytes.
    pub data: Vec<u8>,
    /// The stored CRC-32 (over type code then payload).
    pub crc: u32,
}

/// The mathematical model of a chunk.
pub struct SpecChunk {
    /// The 4-byte type code.
    pub ctype: Seq<u8>,
    /// The payload bytes.
    pub data: Seq<u8>,
    /// The stored CRC-32.
    pub crc: u32,
}

impl View for Chunk {
    type V = SpecChunk;

    open spec fn view(&self) -> SpecChunk {
        SpecChunk { ctype: self.ctype@, data: self.data@, crc: self.crc }
    }
}

impl SpecChunk {
    /// A structurally valid chunk: 4-byte type code, matching CRC.
    pub open spec fn wf(self) -> bool {
        &&& self.ctype.len() == 4
        &&& self.crc == crc32_spec(self.ctype + self.data)
    }
}

/// The fixed 8-byte PNG signature heads the stream.
pub open spec fn is_png_signature(s: Seq<u8>) -> bool {
    &&& s.len() >= 8
    &&& s[0] == 137u8
    &&& s[1] == 80u8
    &&& s[2] == 78u8
    &&& s[3] == 71u8
    &&& s[4] == 13u8
    &&& s[5] == 10u8
    &&& s[6] == 26u8
    &&& s[7] == 10u8
}

/// The `IHDR` type code.
pub open spec fn type_ihdr() -> Seq<u8> {
    seq![73u8, 72u8, 68u8, 82u8]
}

/// The `PLTE` type code.
pub open spec fn type_plte() -> Seq<u8> {
    seq![80u8, 76u8, 84u8, 69u8]
}

/// The `IDAT` type code.
pub open spec fn type_idat() -> Seq<u8> {
    seq![73u8, 68u8, 65u8, 84u8]
}

/// The `IEND` type code.
pub open spec fn type_iend() -> Seq<u8> {
    seq![73u8, 69u8, 78u8, 68u8]
}

/// A type code whose first letter is uppercase names a critical chunk.
pub open spec fn is_critical_type(t: Seq<u8>) -> bool
    recommends
        t.len() == 4,
{
    65 <= t[0] <= 90
}

/// A critical type code this decoder knows how to handle.
pub open spec fn is_recognized_critical(t: Seq<u8>) -> bool {
    t == type_ihdr() || t == type_plte() || t == type_idat() || t == type_iend()
}

/// The chunk laid out at offset `i` (length, type, data, CRC fields).
pub open spec fn chunk_at(bytes: Seq<u8>, i: int) -> SpecChunk
    recommends
        0 <= i,
        i + 12 + be32_at(bytes, i) <= bytes.len(),
{
    let n = be32_at(bytes, i) as int;
    SpecChunk {
        ctype: bytes.subrange(i + 4, i + 8),
        data: bytes.subrange(i + 8, i + 8 + n),
        crc: be32_at(bytes, i + 8 + n),
    }
}

/// The chunk sequence laid out from offset `i` to the end of the buffer or
/// an `IEND` chunk (inclusive), or the first structural error: truncation,
/// a CRC mismatch, or an unrecognized critical chunk.
pub open spec fn chunks_from(bytes: Seq<u8>, i: int) -> Result<Seq<SpecChunk>, PngError>
    recommends
        0 <= i <= bytes.len(),
    decreases bytes.len() - i,
{
    if i >= bytes.len() {
        Ok(Seq::empty())
    } else if i + 12 > bytes.len() {
        Err(PngError::TruncatedChunk)
    } else {
        let n = be32_at(bytes, i) as int;
        if i + 12 + n > bytes.len() {
            Err(PngError::TruncatedChunk)
        } else {
            let c = chunk_at(bytes, i);
            if c.crc != crc32_spec(c.ctype + c.data) {
                Err(PngError::BadCrc)
            } else if c.ctype == type_iend() {
                Ok(seq![c])
            } else if is_critical_type(c.ctype) && !is_recognized_critical(c.ctype) {
                Err(PngError::UnsupportedCriticalChunk)
            } else {
                match chunks_from(bytes, i + 12 + n) {
                    Ok(rest) => Ok(seq![c] + rest),
                    Err(e) => Err(e),
                }
            }
        }
    }
}

/// The chunk sequence of a whole PNG stream: the fixed signature followed
/// by chunks up to `IEND` or the end of the buffer.
pub open spec fn parse_png_spec(bytes: Seq<u8>) -> Result<Seq<SpecChunk>, PngError> {
    if !is_png_signature(bytes) {
        Err(PngError::SignatureMismatch)
    } else {
        chunks_from(bytes, 8)
    }
}

/// The views of a parsed chunk vector.
pub open spec fn chunks_view(v: Seq<Chunk>) -> Seq<SpecChunk> {
    v.map_values(|c: Chunk| c@)
}

/// Every chunk a successful parse yields is well formed.
pub proof fn lemma_chunks_from_wf(bytes: Seq<u8>, i: int)
    requires
        0 <= i <= bytes.len(),
        chunks_from(bytes, i) is Ok,
    ensures
        forall|k: int|
            0 <= k < chunks_from(bytes, i)->Ok_0.len() ==> (
            #[trigger] chunks_from(bytes, i)->Ok_0[k]).wf(),
    decreases bytes.len() - i,
{
    if i >= bytes.len() {
    } else {
        let n = be32_at(bytes, i) as int;
        let c = chunk_at(bytes, i);
        if c.crc == crc32_spec(c.ctype + c.data) && c.ctype != type_iend() && !(is_critical_type(
            c.ctype,
        ) && !is_recognized_critical(c.ctype)){
            lemma_chunks_from_wf(bytes, i + 12 + n);
        }
    }
}

/// Whether a 4-byte type code equals the given four bytes.
pub fn type_is(t: &Vec<u8>, w: u8, x: u8, y: u8, z: u8) -> (r: bool)
    requires
        t@.len() == 4,
    ensures
        r <==> t@ == seq![w, x, y, z],
{
    let e = t[0] == w && t[1] == x && t[2] == y && t[3] == z;
    proof {
        if e {
            assert(t@ =~= seq![w, x, y, z]);
        } else {
            if t@ == seq![w, x, y, z] {
                assert(t@[0] == w && t@[1] == x && t@[2] == y && t@[3] == z);
            }
        }
    }
    e
}

/// Splits a PNG byte stream into its chunks, validating the signature, the
/// framing, each chunk's CRC, and that every critical chunk is recognized.
///
/// Returns exactly what `parse_png_spec` describes.
pub fn read_chunks(bytes: &[u8]) -> (r: Result<Vec<Chunk>, PngError>)
    ensures
        match r {
            Ok(cs) => parse_png_spec(bytes@) == Ok::<Seq<SpecChunk>, PngError>(chunks_view(cs@)),
            Err(e) => parse_png_spec(bytes@) == Err::<Seq<SpecChunk>, PngError>(e),
        },
{
    let n_total = bytes.len();
    if n_total < 8 {
        return Err(PngError::SignatureMismatch);
    }
    if !(bytes[0] == 137 && bytes[1] == 80 && bytes[2] == 78 && bytes[3] == 71 && bytes[4] == 13
        && bytes[5] == 10 && bytes[6] == 26 && bytes[7] == 10) {
        return Err(PngError::SignatureMismatch);
    }
    let mut acc: Vec<Chunk> = Vec::new();
    let mut idx: usize = 8;
    while idx < n_total
        invariant
            8 <= idx <= n_total,
            n_total == bytes@.len(),
            is_png_signature(bytes@),
            chunks_from(bytes@, 8) == (match chunks_from(bytes@, idx as int) {
                Ok(rest) => Ok::<Seq<SpecChunk>, PngError>(chunks_view(acc@) + rest),
                Err(e) => Err::<Seq<SpecChunk>, PngError>(e),
            }),
        decreases n_total - idx,
    {
        if n_total - idx < 12 {
            return Err(PngError::TruncatedChunk);
        }
        let n = read_be32(bytes, idx) as usize;
        if n > n_total - idx - 12 {
            return Err(PngError::TruncatedChunk);
        }
        let ctype = copy_range(bytes, idx + 4, idx + 8);
        let data = copy_range(bytes, idx + 8, idx + 8 + n);
        let crc_stored = read_be32(bytes, idx + 8 + n);
        let crc_computed = crc32_pair(ctype.as_slice(), data.as_slice());
        let ghost c = chunk_at(bytes@, idx as int);
        proof {
            assert(ctype@ + data@ =~= c.ctype + c.data);
        }
        if crc_stored != crc_computed {
            return Err(PngError::BadCrc);
        }
        let chunk = Chunk { ctype, data, crc: crc_stored };
        proof {
            assert(chunk@ == c);
        }
        let t = &chunk.ctype;
        let is_iend = t[0] == 73 && t[1] == 69 && t[2] == 78 && t[3] == 68;
        if is_iend {
            proof {
                assert(c.ctype =~= type_iend());
            }
            let ghost old_acc = acc@;
            acc.push(chunk);
            proof {
                assert(chunks_from(bytes@, idx as int) == Ok::<Seq<SpecChunk>, PngError>(seq![c]));
                assert(chunks_view(acc@) =~= chunks_view(old_acc) + seq![c]);
            }
            return Ok(acc);
        }
        proof {
            assert(c.ctype.len() == 4);
            assert(c.ctype[0] == t@[0] && c.ctype[1] == t@[1] && c.ctype[2] == t@[2] && c.ctype[3]
                == t@[3]);
            assert(c.ctype != type_iend()) by {
                if c.ctype == type_iend() {
                    assert(c.ctype[0] == 73 && c.ctype[1] == 69 && c.ctype[2] == 78 && c.ctype[3]
                        == 68);
                }
            }
        }
        let is_ihdr = t[0] == 73 && t[1] == 72 && t[2] == 68 && t[3] == 82;
        let is_plte = t[0] == 80 && t[1] == 76 && t[2] == 84 && t[3] == 69;
        let is_idat = t[0] == 73 && t[1] == 68 && t[2] == 65 && t[3] == 84;
        proof {
            if is_ihdr {
                assert(c.ctype =~= type_ihdr());
            }
            if is_plte {
                assert(c.ctype =~= type_plte());
            }
            if is_idat {
                assert(c.ctype =~= type_idat());
            }
            if !is_ihdr && !is_plte && !is_idat {
                assert(c.ctype != type_ihdr() && c.ctype != type_plte() && c.ctype != type_idat())
                    by {
                    if c.ctype == type_ihdr() {
                        assert(c.ctype[0] == 73 && c.ctype[1] == 72 && c.ctype[2] == 68
                            && c.ctype[3] == 82);
                    }
                    if c.ctype == type_plte() {
                        assert(c.ctype[0] == 80 && c.ctype[1] == 76 && c.ctype[2] == 84
                            && c.ctype[3] == 69);
                    }
                    if c.ctype == type_idat() {
                        assert(c.ctype[0] == 73 && c.ctype[1] == 68 && c.ctype[2] == 65
                            && c.ctype[3] == 84);
                    }
                }
            }
        }
        if (t[0] >= 65 && t[0] <= 90) && !(is_ihdr || is_plte || is_idat) {
            return Err(PngError::UnsupportedCriticalChunk);
        }
        let ghost old_acc = acc@;
        acc.push(chunk);
        proof {
            assert(chunks_view(acc@) =~= chunks_view(old_acc) + seq![c]);
            if chunks_from(bytes@, idx as int + 12 + n as int) is Ok {
                let rest = chunks_from(bytes@, idx as int + 12 + n as int)->Ok_0;
                assert(chunks_from(bytes@, idx as int) == Ok::<Seq<SpecChunk>, PngError>(
                    seq![c] + rest,
                ));
                assert(chunks_view(old_acc) + (seq![c] + rest) =~= (chunks_view(old_acc) + seq![c])
                    + rest);
            }
        }
        idx = idx + 12 + n;
    }
    proof {
        assert(chunks_from(bytes@, idx as int) == Ok::<Seq<SpecChunk>, PngError>(Seq::empty()));
        assert(chunks_view(acc@) + Seq::<SpecChunk>::empty() =~= chunks_view(acc@));
    }
    Ok(acc)
}

/// Position `p` lies inside the stored CRC field of one of the chunks laid
/// out from offset `i`.
pub open spec fn in_crc_field(bytes: Seq<u8>, i: int, p: int) -> bool
    recommends
        0 <= i <= bytes.len(),
    decreases bytes.len() - i,
{
    if i + 12 > bytes.len() {
        false
    } else {
        let n = be32_at(bytes, i) as int;
        if i + 12 + n > bytes.len() {
            false
        } else if i + 8 + n <= p < i + 12 + n {
            true
        } else {
            bytes.subrange(i + 4, i + 8) != type_iend() && p >= i + 12 + n && in_crc_field(
                bytes,
                i + 12 + n,
                p,
            )
        }
    }
}

/// Two big-endian words whose encodings differ in one byte differ.
proof fn lemma_be32_changed(s: Seq<u8>, t: Seq<u8>, j: int, p: int)
    requires
        0 <= j,
        j <= p < j + 4,
        j + 4 <= s.len(),
        j + 4 <= t.len(),
        s[p] != t[p],
        forall|q: int| j <= q < j + 4 && q != p ==> s[q] == t[q],
    ensures
        be32_at(s, j) != be32_at(t, j),
{
    let a0 = s[j];
    let a1 = s[j + 1];
    let a2 = s[j + 2];
    let a3 = s[j + 3];
    let b0 = t[j];
    let b1 = t[j + 1];
    let b2 = t[j + 2];
    let b3 = t[j + 3];
    assert((a0 != b0 || a1 != b1 || a2 != b2 || a3 != b3) ==> ((a0 as u32) << 24) | ((a1 as u32)
        << 16) | ((a2 as u32) << 8) | (a3 as u32) != ((b0 as u32) << 24) | ((b1 as u32) << 16) | ((
    b2 as u32) << 8) | (b3 as u32)) by (bit_vector);
}

/// Corrupting one byte of a chunk's stored CRC turns a successful layout
/// parse into `BadCrc`.
proof fn lemma_crc_corruption_from(bytes: Seq<u8>, bytes2: Seq<u8>, i: int, p: int)
    requires
        0 <= i <= bytes.len(),
        chunks_from(bytes, i) is Ok,
        in_crc_field(bytes, i, p),
        bytes2.len() == bytes.len(),
        0 <= p < bytes.len(),
        bytes2[p] != bytes[p],
        forall|q: int| 0 <= q < bytes.len() && q != p ==> bytes[q] == bytes2[q],
    ensures
        chunks_from(bytes2, i) == Err::<Seq<SpecChunk>, PngError>(PngError::BadCrc),
    decreases bytes.len() - i,
{
    let n = be32_at(bytes, i) as int;
    assert(bytes2.subrange(i, i + 4) =~= bytes.subrange(i, i + 4)) by {
        assert(p >= i + 8);
    }
    assert(be32_at(bytes2, i) == be32_at(bytes, i)) by {
        assert(bytes2[i] == bytes[i] && bytes2[i + 1] == bytes[i + 1] && bytes2[i + 2] == bytes[i
            + 2] && bytes2[i + 3] == bytes[i + 3]);
    }
    let c = chunk_at(bytes, i);
    let c2 = chunk_at(bytes2, i);
    assert(c2.ctype =~= c.ctype);
    assert(c2.data =~= c.data);
    assert(c.crc == crc32_spec(c.ctype + c.data));
    if i + 8 + n <= p < i + 12 + n {
        lemma_be32_changed(bytes, bytes2, i + 8 + n, p);
        assert(c2.crc != c.crc);
        assert(chunks_from(bytes2, i) == Err::<Seq<SpecChunk>, PngError>(PngError::BadCrc));
    } else {
        assert(c2.crc == c.crc) by {
            assert(bytes2[i + 8 + n] == bytes[i + 8 + n] && bytes2[i + 9 + n] == bytes[i + 9 + n]
                && bytes2[i + 10 + n] == bytes[i + 10 + n] && bytes2[i + 11 + n] == bytes[i + 11
                + n]);
        }
        assert(c.ctype != type_iend());
        lemma_crc_corruption_from(bytes, bytes2, i + 12 + n, p);
        assert(chunks_from(bytes2, i) == Err::<Seq<SpecChunk>, PngError>(PngError::BadCrc));
    }
}

/// Corrupting a single byte anywhere in a chunk's CRC field makes the whole
/// parse fail with `BadCrc`: no chunk sequence, and so no decoded image, can
/// come out of the corrupted stream.
pub proof fn lemma_crc_corruption(bytes: Seq<u8>, bytes2: Seq<u8>, p: int)
    requires
        parse_png_spec(bytes) is Ok,
        in_crc_field(bytes, 8, p),
        bytes2.len() == bytes.len(),
        0 <= p < bytes.len(),
        bytes2[p] != bytes[p],
        forall|q: int| 0 <= q < bytes.len() && q != p ==> bytes[q] == bytes2[q],
    ensures
        parse_png_spec(bytes2) == Err::<Seq<SpecChunk>, PngError>(PngError::BadCrc),
{
    assert(is_png_signature(bytes));
    assert(p >= 16);
    assert(is_png_signature(bytes2)) by {
        assert(forall|q: int| 0 <= q < 8 ==> bytes2[q] == bytes[q]);
    }
    lemma_crc_corruption_from(bytes, bytes2, 8, p);
}

} // verus!
