//! CRC-32 (chunk integrity) and Adler-32 (inflated payload integrity),
//! each defined by a mathematical spec function and computed by a verified
//! executable counterpart.

use vstd::prelude::*;

verus! {

/// One shift step of the reflected CRC-32 polynomial 0xEDB88320.
pub open spec fn crc_shift(c: u32) -> u32 {
    if c & 1 == 1 {
        (c >> 1) ^ 0xEDB88320u32
    } else {
        c >> 1
    }
}

/// `n` shift steps applied to `c`.
pub open spec fn crc_shift_n(c: u32, n: nat) -> u32
    decreases n,
{
    if n == 0 {
        c
    } else {
        crc_shift(crc_shift_n(c, (n - 1) as nat))
    }
}

/// Folding one byte into a running CRC state: xor it in, then shift 8 times.
pub open spec fn crc_update(c: u32, b: u8) -> u32 {
    crc_shift_n(c ^ (b as u32), 8)
}

/// Folding a whole byte sequence into a running CRC state.
pub open spec fn crc_fold(c: u32, s: Seq<u8>) -> u32
    decreases s.len(),
{
    if s.len() == 0 {
        c
    } else {
        crc_fold(crc_update(c, s[0]), s.drop_first())
    }
}

/// The CRC-32 of a byte sequence: fold starting from all-ones, then invert.
pub open spec fn crc32_spec(s: Seq<u8>) -> u32 {
    crc_fold(0xFFFFFFFFu32, s) ^ 0xFFFFFFFFu32
}

/// Folding over a concatenation equals folding the parts in order.
pub proof fn lemma_crc_fold_concat(c: u32, a: Seq<u8>, b: Seq<u8>)
    ensures
        crc_fold(c, a + b) == crc_fold(crc_fold(c, a), b),
    decreases a.len(),
{
    if a.len() == 0 {
        assert(a + b =~= b);
    } else {
        assert((a + b).drop_first() =~= a.drop_first() + b);
        lemma_crc_fold_concat(crc_update(c, a[0]), a.drop_first(), b);
    }
}

/// Feeds a byte slice into a running CRC state.
pub fn crc_feed(c0: u32, data: &[u8]) -> (r: u32)
    ensures
        r == crc_fold(c0, data@),
{
    let mut c = c0;
    let mut i: usize = 0;
    proof {
        assert(data@.skip(0) =~= data@);
    }
    while i < data.len()
        invariant
            0 <= i <= data@.len(),
            crc_fold(c0, data@) == crc_fold(c, data@.skip(i as int)),
        decreases data@.len() - i,
    {
        let b = data[i];
        let mut k: usize = 0;
        let c_in = c;
        c = c ^ (b as u32);
        while k < 8
            invariant
                0 <= k <= 8,
                c == crc_shift_n(c_in ^ (b as u32), k as nat),
            decreases 8 - k,
        {
            c = if c & 1 == 1 {
                (c >> 1) ^ 0xEDB88320u32
            } else {
                c >> 1
            };
            k = k + 1;
        }
        proof {
            assert(c == crc_update(c_in, b));
            assert(data@.skip(i as int)[0] == data@[i as int]);
            assert(data@.skip(i as int).drop_first() =~= data@.skip(i as int + 1));
            assert(crc_fold(c_in, data@.skip(i as int))
                == crc_fold(crc_update(c_in, data@[i as int]), data@.skip(i as int + 1)));
        }
        i = i + 1;
    }
    proof {
        assert(data@.skip(data@.len() as int) =~= Seq::<u8>::empty());
    }
    c
}

/// The CRC-32 of `data`.
pub fn crc32(data: &[u8]) -> (r: u32)
    ensures
        r == crc32_spec(data@),
{
    crc_feed(0xFFFFFFFFu32, data) ^ 0xFFFFFFFFu32
}

/// The CRC-32 of the concatenation of two byte slices (a chunk's type code
/// followed by its data).
pub fn crc32_pair(a: &[u8], b: &[u8]) -> (r: u32)
    ensures
        r == crc32_spec(a@ + b@),
{
    let c = crc_feed(0xFFFFFFFFu32, a);
    let c2 = crc_feed(c, b);
    proof {
        lemma_crc_fold_concat(0xFFFFFFFFu32, a@, b@);
    }
    c2 ^ 0xFFFFFFFFu32
}

/// One byte folded into the Adler-32 state `(s1, s2)`.
pub open spec fn adler_step(st: (u32, u32), b: u8) -> (u32, u32) {
    let s1 = ((st.0 + b) % 65521) as u32;
    let s2 = ((st.1 + s1) % 65521) as u32;
    (s1, s2)
}

/// A byte sequence folded into the Adler-32 state.
pub open spec fn adler_fold(st: (u32, u32), s: Seq<u8>) -> (u32, u32)
    decreases s.len(),
{
    if s.len() == 0 {
        st
    } else {
        adler_fold(adler_step(st, s[0]), s.drop_first())
    }
}

/// The Adler-32 checksum of a byte sequence: fold from (1, 0), then pack
/// `s2` in the high half and `s1` in the low half.
pub open spec fn adler32_spec(s: Seq<u8>) -> u32 {
    let st = adler_fold((1u32, 0u32), s);
    (st.1 * 0x10000 + st.0) as u32
}

/// The Adler-32 checksum of `data`.
pub fn adler32(data: &[u8]) -> (r: u32)
    ensures
        r == adler32_spec(data@),
{
    let mut s1: u32 = 1;
    let mut s2: u32 = 0;
    let mut i: usize = 0;
    proof {
        assert(data@.skip(0) =~= data@);
    }
    while i < data.len()
        invariant
            0 <= i <= data@.len(),
            s1 < 65521,
            s2 < 65521,
            adler_fold((1u32, 0u32), data@) == adler_fold((s1, s2), data@.skip(i as int)),
        decreases data@.len() - i,
    {
        let b = data[i];
        let ghost st_in = (s1, s2);
        s1 = (s1 + (b as u32)) % 65521;
        s2 = (s2 + s1) % 65521;
        proof {
            assert((s1, s2) == adler_step(st_in, b));
            assert(data@.skip(i as int)[0] == data@[i as int]);
            assert(data@.skip(i as int).drop_first() =~= data@.skip(i as int + 1));
        }
        i = i + 1;
    }
    proof {
        assert(data@.skip(data@.len() as int) =~= Seq::<u8>::empty());
        assert(adler_fold((1u32, 0u32), data@) == (s1, s2));
    }
    s2 * 0x10000 + s1
}

} // verus!
