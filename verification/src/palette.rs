//! Building the palette from a PLTE payload: one RGB triple per 3 bytes.

use vstd::prelude::*;
use crate::error::PngError;

verus! {

/// The ordered palette of an indexed-color image.
#[derive(Clone, Debug, PartialEq, Eq)]
pub struct Palette {
    /// RGB triples in arrival order; at most 256 of them.
    pub entries: Vec<(u8, u8, u8)>,
}

impl View for Palette {
    type V = Seq<(u8, u8, u8)>;

    open spec fn view(&self) -> Seq<(u8, u8, u8)> {
        self.entries@
    }
}

/// The palette a PLTE payload describes: entry `i` is bytes `3i..3i+3`.
/// A length that is not a multiple of 3 or exceeds 256 entries is malformed.
pub open spec fn palette_spec(data: Seq<u8>) -> Result<Seq<(u8, u8, u8)>, PngError> {
    if data.len() % 3 != 0 || data.len() > 768 {
        Err(PngError::MalformedPalette)
    } else {
        Ok(Seq::new((data.len() / 3) as nat, |i: int| (data[3 * i], data[3 * i + 1], data[3 * i + 2])))
    }
}

/// Builds the palette from a PLTE payload, one entry per 3 bytes in arrival
/// order; fails with `MalformedPalette` exactly when the payload length is
/// not a multiple of 3 or exceeds 256 entries.
pub fn build_palette(data: &[u8]) -> (r: Result<Palette, PngError>)
    ensures
        match r {
            Ok(p) => palette_spec(data@) == Ok::<Seq<(u8, u8, u8)>, PngError>(p@),
            Err(e) => palette_spec(data@) == Err::<Seq<(u8, u8, u8)>, PngError>(e),
        },
        r is Ok ==> r->Ok_0@.len() <= 256,
{
    let len = data.len();
    if len % 3 != 0 || len > 768 {
        return Err(PngError::MalformedPalette);
    }
    let count = len / 3;
    let mut entries: Vec<(u8, u8, u8)> = Vec::new();
    let mut e: usize = 0;
    while e < count
        invariant
            0 <= e <= count,
            count == data@.len() / 3,
            data@.len() % 3 == 0,
            data@.len() <= 768,
            entries@.len() == e,
            forall|k: int|
                0 <= k < e ==> #[trigger] entries@[k] == (
                data@[3 * k],
                data@[3 * k + 1],
                data@[3 * k + 2],
                ),
        decreases count - e,
    {
        entries.push((data[3 * e], data[3 * e + 1], data[3 * e + 2]));
        e = e + 1;
    }
    let p = Palette { entries };
    proof {
        assert(p@ =~= palette_spec(data@)->Ok_0);
    }
    Ok(p)
}

} // verus!
