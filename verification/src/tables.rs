//! The assembled attack tables: one magic and one attack vector per square,
//! for bishops and rooks, built once by driving the magic search.

use vstd::prelude::*;

use crate::aliases::Bitboard;
use crate::magic::{self, Magic, MagicSearchError};
use crate::masks;

verus! {

/// The per-square magic hash tables for both sliding piece kinds.
pub struct Lookup {
    pub bmag: Vec<Magic>,
    pub bmag_tbl: Vec<Vec<Bitboard>>,
    pub rmag: Vec<Magic>,
    pub rmag_tbl: Vec<Vec<Bitboard>>,
}

impl Lookup {
    /// Every square's magic and table reproduce the ray-cast attack sets for
    /// every occupancy subset of that square's relevance mask.
    pub open spec fn wf(&self, ms: &masks::Lookup) -> bool {
        &&& self.bmag@.len() == 64
        &&& self.bmag_tbl@.len() == 64
        &&& self.rmag@.len() == 64
        &&& self.rmag_tbl@.len() == 64
        &&& forall|s: int|
            0 <= s < 64 ==> magic::magic_ok(ms, s, true, #[trigger] self.bmag@[s], self.bmag_tbl@[s]@)
        &&& forall|s: int|
            0 <= s < 64 ==> magic::magic_ok(ms, s, false, #[trigger] self.rmag@[s], self.rmag_tbl@[s]@)
        &&& forall|s: int| 0 <= s < 64 ==> (#[trigger] self.bmag@[s]).shift >= 54
    }

    /// Runs the magic search for all 64 squares and both piece kinds. The
    /// time budget per square is fixed here, as the width search is already
    /// bounded; a failed search reports the internal defect it signals.
    pub fn new(ms: &masks::Lookup) -> (ret: Result<Lookup, MagicSearchError>)
        requires
            ms.wf(),
        ensures
            ret matches Ok(l) ==> l.wf(ms),
    {
        // duration allocated to narrow each magic's table
        let duration: u64 = 0;
        let mut bmag: Vec<Magic> = Vec::new();
        let mut bmag_tbl: Vec<Vec<Bitboard>> = Vec::new();
        let mut rmag: Vec<Magic> = Vec::new();
        let mut rmag_tbl: Vec<Vec<Bitboard>> = Vec::new();

        let mut sq: usize = 0;
        while sq < 64
            invariant
                ms.wf(),
                sq <= 64,
                bmag@.len() == sq,
                bmag_tbl@.len() == sq,
                forall|s: int|
                    0 <= s < sq ==> magic::magic_ok(ms, s, true, #[trigger] bmag@[s], bmag_tbl@[s]@),
                forall|s: int| 0 <= s < sq ==> (#[trigger] bmag@[s]).shift >= 54,
            decreases 64 - sq,
        {
            match magic::find_bmag(ms, sq as u8, duration) {
                Ok((mag, tbl)) => {
                    bmag.push(mag);
                    bmag_tbl.push(tbl);
                },
                Err(e) => {
                    return Err(e);
                },
            }
            sq += 1;
        }

        let mut sq: usize = 0;
        while sq < 64
            invariant
                ms.wf(),
                sq <= 64,
                rmag@.len() == sq,
                rmag_tbl@.len() == sq,
                forall|s: int|
                    0 <= s < sq ==> magic::magic_ok(ms, s, false, #[trigger] rmag@[s], rmag_tbl@[s]@),
            decreases 64 - sq,
        {
            match magic::find_rmag(ms, sq as u8, duration) {
                Ok((mag, tbl)) => {
                    rmag.push(mag);
                    rmag_tbl.push(tbl);
                },
                Err(e) => {
                    return Err(e);
                },
            }
            sq += 1;
        }

        Ok(Lookup { bmag, bmag_tbl, rmag, rmag_tbl })
    }
}

} // verus!
