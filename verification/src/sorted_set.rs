//! Options of ZADD.

use vstd::prelude::*;

verus! {

/// Options of ZADD.
#[derive(Debug, Clone, Copy, PartialEq, Eq, Structural)]
pub struct ZAddOptions {
    /// Only add new members (NX).
    pub nx: bool,
    /// Only update existing members (XX).
    pub xx: bool,
    /// Only update when the new score is greater (GT).
    pub gt: bool,
    /// Only update when the new score is less (LT).
    pub lt: bool,
    /// Count changed members instead of added ones (CH).
    pub ch: bool,
    /// Add to the score instead of replacing it (INCR).
    pub incr: bool,
}

impl Default for ZAddOptions {
    fn default() -> (r: Self)
        ensures
            !r.nx && !r.xx && !r.gt && !r.lt && !r.ch && !r.incr,
    {
        ZAddOptions { nx: false, xx: false, gt: false, lt: false, ch: false, incr: false }
    }
}

} // verus!
