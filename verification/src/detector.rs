use vstd::prelude::*;

verus! {

/// The largest window side that the detector searches an image of `nrows`
/// x `ncols` pixels with: the configured `maxsize` when it is below both
/// sides, else the shorter side.
pub fn search_max_size(maxsize: i32, nrows: i32, ncols: i32) -> (m: i32)
    ensures
        m == if maxsize < nrows && maxsize < ncols {
            maxsize
        } else if nrows <= ncols {
            nrows
        } else {
            ncols
        },
{
    if maxsize < nrows && maxsize < ncols {
        maxsize
    } else if nrows <= ncols {
        nrows
    } else {
        ncols
    }
}

} // verus!
