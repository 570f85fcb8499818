//! How a column is split into stretches for workers that index or probe it
//! side by side.

use vstd::prelude::*;

verus! {

/// Columns up to this length are indexed in one pass.
pub const SMALL_THRESHOLD: usize = 10_000;

/// Number of stretches a longer column is split into.
pub const WORKERS: usize = 24;

/// Where the stretch of worker `w` starts, for stretches of `size` positions
/// over a column of `len`.
pub open spec fn worker_lo(w: int, size: int, len: int) -> int {
    if w * size <= len {
        w * size
    } else {
        len
    }
}

/// Where the stretch of worker `w` ends.
pub open spec fn worker_hi(w: int, size: int, len: int) -> int {
    if worker_lo(w, size, len) + size <= len {
        worker_lo(w, size, len) + size
    } else {
        len
    }
}

/// Each stretch starts where the one before it ends.
pub proof fn lemma_worker_adjoining(w: int, size: int, len: int)
    requires
        0 <= w,
        0 <= size,
        0 <= len,
    ensures
        worker_lo(0, size, len) == 0,
        worker_lo(w, size, len) <= worker_hi(w, size, len) <= len,
        worker_hi(w, size, len) == worker_lo(w + 1, size, len),
{
    assert((w + 1) * size == w * size + size) by (nonlinear_arith);
    assert(0 * size == 0) by (nonlinear_arith);
    assert(w * size >= 0) by (nonlinear_arith)
        requires
            0 <= w,
            0 <= size,
    ;
}

/// The stretch of worker `w`, clipped to the column.
pub fn worker_bounds(len: usize, w: usize, size: usize) -> (r: (usize, usize))
    requires
        len <= u32::MAX,
        w <= u32::MAX,
    ensures
        r.0 == worker_lo(w as int, size as int, len as int),
        r.1 == worker_hi(w as int, size as int, len as int),
        r.0 <= r.1 <= len,
{
    let lo: usize = if size > len {
        if w == 0 {
            0
        } else {
            assert(w * size > len) by (nonlinear_arith)
                requires
                    w >= 1,
                    size > len,
            ;
            len
        }
    } else {
        assert(w * size <= 0xffff_ffff * 0xffff_ffff) by (nonlinear_arith)
            requires
                0 <= w <= 0xffff_ffff,
                0 <= size <= 0xffff_ffff,
        ;
        let start: u64 = (w as u64) * (size as u64);
        if start <= len as u64 {
            start as usize
        } else {
            len
        }
    };
    let hi: usize = if size <= len - lo {
        lo + size
    } else {
        len
    };
    (lo, hi)
}

} // verus!
