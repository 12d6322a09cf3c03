//! Fixed-point units, limits and the small integer helpers the step relies on.

use vstd::prelude::*;

verus! {

/// Position units per grid cell: a coordinate `v` in `[0, n * UNIT)` lies in cell `v / UNIT`.
pub const UNIT: i64 = 65536;

/// Largest magnitude a stored coordinate may take (2^40 units, 2^24 cells).
pub const COORD_LIMIT: i64 = 1099511627776;

/// Largest grid side, in cells; `MAX_SIDE * UNIT == COORD_LIMIT`.
pub const MAX_SIDE: usize = 16777216;

/// Largest magnitude of an acceleration component, in units per second squared.
pub const MAX_ACCEL: i64 = 4294967296;

/// Largest elapsed time a tick accepts, so that its square fits the step arithmetic.
pub const MAX_ELAPSED: u64 = 4294967296;

/// `v` limited to `[lo, hi]`.
pub open spec fn clamp(v: int, lo: int, hi: int) -> int {
    if v < lo {
        lo
    } else if v > hi {
        hi
    } else {
        v
    }
}

pub open spec fn coord_ok(v: int) -> bool {
    -COORD_LIMIT <= v <= COORD_LIMIT
}

/// Limits a wide intermediate value to `[lo, hi]`.
pub fn clamp_wide(v: i128, lo: i64, hi: i64) -> (r: i64)
    requires
        lo <= hi,
    ensures
        r == clamp(v as int, lo as int, hi as int),
{
    if v < lo as i128 {
        lo
    } else if v > hi as i128 {
        hi
    } else {
        v as i64
    }
}

/// The cell, out of `n`, that holds coordinate `v`: `floor(v / UNIT)`, with
/// coordinates outside the grid mapped to the nearest edge cell.
pub open spec fn cell_coord(v: int, n: int) -> int {
    if v < 0 {
        0
    } else if v / (UNIT as int) >= n {
        n - 1
    } else {
        v / (UNIT as int)
    }
}

/// Executable form of `cell_coord`.
pub fn cell_of(v: i64, n: usize) -> (r: usize)
    requires
        n >= 1,
    ensures
        r == cell_coord(v as int, n as int),
        r < n,
{
    if v < 0 {
        0
    } else if (v / UNIT) as u64 >= n as u64 {
        n - 1
    } else {
        (v / UNIT) as usize
    }
}

/// Smallest `d` with `d * d >= s`.
pub open spec fn is_ceil_sqrt(d: int, s: int) -> bool {
    d >= 0 && d * d >= s && (d == 0 || (d - 1) * (d - 1) < s)
}

/// Integer square root rounded up, by bisection.
pub fn ceil_sqrt(s: u64) -> (d: u64)
    requires
        s <= 281474976710656,
    ensures
        is_ceil_sqrt(d as int, s as int),
        d <= 16777216,
{
    let mut lo: u64 = 0;
    let mut hi: u64 = 16777216;
    assert(hi * hi >= s) by (nonlinear_arith)
        requires hi == 16777216, s <= 281474976710656;
    while lo < hi
        invariant
            lo <= hi <= 16777216,
            hi * hi >= s,
            lo == 0 || (lo - 1) * (lo - 1) < s,
        decreases hi - lo,
    {
        let mid: u64 = lo + (hi - lo) / 2;
        assert(mid * mid <= 16777216 * 16777216) by (nonlinear_arith)
            requires mid <= 16777216;
        if mid * mid >= s {
            hi = mid;
        } else {
            lo = mid + 1;
        }
    }
    lo
}

} // verus!
