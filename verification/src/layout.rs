//! The frame layout engine: the packed sheet holds `ceil(sqrt(n))`
//! columns, and as many rows as the frame count then needs.

use vstd::prelude::*;

verus! {

/// `c` is the integer ceiling of the square root of `n`.
pub open spec fn is_ceil_sqrt(n: int, c: int) -> bool {
    c >= 0 && c * c >= n && (c - 1) * (c - 1) < n
}

/// `rows` is the least row count covering `n` tiles at `c` per row.
pub open spec fn is_row_count(n: int, c: int, rows: int) -> bool {
    rows >= 0 && rows * c >= n && (rows - 1) * c < n
}

/// The packed sheet geometry for `frames` tiles of `width x height`
/// pixels: `(columns, sheet_width, sheet_height)`. Zero frames keep
/// the base dimensions with a zero column sentinel.
pub fn optimal_size(frames: usize, width: u32, height: u32) -> (r: (u32, u64, u64))
    requires
        frames <= u32::MAX,
    ensures
        frames == 0 ==> r == (0u32, width as u64, height as u64),
        frames > 0 ==> {
            let (c, w, h) = r;
            &&& c > 0
            &&& is_ceil_sqrt(frames as int, c as int)
            &&& w == (width as int) * (c as int)
            &&& exists|rows: int|
                (#[trigger] (rows * 1)) >= 0 && is_row_count(frames as int, c as int, rows)
                    && h == (height as int) * rows
        },
{
    if frames == 0 {
        return (0u32, width as u64, height as u64);
    }
    let n = frames as u64;
    let mut c: u64 = 1;
    loop
        invariant_except_break
            1 <= c <= n,
            n <= u32::MAX,
            (c - 1) * (c - 1) < n,
        ensures
            1 <= c <= n,
            n <= u32::MAX,
            c * c >= n,
            (c - 1) * (c - 1) < n,
        decreases n - c,
    {
        proof {
            assert(c * c <= 0xffff_ffff_ffff_ffff) by (nonlinear_arith)
                requires
                    1 <= c <= n,
                    n <= u32::MAX,
            {}
        }
        let sq = c * c;
        if sq >= n {
            break;
        }
        proof {
            assert(c < n) by (nonlinear_arith)
                requires
                    c >= 1,
                    c * c < n,
            {}
        }
        c = c + 1;
    }
    let rows = (n + c - 1) / c;
    proof {
        assert(rows * c >= n && (rows - 1) * c < n && rows >= 1) by (nonlinear_arith)
            requires
                c >= 1,
                n >= 1,
                rows == (n as int + c as int - 1) / (c as int),
                n <= u32::MAX,
                c <= n,
        {}
        assert(c <= u32::MAX);
        assert(rows <= n) by (nonlinear_arith)
            requires
                c >= 1,
                n >= 1,
                rows == (n as int + c as int - 1) / (c as int),
        {}
        assert((width as int) * (c as int) <= u64::MAX) by (nonlinear_arith)
            requires
                width <= u32::MAX,
                0 <= c <= u32::MAX,
        {}
        assert((height as int) * (rows as int) <= u64::MAX) by (nonlinear_arith)
            requires
                height <= u32::MAX,
                0 <= rows <= u32::MAX,
        {}
        assert(((rows as int) * 1) >= 0 && is_row_count(frames as int, c as int, rows as int));
    }
    let w = (width as u64) * c;
    let h = (height as u64) * rows;
    (c as u32, w, h)
}

} // verus!
