//! Straight-line rasterization between two cells of a square grid.
//!
//! The walk follows the classic integer line algorithm: step the major axis
//! one cell at a time, accumulate a signed error term, and step the minor
//! axis whenever the error crosses zero. The contracts pin the walk down by
//! a closed form: after `k` major-axis steps the minor axis has advanced by
//! exactly `(2*k*minor + major - 1) / (2*major)` cells, which is the
//! rounded ratio `k*minor/major` with ties resolved toward zero steps.

use vstd::prelude::*;

use vstd::arithmetic::div_mod::lemma_div_is_ordered;
use vstd::arithmetic::div_mod::lemma_div_pos_is_pos;
use vstd::arithmetic::div_mod::lemma_fundamental_div_mod_converse_div;
use vstd::arithmetic::div_mod::lemma_fundamental_div_mod_converse_mod;

use crate::tools::imax;
use crate::tools::imin;

verus! {

/// Distance between two integers.
pub open spec fn abs_diff_spec(a: int, b: int) -> int {
    if a < b {
        b - a
    } else {
        a - b
    }
}

/// Minor-axis advance of the integer line walk after `k` steps along a
/// major axis of length `major`, with total minor-axis span `minor`.
pub open spec fn bres_step(major: int, minor: int, k: int) -> int {
    (2 * k * minor + major - 1) / (2 * major)
}

/// Row reached after `k` columns when walking from `(x0, y0)` toward
/// `(x0 + dx, y1)` in the shallow-slope regime.
pub open spec fn line_low_y(y0: int, y1: int, dx: int, k: int) -> int {
    if y1 >= y0 {
        y0 + bres_step(dx, y1 - y0, k)
    } else {
        y0 - bres_step(dx, y0 - y1, k)
    }
}

/// Column reached after `k` rows when walking from `(x0, y0)` toward
/// `(x1, y0 + dy)` in the steep-slope regime.
pub open spec fn line_high_x(x0: int, x1: int, dy: int, k: int) -> int {
    if x1 >= x0 {
        x0 + bres_step(dy, x1 - x0, k)
    } else {
        x0 - bres_step(dy, x0 - x1, k)
    }
}

/// Number of cells on the line between the two endpoints: one per cell of
/// the longer axis span, endpoints included.
pub open spec fn line_len(x0: int, y0: int, x1: int, y1: int) -> int {
    if x0 == x1 {
        abs_diff_spec(y0, y1) + 1
    } else if y0 == y1 {
        abs_diff_spec(x0, x1) + 1
    } else if abs_diff_spec(y0, y1) < abs_diff_spec(x0, x1) {
        abs_diff_spec(x0, x1) + 1
    } else {
        abs_diff_spec(y0, y1) + 1
    }
}

/// Column and row of the `k`-th cell produced for the line from
/// `(x0, y0)` to `(x1, y1)`. Rows and columns walk from the
/// lexicographically smaller endpoint of the major axis, so either endpoint
/// order yields the same cell set.
pub open spec fn line_cell(x0: int, y0: int, x1: int, y1: int, k: int) -> (int, int) {
    if x0 == x1 {
        (x0, imin(y0, y1) + k)
    } else if y0 == y1 {
        (imin(x0, x1) + k, y0)
    } else if abs_diff_spec(y0, y1) < abs_diff_spec(x0, x1) {
        if x0 < x1 {
            (x0 + k, line_low_y(y0, y1, x1 - x0, k))
        } else {
            (x1 + k, line_low_y(y1, y0, x0 - x1, k))
        }
    } else {
        if y0 < y1 {
            (line_high_x(x0, x1, y1 - y0, k), y0 + k)
        } else {
            (line_high_x(x1, x0, y0 - y1, k), y1 + k)
        }
    }
}

/// Flat index of the `k`-th cell of the line, on a grid `np` cells wide.
pub open spec fn line_pixel(np: int, x0: int, y0: int, x1: int, y1: int, k: int) -> int {
    line_cell(x0, y0, x1, y1, k).0 + line_cell(x0, y0, x1, y1, k).1 * np
}

/// The minor-axis advance never runs past the total minor-axis span.
pub proof fn lemma_bres_step_bounds(major: int, minor: int, k: int)
    requires
        1 <= major,
        0 <= minor,
        0 <= k <= major,
    ensures
        0 <= bres_step(major, minor, k) <= minor,
{
    let nmr = 2 * k * minor + major - 1;
    assert(0 <= nmr) by (nonlinear_arith)
        requires
            nmr == 2 * k * minor + major - 1,
            0 <= k,
            0 <= minor,
            1 <= major,
    ;
    if nmr > 0 {
        lemma_div_pos_is_pos(nmr, 2 * major);
    } else {
        assert(nmr == 0);
        assert(0int / (2 * major) == 0) by (nonlinear_arith)
            requires
                1 <= major,
        ;
    }
    let top = 2 * major * minor + major - 1;
    assert(nmr <= top) by (nonlinear_arith)
        requires
            nmr == 2 * k * minor + major - 1,
            top == 2 * major * minor + major - 1,
            0 <= k <= major,
            0 <= minor,
    ;
    assert(minor * (2 * major) == 2 * major * minor) by (nonlinear_arith);
    lemma_fundamental_div_mod_converse_div(top, 2 * major, minor, major - 1);
    lemma_div_is_ordered(nmr, top, 2 * major);
}

/// Every cell of the line lies inside the box the two endpoints span.
pub proof fn lemma_line_cell_in_box(x0: int, y0: int, x1: int, y1: int, k: int)
    requires
        0 <= x0,
        0 <= y0,
        0 <= x1,
        0 <= y1,
        0 <= k < line_len(x0, y0, x1, y1),
    ensures
        imin(x0, x1) <= line_cell(x0, y0, x1, y1, k).0 <= imax(x0, x1),
        imin(y0, y1) <= line_cell(x0, y0, x1, y1, k).1 <= imax(y0, y1),
{
    if x0 == x1 {
    } else if y0 == y1 {
    } else if abs_diff_spec(y0, y1) < abs_diff_spec(x0, x1) {
        if x0 < x1 {
            lemma_bres_step_bounds(x1 - x0, abs_diff_spec(y0, y1), k);
        } else {
            lemma_bres_step_bounds(x0 - x1, abs_diff_spec(y0, y1), k);
        }
    } else {
        if y0 < y1 {
            lemma_bres_step_bounds(y1 - y0, abs_diff_spec(x0, x1), k);
        } else {
            lemma_bres_step_bounds(y0 - y1, abs_diff_spec(x0, x1), k);
        }
    }
}

/// Shallow-slope walk from `(x0, y0)` to `(x1, y1)`, one cell per column.
pub fn plot_line_low(num_pixels: usize, x0: usize, y0: usize, x1: usize, y1: usize) -> (r: Vec<
    usize,
>)
    requires
        num_pixels * num_pixels <= usize::MAX,
        x0 < x1,
        x1 < num_pixels,
        y0 < num_pixels,
        y1 < num_pixels,
        abs_diff_spec(y0 as int, y1 as int) <= x1 - x0,
    ensures
        r@.len() == x1 - x0 + 1,
        forall|k: int|
            0 <= k < r@.len() ==> r@[k] == (x0 + k) + line_low_y(
                y0 as int,
                y1 as int,
                x1 - x0,
                k,
            ) * num_pixels,
{
    proof {
        assert((num_pixels as int) * (num_pixels as int) <= 0xffff_ffff_ffff_ffff);
        assert(num_pixels <= 0x1_0000_0000) by (nonlinear_arith)
            requires
                (num_pixels as int) * (num_pixels as int) <= 0xffff_ffff_ffff_ffff,
        ;
    }
    let dx: usize = x1 - x0;
    let dy: usize = if y1 >= y0 {
        y1 - y0
    } else {
        y0 - y1
    };
    let up: bool = y1 >= y0;
    let mut out: Vec<usize> = Vec::new();
    let mut d: i64 = 2 * (dy as i64) - (dx as i64);
    let mut y: usize = y0;
    let mut xi: usize = x0;
    let ghost mut m: int = 0;
    proof {
        assert(2 * (0 + 1) * (dy as int) == 2 * (dy as int) && 2 * 0 * (dy as int) == 0 && 2 * 0
            * (dx as int) == 0) by (nonlinear_arith);
    }
    while xi <= x1
        invariant
            num_pixels <= 0x1_0000_0000,
            num_pixels * num_pixels <= usize::MAX,
            x0 < x1 < num_pixels,
            y0 < num_pixels,
            y1 < num_pixels,
            dx == x1 - x0,
            dy == abs_diff_spec(y0 as int, y1 as int),
            dy <= dx,
            up == (y1 >= y0),
            x0 <= xi <= x1 + 1,
            out@.len() == xi - x0,
            forall|j: int|
                0 <= j < out@.len() ==> out@[j] == (x0 + j) + line_low_y(
                    y0 as int,
                    y1 as int,
                    dx as int,
                    j,
                ) * num_pixels,
            xi <= x1 ==> {
                &&& 0 <= m
                &&& y == (if up {
                    y0 + m
                } else {
                    y0 - m
                })
                &&& d == 2 * ((xi - x0 + 1) as int) * (dy as int) - dx - 2 * m * (dx as int)
                &&& 2 * m * (dx as int) <= 2 * ((xi - x0) as int) * (dy as int) + dx - 1
                &&& 2 * ((xi - x0) as int) * (dy as int) + dx - 1 < 2 * m * (dx as int) + 2 * (
                dx as int)
                &&& -2 * (dx as int) < d <= 2 * (dy as int)
            },
        decreases x1 + 1 - xi,
    {
        proof {
            let ki = xi as int - x0 as int;
            let dxi = dx as int;
            let dyi = dy as int;
            assert(m <= dyi) by (nonlinear_arith)
                requires
                    2 * m * dxi <= 2 * ki * dyi + dxi - 1,
                    0 <= ki <= dxi,
                    0 <= dyi,
                    1 <= dxi,
            ;
            assert(m * (2 * dxi) == 2 * m * dxi) by (nonlinear_arith);
            lemma_fundamental_div_mod_converse_div(
                2 * ki * dyi + dxi - 1,
                2 * dxi,
                m,
                2 * ki * dyi + dxi - 1 - 2 * m * dxi,
            );
            assert(m == bres_step(dxi, dyi, ki));
            assert(y < num_pixels);
            assert(xi + y * num_pixels < num_pixels * num_pixels) by (nonlinear_arith)
                requires
                    xi < num_pixels,
                    y < num_pixels,
            ;
        }
        out.push(xi + y * num_pixels);
        proof {
            let ki = xi as int - x0 as int;
            let dxi = dx as int;
            let dyi = dy as int;
            if d > 0 {
                // A minor-axis step keeps the closed-form window around the
                // incremented step count, and the error term stays bounded.
                assert((d + 2 * dyi - 2 * dxi == 2 * ((ki + 1) + 1) * dyi - dxi - 2 * (m + 1)
                    * dxi) && (2 * (m + 1) * dxi <= 2 * (ki + 1) * dyi + dxi - 1) && (2 * (ki
                    + 1) * dyi + dxi - 1 < 2 * (m + 1) * dxi + 2 * dxi) && (-2 * dxi < d + 2
                    * dyi - 2 * dxi <= 2 * dyi)) by (nonlinear_arith)
                    requires
                        d == 2 * (ki + 1) * dyi - dxi - 2 * m * dxi,
                        d > 0,
                        2 * m * dxi <= 2 * ki * dyi + dxi - 1,
                        2 * ki * dyi + dxi - 1 < 2 * m * dxi + 2 * dxi,
                        0 <= dyi <= dxi,
                        1 <= dxi,
                        0 <= ki,
                ;
                if xi < x1 {
                    // Before the last column the step cannot overshoot the
                    // destination row.
                    assert(m + 1 <= dyi) by (nonlinear_arith)
                        requires
                            2 * (m + 1) * dxi <= 2 * (ki + 1) * dyi + dxi - 1,
                            ki + 1 <= dxi,
                            0 <= dyi,
                            1 <= dxi,
                    ;
                }
            } else {
                assert((d + 2 * dyi == 2 * ((ki + 1) + 1) * dyi - dxi - 2 * m * dxi) && (2 * m
                    * dxi <= 2 * (ki + 1) * dyi + dxi - 1) && (2 * (ki + 1) * dyi + dxi - 1 < 2
                    * m * dxi + 2 * dxi) && (-2 * dxi < d + 2 * dyi <= 2 * dyi))
                    by (nonlinear_arith)
                    requires
                        d == 2 * (ki + 1) * dyi - dxi - 2 * m * dxi,
                        d <= 0,
                        2 * m * dxi <= 2 * ki * dyi + dxi - 1,
                        2 * ki * dyi + dxi - 1 < 2 * m * dxi + 2 * dxi,
                        0 <= dyi <= dxi,
                        1 <= dxi,
                        0 <= ki,
                ;
            }
        }
        if d > 0 {
            if up {
                y = y + 1;
            } else if y > 0 {
                y = y - 1;
            }
            d = d - 2 * (dx as i64);
            proof {
                m = m + 1;
            }
        }
        d = d + 2 * (dy as i64);
        xi = xi + 1;
    }
    out
}

/// Steep-slope walk from `(x0, y0)` to `(x1, y1)`, one cell per row.
pub fn plot_line_high(num_pixels: usize, x0: usize, y0: usize, x1: usize, y1: usize) -> (r: Vec<
    usize,
>)
    requires
        num_pixels * num_pixels <= usize::MAX,
        y0 < y1,
        y1 < num_pixels,
        x0 < num_pixels,
        x1 < num_pixels,
        abs_diff_spec(x0 as int, x1 as int) <= y1 - y0,
    ensures
        r@.len() == y1 - y0 + 1,
        forall|k: int|
            0 <= k < r@.len() ==> r@[k] == line_high_x(x0 as int, x1 as int, y1 - y0, k) + (y0
                + k) * num_pixels,
{
    proof {
        assert((num_pixels as int) * (num_pixels as int) <= 0xffff_ffff_ffff_ffff);
        assert(num_pixels <= 0x1_0000_0000) by (nonlinear_arith)
            requires
                (num_pixels as int) * (num_pixels as int) <= 0xffff_ffff_ffff_ffff,
        ;
    }
    let dy: usize = y1 - y0;
    let dx: usize = if x1 >= x0 {
        x1 - x0
    } else {
        x0 - x1
    };
    let right: bool = x1 >= x0;
    let mut out: Vec<usize> = Vec::new();
    let mut d: i64 = 2 * (dx as i64) - (dy as i64);
    let mut x: usize = x0;
    let mut yi: usize = y0;
    let ghost mut m: int = 0;
    proof {
        assert(2 * (0 + 1) * (dx as int) == 2 * (dx as int) && 2 * 0 * (dx as int) == 0 && 2 * 0
            * (dy as int) == 0) by (nonlinear_arith);
    }
    while yi <= y1
        invariant
            num_pixels <= 0x1_0000_0000,
            num_pixels * num_pixels <= usize::MAX,
            y0 < y1 < num_pixels,
            x0 < num_pixels,
            x1 < num_pixels,
            dy == y1 - y0,
            dx == abs_diff_spec(x0 as int, x1 as int),
            dx <= dy,
            right == (x1 >= x0),
            y0 <= yi <= y1 + 1,
            out@.len() == yi - y0,
            forall|j: int|
                0 <= j < out@.len() ==> out@[j] == line_high_x(x0 as int, x1 as int, dy as int, j)
                    + (y0 + j) * num_pixels,
            yi <= y1 ==> {
                &&& 0 <= m
                &&& x == (if right {
                    x0 + m
                } else {
                    x0 - m
                })
                &&& d == 2 * ((yi - y0 + 1) as int) * (dx as int) - dy - 2 * m * (dy as int)
                &&& 2 * m * (dy as int) <= 2 * ((yi - y0) as int) * (dx as int) + dy - 1
                &&& 2 * ((yi - y0) as int) * (dx as int) + dy - 1 < 2 * m * (dy as int) + 2 * (
                dy as int)
                &&& -2 * (dy as int) < d <= 2 * (dx as int)
            },
        decreases y1 + 1 - yi,
    {
        proof {
            let ki = yi as int - y0 as int;
            let dxi = dx as int;
            let dyi = dy as int;
            assert(m <= dxi) by (nonlinear_arith)
                requires
                    2 * m * dyi <= 2 * ki * dxi + dyi - 1,
                    0 <= ki <= dyi,
                    0 <= dxi,
                    1 <= dyi,
            ;
            assert(m * (2 * dyi) == 2 * m * dyi) by (nonlinear_arith);
            lemma_fundamental_div_mod_converse_div(
                2 * ki * dxi + dyi - 1,
                2 * dyi,
                m,
                2 * ki * dxi + dyi - 1 - 2 * m * dyi,
            );
            assert(m == bres_step(dyi, dxi, ki));
            assert(x < num_pixels);
            assert(x + yi * num_pixels < num_pixels * num_pixels) by (nonlinear_arith)
                requires
                    yi < num_pixels,
                    x < num_pixels,
            ;
        }
        out.push(x + yi * num_pixels);
        proof {
            let ki = yi as int - y0 as int;
            let dxi = dx as int;
            let dyi = dy as int;
            if d > 0 {
                assert((d + 2 * dxi - 2 * dyi == 2 * ((ki + 1) + 1) * dxi - dyi - 2 * (m + 1)
                    * dyi) && (2 * (m + 1) * dyi <= 2 * (ki + 1) * dxi + dyi - 1) && (2 * (ki
                    + 1) * dxi + dyi - 1 < 2 * (m + 1) * dyi + 2 * dyi) && (-2 * dyi < d + 2
                    * dxi - 2 * dyi <= 2 * dxi)) by (nonlinear_arith)
                    requires
                        d == 2 * (ki + 1) * dxi - dyi - 2 * m * dyi,
                        d > 0,
                        2 * m * dyi <= 2 * ki * dxi + dyi - 1,
                        2 * ki * dxi + dyi - 1 < 2 * m * dyi + 2 * dyi,
                        0 <= dxi <= dyi,
                        1 <= dyi,
                        0 <= ki,
                ;
                if yi < y1 {
                    assert(m + 1 <= dxi) by (nonlinear_arith)
                        requires
                            2 * (m + 1) * dyi <= 2 * (ki + 1) * dxi + dyi - 1,
                            ki + 1 <= dyi,
                            0 <= dxi,
                            1 <= dyi,
                    ;
                }
            } else {
                assert((d + 2 * dxi == 2 * ((ki + 1) + 1) * dxi - dyi - 2 * m * dyi) && (2 * m
                    * dyi <= 2 * (ki + 1) * dxi + dyi - 1) && (2 * (ki + 1) * dxi + dyi - 1 < 2
                    * m * dyi + 2 * dyi) && (-2 * dyi < d + 2 * dxi <= 2 * dxi))
                    by (nonlinear_arith)
                    requires
                        d == 2 * (ki + 1) * dxi - dyi - 2 * m * dyi,
                        d <= 0,
                        2 * m * dyi <= 2 * ki * dxi + dyi - 1,
                        2 * ki * dxi + dyi - 1 < 2 * m * dyi + 2 * dyi,
                        0 <= dxi <= dyi,
                        1 <= dyi,
                        0 <= ki,
                ;
            }
        }
        if d > 0 {
            if right {
                x = x + 1;
            } else if x > 0 {
                x = x - 1;
            }
            d = d - 2 * (dy as i64);
            proof {
                m = m + 1;
            }
        }
        d = d + 2 * (dx as i64);
        yi = yi + 1;
    }
    out
}

/// Ordered cells of the straight segment between `p0` and `p1` on a square
/// grid `num_pixels` cells on a side. A shared row or column fills the
/// spanned range directly; otherwise the shallow or steep walk runs from
/// the smaller end of the major axis.
pub fn get_line_pixels(num_pixels: usize, p0: (usize, usize), p1: (usize, usize)) -> (r: Vec<
    usize,
>)
    requires
        num_pixels * num_pixels <= usize::MAX,
        p0.0 < num_pixels,
        p0.1 < num_pixels,
        p1.0 < num_pixels,
        p1.1 < num_pixels,
    ensures
        r@.len() == line_len(p0.0 as int, p0.1 as int, p1.0 as int, p1.1 as int),
        forall|k: int|
            0 <= k < r@.len() ==> r@[k] == line_pixel(
                num_pixels as int,
                p0.0 as int,
                p0.1 as int,
                p1.0 as int,
                p1.1 as int,
                k,
            ),
{
    let (x0, y0) = p0;
    let (x1, y1) = p1;

    if x0 == x1 {
        let ymin: usize = if y0 < y1 {
            y0
        } else {
            y1
        };
        let ymax: usize = if y0 < y1 {
            y1
        } else {
            y0
        };
        let mut out: Vec<usize> = Vec::new();
        let mut yi: usize = ymin;
        while yi <= ymax
            invariant
                num_pixels * num_pixels <= usize::MAX,
                x0 < num_pixels,
                ymax < num_pixels,
                ymin <= yi <= ymax + 1,
                out@.len() == yi - ymin,
                forall|j: int| 0 <= j < out@.len() ==> out@[j] == x0 + (ymin + j) * num_pixels,
            decreases ymax + 1 - yi,
        {
            proof {
                assert(x0 + yi * num_pixels < num_pixels * num_pixels) by (nonlinear_arith)
                    requires
                        x0 < num_pixels,
                        yi < num_pixels,
                ;
            }
            out.push(x0 + yi * num_pixels);
            yi = yi + 1;
        }
        return out;
    }

    if y0 == y1 {
        let xmin: usize = if x0 < x1 {
            x0
        } else {
            x1
        };
        let xmax: usize = if x0 < x1 {
            x1
        } else {
            x0
        };
        let mut out: Vec<usize> = Vec::new();
        let mut xi: usize = xmin;
        while xi <= xmax
            invariant
                num_pixels * num_pixels <= usize::MAX,
                y0 < num_pixels,
                xmax < num_pixels,
                xmin <= xi <= xmax + 1,
                out@.len() == xi - xmin,
                forall|j: int| 0 <= j < out@.len() ==> out@[j] == xmin + j + y0 * num_pixels,
            decreases xmax + 1 - xi,
        {
            proof {
                assert(xi + y0 * num_pixels < num_pixels * num_pixels) by (nonlinear_arith)
                    requires
                        y0 < num_pixels,
                        xi < num_pixels,
                ;
            }
            out.push(xi + y0 * num_pixels);
            xi = xi + 1;
        }
        return out;
    }

    let ady: usize = if y1 >= y0 {
        y1 - y0
    } else {
        y0 - y1
    };
    let adx: usize = if x1 >= x0 {
        x1 - x0
    } else {
        x0 - x1
    };

    if ady < adx {
        if x0 > x1 {
            plot_line_low(num_pixels, x1, y1, x0, y0)
        } else {
            plot_line_low(num_pixels, x0, y0, x1, y1)
        }
    } else {
        if y0 > y1 {
            plot_line_high(num_pixels, x1, y1, x0, y0)
        } else {
            plot_line_high(num_pixels, x0, y0, x1, y1)
        }
    }
}


/// Cells of the straight segment between `p0` and `p1` as coordinate
/// pairs, for a grid of any `w` by `h` dimensions within the engine's
/// bounds. The walk itself runs in flat index space over a square large
/// enough for both axes; this decodes it back to columns and rows.
pub fn get_line_cells(w: u32, h: u32, p0: (u32, u32), p1: (u32, u32)) -> (r: Vec<(u32, u32)>)
    requires
        0 < w <= crate::grid::MAX_DIM,
        0 < h <= crate::grid::MAX_DIM,
        p0.0 < w,
        p0.1 < h,
        p1.0 < w,
        p1.1 < h,
    ensures
        r@.len() == line_len(p0.0 as int, p0.1 as int, p1.0 as int, p1.1 as int),
        forall|k: int|
            0 <= k < r@.len() ==> (r@[k].0 as int, r@[k].1 as int) == line_cell(
                p0.0 as int,
                p0.1 as int,
                p1.0 as int,
                p1.1 as int,
                k,
            ),
        forall|k: int| 0 <= k < r@.len() ==> r@[k].0 < w && r@[k].1 < h,
{
    let np: usize = if w > h {
        w as usize
    } else {
        h as usize
    };
    proof {
        assert(np * np <= crate::grid::MAX_DIM * crate::grid::MAX_DIM) by (nonlinear_arith)
            requires
                0 < np <= crate::grid::MAX_DIM,
        ;
    }
    let ghost npi = np as int;
    let x0 = p0.0;
    let y0 = p0.1;
    let x1 = p1.0;
    let y1 = p1.1;
    let idxs = get_line_pixels(
        np,
        (x0 as usize, y0 as usize),
        (x1 as usize, y1 as usize),
    );
    let mut r: Vec<(u32, u32)> = Vec::new();
    let n = idxs.len();
    let mut i: usize = 0;
    while i < n
        invariant
            0 < w <= crate::grid::MAX_DIM,
            0 < h <= crate::grid::MAX_DIM,
            np == (if w > h {
                w as int
            } else {
                h as int
            }),
            npi == np as int,
            x0 == p0.0 && y0 == p0.1 && x1 == p1.0 && y1 == p1.1,
            x0 < w && y0 < h && x1 < w && y1 < h,
            n == idxs@.len(),
            n == line_len(x0 as int, y0 as int, x1 as int, y1 as int),
            forall|k: int|
                0 <= k < n ==> idxs@[k] == line_pixel(
                    npi,
                    x0 as int,
                    y0 as int,
                    x1 as int,
                    y1 as int,
                    k,
                ),
            i <= n,
            r@.len() == i,
            forall|k: int|
                0 <= k < i ==> (r@[k].0 as int, r@[k].1 as int) == line_cell(
                    x0 as int,
                    y0 as int,
                    x1 as int,
                    y1 as int,
                    k,
                ),
            forall|k: int| 0 <= k < i ==> r@[k].0 < w && r@[k].1 < h,
        decreases n - i,
    {
        let idx = idxs[i];
        proof {
            lemma_line_cell_in_box(x0 as int, y0 as int, x1 as int, y1 as int, i as int);
            let c = line_cell(x0 as int, y0 as int, x1 as int, y1 as int, i as int);
            assert(0 <= c.0 < npi && 0 <= c.1 < npi);
            lemma_fundamental_div_mod_converse_div(idx as int, npi, c.1, c.0);
            lemma_fundamental_div_mod_converse_mod(idx as int, npi, c.1, c.0);
        }
        let cx: usize = idx % np;
        let cy: usize = idx / np;
        r.push((cx as u32, cy as u32));
        i = i + 1;
    }
    r
}

} // verus!
