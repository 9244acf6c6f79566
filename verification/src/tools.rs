//! Drawing tools and the geometry of the cells they affect.
//!
//! Each tool is a stateless transformation from an anchor cell, a current
//! cell and (for the flood fill) the grid contents, to the set of cells it
//! would paint. The drag lifecycle around rectangle and line tools lives in
//! [`crate::layer`]; this module only computes cell sets.

use vstd::prelude::*;

use crate::color::Color;
use crate::grid::cell_index;
use crate::line::line_cell;
use crate::line::line_len;

verus! {

broadcast use vstd::seq_lib::lemma_seq_contains_after_push;

/// One drawing-tool configuration: the closed set of tools the engine
/// offers, each carrying only the parameters its effect needs.
#[derive(Clone, Copy, PartialEq, Eq, Structural, Debug)]
pub enum Tool {
    /// Paint one cell with the carried color.
    SinglePixel { color: Color },
    /// Clear one cell back to unset.
    Eraser,
    /// One-cell-wide rectangle outline. The thickness is carried for
    /// forward compatibility; only a thickness of one is drawn.
    RectangleBorder { thickness: u32, color: Color },
    /// Rectangle outline plus its interior.
    RectangleFill { color: Color },
    /// Straight segment between two cells.
    Line { color: Color },
    /// Flood fill of the connected region around the seed cell.
    Fill { color: Color },
}

/// The bare kind of a tool, with the carried parameters stripped.
#[derive(Clone, Copy, PartialEq, Eq, Structural, Debug)]
pub enum ToolKind {
    SinglePixel,
    Eraser,
    RectangleBorder,
    RectangleFill,
    Line,
    Fill,
}

impl Tool {
    /// The kind of this tool, ignoring carried parameters.
    pub open spec fn spec_kind(&self) -> ToolKind {
        match *self {
            Tool::SinglePixel { .. } => ToolKind::SinglePixel,
            Tool::Eraser => ToolKind::Eraser,
            Tool::RectangleBorder { .. } => ToolKind::RectangleBorder,
            Tool::RectangleFill { .. } => ToolKind::RectangleFill,
            Tool::Line { .. } => ToolKind::Line,
            Tool::Fill { .. } => ToolKind::Fill,
        }
    }

    pub fn kind(&self) -> (k: ToolKind)
        ensures
            k == self.spec_kind(),
    {
        match *self {
            Tool::SinglePixel { .. } => ToolKind::SinglePixel,
            Tool::Eraser => ToolKind::Eraser,
            Tool::RectangleBorder { .. } => ToolKind::RectangleBorder,
            Tool::RectangleFill { .. } => ToolKind::RectangleFill,
            Tool::Line { .. } => ToolKind::Line,
            Tool::Fill { .. } => ToolKind::Fill,
        }
    }

    /// Whether two configurations are the same tool, ignoring the carried
    /// parameters: a red and a blue single-pixel tool are the same tool.
    pub fn same_kind(&self, other: &Tool) -> (r: bool)
        ensures
            r == (self.spec_kind() == other.spec_kind()),
    {
        self.kind() == other.kind()
    }

    /// The color this tool paints with; the eraser yields transparent
    /// black, which it never writes (it writes unset cells).
    pub fn color(&self) -> (c: Color)
        ensures
            c == tool_color(*self),
    {
        match *self {
            Tool::SinglePixel { color } => color,
            Tool::Eraser => Color { r: 0, g: 0, b: 0, a: 0 },
            Tool::RectangleBorder { thickness: _, color } => color,
            Tool::RectangleFill { color } => color,
            Tool::Line { color } => color,
            Tool::Fill { color } => color,
        }
    }

    /// Whether this tool is drag-based: driven by the begin, update, commit
    /// stroke protocol rather than by single clicks.
    pub open spec fn spec_is_drag(&self) -> bool {
        match *self {
            Tool::RectangleBorder { .. } => true,
            Tool::RectangleFill { .. } => true,
            Tool::Line { .. } => true,
            _ => false,
        }
    }

    pub fn is_drag(&self) -> (r: bool)
        ensures
            r == self.spec_is_drag(),
    {
        match *self {
            Tool::RectangleBorder { .. } => true,
            Tool::RectangleFill { .. } => true,
            Tool::Line { .. } => true,
            _ => false,
        }
    }
}

pub open spec fn imin(a: int, b: int) -> int {
    if a < b {
        a
    } else {
        b
    }
}

pub open spec fn imax(a: int, b: int) -> int {
    if a < b {
        b
    } else {
        a
    }
}

/// Whether `(x, y)` lies on the one-cell border drawn between anchor
/// `(ix, iy)` and current `(px, py)`: the cells on the anchor row and the
/// current row between the two columns (open at the left column), plus the
/// cells on both columns between the two rows (closed at both rows). The
/// union is the full outline of the spanned rectangle.
pub open spec fn rect_border_contains(
    ix: int,
    iy: int,
    px: int,
    py: int,
    x: int,
    y: int,
) -> bool {
    ||| ((y == iy || y == py) && imin(ix, px) + 1 <= x <= imax(ix, px))
    ||| ((x == ix || x == px) && imin(iy, py) <= y <= imax(iy, py))
}

/// Whether `(x, y)` lies in the filled rectangle spanned by anchor
/// `(ix, iy)` and current `(px, py)`, border included.
pub open spec fn rect_fill_contains(ix: int, iy: int, px: int, py: int, x: int, y: int) -> bool {
    imin(ix, px) <= x <= imax(ix, px) && imin(iy, py) <= y <= imax(iy, py)
}

/// Cells of the one-cell rectangle border between the anchor `(ipx, ipy)`
/// and the current cell `(px, py)`. A degenerate stroke, with the two cells
/// on one row or one column, draws no border at all.
pub fn rect_get_border_pixels(ipx: u32, ipy: u32, px: u32, py: u32) -> (r: Vec<(u32, u32)>)
    requires
        ipx < crate::grid::MAX_DIM,
        ipy < crate::grid::MAX_DIM,
        px < crate::grid::MAX_DIM,
        py < crate::grid::MAX_DIM,
    ensures
        (ipx == px || ipy == py) ==> r@ =~= Seq::<(u32, u32)>::empty(),
        (ipx != px && ipy != py) ==> forall|p: (u32, u32)|
            r@.contains(p) <==> rect_border_contains(
                ipx as int,
                ipy as int,
                px as int,
                py as int,
                p.0 as int,
                p.1 as int,
            ),
{
    let mut r: Vec<(u32, u32)> = Vec::new();
    if ipx == px || ipy == py {
        return r;
    }
    let xmin: u32 = if ipx < px {
        ipx
    } else {
        px
    };
    let xmax: u32 = if ipx < px {
        px
    } else {
        ipx
    };
    let ymin: u32 = if ipy < py {
        ipy
    } else {
        py
    };
    let ymax: u32 = if ipy < py {
        py
    } else {
        ipy
    };
    let mut x: u32 = xmin + 1;
    while x <= xmax
        invariant
            xmax < crate::grid::MAX_DIM,
            ipy < crate::grid::MAX_DIM,
            py < crate::grid::MAX_DIM,
            ipx != px,
            ipy != py,
            xmin == imin(ipx as int, px as int),
            xmax == imax(ipx as int, px as int),
            xmin < xmax,
            xmin + 1 <= x <= xmax + 1,
            forall|p: (u32, u32)|
                r@.contains(p) <==> ((p.1 == ipy || p.1 == py) && xmin + 1 <= p.0 < x),
        decreases xmax + 1 - x,
    {
        r.push((x, ipy));
        r.push((x, py));
        x = x + 1;
    }
    let mut y: u32 = ymin;
    while y <= ymax
        invariant
            ymax < crate::grid::MAX_DIM,
            ipx < crate::grid::MAX_DIM,
            px < crate::grid::MAX_DIM,
            ipx != px,
            ipy != py,
            xmin == imin(ipx as int, px as int),
            xmax == imax(ipx as int, px as int),
            ymin == imin(ipy as int, py as int),
            ymax == imax(ipy as int, py as int),
            ymin <= y <= ymax + 1,
            forall|p: (u32, u32)|
                r@.contains(p) <==> {
                    ||| ((p.1 == ipy || p.1 == py) && xmin + 1 <= p.0 <= xmax)
                    ||| ((p.0 == ipx || p.0 == px) && ymin <= p.1 < y)
                },
        decreases ymax + 1 - y,
    {
        r.push((ipx, y));
        r.push((px, y));
        y = y + 1;
    }
    r
}

/// Cells of the filled rectangle spanned by the anchor `(ipx, ipy)` and the
/// current cell `(px, py)`: the border plus every interior cell. As for the
/// border, a degenerate stroke paints nothing.
pub fn rect_get_fill_pixels(ipx: u32, ipy: u32, px: u32, py: u32) -> (r: Vec<(u32, u32)>)
    requires
        ipx < crate::grid::MAX_DIM,
        ipy < crate::grid::MAX_DIM,
        px < crate::grid::MAX_DIM,
        py < crate::grid::MAX_DIM,
    ensures
        (ipx == px || ipy == py) ==> r@ =~= Seq::<(u32, u32)>::empty(),
        (ipx != px && ipy != py) ==> forall|p: (u32, u32)|
            r@.contains(p) <==> rect_fill_contains(
                ipx as int,
                ipy as int,
                px as int,
                py as int,
                p.0 as int,
                p.1 as int,
            ),
{
    let mut r: Vec<(u32, u32)> = Vec::new();
    if ipx == px || ipy == py {
        return r;
    }
    let xmin: u32 = if ipx < px {
        ipx
    } else {
        px
    };
    let xmax: u32 = if ipx < px {
        px
    } else {
        ipx
    };
    let ymin: u32 = if ipy < py {
        ipy
    } else {
        py
    };
    let ymax: u32 = if ipy < py {
        py
    } else {
        ipy
    };
    let mut y: u32 = ymin;
    while y <= ymax
        invariant
            xmax < crate::grid::MAX_DIM,
            ymax < crate::grid::MAX_DIM,
            xmin == imin(ipx as int, px as int),
            xmax == imax(ipx as int, px as int),
            ymin == imin(ipy as int, py as int),
            ymax == imax(ipy as int, py as int),
            ymin <= y <= ymax + 1,
            forall|p: (u32, u32)|
                r@.contains(p) <==> (xmin <= p.0 <= xmax && ymin <= p.1 < y),
        decreases ymax + 1 - y,
    {
        let mut x: u32 = xmin;
        while x <= xmax
            invariant
                xmax < crate::grid::MAX_DIM,
                ymax < crate::grid::MAX_DIM,
                xmin <= xmax,
                ymin <= y <= ymax,
                xmin <= x <= xmax + 1,
                forall|p: (u32, u32)|
                    r@.contains(p) <==> {
                        ||| (xmin <= p.0 <= xmax && ymin <= p.1 < y)
                        ||| (xmin <= p.0 < x && p.1 == y)
                    },
            decreases xmax + 1 - x,
        {
            r.push((x, y));
            x = x + 1;
        }
        y = y + 1;
    }
    r
}


/// Color a drag or click tool paints with; the eraser paints nothing and
/// is mapped to transparent black, which no drag tool ever uses.
pub open spec fn tool_color(tool: Tool) -> Color {
    match tool {
        Tool::SinglePixel { color } => color,
        Tool::Eraser => Color { r: 0, g: 0, b: 0, a: 0 },
        Tool::RectangleBorder { thickness: _, color } => color,
        Tool::RectangleFill { color } => color,
        Tool::Line { color } => color,
        Tool::Fill { color } => color,
    }
}

/// Whether a stroke of a drag tool from anchor `(ax, ay)` to current cell
/// `(cx, cy)` paints the cell `(x, y)`. A degenerate rectangle stroke,
/// with anchor and current on one row or one column, paints nothing; a
/// line always paints at least its endpoints' cells.
pub open spec fn drag_covers(
    tool: Tool,
    ax: int,
    ay: int,
    cx: int,
    cy: int,
    x: int,
    y: int,
) -> bool {
    match tool {
        Tool::RectangleBorder { .. } => ax != cx && ay != cy && rect_border_contains(
            ax,
            ay,
            cx,
            cy,
            x,
            y,
        ),
        Tool::RectangleFill { .. } => ax != cx && ay != cy && rect_fill_contains(
            ax,
            ay,
            cx,
            cy,
            x,
            y,
        ),
        Tool::Line { .. } => exists|k: int|
            0 <= k < line_len(ax, ay, cx, cy) && line_cell(ax, ay, cx, cy, k) == (x, y),
        _ => false,
    }
}

/// Whether a drag stroke collapses to nothing: for the rectangle tools an
/// anchor and current cell on one row or column, never for the line.
pub open spec fn drag_degenerate(tool: Tool, ax: int, ay: int, cx: int, cy: int) -> bool {
    match tool {
        Tool::RectangleBorder { .. } => ax == cx || ay == cy,
        Tool::RectangleFill { .. } => ax == cx || ay == cy,
        Tool::Line { .. } => false,
        _ => true,
    }
}

/// Cells a drag stroke of `tool` paints between anchor `(ax, ay)` and
/// current cell `(cx, cy)`, as coordinate pairs within a `w` by `h` grid.
pub fn stroke_cells(tool: &Tool, ax: u32, ay: u32, cx: u32, cy: u32, w: u32, h: u32) -> (r: Vec<
    (u32, u32),
>)
    requires
        tool.spec_is_drag(),
        0 < w <= crate::grid::MAX_DIM,
        0 < h <= crate::grid::MAX_DIM,
        ax < w,
        ay < h,
        cx < w,
        cy < h,
    ensures
        forall|p: (u32, u32)|
            r@.contains(p) <==> drag_covers(
                *tool,
                ax as int,
                ay as int,
                cx as int,
                cy as int,
                p.0 as int,
                p.1 as int,
            ),
        forall|k: int| 0 <= k < r@.len() ==> r@[k].0 < w && r@[k].1 < h,
{
    match tool {
        Tool::RectangleBorder { .. } => {
            let r = rect_get_border_pixels(ax, ay, cx, cy);
            proof {
                assert forall|k: int| 0 <= k < r@.len() implies r@[k].0 < w && r@[k].1 < h by {
                    assert(r@.contains(r@[k]));
                }
            }
            r
        },
        Tool::RectangleFill { .. } => {
            let r = rect_get_fill_pixels(ax, ay, cx, cy);
            proof {
                assert forall|k: int| 0 <= k < r@.len() implies r@[k].0 < w && r@[k].1 < h by {
                    assert(r@.contains(r@[k]));
                }
            }
            r
        },
        _ => {
            let r = crate::line::get_line_cells(w, h, (ax, ay), (cx, cy));
            proof {
                let axi = ax as int;
                let ayi = ay as int;
                let cxi = cx as int;
                let cyi = cy as int;
                assert forall|p: (u32, u32)| r@.contains(p) implies drag_covers(
                    *tool,
                    axi,
                    ayi,
                    cxi,
                    cyi,
                    p.0 as int,
                    p.1 as int,
                ) by {
                    let k = choose|k: int| 0 <= k < r@.len() && r@[k] == p;
                    assert((r@[k].0 as int, r@[k].1 as int) == line_cell(
                        axi,
                        ayi,
                        cxi,
                        cyi,
                        k,
                    ));
                }
                assert forall|p: (u32, u32)| drag_covers(
                    *tool,
                    axi,
                    ayi,
                    cxi,
                    cyi,
                    p.0 as int,
                    p.1 as int,
                ) implies r@.contains(p) by {
                    let k = choose|k: int|
                        0 <= k < line_len(axi, ayi, cxi, cyi)
                            && line_cell(axi, ayi, cxi, cyi, k) == (
                        p.0 as int,
                        p.1 as int,
                        );
                    assert(r@[k] == p);
                }
            }
            r
        },
    }
}

/// Flat indices of the listed coordinate pairs in a grid `w` cells wide.
pub fn pairs_to_indices(cells: &Vec<(u32, u32)>, w: u32, h: u32) -> (r: Vec<usize>)
    requires
        0 < w <= crate::grid::MAX_DIM,
        0 < h <= crate::grid::MAX_DIM,
        forall|k: int| 0 <= k < cells@.len() ==> cells@[k].0 < w && cells@[k].1 < h,
    ensures
        r@.len() == cells@.len(),
        forall|k: int|
            0 <= k < r@.len() ==> r@[k] as int == cell_index(
                w as int,
                cells@[k].0 as int,
                cells@[k].1 as int,
            ) && (r@[k] as int) < w * h,
{
    let n = cells.len();
    let mut r: Vec<usize> = Vec::new();
    let mut i: usize = 0;
    while i < n
        invariant
            0 < w <= crate::grid::MAX_DIM,
            0 < h <= crate::grid::MAX_DIM,
            n == cells@.len(),
            forall|k: int| 0 <= k < cells@.len() ==> cells@[k].0 < w && cells@[k].1 < h,
            i <= n,
            r@.len() == i,
            forall|k: int|
                0 <= k < i ==> r@[k] as int == cell_index(
                    w as int,
                    cells@[k].0 as int,
                    cells@[k].1 as int,
                ) && (r@[k] as int) < w * h,
        decreases n - i,
    {
        let (x, y) = cells[i];
        proof {
            crate::grid::lemma_cell_index_injective(w as int, h as int, x as int, y as int);
            assert(y * w + x <= crate::grid::MAX_DIM * crate::grid::MAX_DIM) by (nonlinear_arith)
                requires
                    x < w <= crate::grid::MAX_DIM,
                    y < h <= crate::grid::MAX_DIM,
            ;
        }
        r.push((y as usize) * (w as usize) + (x as usize));
        i = i + 1;
    }
    r
}


/// Flat indices of the cells the given tool would affect, from the anchor
/// cell, the current cell and the grid: the single switch the engine
/// dispatches every tool through. Click tools use the current cell alone;
/// drag tools span anchor and current; the flood fill searches the grid
/// from the current cell. Out-of-range cells affect nothing.
pub fn compute_affected_cells(
    tool: &Tool,
    anchor: (u32, u32),
    current: (u32, u32),
    grid: &crate::grid::PixelGrid,
) -> (r: Vec<usize>)
    requires
        grid.wf(),
        anchor.0 < grid.spec_width(),
        anchor.1 < grid.spec_height(),
        current.0 < grid.spec_width(),
        current.1 < grid.spec_height(),
    ensures
        forall|k: int| 0 <= k < r@.len() ==> (r@[k] as int) < grid@.len(),
        tool.spec_is_drag() ==> forall|p: (u32, u32)|
            p.0 < grid.spec_width() && p.1 < grid.spec_height() ==> (r@.contains(
                cell_index(grid.spec_width() as int, p.0 as int, p.1 as int) as usize,
            ) <==> drag_covers(
                *tool,
                anchor.0 as int,
                anchor.1 as int,
                current.0 as int,
                current.1 as int,
                p.0 as int,
                p.1 as int,
            )),
        (tool.spec_kind() == ToolKind::SinglePixel || tool.spec_kind() == ToolKind::Eraser)
            ==> r@ =~= seq![
            cell_index(grid.spec_width() as int, current.0 as int, current.1 as int) as usize,
        ],
        tool.spec_kind() == ToolKind::Fill ==> crate::fill::fill_region_result(
            grid@,
            grid.spec_width() as int,
            grid.spec_height() as int,
            grid@[cell_index(grid.spec_width() as int, current.0 as int, current.1 as int)],
            cell_index(grid.spec_width() as int, current.0 as int, current.1 as int) as usize,
            r@,
        ),
{
    let w = grid.width();
    let h = grid.height();
    let ghost wi = w as int;
    let ghost hi = h as int;
    match tool {
        Tool::SinglePixel { .. } | Tool::Eraser => {
            proof {
                crate::grid::lemma_cell_index_injective(
                    wi,
                    hi,
                    current.0 as int,
                    current.1 as int,
                );
                assert(current.1 * w + current.0 <= crate::grid::MAX_DIM * crate::grid::MAX_DIM)
                    by (nonlinear_arith)
                    requires
                        current.0 < w <= crate::grid::MAX_DIM,
                        current.1 < h <= crate::grid::MAX_DIM,
                ;
            }
            let idx: usize = (current.1 as usize) * (w as usize) + (current.0 as usize);
            let mut r: Vec<usize> = Vec::new();
            r.push(idx);
            r
        },
        Tool::Fill { .. } => {
            proof {
                crate::grid::lemma_cell_index_injective(
                    wi,
                    hi,
                    current.0 as int,
                    current.1 as int,
                );
                assert(current.1 * w + current.0 <= crate::grid::MAX_DIM * crate::grid::MAX_DIM)
                    by (nonlinear_arith)
                    requires
                        current.0 < w <= crate::grid::MAX_DIM,
                        current.1 < h <= crate::grid::MAX_DIM,
                ;
            }
            let idx: usize = (current.1 as usize) * (w as usize) + (current.0 as usize);
            let wanted = grid.get_index(idx);
            let mut r: Vec<usize> = Vec::new();
            crate::fill::fill_get_all_pixels(idx, grid, &mut r, wanted);
            proof {
                assert forall|k: int| 0 <= k < r@.len() implies (r@[k] as int)
                    < grid@.len() by {
                    assert(r@.contains(r@[k]));
                }
            }
            r
        },
        _ => {
            let cells = stroke_cells(tool, anchor.0, anchor.1, current.0, current.1, w, h);
            let idxs = pairs_to_indices(&cells, w, h);
            proof {
                assert forall|p: (u32, u32)|
                    p.0 < w && p.1 < h implies (idxs@.contains(
                    cell_index(wi, p.0 as int, p.1 as int) as usize,
                ) <==> drag_covers(
                    *tool,
                    anchor.0 as int,
                    anchor.1 as int,
                    current.0 as int,
                    current.1 as int,
                    p.0 as int,
                    p.1 as int,
                )) by {
                    crate::grid::lemma_cell_index_injective(wi, hi, p.0 as int, p.1 as int);
                    let j = cell_index(wi, p.0 as int, p.1 as int);
                    assert(cells@.contains(p) <==> drag_covers(
                        *tool,
                        anchor.0 as int,
                        anchor.1 as int,
                        current.0 as int,
                        current.1 as int,
                        p.0 as int,
                        p.1 as int,
                    ));
                    if cells@.contains(p) {
                        let k = choose|k: int| 0 <= k < cells@.len() && cells@[k] == p;
                        assert(idxs@[k] == j as usize);
                        assert(idxs@.contains(idxs@[k]));
                    }
                    if idxs@.contains(j as usize) {
                        let k = choose|k: int| 0 <= k < idxs@.len() && idxs@[k] == j as usize;
                        assert(wi * hi <= crate::grid::MAX_DIM * crate::grid::MAX_DIM)
                            by (nonlinear_arith)
                            requires
                                0 < wi <= crate::grid::MAX_DIM,
                                0 < hi <= crate::grid::MAX_DIM,
                        ;
                        assert((j as usize) as int == j);
                        assert(idxs@[k] as int == j);
                        assert(cells@[k].0 as int == p.0 as int && cells@[k].1 as int == p.1
                            as int) by (nonlinear_arith)
                            requires
                                (cells@[k].1 as int) * wi + (cells@[k].0 as int) == (p.1 as int)
                                    * wi + (p.0 as int),
                                0 <= (cells@[k].0 as int) && (cells@[k].0 as int) < wi,
                                0 <= (p.0 as int) && (p.0 as int) < wi,
                                0 <= (cells@[k].1 as int),
                                0 <= (p.1 as int),
                        ;
                        assert(cells@.contains(cells@[k]));
                    }
                }
            }
            idxs
        },
    }
}

} // verus!
