//! The addressable 2D array of optional colors for one layer.
//!
//! Cells are stored row-major with row 0 at the top: the cell at column `x`,
//! row `y` sits at flat index `y * width + x`. Every other part of the
//! library (tool geometry, flood-fill neighborhoods, mirroring, export)
//! uses this same convention.
//!
//! Reads and writes through out-of-range coordinates are silent no-ops:
//! callers derive coordinates from rounded pointer positions, which may fall
//! just outside the grid at its edges, and that must never be fatal.

use vstd::prelude::*;

use crate::color::Color;

verus! {

/// Largest width or height a grid may be created with.
pub const MAX_DIM: u32 = 127;

/// Flat index of the cell at column `x`, row `y` in a grid `w` cells wide.
pub open spec fn cell_index(w: int, x: int, y: int) -> int {
    y * w + x
}

/// Whether `(x, y)` addresses a cell of a `w` by `h` grid.
pub open spec fn in_bounds(w: int, h: int, x: int, y: int) -> bool {
    0 <= x < w && 0 <= y < h
}

/// Value read at `(x, y)`: the stored cell in bounds, nothing outside.
pub open spec fn grid_get(cells: Seq<Option<Color>>, w: int, h: int, x: int, y: int) -> Option<
    Color,
> {
    if in_bounds(w, h, x, y) {
        cells[cell_index(w, x, y)]
    } else {
        None
    }
}

/// Cells after writing `c` at `(x, y)`: updated in bounds, unchanged outside.
pub open spec fn grid_set(
    cells: Seq<Option<Color>>,
    w: int,
    h: int,
    x: int,
    y: int,
    c: Option<Color>,
) -> Seq<Option<Color>> {
    if in_bounds(w, h, x, y) {
        cells.update(cell_index(w, x, y), c)
    } else {
        cells
    }
}

/// Writing a cell then reading it back yields the written value, and no
/// other cell moves; an out-of-range write changes nothing and an
/// out-of-range read yields nothing.
pub proof fn lemma_set_then_get(
    cells: Seq<Option<Color>>,
    w: int,
    h: int,
    x: int,
    y: int,
    c: Option<Color>,
)
    requires
        0 < w,
        0 < h,
        cells.len() == w * h,
    ensures
        in_bounds(w, h, x, y) ==> grid_get(grid_set(cells, w, h, x, y, c), w, h, x, y) == c,
        in_bounds(w, h, x, y) ==> forall|x2: int, y2: int|
            in_bounds(w, h, x2, y2) && (x2 != x || y2 != y) ==> grid_get(
                grid_set(cells, w, h, x, y, c),
                w,
                h,
                x2,
                y2,
            ) == grid_get(cells, w, h, x2, y2),
        !in_bounds(w, h, x, y) ==> grid_set(cells, w, h, x, y, c) == cells && grid_get(
            cells,
            w,
            h,
            x,
            y,
        ) is None,
{
    if in_bounds(w, h, x, y) {
        lemma_cell_index_injective(w, h, x, y);
        assert forall|x2: int, y2: int|
            in_bounds(w, h, x2, y2) && (x2 != x || y2 != y) implies grid_get(
            grid_set(cells, w, h, x, y, c),
            w,
            h,
            x2,
            y2,
        ) == grid_get(cells, w, h, x2, y2) by {
            lemma_cell_index_injective(w, h, x2, y2);
            assert(cell_index(w, x2, y2) != cell_index(w, x, y)) by (nonlinear_arith)
                requires
                    0 <= x < w,
                    0 <= y < h,
                    0 <= x2 < w,
                    0 <= y2 < h,
                    x2 != x || y2 != y,
            ;
        }
    }
}

/// In a `w` by `h` grid the flat index of an in-bounds cell is itself in
/// range of the cell sequence.
pub proof fn lemma_cell_index_injective(w: int, h: int, x: int, y: int)
    requires
        0 < w,
        0 < h,
        in_bounds(w, h, x, y),
    ensures
        0 <= cell_index(w, x, y) < w * h,
{
    assert(0 <= y * w + x < w * h) by (nonlinear_arith)
        requires
            0 <= x < w,
            0 <= y < h,
    ;
}

/// Whether flat index `j` addresses a cell directly left, right, above or
/// below the cell at flat index `i` in a `w` by `h` grid. A cell in column 0
/// has no left neighbor and a cell in the last column has no right neighbor:
/// plain index arithmetic would silently wrap across row edges, which would
/// let a flood fill leak around the border of the image.
pub open spec fn is_neighbor(w: int, h: int, i: int, j: int) -> bool {
    &&& 0 <= i < w * h
    &&& 0 <= j < w * h
    &&& {
        ||| (j == i - 1 && i % w != 0)
        ||| (j == i + 1 && i % w != w - 1)
        ||| j == i - w
        ||| j == i + w
    }
}

/// The 2D array of optional colors for one layer. Created once with fixed
/// dimensions and never resized; every cell starts unset.
pub struct PixelGrid {
    width: u32,
    height: u32,
    cells: Vec<Option<Color>>,
}

impl View for PixelGrid {
    type V = Seq<Option<Color>>;

    closed spec fn view(&self) -> Seq<Option<Color>> {
        self.cells@
    }
}

impl PixelGrid {
    pub closed spec fn spec_width(&self) -> u32 {
        self.width
    }

    pub closed spec fn spec_height(&self) -> u32 {
        self.height
    }

    /// Well-formedness: positive bounded dimensions and a cell store of
    /// exactly `width * height` entries.
    pub open spec fn wf(&self) -> bool {
        &&& 0 < self.spec_width() <= MAX_DIM
        &&& 0 < self.spec_height() <= MAX_DIM
        &&& self@.len() == self.spec_width() * self.spec_height()
    }

    /// Value of the cell at `(x, y)`, as `grid_get` reads it.
    pub open spec fn spec_get(&self, x: int, y: int) -> Option<Color> {
        grid_get(self@, self.spec_width() as int, self.spec_height() as int, x, y)
    }

    pub fn width(&self) -> (w: u32)
        ensures
            w == self.spec_width(),
    {
        self.width
    }

    pub fn height(&self) -> (h: u32)
        ensures
            h == self.spec_height(),
    {
        self.height
    }

    /// A fresh grid with every cell unset.
    pub fn new(width: u32, height: u32) -> (g: PixelGrid)
        requires
            0 < width <= MAX_DIM,
            0 < height <= MAX_DIM,
        ensures
            g.wf(),
            g.spec_width() == width,
            g.spec_height() == height,
            forall|i: int| 0 <= i < g@.len() ==> g@[i] is None,
    {
        proof {
            assert(width * height <= MAX_DIM * MAX_DIM) by (nonlinear_arith)
                requires
                    0 < width <= MAX_DIM,
                    0 < height <= MAX_DIM,
            ;
        }
        let n: usize = (width as usize) * (height as usize);
        let mut cells: Vec<Option<Color>> = Vec::new();
        let mut i: usize = 0;
        while i < n
            invariant
                i <= n,
                cells@.len() == i,
                forall|j: int| 0 <= j < i ==> cells@[j] is None,
            decreases n - i,
        {
            cells.push(None);
            i = i + 1;
        }
        PixelGrid { width, height, cells }
    }

    /// Read the cell at `(x, y)`; out of range reads as unset.
    pub fn get(&self, x: u32, y: u32) -> (r: Option<Color>)
        requires
            self.wf(),
        ensures
            r == self.spec_get(x as int, y as int),
    {
        if x < self.width && y < self.height {
            proof {
                lemma_cell_index_injective(
                    self.spec_width() as int,
                    self.spec_height() as int,
                    x as int,
                    y as int,
                );
                assert(y * self.spec_width() + x <= MAX_DIM * MAX_DIM) by (nonlinear_arith)
                    requires
                        x < self.spec_width() <= MAX_DIM,
                        y < self.spec_height() <= MAX_DIM,
                ;
            }
            let idx: usize = (y as usize) * (self.width as usize) + (x as usize);
            self.cells[idx]
        } else {
            None
        }
    }

    /// Write `c` at `(x, y)`; out of range is a silent no-op.
    pub fn set(&mut self, x: u32, y: u32, c: Option<Color>)
        requires
            old(self).wf(),
        ensures
            final(self).wf(),
            final(self).spec_width() == old(self).spec_width(),
            final(self).spec_height() == old(self).spec_height(),
            final(self)@ == grid_set(
                old(self)@,
                old(self).spec_width() as int,
                old(self).spec_height() as int,
                x as int,
                y as int,
                c,
            ),
    {
        if x < self.width && y < self.height {
            proof {
                lemma_cell_index_injective(
                    self.spec_width() as int,
                    self.spec_height() as int,
                    x as int,
                    y as int,
                );
                assert(y * self.spec_width() + x <= MAX_DIM * MAX_DIM) by (nonlinear_arith)
                    requires
                        x < self.spec_width() <= MAX_DIM,
                        y < self.spec_height() <= MAX_DIM,
                ;
            }
            let idx: usize = (y as usize) * (self.width as usize) + (x as usize);
            self.cells.set(idx, c);
        }
    }

    /// Read the cell at flat index `i`.
    pub fn get_index(&self, i: usize) -> (r: Option<Color>)
        requires
            self.wf(),
            i < self@.len(),
        ensures
            r == self@[i as int],
    {
        self.cells[i]
    }

    /// Write `c` at flat index `i`.
    pub fn set_index(&mut self, i: usize, c: Option<Color>)
        requires
            old(self).wf(),
            i < old(self)@.len(),
        ensures
            final(self).wf(),
            final(self).spec_width() == old(self).spec_width(),
            final(self).spec_height() == old(self).spec_height(),
            final(self)@ == old(self)@.update(i as int, c),
    {
        self.cells.set(i, c);
    }

    /// Number of cells.
    pub fn len(&self) -> (n: usize)
        requires
            self.wf(),
        ensures
            n == self@.len(),
    {
        self.cells.len()
    }

    /// The flat indices of the up-to-four direct neighbors of the cell at
    /// flat index `i`, excluding wraparound across row boundaries.
    pub fn neighbors(&self, i: usize) -> (r: Vec<usize>)
        requires
            self.wf(),
            i < self@.len(),
        ensures
            forall|j: usize|
                r@.contains(j) <==> is_neighbor(
                    self.spec_width() as int,
                    self.spec_height() as int,
                    i as int,
                    j as int,
                ),
    {
        proof {
            assert(self.spec_width() * self.spec_height() <= MAX_DIM * MAX_DIM)
                by (nonlinear_arith)
                requires
                    0 < self.spec_width() <= MAX_DIM,
                    0 < self.spec_height() <= MAX_DIM,
            ;
        }
        let w: usize = self.width as usize;
        let n: usize = self.cells.len();
        let mut r: Vec<usize> = Vec::new();
        let col: usize = i % w;
        if col != 0 {
            proof {
                assert(0 as int % w as int == 0);
            }
            r.push(i - 1);
        }
        if col != w - 1 {
            proof {
                assert(i as int % w as int != w as int - 1 ==> i as int + 1 < w as int * (
                self.spec_height() as int)) by (nonlinear_arith)
                    requires
                        0 < w,
                        0 <= i < w as int * (self.spec_height() as int),
                ;
            }
            r.push(i + 1);
        }
        if i >= w {
            r.push(i - w);
        }
        if i + w < n {
            r.push(i + w);
        }
        proof {
            let wi = self.spec_width() as int;
            let hi = self.spec_height() as int;
            let ii = i as int;
            assert(0 as int % wi == 0);
            assert forall|j: usize| r@.contains(j) implies is_neighbor(wi, hi, ii, j as int) by {
                let k = choose|k: int| 0 <= k < r@.len() && r@[k] == j;
                assert(r@[k] == j);
            }
            let p_left: int = if ii % wi != 0 {
                1
            } else {
                0
            };
            let p_right: int = if ii % wi != wi - 1 {
                1
            } else {
                0
            };
            let p_up: int = if ii >= wi {
                1
            } else {
                0
            };
            assert forall|j: usize| is_neighbor(wi, hi, ii, j as int) implies r@.contains(j) by {
                if j as int == ii - 1 && ii % wi != 0 {
                    assert(r@[0] == j);
                } else if j as int == ii + 1 && ii % wi != wi - 1 {
                    assert(r@[p_left] == j);
                } else if j as int == ii - wi {
                    assert(ii >= wi);
                    assert(r@[p_left + p_right] == j);
                } else {
                    assert(j as int == ii + wi && ii + wi < wi * hi);
                    assert(r@[p_left + p_right + p_up] == j);
                }
            }
        }
        r
    }

    /// Reverse every row in place, so that column `x` shows what column
    /// `width - 1 - x` held. Used only to convert between the internal scan
    /// order and an output image's column convention before export.
    pub fn mirror_horizontal(&mut self)
        requires
            old(self).wf(),
        ensures
            final(self).wf(),
            final(self).spec_width() == old(self).spec_width(),
            final(self).spec_height() == old(self).spec_height(),
            forall|x: int, y: int|
                in_bounds(
                    old(self).spec_width() as int,
                    old(self).spec_height() as int,
                    x,
                    y,
                ) ==> final(self).spec_get(x, y) == old(self).spec_get(
                    old(self).spec_width() - 1 - x,
                    y,
                ),
    {
        let w: usize = self.width as usize;
        let n: usize = self.cells.len();
        let mut cells: Vec<Option<Color>> = Vec::new();
        let ghost wi = self.spec_width() as int;
        let ghost hi = self.spec_height() as int;
        let mut i: usize = 0;
        while i < n
            invariant
                i <= n,
                n == self@.len(),
                n == wi * hi,
                w == wi,
                0 < wi <= MAX_DIM,
                0 < hi <= MAX_DIM,
                cells@.len() == i,
                forall|j: int|
                    0 <= j < i ==> cells@[j] == self@[(j / wi) * wi + (wi - 1 - j % wi)],
            decreases n - i,
        {
            let x: usize = i % w;
            let y: usize = i / w;
            proof {
                vstd::arithmetic::div_mod::lemma_fundamental_div_mod(i as int, wi);
                assert(0 <= i as int % wi < wi) by (nonlinear_arith)
                    requires
                        0 < wi,
                ;
                assert(0 <= i as int / wi < hi) by (nonlinear_arith)
                    requires
                        0 < wi,
                        0 <= (i as int) && (i as int) < wi * hi,
                ;
                lemma_cell_index_injective(wi, hi, wi - 1 - x as int, y as int);
            }
            let src: usize = y * w + (w - 1 - x);
            cells.push(self.cells[src]);
            i = i + 1;
        }
        self.cells = cells;
        proof {
            assert forall|x: int, y: int| in_bounds(wi, hi, x, y) implies self.spec_get(x, y)
                == old(self).spec_get(wi - 1 - x, y) by {
                let j = cell_index(wi, x, y);
                lemma_cell_index_injective(wi, hi, x, y);
                vstd::arithmetic::div_mod::lemma_fundamental_div_mod_converse_div(j, wi, y, x);
                vstd::arithmetic::div_mod::lemma_fundamental_div_mod_converse_mod(j, wi, y, x);
                lemma_cell_index_injective(wi, hi, wi - 1 - x, y);
            }
        }
    }

    /// Reverse the order of the rows in place, so that row `y` shows what
    /// row `height - 1 - y` held. Used only to convert between the internal
    /// scan order and an output image's row-origin convention before export.
    pub fn mirror_vertical(&mut self)
        requires
            old(self).wf(),
        ensures
            final(self).wf(),
            final(self).spec_width() == old(self).spec_width(),
            final(self).spec_height() == old(self).spec_height(),
            forall|x: int, y: int|
                in_bounds(
                    old(self).spec_width() as int,
                    old(self).spec_height() as int,
                    x,
                    y,
                ) ==> final(self).spec_get(x, y) == old(self).spec_get(
                    x,
                    old(self).spec_height() - 1 - y,
                ),
    {
        let w: usize = self.width as usize;
        let h: usize = self.height as usize;
        let n: usize = self.cells.len();
        let mut cells: Vec<Option<Color>> = Vec::new();
        let ghost wi = self.spec_width() as int;
        let ghost hi = self.spec_height() as int;
        let mut i: usize = 0;
        while i < n
            invariant
                i <= n,
                n == self@.len(),
                n == wi * hi,
                w == wi,
                h == hi,
                0 < wi <= MAX_DIM,
                0 < hi <= MAX_DIM,
                cells@.len() == i,
                forall|j: int|
                    0 <= j < i ==> cells@[j] == self@[(hi - 1 - j / wi) * wi + j % wi],
            decreases n - i,
        {
            let x: usize = i % w;
            let y: usize = i / w;
            proof {
                vstd::arithmetic::div_mod::lemma_fundamental_div_mod(i as int, wi);
                assert(0 <= i as int % wi < wi) by (nonlinear_arith)
                    requires
                        0 < wi,
                ;
                assert(0 <= i as int / wi < hi) by (nonlinear_arith)
                    requires
                        0 < wi,
                        0 <= (i as int) && (i as int) < wi * hi,
                ;
                lemma_cell_index_injective(wi, hi, x as int, hi - 1 - y as int);
            }
            let src: usize = (h - 1 - y) * w + x;
            cells.push(self.cells[src]);
            i = i + 1;
        }
        self.cells = cells;
        proof {
            assert forall|x: int, y: int| in_bounds(wi, hi, x, y) implies self.spec_get(x, y)
                == old(self).spec_get(x, hi - 1 - y) by {
                let j = cell_index(wi, x, y);
                lemma_cell_index_injective(wi, hi, x, y);
                vstd::arithmetic::div_mod::lemma_fundamental_div_mod_converse_div(j, wi, y, x);
                vstd::arithmetic::div_mod::lemma_fundamental_div_mod_converse_mod(j, wi, y, x);
                lemma_cell_index_injective(wi, hi, x, hi - 1 - y);
            }
        }
    }

    /// Flat RGBA buffer in the grid's own scan order, four bytes per cell;
    /// unset cells materialize as fully transparent zeros.
    pub fn to_flat_buffer(&self) -> (r: Vec<u8>)
        requires
            self.wf(),
        ensures
            r@.len() == 4 * self@.len(),
            forall|i: int|
                0 <= i < self@.len() ==> {
                    &&& r@[4 * i] == (if self@[i] is Some {
                        self@[i].unwrap().r
                    } else {
                        0
                    })
                    &&& r@[4 * i + 1] == (if self@[i] is Some {
                        self@[i].unwrap().g
                    } else {
                        0
                    })
                    &&& r@[4 * i + 2] == (if self@[i] is Some {
                        self@[i].unwrap().b
                    } else {
                        0
                    })
                    &&& r@[4 * i + 3] == (if self@[i] is Some {
                        self@[i].unwrap().a
                    } else {
                        0
                    })
                },
    {
        let n: usize = self.cells.len();
        proof {
            assert(self.spec_width() * self.spec_height() <= MAX_DIM * MAX_DIM)
                by (nonlinear_arith)
                requires
                    0 < self.spec_width() <= MAX_DIM,
                    0 < self.spec_height() <= MAX_DIM,
            ;
        }
        let mut r: Vec<u8> = Vec::new();
        let mut i: usize = 0;
        while i < n
            invariant
                i <= n,
                n == self@.len(),
                r@.len() == 4 * i,
                forall|j: int|
                    0 <= j < i ==> {
                        &&& r@[4 * j] == (if self@[j] is Some {
                            self@[j].unwrap().r
                        } else {
                            0
                        })
                        &&& r@[4 * j + 1] == (if self@[j] is Some {
                            self@[j].unwrap().g
                        } else {
                            0
                        })
                        &&& r@[4 * j + 2] == (if self@[j] is Some {
                            self@[j].unwrap().b
                        } else {
                            0
                        })
                        &&& r@[4 * j + 3] == (if self@[j] is Some {
                            self@[j].unwrap().a
                        } else {
                            0
                        })
                    },
            decreases n - i,
        {
            match self.cells[i] {
                Some(c) => {
                    r.push(c.r);
                    r.push(c.g);
                    r.push(c.b);
                    r.push(c.a);
                },
                None => {
                    r.push(0);
                    r.push(0);
                    r.push(0);
                    r.push(0);
                },
            }
            i = i + 1;
        }
        r
    }

    /// An independent copy with the same dimensions and cells.
    pub fn duplicate(&self) -> (g: PixelGrid)
        requires
            self.wf(),
        ensures
            g.wf(),
            g.spec_width() == self.spec_width(),
            g.spec_height() == self.spec_height(),
            g@ == self@,
    {
        let n = self.cells.len();
        let mut cells: Vec<Option<Color>> = Vec::new();
        let mut i: usize = 0;
        while i < n
            invariant
                i <= n,
                n == self@.len(),
                cells@.len() == i,
                forall|j: int| 0 <= j < i ==> cells@[j] == self@[j],
            decreases n - i,
        {
            cells.push(self.cells[i]);
            i = i + 1;
        }
        proof {
            assert(cells@ =~= self@);
        }
        PixelGrid { width: self.width, height: self.height, cells }
    }
}

} // verus!
