//! One layer of the image: a pixel grid with a stable identifier, its own
//! linear undo/redo history, and the transient state of an in-progress
//! drag stroke.
//!
//! The drag lifecycle follows three phases. `begin_stroke` snapshots the
//! grid into a scratch buffer; every `update_stroke` repaints a fresh copy
//! of that snapshot with the shape the anchor and the current cell imply,
//! so repeated updates never accumulate stale preview pixels;
//! `commit_stroke` records the whole drag as one history entry — or, for a
//! degenerate rectangle stroke, restores the snapshot and records nothing.
//!
//! The layer's invariant ties the history to the cells: every entry behind
//! the present honestly records the colors it wrote, and every undone entry
//! can be redone. That is what makes the undo/redo round trip exact.

use vstd::prelude::*;

use crate::color::Color;
use crate::fill::fill_get_all_pixels;
use crate::fill::fill_reachable;
use crate::fill::fill_region_result;
use crate::grid::MAX_DIM;
use crate::grid::PixelGrid;
use crate::grid::cell_index;
use crate::grid::grid_get;
use crate::history::Action;
use crate::history::ActionModel;
use crate::history::ActionsManager;
use crate::history::DrawInfo;
use crate::history::action_model_wf;
use crate::history::actions_consistent;
use crate::history::actions_redoable;
use crate::history::apply_pixels_from;
use crate::history::apply_pixels_to;
use crate::history::deltas_of;
use crate::history::lemma_apply_pixels_len;
use crate::history::lemma_apply_pixels_to_at;
use crate::history::lemma_apply_pixels_untouched;
use crate::history::lemma_apply_round;
use crate::history::lemma_apply_round_from;
use crate::history::lemma_match_from_after_apply;
use crate::history::lemma_match_to_after_apply;
use crate::history::pixels_match_from;
use crate::history::pixels_match_to;
use crate::tools::Tool;
use crate::tools::drag_covers;
use crate::tools::drag_degenerate;
use crate::tools::pairs_to_indices;
use crate::tools::stroke_cells;
use crate::tools::tool_color;

verus! {

/// Transient state of one in-progress drag stroke.
struct Stroke {
    anchor_x: u32,
    anchor_y: u32,
    cur_x: u32,
    cur_y: u32,
    scratch: PixelGrid,
}

/// One layer: its grid, identifier, history and in-progress stroke.
pub struct Layer {
    id: u64,
    grid: PixelGrid,
    history: ActionsManager,
    stroke: Option<Stroke>,
}

impl View for Layer {
    type V = Seq<Option<Color>>;

    closed spec fn view(&self) -> Seq<Option<Color>> {
        self.grid@
    }
}

impl Layer {
    /// Stable identifier, assigned at creation and never changed.
    pub closed spec fn spec_id(&self) -> u64 {
        self.id
    }

    pub closed spec fn spec_width(&self) -> u32 {
        self.grid.spec_width()
    }

    pub closed spec fn spec_height(&self) -> u32 {
        self.grid.spec_height()
    }

    /// Whether a drag stroke is in progress.
    pub closed spec fn in_stroke(&self) -> bool {
        self.stroke is Some
    }

    /// Anchor cell of the in-progress stroke.
    pub closed spec fn spec_anchor(&self) -> (u32, u32) {
        (self.stroke.unwrap().anchor_x, self.stroke.unwrap().anchor_y)
    }

    /// Current cell of the in-progress stroke, as of the last update.
    pub closed spec fn spec_current(&self) -> (u32, u32) {
        (self.stroke.unwrap().cur_x, self.stroke.unwrap().cur_y)
    }

    /// Pre-stroke snapshot the previews are painted over.
    pub closed spec fn spec_scratch(&self) -> Seq<Option<Color>> {
        self.stroke.unwrap().scratch@
    }

    /// History behind the present.
    pub closed spec fn undo_models(&self) -> Seq<ActionModel> {
        self.history.undo_seq()
    }

    /// Undone history ahead of the present.
    pub closed spec fn redo_models(&self) -> Seq<ActionModel> {
        self.history.redo_seq()
    }

    /// The last committed cells: the scratch snapshot while a stroke is in
    /// progress (the live grid then shows an uncommitted preview), the live
    /// grid otherwise.
    pub open spec fn base_cells(&self) -> Seq<Option<Color>> {
        if self.in_stroke() {
            self.spec_scratch()
        } else {
            self@
        }
    }

    /// Value of the cell at `(x, y)` of the live grid.
    pub open spec fn spec_get(&self, x: int, y: int) -> Option<Color> {
        grid_get(self@, self.spec_width() as int, self.spec_height() as int, x, y)
    }

    /// Internal shape of the representation: the grid and the stroke
    /// snapshot are well-formed grids of the same dimensions.
    pub closed spec fn inv(&self) -> bool {
        &&& self.grid.wf()
        &&& match self.stroke {
            Some(st) => {
                &&& st.scratch.wf()
                &&& st.scratch.spec_width() == self.grid.spec_width()
                &&& st.scratch.spec_height() == self.grid.spec_height()
            },
            None => true,
        }
    }

    /// Well-formedness: a bounded grid, a stroke state that matches it, and
    /// a history that honestly describes the committed timeline.
    pub open spec fn wf(&self) -> bool {
        &&& self.inv()
        &&& 0 < self.spec_width() <= MAX_DIM
        &&& 0 < self.spec_height() <= MAX_DIM
        &&& self@.len() == self.spec_width() * self.spec_height()
        &&& (self.in_stroke() ==> {
            &&& self.spec_scratch().len() == self@.len()
            &&& self.spec_anchor().0 < self.spec_width()
            &&& self.spec_anchor().1 < self.spec_height()
            &&& self.spec_current().0 < self.spec_width()
            &&& self.spec_current().1 < self.spec_height()
        })
        &&& (forall|i: int|
            0 <= i < self.undo_models().len() ==> action_model_wf(
                #[trigger] self.undo_models()[i],
                self.spec_id(),
                self@.len() as int,
            ))
        &&& (forall|i: int|
            0 <= i < self.redo_models().len() ==> action_model_wf(
                #[trigger] self.redo_models()[i],
                self.spec_id(),
                self@.len() as int,
            ))
        &&& actions_consistent(self.base_cells(), self.undo_models())
        &&& actions_redoable(self.base_cells(), self.redo_models())
    }

    /// A fresh layer: every cell unset, empty history, no stroke.
    pub fn new(id: u64, width: u32, height: u32) -> (r: Layer)
        requires
            0 < width <= MAX_DIM,
            0 < height <= MAX_DIM,
        ensures
            r.wf(),
            r.spec_id() == id,
            r.spec_width() == width,
            r.spec_height() == height,
            forall|i: int| 0 <= i < r@.len() ==> r@[i] is None,
            r.undo_models().len() == 0,
            r.redo_models().len() == 0,
            !r.in_stroke(),
    {
        Layer { id, grid: PixelGrid::new(width, height), history: ActionsManager::new(), stroke: None }
    }

    pub fn id(&self) -> (r: u64)
        ensures
            r == self.spec_id(),
    {
        self.id
    }

    pub fn width(&self) -> (r: u32)
        ensures
            r == self.spec_width(),
    {
        self.grid.width()
    }

    pub fn height(&self) -> (r: u32)
        ensures
            r == self.spec_height(),
    {
        self.grid.height()
    }

    /// Read access to the live grid, previews included.
    pub fn grid(&self) -> (g: &PixelGrid)
        ensures
            g@ == self@,
            g.spec_width() == self.spec_width(),
            g.spec_height() == self.spec_height(),
            self.wf() ==> g.wf(),
    {
        &self.grid
    }

    /// Whether a drag stroke is in progress.
    pub fn stroke_active(&self) -> (r: bool)
        ensures
            r == self.in_stroke(),
    {
        self.stroke.is_some()
    }

    /// Read the cell at `(x, y)`; out of range reads as unset.
    pub fn get(&self, x: u32, y: u32) -> (r: Option<Color>)
        requires
            self.wf(),
        ensures
            r == self.spec_get(x as int, y as int),
    {
        self.grid.get(x, y)
    }

    /// Write one cell and record it as one undoable action. This is the
    /// effect of the single-pixel tool (some color) and of the eraser
    /// (no color) at a cell index.
    pub fn set_pixel(&mut self, index: usize, c: Option<Color>)
        requires
            old(self).wf(),
            !old(self).in_stroke(),
            index < old(self)@.len(),
        ensures
            final(self).wf(),
            !final(self).in_stroke(),
            final(self).spec_id() == old(self).spec_id(),
            final(self).spec_width() == old(self).spec_width(),
            final(self).spec_height() == old(self).spec_height(),
            final(self)@ == old(self)@.update(index as int, c),
            final(self).undo_models() == old(self).undo_models().push(
                ActionModel {
                    pixels: deltas_of(old(self)@, seq![index], c),
                    layer_id: old(self).spec_id(),
                },
            ),
            final(self).redo_models().len() == 0,
    {
        let ghost pre = *self;
        let from = self.grid.get_index(index);
        let mut pixels: Vec<(usize, DrawInfo)> = Vec::new();
        pixels.push((index, DrawInfo { from, to: c }));
        let action = Action::draw_pixels(pixels, self.id);
        let ghost am = action@;
        self.grid.set_index(index, c);
        self.history.add_action(action);
        proof {
            assert(am.pixels =~= deltas_of(pre@, seq![index], c));
            assert(am.pixels.len() == 1);
            let front = am.pixels.drop_last();
            assert(front.len() == 0);
            assert(apply_pixels_to(pre@, front) == pre@);
            assert(self@ =~= apply_pixels_to(pre@, am.pixels));
            lemma_match_to_after_apply(pre@, am.pixels);
            lemma_apply_round_from(pre@, am.pixels);
            assert(apply_pixels_from(self@, am.pixels) == pre@);
            assert(self.undo_models().drop_last() =~= pre.undo_models());
            assert(actions_consistent(self.base_cells(), self.undo_models()));
        }
    }

    /// Write a real color at one cell, as one undoable action.
    pub fn set_pixel_color(&mut self, index: usize, c: Color)
        requires
            old(self).wf(),
            !old(self).in_stroke(),
            index < old(self)@.len(),
        ensures
            final(self).wf(),
            !final(self).in_stroke(),
            final(self).spec_id() == old(self).spec_id(),
            final(self).spec_width() == old(self).spec_width(),
            final(self).spec_height() == old(self).spec_height(),
            final(self)@ == old(self)@.update(index as int, Some(c)),
            final(self).undo_models() == old(self).undo_models().push(
                ActionModel {
                    pixels: deltas_of(old(self)@, seq![index], Some(c)),
                    layer_id: old(self).spec_id(),
                },
            ),
            final(self).redo_models().len() == 0,
    {
        self.set_pixel(index, Some(c))
    }

    /// Step one committed action back: restore the colors it overwrote.
    /// Returns whether anything was undone; with nothing to undo, or while
    /// a stroke is in progress, nothing changes.
    pub fn undo(&mut self) -> (r: bool)
        requires
            old(self).wf(),
        ensures
            undo_applied(*old(self), *final(self), r),
    {
        if self.stroke.is_some() {
            return false;
        }
        let ghost pre = *self;
        match self.history.undo() {
            Some(action) => {
                let ghost am = pre.undo_models().last();
                proof {
                    assert(action@ == am);
                    assert(pixels_match_to(pre@, am.pixels));
                }
                match &action {
                    Action::DrawPixels(info) => {
                        apply_deltas_from(&mut self.grid, &info.pixels);
                    },
                }
                proof {
                    lemma_match_from_after_apply(pre@, am.pixels);
                    lemma_apply_round(pre@, am.pixels);
                    assert(apply_pixels_to(self@, am.pixels) == pre@);
                    assert(self.redo_models().drop_last() =~= pre.redo_models());
                    assert(actions_redoable(self.base_cells(), self.redo_models()));
                }
                true
            },
            None => false,
        }
    }

    /// Step one undone action forward again: rewrite the colors it had
    /// written. Returns whether anything was redone; with nothing to redo,
    /// or while a stroke is in progress, nothing changes.
    pub fn redo(&mut self) -> (r: bool)
        requires
            old(self).wf(),
        ensures
            redo_applied(*old(self), *final(self), r),
    {
        if self.stroke.is_some() {
            return false;
        }
        let ghost pre = *self;
        match self.history.redo() {
            Some(action) => {
                let ghost am = pre.redo_models().last();
                proof {
                    assert(action@ == am);
                    assert(pixels_match_from(pre@, am.pixels));
                }
                match &action {
                    Action::DrawPixels(info) => {
                        apply_deltas_to(&mut self.grid, &info.pixels);
                    },
                }
                proof {
                    lemma_match_to_after_apply(pre@, am.pixels);
                    lemma_apply_round_from(pre@, am.pixels);
                    assert(apply_pixels_from(self@, am.pixels) == pre@);
                    assert(self.undo_models().drop_last() =~= pre.undo_models());
                    assert(actions_consistent(self.base_cells(), self.undo_models()));
                }
                true
            },
            None => false,
        }
    }

    /// Start a drag stroke at the anchor cell: snapshot the grid so that
    /// every preview can be painted over the pre-stroke state. A stroke
    /// that was still in progress is discarded first: its preview pixels
    /// never became permanent, so the grid returns to the snapshot.
    pub fn begin_stroke(&mut self, ax: u32, ay: u32)
        requires
            old(self).wf(),
            ax < old(self).spec_width(),
            ay < old(self).spec_height(),
        ensures
            begin_applied(*old(self), *final(self), ax, ay),
    {
        match self.stroke.take() {
            Some(st) => {
                self.grid = st.scratch;
            },
            None => {},
        }
        let scratch = self.grid.duplicate();
        self.stroke = Some(Stroke { anchor_x: ax, anchor_y: ay, cur_x: ax, cur_y: ay, scratch });
    }

    /// Repaint the preview for the current cell of the drag: a fresh copy
    /// of the pre-stroke snapshot with the shape the anchor and this cell
    /// imply. Updating twice with the same cell yields the same grid.
    pub fn update_stroke(&mut self, tool: &Tool, cx: u32, cy: u32)
        requires
            old(self).wf(),
            old(self).in_stroke(),
            tool.spec_is_drag(),
            cx < old(self).spec_width(),
            cy < old(self).spec_height(),
        ensures
            update_applied(*old(self), *final(self), *tool, cx, cy),
    {
        let w = self.grid.width();
        let h = self.grid.height();
        let ghost wi = w as int;
        let ghost hi = h as int;
        let (ax, ay) = match &self.stroke {
            Some(st) => (st.anchor_x, st.anchor_y),
            None => (0, 0),
        };
        let c = tool.color();
        let cells = stroke_cells(tool, ax, ay, cx, cy, w, h);
        let idxs = pairs_to_indices(&cells, w, h);
        match &mut self.stroke {
            Some(st) => {
                let mut g = st.scratch.duplicate();
                let px = build_deltas(&g, &idxs, Some(c));
                apply_deltas_to(&mut g, &px);
                self.grid = g;
                st.cur_x = cx;
                st.cur_y = cy;
            },
            None => {},
        }
        proof {
            lemma_painted_pointwise(old(self).spec_scratch(), wi, hi, cells@, idxs@, c);
            assert forall|p: (u32, u32)|
                p.0 < w && p.1 < h implies self.spec_get(p.0 as int, p.1 as int) == (
            if drag_covers(
                *tool,
                old(self).spec_anchor().0 as int,
                old(self).spec_anchor().1 as int,
                cx as int,
                cy as int,
                p.0 as int,
                p.1 as int,
            ) {
                Some(tool_color(*tool))
            } else {
                old(self).spec_scratch()[cell_index(wi, p.0 as int, p.1 as int)]
            }) by {
                crate::grid::lemma_cell_index_injective(wi, hi, p.0 as int, p.1 as int);
                assert(cells@.contains(p) <==> drag_covers(
                    *tool,
                    old(self).spec_anchor().0 as int,
                    old(self).spec_anchor().1 as int,
                    cx as int,
                    cy as int,
                    p.0 as int,
                    p.1 as int,
                ));
            }
        }
    }

    /// Finish the drag: clear the stroke state and commit its final shape
    /// as one history entry covering the whole gesture. A degenerate
    /// rectangle stroke (anchor and current cell on one row or column)
    /// paints nothing: the snapshot is restored and no entry is recorded.
    pub fn commit_stroke(&mut self, tool: &Tool)
        requires
            old(self).wf(),
            old(self).in_stroke(),
            tool.spec_is_drag(),
        ensures
            commit_applied(*old(self), *final(self), *tool),
    {
        let w = self.grid.width();
        let h = self.grid.height();
        let ghost wi = w as int;
        let ghost hi = h as int;
        let ghost pre = *self;
        let st = match self.stroke.take() {
            Some(st) => st,
            None => {
                return ;
            },
        };
        let ax = st.anchor_x;
        let ay = st.anchor_y;
        let cx = st.cur_x;
        let cy = st.cur_y;
        let cells = stroke_cells(tool, ax, ay, cx, cy, w, h);
        let mut g = st.scratch;
        if cells.len() == 0 {
            proof {
                match *tool {
                    Tool::RectangleBorder { .. } => {
                        if ax != cx && ay != cy {
                            let p = ((if ax < cx {
                                ax
                            } else {
                                cx
                            }), ay);
                            assert(drag_covers(
                                *tool,
                                ax as int,
                                ay as int,
                                cx as int,
                                cy as int,
                                p.0 as int,
                                p.1 as int,
                            ));
                            assert(cells@.contains(p));
                        }
                    },
                    Tool::RectangleFill { .. } => {
                        if ax != cx && ay != cy {
                            let p = (ax, ay);
                            assert(drag_covers(
                                *tool,
                                ax as int,
                                ay as int,
                                cx as int,
                                cy as int,
                                p.0 as int,
                                p.1 as int,
                            ));
                            assert(cells@.contains(p));
                        }
                    },
                    _ => {
                        assert(crate::line::line_len(ax as int, ay as int, cx as int, cy as int)
                            > 0);
                        crate::line::lemma_line_cell_in_box(
                            ax as int,
                            ay as int,
                            cx as int,
                            cy as int,
                            0,
                        );
                        let c0 = crate::line::line_cell(
                            ax as int,
                            ay as int,
                            cx as int,
                            cy as int,
                            0,
                        );
                        let p = (c0.0 as u32, c0.1 as u32);
                        assert((p.0 as int, p.1 as int) == c0);
                        assert(drag_covers(
                            *tool,
                            ax as int,
                            ay as int,
                            cx as int,
                            cy as int,
                            p.0 as int,
                            p.1 as int,
                        ));
                        assert(cells@.contains(p));
                        assert(false);
                    },
                }
                assert(drag_degenerate(*tool, ax as int, ay as int, cx as int, cy as int));
            }
            self.grid = g;
            return ;
        }
        proof {
            assert(!drag_degenerate(*tool, ax as int, ay as int, cx as int, cy as int)) by {
                if drag_degenerate(*tool, ax as int, ay as int, cx as int, cy as int) {
                    assert(cells@.contains(cells@[0]));
                }
            }
        }
        let c = tool.color();
        let idxs = pairs_to_indices(&cells, w, h);
        let px = build_deltas(&g, &idxs, Some(c));
        apply_deltas_to(&mut g, &px);
        let ghost scratch = pre.spec_scratch();
        let ghost am_pixels = px@;
        self.grid = g;
        let action = Action::draw_pixels(px, self.id);
        self.history.add_action(action);
        proof {
            lemma_painted_pointwise(scratch, wi, hi, cells@, idxs@, c);
            assert(am_pixels == deltas_of(scratch, idxs@, Some(c)));
            assert(self@ == apply_pixels_to(scratch, am_pixels));
            assert(self.spec_width() == w && self.spec_height() == h);
            assert forall|p: (u32, u32)|
                p.0 < w && p.1 < h implies self.spec_get(p.0 as int, p.1 as int) == (
            if drag_covers(*tool, ax as int, ay as int, cx as int, cy as int, p.0 as int, p.1
                as int) {
                Some(tool_color(*tool))
            } else {
                scratch[cell_index(wi, p.0 as int, p.1 as int)]
            }) by {
                crate::grid::lemma_cell_index_injective(wi, hi, p.0 as int, p.1 as int);
                assert(cells@.contains(p) <==> drag_covers(
                    *tool,
                    ax as int,
                    ay as int,
                    cx as int,
                    cy as int,
                    p.0 as int,
                    p.1 as int,
                ));
            }
            let am = ActionModel { pixels: am_pixels, layer_id: pre.spec_id() };
            assert(self.undo_models().drop_last() =~= pre.undo_models());
            assert(self.undo_models().last() == am);
            // the entry indexes exactly the covered cells
            assert forall|p: (u32, u32)|
                p.0 < w && p.1 < h implies ((exists|k: int|
                0 <= k < am.pixels.len() && (#[trigger] am.pixels[k]).0 as int == cell_index(
                    wi,
                    p.0 as int,
                    p.1 as int,
                )) <==> drag_covers(
                *tool,
                ax as int,
                ay as int,
                cx as int,
                cy as int,
                p.0 as int,
                p.1 as int,
            )) by {
                crate::grid::lemma_cell_index_injective(wi, hi, p.0 as int, p.1 as int);
                assert(cells@.contains(p) <==> drag_covers(
                    *tool,
                    ax as int,
                    ay as int,
                    cx as int,
                    cy as int,
                    p.0 as int,
                    p.1 as int,
                ));
                if drag_covers(*tool, ax as int, ay as int, cx as int, cy as int, p.0 as int,
                    p.1 as int) {
                    let k = choose|k: int| 0 <= k < cells@.len() && cells@[k] == p;
                    assert(am.pixels[k].0 as int == cell_index(wi, p.0 as int, p.1 as int));
                } else {
                    if exists|k: int|
                        0 <= k < am.pixels.len() && (#[trigger] am.pixels[k]).0 as int
                            == cell_index(wi, p.0 as int, p.1 as int) {
                        let k = choose|k: int|
                            0 <= k < am.pixels.len() && (#[trigger] am.pixels[k]).0 as int
                                == cell_index(wi, p.0 as int, p.1 as int);
                        assert(cells@[k].0 as int == p.0 as int && cells@[k].1 as int == p.1
                            as int) by (nonlinear_arith)
                            requires
                                (cells@[k].1 as int) * wi + (cells@[k].0 as int) == (p.1 as int)
                                    * wi + (p.0 as int),
                                0 <= (cells@[k].0 as int) && (cells@[k].0 as int) < wi,
                                0 <= (p.0 as int) && (p.0 as int) < wi,
                                0 <= (cells@[k].1 as int),
                                0 <= (p.1 as int),
                        ;
                        assert(cells@.contains(cells@[k]));
                    }
                }
            }
            // the history invariant survives the commit
            lemma_match_to_after_apply(scratch, am.pixels);
            lemma_apply_round_from(scratch, am.pixels);
            assert(apply_pixels_from(self@, am.pixels) == scratch);
            assert(actions_consistent(self.base_cells(), self.undo_models()));
        }
    }

    /// Flood fill from the seed cell `(x, y)`: repaint the connected
    /// region of cells that share the seed's exact color (or its unset
    /// state) with `color`, as one history entry. An out-of-range seed is
    /// a no-op; clicks land on the grid edge after rounding, never beyond
    /// it, so nothing is owed there.
    pub fn apply_fill(&mut self, x: u32, y: u32, color: Color)
        requires
            old(self).wf(),
            !old(self).in_stroke(),
        ensures
            final(self).wf(),
            !final(self).in_stroke(),
            final(self).spec_id() == old(self).spec_id(),
            final(self).spec_width() == old(self).spec_width(),
            final(self).spec_height() == old(self).spec_height(),
            !(x < old(self).spec_width() && y < old(self).spec_height()) ==> final(self)@ == old(self)@ && final(self).undo_models() == old(self).undo_models() && final(self).redo_models()
                == old(self).redo_models(),
            (x < old(self).spec_width() && y < old(self).spec_height()) ==> {
                &&& (forall|j: int|
                    0 <= j < old(self)@.len() ==> final(self)@[j] == (if fill_reachable(
                        old(self)@,
                        old(self).spec_width() as int,
                        old(self).spec_height() as int,
                        old(self).spec_get(x as int, y as int),
                        cell_index(old(self).spec_width() as int, x as int, y as int),
                        j,
                    ) {
                        Some(color)
                    } else {
                        old(self)@[j]
                    }))
                &&& final(self).undo_models().len() == old(self).undo_models().len() + 1
                &&& final(self).undo_models().drop_last() == old(self).undo_models()
                &&& final(self).redo_models().len() == 0
                &&& final(self).undo_models().last().layer_id == old(self).spec_id()
                &&& (forall|k: int|
                    0 <= k < final(self).undo_models().last().pixels.len() ==> {
                        &&& (#[trigger] final(self).undo_models().last().pixels[k]).1.to == Some(
                            color,
                        )
                        &&& (final(self).undo_models().last().pixels[k].0 as int) < old(self)@.len()
                        &&& final(self).undo_models().last().pixels[k].1.from == old(self)@[final(self).undo_models().last().pixels[k].0 as int]
                    })
                &&& (forall|j: int|
                    0 <= j < old(self)@.len() ==> ((exists|k: int|
                        0 <= k < final(self).undo_models().last().pixels.len() && (
                        #[trigger] final(self).undo_models().last().pixels[k]).0 as int == j)
                        <==> fill_reachable(
                        old(self)@,
                        old(self).spec_width() as int,
                        old(self).spec_height() as int,
                        old(self).spec_get(x as int, y as int),
                        cell_index(old(self).spec_width() as int, x as int, y as int),
                        j,
                    )))
            },
    {
        let w = self.grid.width();
        let h = self.grid.height();
        if !(x < w && y < h) {
            return ;
        }
        let ghost pre = *self;
        let ghost wi = w as int;
        let ghost hi = h as int;
        proof {
            crate::grid::lemma_cell_index_injective(wi, hi, x as int, y as int);
            assert(y * w + x <= MAX_DIM * MAX_DIM) by (nonlinear_arith)
                requires
                    x < w <= MAX_DIM,
                    y < h <= MAX_DIM,
            ;
        }
        let seed: usize = (y as usize) * (w as usize) + (x as usize);
        let wanted = self.grid.get_index(seed);
        let mut visited: Vec<usize> = Vec::new();
        fill_get_all_pixels(seed, &self.grid, &mut visited, wanted);
        let ghost region = visited@;
        proof {
            assert(fill_region_result(pre@, wi, hi, wanted, seed, region));
            assert forall|k: int| 0 <= k < region.len() implies (region[k] as int)
                < pre@.len() by {
                assert(region.contains(region[k]));
            }
        }
        let px = build_deltas(&self.grid, &visited, Some(color));
        let ghost am_pixels = px@;
        apply_deltas_to(&mut self.grid, &px);
        let action = Action::draw_pixels(px, self.id);
        self.history.add_action(action);
        proof {
            let am = ActionModel { pixels: am_pixels, layer_id: pre.spec_id() };
            assert(self.undo_models().drop_last() =~= pre.undo_models());
            assert(self.undo_models().last() == am);
            assert(wanted == pre.spec_get(x as int, y as int));
            assert(pre@.len() <= MAX_DIM * MAX_DIM) by (nonlinear_arith)
                requires
                    pre@.len() == wi * hi,
                    0 < wi <= MAX_DIM,
                    0 < hi <= MAX_DIM,
            ;
            // pointwise: exactly the reachable cells turn to the new color
            assert forall|j: int| 0 <= j < pre@.len() implies self@[j] == (if fill_reachable(
                pre@,
                wi,
                hi,
                wanted,
                seed as int,
                j,
            ) {
                Some(color)
            } else {
                pre@[j]
            }) by {
                if fill_reachable(pre@, wi, hi, wanted, seed as int, j) {
                    assert((j as usize) as int == j);
                    assert(fill_reachable(pre@, wi, hi, wanted, seed as int, (j as usize) as int));
                    assert(region.contains(j as usize));
                    let k = choose|k: int| 0 <= k < region.len() && region[k] == j as usize;
                    assert(am.pixels[k].0 as int == j);
                    lemma_apply_pixels_to_at(pre@, am.pixels, j, Some(color));
                } else {
                    assert forall|k: int| 0 <= k < am.pixels.len() implies (am.pixels[k].0
                        as int) != j by {
                        if (am.pixels[k].0 as int) == j {
                            assert(region.contains(region[k]));
                        }
                    }
                    lemma_apply_pixels_untouched(pre@, am.pixels, j);
                }
            }
            // the entry indexes exactly the reachable cells
            assert forall|j: int| 0 <= j < pre@.len() implies ((exists|k: int|
                0 <= k < am.pixels.len() && (#[trigger] am.pixels[k]).0 as int == j)
                <==> fill_reachable(pre@, wi, hi, wanted, seed as int, j)) by {
                if fill_reachable(pre@, wi, hi, wanted, seed as int, j) {
                    assert((j as usize) as int == j);
                    assert(fill_reachable(pre@, wi, hi, wanted, seed as int, (j as usize) as int));
                    assert(region.contains(j as usize));
                    let k = choose|k: int| 0 <= k < region.len() && region[k] == j as usize;
                    assert(am.pixels[k].0 as int == j);
                } else {
                    if exists|k: int|
                        0 <= k < am.pixels.len() && (#[trigger] am.pixels[k]).0 as int == j {
                        let k = choose|k: int|
                            0 <= k < am.pixels.len() && (#[trigger] am.pixels[k]).0 as int == j;
                        assert(region.contains(region[k]));
                    }
                }
            }
            // the history invariant survives the fill
            lemma_match_to_after_apply(pre@, am.pixels);
            lemma_apply_round_from(pre@, am.pixels);
            assert(apply_pixels_from(self@, am.pixels) == pre@);
            assert(actions_consistent(self.base_cells(), self.undo_models()));
        }
    }

    /// Apply a click tool at the cell `(x, y)`: the single switch over the
    /// tool kinds. The single-pixel tool paints one cell, the eraser
    /// clears one cell, the flood fill repaints the seed's region; each
    /// records one history entry. Drag tools do nothing here — they run
    /// through the stroke protocol — and an out-of-range click is a no-op.
    pub fn apply_click(&mut self, tool: &Tool, x: u32, y: u32)
        requires
            old(self).wf(),
            !old(self).in_stroke(),
        ensures
            click_applied(*old(self), *final(self), *tool, x, y),
    {
        let w = self.grid.width();
        let h = self.grid.height();
        let ghost wi = w as int;
        let ghost hi = h as int;
        if !(x < w && y < h) {
            return ;
        }
        proof {
            crate::grid::lemma_cell_index_injective(wi, hi, x as int, y as int);
            assert(y * w + x <= MAX_DIM * MAX_DIM) by (nonlinear_arith)
                requires
                    x < w <= MAX_DIM,
                    y < h <= MAX_DIM,
            ;
        }
        let idx: usize = (y as usize) * (w as usize) + (x as usize);
        match tool {
            Tool::SinglePixel { color } => {
                self.set_pixel(idx, Some(*color));
            },
            Tool::Eraser => {
                self.set_pixel(idx, None);
            },
            Tool::Fill { color } => {
                let c = *color;
                self.apply_fill(x, y, c);
                proof {
                    assert(old(self).spec_get(x as int, y as int) == old(self)@[idx as int]);
                }
            },
            _ => {},
        }
    }

    /// An independent copy of the whole layer: same identifier, cells,
    /// history and stroke state.
    pub fn duplicate(&self) -> (r: Layer)
        requires
            self.wf(),
        ensures
            r.wf(),
            r.spec_id() == self.spec_id(),
            r.spec_width() == self.spec_width(),
            r.spec_height() == self.spec_height(),
            r@ == self@,
            r.in_stroke() == self.in_stroke(),
            r.in_stroke() ==> r.spec_anchor() == self.spec_anchor() && r.spec_current()
                == self.spec_current() && r.spec_scratch() == self.spec_scratch(),
            r.undo_models() == self.undo_models(),
            r.redo_models() == self.redo_models(),
    {
        let stroke = match &self.stroke {
            Some(st) => Some(
                Stroke {
                    anchor_x: st.anchor_x,
                    anchor_y: st.anchor_y,
                    cur_x: st.cur_x,
                    cur_y: st.cur_y,
                    scratch: st.scratch.duplicate(),
                },
            ),
            None => None,
        };
        Layer {
            id: self.id,
            grid: self.grid.duplicate(),
            history: self.history.duplicate(),
            stroke,
        }
    }
}

/// Write each delta's `to` color at its index, in order.
fn apply_deltas_to(grid: &mut PixelGrid, px: &Vec<(usize, DrawInfo)>)
    requires
        old(grid).wf(),
        forall|k: int| 0 <= k < px@.len() ==> (px@[k].0 as int) < old(grid)@.len(),
    ensures
        final(grid).wf(),
        final(grid).spec_width() == old(grid).spec_width(),
        final(grid).spec_height() == old(grid).spec_height(),
        final(grid)@ == apply_pixels_to(old(grid)@, px@),
{
    let ghost cells0 = grid@;
    let n = px.len();
    let mut i: usize = 0;
    while i < n
        invariant
            grid.wf(),
            grid.spec_width() == old(grid).spec_width(),
            grid.spec_height() == old(grid).spec_height(),
            cells0 == old(grid)@,
            n == px@.len(),
            forall|k: int| 0 <= k < px@.len() ==> (px@[k].0 as int) < cells0.len(),
            i <= n,
            grid@ == apply_pixels_to(cells0, px@.subrange(0, i as int)),
        decreases n - i,
    {
        proof {
            lemma_apply_pixels_len(cells0, px@.subrange(0, i as int));
            assert(forall|k: int|
                0 <= k < i ==> px@.subrange(0, i as int)[k] == px@[k]);
        }
        let (idx, di) = px[i];
        grid.set_index(idx, di.to);
        proof {
            let sub1 = px@.subrange(0, i + 1);
            assert(sub1.drop_last() =~= px@.subrange(0, i as int));
            assert(sub1.last() == px@[i as int]);
            assert(grid@ == apply_pixels_to(cells0, sub1));
        }
        i = i + 1;
    }
    proof {
        assert(px@.subrange(0, n as int) =~= px@);
    }
}

/// Write each delta's `from` color at its index, in order.
fn apply_deltas_from(grid: &mut PixelGrid, px: &Vec<(usize, DrawInfo)>)
    requires
        old(grid).wf(),
        forall|k: int| 0 <= k < px@.len() ==> (px@[k].0 as int) < old(grid)@.len(),
    ensures
        final(grid).wf(),
        final(grid).spec_width() == old(grid).spec_width(),
        final(grid).spec_height() == old(grid).spec_height(),
        final(grid)@ == apply_pixels_from(old(grid)@, px@),
{
    let ghost cells0 = grid@;
    let n = px.len();
    let mut i: usize = 0;
    while i < n
        invariant
            grid.wf(),
            grid.spec_width() == old(grid).spec_width(),
            grid.spec_height() == old(grid).spec_height(),
            cells0 == old(grid)@,
            n == px@.len(),
            forall|k: int| 0 <= k < px@.len() ==> (px@[k].0 as int) < cells0.len(),
            i <= n,
            grid@ == apply_pixels_from(cells0, px@.subrange(0, i as int)),
        decreases n - i,
    {
        proof {
            lemma_apply_pixels_len(cells0, px@.subrange(0, i as int));
            assert(forall|k: int|
                0 <= k < i ==> px@.subrange(0, i as int)[k] == px@[k]);
        }
        let (idx, di) = px[i];
        grid.set_index(idx, di.from);
        proof {
            let sub1 = px@.subrange(0, i + 1);
            assert(sub1.drop_last() =~= px@.subrange(0, i as int));
            assert(sub1.last() == px@[i as int]);
            assert(grid@ == apply_pixels_from(cells0, sub1));
        }
        i = i + 1;
    }
    proof {
        assert(px@.subrange(0, n as int) =~= px@);
    }
}

/// Read the deltas for writing `c` over the listed cells of `grid`.
fn build_deltas(grid: &PixelGrid, idxs: &Vec<usize>, c: Option<Color>) -> (px: Vec<
    (usize, DrawInfo),
>)
    requires
        grid.wf(),
        forall|k: int| 0 <= k < idxs@.len() ==> (idxs@[k] as int) < grid@.len(),
    ensures
        px@ == deltas_of(grid@, idxs@, c),
{
    let n = idxs.len();
    let mut px: Vec<(usize, DrawInfo)> = Vec::new();
    let mut i: usize = 0;
    while i < n
        invariant
            grid.wf(),
            n == idxs@.len(),
            forall|k: int| 0 <= k < idxs@.len() ==> (idxs@[k] as int) < grid@.len(),
            i <= n,
            px@.len() == i,
            forall|k: int| 0 <= k < i ==> px@[k] == deltas_of(grid@, idxs@, c)[k],
        decreases n - i,
    {
        let idx = idxs[i];
        let from = grid.get_index(idx);
        px.push((idx, DrawInfo { from, to: c }));
        i = i + 1;
    }
    proof {
        assert(px@ =~= deltas_of(grid@, idxs@, c));
    }
    px
}


/// Painting `c` over the listed cells writes it exactly there: pointwise,
/// a cell of the grid shows `c` when its pair is listed and its old value
/// otherwise.
proof fn lemma_painted_pointwise(
    scratch: Seq<Option<Color>>,
    w: int,
    h: int,
    pairs: Seq<(u32, u32)>,
    idxs: Seq<usize>,
    c: Color,
)
    requires
        0 < w,
        0 < h,
        scratch.len() == w * h,
        idxs.len() == pairs.len(),
        forall|k: int| 0 <= k < pairs.len() ==> pairs[k].0 < w && pairs[k].1 < h,
        forall|k: int|
            0 <= k < idxs.len() ==> idxs[k] as int == cell_index(
                w,
                pairs[k].0 as int,
                pairs[k].1 as int,
            ) && (idxs[k] as int) < w * h,
    ensures
        forall|p: (u32, u32)|
            p.0 < w && p.1 < h ==> apply_pixels_to(scratch, deltas_of(scratch, idxs, Some(c)))[
                cell_index(w, p.0 as int, p.1 as int)
            ] == (if pairs.contains(p) {
                Some(c)
            } else {
                scratch[cell_index(w, p.0 as int, p.1 as int)]
            }),
        apply_pixels_to(scratch, deltas_of(scratch, idxs, Some(c))).len() == scratch.len(),
{
    let px = deltas_of(scratch, idxs, Some(c));
    assert(forall|k: int| 0 <= k < px.len() ==> (px[k].0 as int) < scratch.len());
    lemma_apply_pixels_len(scratch, px);
    assert forall|p: (u32, u32)| p.0 < w && p.1 < h implies apply_pixels_to(scratch, px)[
        cell_index(w, p.0 as int, p.1 as int)
    ] == (if pairs.contains(p) {
        Some(c)
    } else {
        scratch[cell_index(w, p.0 as int, p.1 as int)]
    }) by {
        let j = cell_index(w, p.0 as int, p.1 as int);
        crate::grid::lemma_cell_index_injective(w, h, p.0 as int, p.1 as int);
        if pairs.contains(p) {
            let k = choose|k: int| 0 <= k < pairs.len() && pairs[k] == p;
            assert(px[k].0 as int == j);
            assert forall|k2: int|
                0 <= k2 < px.len() && (px[k2].0 as int) == j implies px[k2].1.to == Some(c) by {}
            lemma_apply_pixels_to_at(scratch, px, j, Some(c));
        } else {
            assert forall|k2: int| 0 <= k2 < px.len() implies (px[k2].0 as int) != j by {
                if (px[k2].0 as int) == j {
                    assert(cell_index(w, pairs[k2].0 as int, pairs[k2].1 as int) == j);
                    assert(pairs[k2] == p) by {
                        assert(pairs[k2].0 as int == p.0 as int && pairs[k2].1 as int == p.1
                            as int) by (nonlinear_arith)
                            requires
                                (pairs[k2].1 as int) * w + (pairs[k2].0 as int) == (p.1 as int) * w
                                    + (p.0 as int),
                                0 <= (pairs[k2].0 as int) && (pairs[k2].0 as int) < w,
                                0 <= (p.0 as int) && (p.0 as int) < w,
                                0 <= (pairs[k2].1 as int),
                                0 <= (p.1 as int),
                        ;
                    }
                }
            }
            lemma_apply_pixels_untouched(scratch, px, j);
        }
    }
}


/// Relation between a layer before and after `apply_click`.
pub open spec fn click_applied(pre: Layer, post: Layer, tool: Tool, x: u32, y: u32) -> bool {
    &&& (post.wf())
    &&& (!post.in_stroke())
    &&& (post.spec_id() == pre.spec_id())
    &&& (post.spec_width() == pre.spec_width())
    &&& (post.spec_height() == pre.spec_height())
    &&& ((tool.spec_is_drag() || !(x < pre.spec_width() && y < pre.spec_height())) ==> post@ == pre@ && post.undo_models() == pre.undo_models() && post.redo_models() == pre.redo_models())
    &&& ((!tool.spec_is_drag() && x < pre.spec_width() && y < pre.spec_height())
                ==> {
                let idx = cell_index(pre.spec_width() as int, x as int, y as int);
                match tool {
                    Tool::SinglePixel { color } => {
                        &&& post@ == pre@.update(idx, Some(color))
                        &&& post.undo_models() == pre.undo_models().push(
                            ActionModel {
                                pixels: deltas_of(pre@, seq![idx as usize], Some(color)),
                                layer_id: pre.spec_id(),
                            },
                        )
                        &&& post.redo_models().len() == 0
                    },
                    Tool::Eraser => {
                        &&& post@ == pre@.update(idx, None)
                        &&& post.undo_models() == pre.undo_models().push(
                            ActionModel {
                                pixels: deltas_of(pre@, seq![idx as usize], None),
                                layer_id: pre.spec_id(),
                            },
                        )
                        &&& post.redo_models().len() == 0
                    },
                    Tool::Fill { color } => {
                        &&& (forall|j: int|
                            0 <= j < pre@.len() ==> post@[j] == (if fill_reachable(
                                pre@,
                                pre.spec_width() as int,
                                pre.spec_height() as int,
                                pre@[idx],
                                idx,
                                j,
                            ) {
                                Some(color)
                            } else {
                                pre@[j]
                            }))
                        &&& post.undo_models().len() == pre.undo_models().len() + 1
                        &&& post.undo_models().drop_last() == pre.undo_models()
                        &&& post.redo_models().len() == 0
                    },
                    _ => true,
                }
            })
}

/// Relation between a layer before and after `undo`.
pub open spec fn undo_applied(pre: Layer, post: Layer, r: bool) -> bool {
    &&& (post.wf())
    &&& (post.spec_id() == pre.spec_id())
    &&& (post.spec_width() == pre.spec_width())
    &&& (post.spec_height() == pre.spec_height())
    &&& (post.in_stroke() == pre.in_stroke())
    &&& (r == (!pre.in_stroke() && pre.undo_models().len() > 0))
    &&& ((pre.in_stroke() || pre.undo_models().len() == 0) ==> post@ == pre@ && post.undo_models() == pre.undo_models() && post.redo_models()
                == pre.redo_models())
    &&& ((!pre.in_stroke() && pre.undo_models().len() > 0) ==> {
                &&& post@ == apply_pixels_from(
                    pre@,
                    pre.undo_models().last().pixels,
                )
                &&& post.undo_models() == pre.undo_models().drop_last()
                &&& post.redo_models() == pre.redo_models().push(
                    pre.undo_models().last(),
                )
            })
}

/// Relation between a layer before and after `redo`.
pub open spec fn redo_applied(pre: Layer, post: Layer, r: bool) -> bool {
    &&& (post.wf())
    &&& (post.spec_id() == pre.spec_id())
    &&& (post.spec_width() == pre.spec_width())
    &&& (post.spec_height() == pre.spec_height())
    &&& (post.in_stroke() == pre.in_stroke())
    &&& (r == (!pre.in_stroke() && pre.redo_models().len() > 0))
    &&& ((pre.in_stroke() || pre.redo_models().len() == 0) ==> post@ == pre@ && post.undo_models() == pre.undo_models() && post.redo_models()
                == pre.redo_models())
    &&& ((!pre.in_stroke() && pre.redo_models().len() > 0) ==> {
                &&& post@ == apply_pixels_to(
                    pre@,
                    pre.redo_models().last().pixels,
                )
                &&& post.redo_models() == pre.redo_models().drop_last()
                &&& post.undo_models() == pre.undo_models().push(
                    pre.redo_models().last(),
                )
            })
}

/// Relation between a layer before and after `begin_stroke`.
pub open spec fn begin_applied(pre: Layer, post: Layer, ax: u32, ay: u32) -> bool {
    &&& (post.wf())
    &&& (post.spec_id() == pre.spec_id())
    &&& (post.spec_width() == pre.spec_width())
    &&& (post.spec_height() == pre.spec_height())
    &&& (post.in_stroke())
    &&& (post.spec_anchor() == (ax, ay))
    &&& (post.spec_current() == (ax, ay))
    &&& (post.spec_scratch() == pre.base_cells())
    &&& (post@ == pre.base_cells())
    &&& (post.undo_models() == pre.undo_models())
    &&& (post.redo_models() == pre.redo_models())
}

/// Relation between a layer before and after `update_stroke`.
pub open spec fn update_applied(pre: Layer, post: Layer, tool: Tool, cx: u32, cy: u32) -> bool {
    &&& (post.wf())
    &&& (post.spec_id() == pre.spec_id())
    &&& (post.spec_width() == pre.spec_width())
    &&& (post.spec_height() == pre.spec_height())
    &&& (post.in_stroke())
    &&& (post.spec_anchor() == pre.spec_anchor())
    &&& (post.spec_current() == (cx, cy))
    &&& (post.spec_scratch() == pre.spec_scratch())
    &&& (post.undo_models() == pre.undo_models())
    &&& (post.redo_models() == pre.redo_models())
    &&& (forall|p: (u32, u32)|
                p.0 < pre.spec_width() && p.1 < pre.spec_height()
                    ==> post.spec_get(p.0 as int, p.1 as int) == (if drag_covers(
                    tool,
                    pre.spec_anchor().0 as int,
                    pre.spec_anchor().1 as int,
                    cx as int,
                    cy as int,
                    p.0 as int,
                    p.1 as int,
                ) {
                    Some(tool_color(tool))
                } else {
                    pre.spec_scratch()[cell_index(
                        pre.spec_width() as int,
                        p.0 as int,
                        p.1 as int,
                    )]
                }))
}

/// Relation between a layer before and after `commit_stroke`.
pub open spec fn commit_applied(pre: Layer, post: Layer, tool: Tool) -> bool {
    &&& (post.wf())
    &&& (post.spec_id() == pre.spec_id())
    &&& (post.spec_width() == pre.spec_width())
    &&& (post.spec_height() == pre.spec_height())
    &&& (!post.in_stroke())
    &&& (drag_degenerate(
                tool,
                pre.spec_anchor().0 as int,
                pre.spec_anchor().1 as int,
                pre.spec_current().0 as int,
                pre.spec_current().1 as int,
            ) ==> {
                &&& post@ == pre.spec_scratch()
                &&& post.undo_models() == pre.undo_models()
                &&& post.redo_models() == pre.redo_models()
            })
    &&& (!drag_degenerate(
                tool,
                pre.spec_anchor().0 as int,
                pre.spec_anchor().1 as int,
                pre.spec_current().0 as int,
                pre.spec_current().1 as int,
            ) ==> {
                &&& (forall|p: (u32, u32)|
                    p.0 < pre.spec_width() && p.1 < pre.spec_height()
                        ==> post.spec_get(p.0 as int, p.1 as int) == (if drag_covers(
                        tool,
                        pre.spec_anchor().0 as int,
                        pre.spec_anchor().1 as int,
                        pre.spec_current().0 as int,
                        pre.spec_current().1 as int,
                        p.0 as int,
                        p.1 as int,
                    ) {
                        Some(tool_color(tool))
                    } else {
                        pre.spec_scratch()[cell_index(
                            pre.spec_width() as int,
                            p.0 as int,
                            p.1 as int,
                        )]
                    }))
                &&& post.undo_models().len() == pre.undo_models().len() + 1
                &&& post.undo_models().drop_last() == pre.undo_models()
                &&& post.redo_models().len() == 0
                &&& post.undo_models().last().layer_id == pre.spec_id()
                &&& (forall|k: int|
                    0 <= k < post.undo_models().last().pixels.len() ==> {
                        &&& (#[trigger] post.undo_models().last().pixels[k]).1.to == Some(
                            tool_color(tool),
                        )
                        &&& (post.undo_models().last().pixels[k].0 as int) < pre.spec_scratch().len()
                        &&& post.undo_models().last().pixels[k].1.from == pre.spec_scratch()[post.undo_models().last().pixels[k].0 as int]
                    })
                &&& (forall|p: (u32, u32)|
                    p.0 < pre.spec_width() && p.1 < pre.spec_height() ==> ((exists|
                        k: int,
                    |
                        0 <= k < post.undo_models().last().pixels.len() && (
                        #[trigger] post.undo_models().last().pixels[k]).0 as int
                            == cell_index(
                            pre.spec_width() as int,
                            p.0 as int,
                            p.1 as int,
                        )) <==> drag_covers(
                        tool,
                        pre.spec_anchor().0 as int,
                        pre.spec_anchor().1 as int,
                        pre.spec_current().0 as int,
                        pre.spec_current().1 as int,
                        p.0 as int,
                        p.1 as int,
                    )))
            })
}


/// Preview repainting is idempotent: two updates of the same stroke with
/// the same current cell show the same grid, whatever came in between —
/// every update paints a fresh copy of the snapshot, never the live grid.
pub proof fn lemma_update_stroke_idempotent(
    pre1: Layer,
    post1: Layer,
    pre2: Layer,
    post2: Layer,
    tool: Tool,
    cx: u32,
    cy: u32,
)
    requires
        update_applied(pre1, post1, tool, cx, cy),
        update_applied(pre2, post2, tool, cx, cy),
        pre1.spec_width() == pre2.spec_width(),
        pre1.spec_height() == pre2.spec_height(),
        pre1.spec_anchor() == pre2.spec_anchor(),
        pre1.spec_scratch() == pre2.spec_scratch(),
    ensures
        forall|p: (u32, u32)|
            p.0 < pre1.spec_width() && p.1 < pre1.spec_height() ==> post1.spec_get(
                p.0 as int,
                p.1 as int,
            ) == post2.spec_get(p.0 as int, p.1 as int),
{
}

} // verus!
