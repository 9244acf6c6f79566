//! Linear undo/redo history of committed drawing actions.
//!
//! Each committed action records, per touched cell, the color it had before
//! and the color it has after. Two stacks carry the timeline: `undo_buf`
//! holds the actions behind the present, `redo_buf` the actions undone but
//! not yet redone. Pushing a fresh action discards the redo branch, so the
//! history stays a single line.

use vstd::prelude::*;

use crate::color::Color;

verus! {

/// Colors of one cell before (`from`) and after (`to`) an action.
#[derive(Clone, Copy, PartialEq, Eq, Debug)]
pub struct DrawInfo {
    pub from: Option<Color>,
    pub to: Option<Color>,
}

/// One committed action: the touched cells of one layer, each with its
/// previous and new color, tagged with the owning layer's identifier.
#[derive(Clone, Debug)]
pub struct DrawPixelsInfo {
    pub pixels: Vec<(usize, DrawInfo)>,
    pub layer_id: u64,
}

/// An entry of the history.
#[derive(Clone, Debug)]
pub enum Action {
    DrawPixels(DrawPixelsInfo),
}

/// Mathematical content of an [`Action`]: the per-cell deltas as a
/// sequence, and the owning layer.
pub struct ActionModel {
    pub pixels: Seq<(usize, DrawInfo)>,
    pub layer_id: u64,
}

impl View for Action {
    type V = ActionModel;

    open spec fn view(&self) -> ActionModel {
        match self {
            Action::DrawPixels(info) => ActionModel { pixels: info.pixels@, layer_id: info.layer_id },
        }
    }
}

impl DrawInfo {
    pub fn new(from: Option<Color>, to: Option<Color>) -> (r: DrawInfo)
        ensures
            r == (DrawInfo { from, to }),
    {
        DrawInfo { from, to }
    }
}

impl DrawPixelsInfo {
    pub fn new(pixels: Vec<(usize, DrawInfo)>, layer_id: u64) -> (r: DrawPixelsInfo)
        ensures
            r.pixels@ == pixels@,
            r.layer_id == layer_id,
    {
        DrawPixelsInfo { pixels, layer_id }
    }
}

impl Action {
    pub fn draw_pixels(pixels: Vec<(usize, DrawInfo)>, layer_id: u64) -> (a: Action)
        ensures
            a@.pixels == pixels@,
            a@.layer_id == layer_id,
    {
        Action::DrawPixels(DrawPixelsInfo::new(pixels, layer_id))
    }

    /// Identifier of the layer this action belongs to.
    pub fn get_layer_id(&self) -> (r: Option<u64>)
        ensures
            r == Some(self@.layer_id),
    {
        match self {
            Action::DrawPixels(info) => Some(info.layer_id),
        }
    }

    /// An independent copy describing the same action.
    pub fn duplicate(&self) -> (r: Action)
        ensures
            r@ == self@,
    {
        match self {
            Action::DrawPixels(info) => {
                let mut pixels: Vec<(usize, DrawInfo)> = Vec::new();
                let n = info.pixels.len();
                let mut i: usize = 0;
                while i < n
                    invariant
                        i <= n,
                        n == info.pixels@.len(),
                        pixels@.len() == i,
                        forall|k: int| 0 <= k < i ==> pixels@[k] == info.pixels@[k],
                    decreases n - i,
                {
                    pixels.push(info.pixels[i]);
                    i = i + 1;
                }
                proof {
                    assert(pixels@ =~= info.pixels@);
                }
                Action::DrawPixels(DrawPixelsInfo { pixels, layer_id: info.layer_id })
            },
        }
    }
}

/// The linear history: the actions behind the present and the actions
/// undone but not yet redone.
#[derive(Clone, Debug)]
pub struct ActionsManager {
    undo_buf: Vec<Action>,
    redo_buf: Vec<Action>,
}

impl ActionsManager {
    /// Timeline behind the present, oldest first, as action models.
    pub closed spec fn undo_seq(&self) -> Seq<ActionModel> {
        self.undo_buf@.map_values(|a: Action| a@)
    }

    /// Undone actions, in the order they were undone, as action models.
    pub closed spec fn redo_seq(&self) -> Seq<ActionModel> {
        self.redo_buf@.map_values(|a: Action| a@)
    }

    pub fn new() -> (r: ActionsManager)
        ensures
            r.undo_seq().len() == 0,
            r.redo_seq().len() == 0,
    {
        ActionsManager { undo_buf: Vec::new(), redo_buf: Vec::new() }
    }

    /// Step one action back: move the newest past action to the redo stack
    /// and return it, or nothing when there is nothing to undo.
    pub fn undo(&mut self) -> (r: Option<Action>)
        ensures
            old(self).undo_seq().len() == 0 ==> r is None && final(self).undo_seq() == old(self).undo_seq() && final(self).redo_seq() == old(self).redo_seq(),
            old(self).undo_seq().len() > 0 ==> {
                &&& r is Some
                &&& r.unwrap()@ == old(self).undo_seq().last()
                &&& final(self).undo_seq() == old(self).undo_seq().drop_last()
                &&& final(self).redo_seq() == old(self).redo_seq().push(
                    old(self).undo_seq().last(),
                )
            },
    {
        let ghost pre = *self;
        match self.undo_buf.pop() {
            Some(act) => {
                let copy = act.duplicate();
                self.redo_buf.push(copy);
                proof {
                    assert(self.undo_seq() =~= pre.undo_seq().drop_last());
                    assert(self.redo_seq() =~= pre.redo_seq().push(pre.undo_seq().last()));
                }
                Some(act)
            },
            None => {
                proof {
                    assert(self.undo_seq() =~= pre.undo_seq());
                    assert(self.redo_seq() =~= pre.redo_seq());
                }
                None
            },
        }
    }

    /// Step one action forward again: move the newest undone action back to
    /// the past and return it, or nothing when there is nothing to redo.
    pub fn redo(&mut self) -> (r: Option<Action>)
        ensures
            old(self).redo_seq().len() == 0 ==> r is None && final(self).undo_seq() == old(self).undo_seq() && final(self).redo_seq() == old(self).redo_seq(),
            old(self).redo_seq().len() > 0 ==> {
                &&& r is Some
                &&& r.unwrap()@ == old(self).redo_seq().last()
                &&& final(self).redo_seq() == old(self).redo_seq().drop_last()
                &&& final(self).undo_seq() == old(self).undo_seq().push(
                    old(self).redo_seq().last(),
                )
            },
    {
        let ghost pre = *self;
        match self.redo_buf.pop() {
            Some(act) => {
                let copy = act.duplicate();
                self.undo_buf.push(copy);
                proof {
                    assert(self.redo_seq() =~= pre.redo_seq().drop_last());
                    assert(self.undo_seq() =~= pre.undo_seq().push(pre.redo_seq().last()));
                }
                Some(act)
            },
            None => {
                proof {
                    assert(self.undo_seq() =~= pre.undo_seq());
                    assert(self.redo_seq() =~= pre.redo_seq());
                }
                None
            },
        }
    }

    /// An independent copy holding the same timeline.
    pub fn duplicate(&self) -> (r: ActionsManager)
        ensures
            r.undo_seq() == self.undo_seq(),
            r.redo_seq() == self.redo_seq(),
    {
        let mut undo_buf: Vec<Action> = Vec::new();
        let mut redo_buf: Vec<Action> = Vec::new();
        let mut i: usize = 0;
        while i < self.undo_buf.len()
            invariant
                i <= self.undo_buf@.len(),
                undo_buf@.len() == i,
                forall|k: int| 0 <= k < i ==> undo_buf@[k]@ == self.undo_buf@[k]@,
            decreases self.undo_buf@.len() - i,
        {
            undo_buf.push(self.undo_buf[i].duplicate());
            i = i + 1;
        }
        let mut j: usize = 0;
        while j < self.redo_buf.len()
            invariant
                j <= self.redo_buf@.len(),
                redo_buf@.len() == j,
                forall|k: int| 0 <= k < j ==> redo_buf@[k]@ == self.redo_buf@[k]@,
            decreases self.redo_buf@.len() - j,
        {
            redo_buf.push(self.redo_buf[j].duplicate());
            j = j + 1;
        }
        let r = ActionsManager { undo_buf, redo_buf };
        proof {
            assert(r.undo_seq() =~= self.undo_seq());
            assert(r.redo_seq() =~= self.redo_seq());
        }
        r
    }

    /// Record a fresh action: append it to the past and discard the entire
    /// redo branch, so that a later redo finds nothing.
    pub fn add_action(&mut self, action: Action)
        ensures
            final(self).undo_seq() == old(self).undo_seq().push(action@),
            final(self).redo_seq().len() == 0,
    {
        let ghost pre = *self;
        self.undo_buf.push(action);
        self.redo_buf = Vec::new();
        proof {
            assert(self.undo_seq() =~= pre.undo_seq().push(action@));
            assert(self.redo_seq() =~= Seq::<ActionModel>::empty());
        }
    }
}

impl Default for ActionsManager {
    fn default() -> (r: ActionsManager)
        ensures
            r.undo_seq().len() == 0,
            r.redo_seq().len() == 0,
    {
        ActionsManager::new()
    }
}


/// Cells after writing each delta's `from` color at its index, in order:
/// the effect of undoing one action on a layer's cells.
pub open spec fn apply_pixels_from(
    cells: Seq<Option<Color>>,
    pixels: Seq<(usize, DrawInfo)>,
) -> Seq<Option<Color>>
    decreases pixels.len(),
{
    if pixels.len() == 0 {
        cells
    } else {
        apply_pixels_from(cells, pixels.drop_last()).update(
            pixels.last().0 as int,
            pixels.last().1.from,
        )
    }
}

/// Cells after writing each delta's `to` color at its index, in order: the
/// effect of redoing one action on a layer's cells.
pub open spec fn apply_pixels_to(
    cells: Seq<Option<Color>>,
    pixels: Seq<(usize, DrawInfo)>,
) -> Seq<Option<Color>>
    decreases pixels.len(),
{
    if pixels.len() == 0 {
        cells
    } else {
        apply_pixels_to(cells, pixels.drop_last()).update(
            pixels.last().0 as int,
            pixels.last().1.to,
        )
    }
}

/// Cells after undoing the given actions, newest first.
pub open spec fn undo_all(cells: Seq<Option<Color>>, acts: Seq<ActionModel>) -> Seq<Option<Color>>
    decreases acts.len(),
{
    if acts.len() == 0 {
        cells
    } else {
        undo_all(apply_pixels_from(cells, acts.last().pixels), acts.drop_last())
    }
}

/// Cells after redoing the given actions, oldest first.
pub open spec fn redo_all(cells: Seq<Option<Color>>, acts: Seq<ActionModel>) -> Seq<Option<Color>>
    decreases acts.len(),
{
    if acts.len() == 0 {
        cells
    } else {
        apply_pixels_to(redo_all(cells, acts.drop_last()), acts.last().pixels)
    }
}

/// Every delta's index is in range and its `to` color is what the cells
/// hold now: the action honestly describes the step that produced `cells`.
pub open spec fn pixels_match_to(
    cells: Seq<Option<Color>>,
    pixels: Seq<(usize, DrawInfo)>,
) -> bool {
    forall|k: int|
        0 <= k < pixels.len() ==> (pixels[k].0 as int) < cells.len() && cells[pixels[k].0 as int]
            == pixels[k].1.to
}

/// The actions, newest first, form an honest timeline ending at `cells`:
/// each action's `to` colors match the cells at its point in time.
pub open spec fn actions_consistent(
    cells: Seq<Option<Color>>,
    acts: Seq<ActionModel>,
) -> bool
    decreases acts.len(),
{
    if acts.len() == 0 {
        true
    } else {
        &&& pixels_match_to(cells, acts.last().pixels)
        &&& actions_consistent(apply_pixels_from(cells, acts.last().pixels), acts.drop_last())
    }
}

/// Applying deltas never changes the number of cells.
pub proof fn lemma_apply_pixels_len(cells: Seq<Option<Color>>, pixels: Seq<(usize, DrawInfo)>)
    requires
        forall|k: int| 0 <= k < pixels.len() ==> (pixels[k].0 as int) < cells.len(),
    ensures
        apply_pixels_from(cells, pixels).len() == cells.len(),
        apply_pixels_to(cells, pixels).len() == cells.len(),
    decreases pixels.len(),
{
    if pixels.len() > 0 {
        let front = pixels.drop_last();
        assert(forall|k: int| 0 <= k < front.len() ==> front[k] == pixels[k]);
        lemma_apply_pixels_len(cells, front);
    }
}

/// A cell no delta touches keeps its value under both directions.
pub proof fn lemma_apply_pixels_untouched(
    cells: Seq<Option<Color>>,
    pixels: Seq<(usize, DrawInfo)>,
    j: int,
)
    requires
        0 <= j < cells.len(),
        forall|k: int| 0 <= k < pixels.len() ==> (pixels[k].0 as int) != j,
        forall|k: int| 0 <= k < pixels.len() ==> (pixels[k].0 as int) < cells.len(),
    ensures
        apply_pixels_from(cells, pixels)[j] == cells[j],
        apply_pixels_to(cells, pixels)[j] == cells[j],
    decreases pixels.len(),
{
    if pixels.len() > 0 {
        let front = pixels.drop_last();
        assert(forall|k: int| 0 <= k < front.len() ==> front[k] == pixels[k]);
        lemma_apply_pixels_untouched(cells, front, j);
        lemma_apply_pixels_len(cells, front);
    }
}

/// If every delta at index `j` writes the same `to` color `v`, then after
/// applying the deltas forward the cell at `j` holds `v`.
pub proof fn lemma_apply_pixels_to_at(
    cells: Seq<Option<Color>>,
    pixels: Seq<(usize, DrawInfo)>,
    j: int,
    v: Option<Color>,
)
    requires
        0 <= j < cells.len(),
        exists|k: int| 0 <= k < pixels.len() && (pixels[k].0 as int) == j,
        forall|k: int|
            0 <= k < pixels.len() && (pixels[k].0 as int) == j ==> pixels[k].1.to == v,
        forall|k: int| 0 <= k < pixels.len() ==> (pixels[k].0 as int) < cells.len(),
    ensures
        apply_pixels_to(cells, pixels)[j] == v,
    decreases pixels.len(),
{
    let front = pixels.drop_last();
    assert(forall|k: int| 0 <= k < front.len() ==> front[k] == pixels[k]);
    lemma_apply_pixels_len(cells, front);
    if pixels.last().0 as int == j {
    } else {
        let k = choose|k: int| 0 <= k < pixels.len() && (pixels[k].0 as int) == j;
        assert(k < front.len());
        lemma_apply_pixels_to_at(cells, front, j, v);
    }
}

/// Undoing one honest action and redoing it restores the cells exactly.
pub proof fn lemma_apply_round(cells: Seq<Option<Color>>, pixels: Seq<(usize, DrawInfo)>)
    requires
        pixels_match_to(cells, pixels),
    ensures
        apply_pixels_to(apply_pixels_from(cells, pixels), pixels) == cells,
{
    let undone = apply_pixels_from(cells, pixels);
    assert(forall|k: int| 0 <= k < pixels.len() ==> (pixels[k].0 as int) < cells.len());
    lemma_apply_pixels_len(cells, pixels);
    lemma_apply_pixels_len(undone, pixels);
    assert forall|j: int|
        0 <= j < cells.len() implies apply_pixels_to(undone, pixels)[j] == cells[j] by {
        if exists|k: int| 0 <= k < pixels.len() && (pixels[k].0 as int) == j {
            lemma_apply_pixels_to_at(undone, pixels, j, cells[j]);
        } else {
            assert(forall|k: int| 0 <= k < pixels.len() ==> (pixels[k].0 as int) != j);
            lemma_apply_pixels_untouched(undone, pixels, j);
            lemma_apply_pixels_untouched(cells, pixels, j);
        }
    }
    assert(apply_pixels_to(undone, pixels) =~= cells);
}

/// Undo/redo round trip: undoing every committed action, newest first, and
/// then redoing them all, oldest first, restores exactly the cells the
/// actions had produced — provided the actions honestly record the colors
/// they wrote, as committed actions do.
pub proof fn lemma_undo_redo_round_trip(cells: Seq<Option<Color>>, acts: Seq<ActionModel>)
    requires
        actions_consistent(cells, acts),
    ensures
        redo_all(undo_all(cells, acts), acts) == cells,
    decreases acts.len(),
{
    if acts.len() > 0 {
        let last = acts.last();
        let undone = apply_pixels_from(cells, last.pixels);
        lemma_undo_redo_round_trip(undone, acts.drop_last());
        assert(undo_all(cells, acts) == undo_all(undone, acts.drop_last()));
        assert(redo_all(undo_all(cells, acts), acts) == apply_pixels_to(
            redo_all(undo_all(undone, acts.drop_last()), acts.drop_last()),
            last.pixels,
        ));
        lemma_apply_round(cells, last.pixels);
    }
}


/// Every delta's index is in range and its `from` color is what the cells
/// hold now: undoing this action produced `cells`, so it can be redone.
pub open spec fn pixels_match_from(
    cells: Seq<Option<Color>>,
    pixels: Seq<(usize, DrawInfo)>,
) -> bool {
    forall|k: int|
        0 <= k < pixels.len() ==> (pixels[k].0 as int) < cells.len() && cells[pixels[k].0 as int]
            == pixels[k].1.from
}

/// The undone actions, newest-undone last, can be redone in turn from
/// `cells`: each action's `from` colors match the cells at its point.
pub open spec fn actions_redoable(cells: Seq<Option<Color>>, acts: Seq<ActionModel>) -> bool
    decreases acts.len(),
{
    if acts.len() == 0 {
        true
    } else {
        &&& pixels_match_from(cells, acts.last().pixels)
        &&& actions_redoable(apply_pixels_to(cells, acts.last().pixels), acts.drop_last())
    }
}

/// Deltas whose repeated indices repeat their colors too: what committing
/// one coherent write pass records.
pub open spec fn pixels_coherent(pixels: Seq<(usize, DrawInfo)>) -> bool {
    forall|k1: int, k2: int|
        0 <= k1 < pixels.len() && 0 <= k2 < pixels.len() && pixels[k1].0 == pixels[k2].0
            ==> pixels[k1].1 == pixels[k2].1
}

/// If every delta at index `j` writes the same `from` color `v`, then after
/// applying the deltas backward the cell at `j` holds `v`.
pub proof fn lemma_apply_pixels_from_at(
    cells: Seq<Option<Color>>,
    pixels: Seq<(usize, DrawInfo)>,
    j: int,
    v: Option<Color>,
)
    requires
        0 <= j < cells.len(),
        exists|k: int| 0 <= k < pixels.len() && (pixels[k].0 as int) == j,
        forall|k: int|
            0 <= k < pixels.len() && (pixels[k].0 as int) == j ==> pixels[k].1.from == v,
        forall|k: int| 0 <= k < pixels.len() ==> (pixels[k].0 as int) < cells.len(),
    ensures
        apply_pixels_from(cells, pixels)[j] == v,
    decreases pixels.len(),
{
    let front = pixels.drop_last();
    assert(forall|k: int| 0 <= k < front.len() ==> front[k] == pixels[k]);
    lemma_apply_pixels_len(cells, front);
    if pixels.last().0 as int == j {
    } else {
        let k = choose|k: int| 0 <= k < pixels.len() && (pixels[k].0 as int) == j;
        assert(k < front.len());
        lemma_apply_pixels_from_at(cells, front, j, v);
    }
}

/// Redoing one redoable action and undoing it restores the cells exactly.
pub proof fn lemma_apply_round_from(cells: Seq<Option<Color>>, pixels: Seq<(usize, DrawInfo)>)
    requires
        pixels_match_from(cells, pixels),
    ensures
        apply_pixels_from(apply_pixels_to(cells, pixels), pixels) == cells,
{
    let redone = apply_pixels_to(cells, pixels);
    assert(forall|k: int| 0 <= k < pixels.len() ==> (pixels[k].0 as int) < cells.len());
    lemma_apply_pixels_len(cells, pixels);
    lemma_apply_pixels_len(redone, pixels);
    assert forall|j: int|
        0 <= j < cells.len() implies apply_pixels_from(redone, pixels)[j] == cells[j] by {
        if exists|k: int| 0 <= k < pixels.len() && (pixels[k].0 as int) == j {
            lemma_apply_pixels_from_at(redone, pixels, j, cells[j]);
        } else {
            assert(forall|k: int| 0 <= k < pixels.len() ==> (pixels[k].0 as int) != j);
            lemma_apply_pixels_untouched(redone, pixels, j);
            lemma_apply_pixels_untouched(cells, pixels, j);
        }
    }
    assert(apply_pixels_from(redone, pixels) =~= cells);
}

/// Coherent deltas whose `to` colors were just written match the result.
pub proof fn lemma_match_to_after_apply(cells: Seq<Option<Color>>, pixels: Seq<(usize, DrawInfo)>)
    requires
        pixels_coherent(pixels),
        forall|k: int| 0 <= k < pixels.len() ==> (pixels[k].0 as int) < cells.len(),
    ensures
        pixels_match_to(apply_pixels_to(cells, pixels), pixels),
{
    let redone = apply_pixels_to(cells, pixels);
    lemma_apply_pixels_len(cells, pixels);
    assert forall|k: int|
        0 <= k < pixels.len() implies (pixels[k].0 as int) < redone.len() && redone[pixels[k].0
        as int] == pixels[k].1.to by {
        lemma_apply_pixels_to_at(cells, pixels, pixels[k].0 as int, pixels[k].1.to);
    }
}

/// Coherent deltas whose `from` colors were just written match the result.
pub proof fn lemma_match_from_after_apply(
    cells: Seq<Option<Color>>,
    pixels: Seq<(usize, DrawInfo)>,
)
    requires
        pixels_coherent(pixels),
        forall|k: int| 0 <= k < pixels.len() ==> (pixels[k].0 as int) < cells.len(),
    ensures
        pixels_match_from(apply_pixels_from(cells, pixels), pixels),
{
    let undone = apply_pixels_from(cells, pixels);
    lemma_apply_pixels_len(cells, pixels);
    assert forall|k: int|
        0 <= k < pixels.len() implies (pixels[k].0 as int) < undone.len() && undone[pixels[k].0
        as int] == pixels[k].1.from by {
        lemma_apply_pixels_from_at(cells, pixels, pixels[k].0 as int, pixels[k].1.from);
    }
}


/// The deltas recorded when writing color `c` over the listed cells of
/// `cells`: each index with its previous color and the new one.
pub open spec fn deltas_of(
    cells: Seq<Option<Color>>,
    idxs: Seq<usize>,
    c: Option<Color>,
) -> Seq<(usize, DrawInfo)> {
    Seq::new(idxs.len(), |k: int| (idxs[k], DrawInfo { from: cells[idxs[k] as int], to: c }))
}

/// A history entry a layer with identifier `id` and `len` cells may hold:
/// tagged with that layer, indices in range, repeated indices coherent.
pub open spec fn action_model_wf(am: ActionModel, id: u64, len: int) -> bool {
    &&& am.layer_id == id
    &&& forall|k: int| 0 <= k < am.pixels.len() ==> (am.pixels[k].0 as int) < len
    &&& pixels_coherent(am.pixels)
}

} // verus!
