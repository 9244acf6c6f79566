//! The layer stack: an ordered collection of layers, each independently
//! active or inactive, with one current layer that tool operations target.
//!
//! Identifiers are assigned from a counter at creation and never reused,
//! so every lookup, activation toggle and deletion goes by a stable id.
//! The stack never becomes empty and always keeps at least one active
//! layer; the current layer is re-validated against the active set on
//! every access and reassigned to an active layer when it no longer
//! resolves to one.

use vstd::prelude::*;

use crate::color::Color;
use crate::grid::MAX_DIM;
use crate::grid::PixelGrid;
use crate::layer::Layer;
use crate::layer::begin_applied;
use crate::layer::click_applied;
use crate::layer::commit_applied;
use crate::layer::redo_applied;
use crate::layer::undo_applied;
use crate::layer::update_applied;
use crate::tools::Tool;

verus! {

broadcast use vstd::seq_lib::lemma_seq_contains_after_push;


/// Color the flattened image shows at flat index `j`: the cell of the
/// topmost active layer that has it set, or nothing when no active layer
/// does.
pub open spec fn flatten_at(layers: Seq<Layer>, active: Seq<u64>, j: int) -> Option<Color>
    decreases layers.len(),
{
    if layers.len() == 0 {
        None
    } else if active.contains(layers.last().spec_id()) && layers.last()@[j] is Some {
        layers.last()@[j]
    } else {
        flatten_at(layers.drop_last(), active, j)
    }
}

/// The ordered stack of layers with its activation and current state.
pub struct Layers {
    layers: Vec<Layer>,
    current_layer: Option<u64>,
    active_layers: Vec<u64>,
    width: u32,
    height: u32,
    next_id: u64,
}

impl Layers {
    /// The layers, bottom first.
    pub closed spec fn layers_seq(&self) -> Seq<Layer> {
        self.layers@
    }

    /// Identifiers of the layers, bottom first.
    pub open spec fn ids(&self) -> Seq<u64> {
        self.layers_seq().map_values(|l: Layer| l.spec_id())
    }

    /// Identifiers of the active layers.
    pub closed spec fn active_seq(&self) -> Seq<u64> {
        self.active_layers@
    }

    /// Identifier of the current layer, if one is set.
    pub closed spec fn spec_current(&self) -> Option<u64> {
        self.current_layer
    }

    pub closed spec fn spec_width(&self) -> u32 {
        self.width
    }

    pub closed spec fn spec_height(&self) -> u32 {
        self.height
    }

    /// Identifier the next added layer will receive.
    pub closed spec fn spec_next_id(&self) -> u64 {
        self.next_id
    }

    /// Well-formedness of the stack: well-formed layers of one size with
    /// unique identifiers below the counter, a nonempty active set naming
    /// existing layers, and a current id naming an existing layer.
    pub open spec fn wf(&self) -> bool {
        &&& 0 < self.spec_width() <= MAX_DIM
        &&& 0 < self.spec_height() <= MAX_DIM
        &&& self.layers_seq().len() >= 1
        &&& (forall|i: int|
            0 <= i < self.layers_seq().len() ==> (#[trigger] self.layers_seq()[i]).wf()
                && self.layers_seq()[i].spec_width() == self.spec_width()
                && self.layers_seq()[i].spec_height() == self.spec_height()
                && self.layers_seq()[i].spec_id() < self.spec_next_id())
        &&& (forall|i: int, j: int|
            0 <= i < self.layers_seq().len() && 0 <= j < self.layers_seq().len() && i != j
                ==> (#[trigger] self.layers_seq()[i]).spec_id() != (
            #[trigger] self.layers_seq()[j]).spec_id())
        &&& self.active_seq().len() >= 1
        &&& self.active_seq().no_duplicates()
        &&& (forall|k: int|
            0 <= k < self.active_seq().len() ==> self.ids().contains(
                #[trigger] self.active_seq()[k],
            ))
        &&& (self.spec_current() is Some ==> self.ids().contains(self.spec_current().unwrap()))
    }

    /// A fresh stack: one blank layer, active and current.
    pub fn new(width: u32, height: u32) -> (r: Layers)
        requires
            0 < width <= MAX_DIM,
            0 < height <= MAX_DIM,
        ensures
            r.wf(),
            r.spec_width() == width,
            r.spec_height() == height,
            r.layers_seq().len() == 1,
            r.layers_seq()[0].spec_id() == 0,
            forall|j: int| 0 <= j < r.layers_seq()[0]@.len() ==> r.layers_seq()[0]@[j] is None,
            r.active_seq() == seq![0u64],
            r.spec_current() == Some(0u64),
    {
        let first = Layer::new(0, width, height);
        let mut layers: Vec<Layer> = Vec::new();
        layers.push(first);
        let mut active_layers: Vec<u64> = Vec::new();
        active_layers.push(0);
        proof {
            assert(active_layers@ =~= seq![0u64]);
        }
        let r = Layers {
            layers,
            current_layer: Some(0),
            active_layers,
            width,
            height,
            next_id: 1,
        };
        proof {
            assert(r.ids().contains(r.ids()[0]));
        }
        r
    }

    /// Index of the layer with the given identifier, if present.
    fn find_layer(&self, id: u64) -> (r: Option<usize>)
        ensures
            r is Some ==> 0 <= r.unwrap() < self.layers_seq().len() && self.layers_seq()[
                r.unwrap() as int
            ].spec_id() == id,
            r is None ==> !self.ids().contains(id),
            self.ids().contains(id) ==> r is Some,
    {
        let n = self.layers.len();
        let mut i: usize = 0;
        while i < n
            invariant
                n == self.layers_seq().len(),
                i <= n,
                forall|k: int| 0 <= k < i ==> (#[trigger] self.layers_seq()[k]).spec_id() != id,
            decreases n - i,
        {
            if self.layers[i].id() == id {
                return Some(i);
            }
            i = i + 1;
        }
        proof {
            if self.ids().contains(id) {
                let k = choose|k: int| 0 <= k < self.ids().len() && self.ids()[k] == id;
                assert(self.layers_seq()[k].spec_id() == id);
            }
        }
        None
    }

    /// Append a fresh blank layer on top of the stack and return its
    /// identifier. The new layer starts inactive and not current.
    pub fn add_layer(&mut self) -> (id: u64)
        requires
            old(self).wf(),
            old(self).spec_next_id() < u64::MAX,
        ensures
            final(self).wf(),
            id == old(self).spec_next_id(),
            final(self).spec_next_id() == old(self).spec_next_id() + 1,
            final(self).layers_seq().len() == old(self).layers_seq().len() + 1,
            final(self).layers_seq().drop_last() == old(self).layers_seq(),
            final(self).layers_seq().last().spec_id() == id,
            final(self).layers_seq().last().wf(),
            forall|j: int|
                0 <= j < final(self).layers_seq().last()@.len() ==> final(self).layers_seq().last()@[j] is None,
            final(self).active_seq() == old(self).active_seq(),
            final(self).spec_current() == old(self).spec_current(),
            final(self).spec_width() == old(self).spec_width(),
            final(self).spec_height() == old(self).spec_height(),
    {
        let id = self.next_id;
        let layer = Layer::new(id, self.width, self.height);
        self.layers.push(layer);
        self.next_id = id + 1;
        proof {
            assert(self.layers_seq().drop_last() =~= old(self).layers_seq());
            assert forall|k: int| 0 <= k < self.active_seq().len() implies self.ids().contains(
                #[trigger] self.active_seq()[k],
            ) by {
                let j = choose|j: int|
                    0 <= j < old(self).ids().len() && old(self).ids()[j] == self.active_seq()[k];
                assert(self.ids()[j] == self.active_seq()[k]);
            }
            if self.spec_current() is Some {
                let j = choose|j: int|
                    0 <= j < old(self).ids().len() && old(self).ids()[j] == self.spec_current().unwrap();
                assert(self.ids()[j] == self.spec_current().unwrap());
            }
        }
        id
    }

    /// Whether the layer with this identifier is active.
    pub fn is_active(&self, id: u64) -> (r: bool)
        ensures
            r == self.active_seq().contains(id),
    {
        let n = self.active_layers.len();
        let mut i: usize = 0;
        while i < n
            invariant
                n == self.active_seq().len(),
                i <= n,
                forall|k: int| 0 <= k < i ==> self.active_seq()[k] != id,
            decreases n - i,
        {
            if self.active_layers[i] == id {
                return true;
            }
            i = i + 1;
        }
        false
    }

    /// Make the layer with this identifier active, and current: a layer
    /// just switched on is the natural edit target. Unknown identifiers
    /// and already-active layers are left alone.
    pub fn set_active(&mut self, id: u64)
        requires
            old(self).wf(),
        ensures
            final(self).wf(),
            final(self).layers_seq() == old(self).layers_seq(),
            final(self).spec_width() == old(self).spec_width(),
            final(self).spec_height() == old(self).spec_height(),
            final(self).spec_next_id() == old(self).spec_next_id(),
            (!old(self).ids().contains(id) || old(self).active_seq().contains(id)) ==> final(self).active_seq() == old(self).active_seq() && final(self).spec_current() == old(self).spec_current(),
            (old(self).ids().contains(id) && !old(self).active_seq().contains(id)) ==> final(self).active_seq() == old(self).active_seq().push(id) && final(self).spec_current()
                == Some(id),
    {
        let idx = match self.find_layer(id) {
            Some(i) => i,
            None => {
                return ;
            },
        };
        proof {
            assert(self.ids()[idx as int] == id);
            assert(self.ids().contains(id));
        }
        if self.is_active(id) {
            return ;
        }
        let ghost pre_active = self.active_layers@;
        self.active_layers.push(id);
        self.current_layer = Some(id);
        proof {
            assert(self.active_seq() == pre_active.push(id));
            assert(self.active_seq().no_duplicates()) by {
                assert forall|i1: int, j1: int|
                    0 <= i1 < self.active_seq().len() && 0 <= j1 < self.active_seq().len() && i1
                        != j1 implies self.active_seq()[i1] != self.active_seq()[j1] by {
                    if self.active_seq()[i1] == self.active_seq()[j1] {
                        if i1 < pre_active.len() && j1 < pre_active.len() {
                        } else if i1 < pre_active.len() {
                            assert(pre_active.contains(pre_active[i1]));
                        } else {
                            assert(pre_active.contains(pre_active[j1]));
                        }
                    }
                }
            }
            assert forall|k: int|
                0 <= k < self.active_seq().len() implies self.ids().contains(
                #[trigger] self.active_seq()[k],
            ) by {
                if k < pre_active.len() {
                    assert(self.active_seq()[k] == pre_active[k]);
                }
            }
        }
    }

    /// Deactivate the layer with this identifier, unless it is the only
    /// active layer: the active set never becomes empty.
    pub fn unactive(&mut self, id: u64)
        requires
            old(self).wf(),
        ensures
            final(self).wf(),
            final(self).layers_seq() == old(self).layers_seq(),
            final(self).spec_width() == old(self).spec_width(),
            final(self).spec_height() == old(self).spec_height(),
            final(self).spec_next_id() == old(self).spec_next_id(),
            final(self).spec_current() == old(self).spec_current(),
            old(self).active_seq().len() == 1 ==> final(self).active_seq() == old(self).active_seq(),
            old(self).active_seq().len() != 1 ==> {
                &&& forall|v: u64|
                    final(self).active_seq().contains(v) <==> (old(self).active_seq().contains(v)
                        && v != id)
                &&& final(self).active_seq().len() >= 1
            },
    {
        if self.active_layers.len() == 1 {
            return ;
        }
        let ghost pre_active = self.active_layers@;
        let n = self.active_layers.len();
        let mut kept: Vec<u64> = Vec::new();
        let mut i: usize = 0;
        while i < n
            invariant
                n == pre_active.len(),
                pre_active.no_duplicates(),
                i <= n,
                self.active_layers@ == pre_active,
                forall|v: u64|
                    kept@.contains(v) <==> (exists|k: int|
                        0 <= k < i && pre_active[k] == v && v != id),
                kept@.no_duplicates(),
                forall|k2: int, k3: int|
                    0 <= k2 < kept@.len() && 0 <= k3 < pre_active.len() && kept@[k2]
                        == pre_active[k3] ==> k3 < i,
            decreases n - i,
        {
            let v = self.active_layers[i];
            if v != id {
                proof {
                    assert(!kept@.contains(v)) by {
                        if kept@.contains(v) {
                            let k2 = choose|k2: int| 0 <= k2 < kept@.len() && kept@[k2] == v;
                            let k = choose|k: int|
                                0 <= k < i && pre_active[k] == v && v != id;
                        }
                    }
                }
                kept.push(v);
            }
            i = i + 1;
        }
        proof {
            // at least one active id survives: some entry differs from `id`
            if pre_active[0] != id {
                assert(kept@.contains(pre_active[0]));
            } else {
                assert(pre_active[1] != id);
                assert(kept@.contains(pre_active[1]));
            }
        }
        self.active_layers = kept;
        proof {
            assert forall|k: int|
                0 <= k < self.active_seq().len() implies self.ids().contains(
                #[trigger] self.active_seq()[k],
            ) by {
                assert(self.active_seq().contains(self.active_seq()[k]));
                let k3 = choose|k3: int|
                    0 <= k3 < pre_active.len() && pre_active[k3] == self.active_seq()[k]
                        && self.active_seq()[k] != id;
            }
        }
    }

    /// Ensure the current layer resolves to an active layer: when it does
    /// not, reassign it to the first active layer.
    pub fn check_current_layer(&mut self)
        requires
            old(self).wf(),
        ensures
            final(self).wf(),
            final(self).layers_seq() == old(self).layers_seq(),
            final(self).active_seq() == old(self).active_seq(),
            final(self).spec_width() == old(self).spec_width(),
            final(self).spec_height() == old(self).spec_height(),
            final(self).spec_next_id() == old(self).spec_next_id(),
            final(self).spec_current() is Some,
            final(self).active_seq().contains(final(self).spec_current().unwrap()),
            (old(self).spec_current() is Some && old(self).active_seq().contains(
                old(self).spec_current().unwrap(),
            )) ==> final(self).spec_current() == old(self).spec_current(),
    {
        let needs_fix = match &self.current_layer {
            Some(cid) => !self.is_active(*cid),
            None => true,
        };
        if needs_fix {
            let first = self.active_layers[0];
            proof {
                assert(self.active_seq().contains(self.active_seq()[0]));
            }
            self.current_layer = Some(first);
        }
        proof {
            assert(self.active_seq().contains(self.spec_current().unwrap()));
        }
    }

    /// Make the layer with this identifier current, if it exists.
    pub fn set_current_layer(&mut self, id: u64)
        requires
            old(self).wf(),
        ensures
            final(self).wf(),
            final(self).layers_seq() == old(self).layers_seq(),
            final(self).active_seq() == old(self).active_seq(),
            final(self).spec_width() == old(self).spec_width(),
            final(self).spec_height() == old(self).spec_height(),
            final(self).spec_next_id() == old(self).spec_next_id(),
            old(self).ids().contains(id) ==> final(self).spec_current() == Some(id),
            !old(self).ids().contains(id) ==> final(self).spec_current() == old(self).spec_current(),
    {
        match self.find_layer(id) {
            Some(i) => {
                proof {
                    assert(self.ids()[i as int] == id);
                    assert(self.ids().contains(id));
                }
                self.current_layer = Some(id);
            },
            None => {},
        }
    }

    /// Make the newest (topmost) layer current.
    pub fn set_current_layer_newest(&mut self)
        requires
            old(self).wf(),
        ensures
            final(self).wf(),
            final(self).layers_seq() == old(self).layers_seq(),
            final(self).active_seq() == old(self).active_seq(),
            final(self).spec_width() == old(self).spec_width(),
            final(self).spec_height() == old(self).spec_height(),
            final(self).spec_next_id() == old(self).spec_next_id(),
            final(self).spec_current() == Some(old(self).layers_seq().last().spec_id()),
    {
        let n = self.layers.len();
        let last_id = self.layers[n - 1].id();
        self.current_layer = Some(last_id);
        proof {
            assert(self.ids()[n - 1] == last_id);
            assert(self.ids().contains(last_id));
        }
    }

    /// Make the oldest (bottom) layer current.
    pub fn set_current_layer_oldest(&mut self)
        requires
            old(self).wf(),
        ensures
            final(self).wf(),
            final(self).layers_seq() == old(self).layers_seq(),
            final(self).active_seq() == old(self).active_seq(),
            final(self).spec_width() == old(self).spec_width(),
            final(self).spec_height() == old(self).spec_height(),
            final(self).spec_next_id() == old(self).spec_next_id(),
            final(self).spec_current() == Some(old(self).layers_seq()[0].spec_id()),
    {
        let first_id = self.layers[0].id();
        self.current_layer = Some(first_id);
        proof {
            assert(self.ids()[0] == first_id);
            assert(self.ids().contains(first_id));
        }
    }

    pub fn width(&self) -> (r: u32)
        ensures
            r == self.spec_width(),
    {
        self.width
    }

    pub fn height(&self) -> (r: u32)
        ensures
            r == self.spec_height(),
    {
        self.height
    }

    /// All layers, bottom first.
    pub fn get_all_layers(&self) -> (r: &Vec<Layer>)
        ensures
            r@ == self.layers_seq(),
    {
        &self.layers
    }

    /// Identifier of the current layer, before any re-validation.
    pub fn get_current_layer_index(&self) -> (r: Option<u64>)
        ensures
            r == self.spec_current(),
    {
        self.current_layer
    }

    /// Identifiers of the active layers.
    pub fn get_all_active(&self) -> (r: &Vec<u64>)
        ensures
            r@ == self.active_seq(),
    {
        &self.active_layers
    }

    /// The layer with this identifier, if present.
    pub fn get_layer(&self, id: u64) -> (r: Option<&Layer>)
        requires
            self.wf(),
        ensures
            r is Some <==> self.ids().contains(id),
            r is Some ==> exists|i: int|
                0 <= i < self.layers_seq().len() && self.layers_seq()[i].spec_id() == id && *(
                #[trigger] r.unwrap()) == self.layers_seq()[i],
    {
        match self.find_layer(id) {
            Some(i) => {
                proof {
                    assert(self.ids()[i as int] == id);
                    assert(self.ids().contains(id));
                }
                let r = &self.layers[i];
                proof {
                    assert(*r == self.layers_seq()[i as int]);
                }
                Some(r)
            },
            None => None,
        }
    }

    /// Remove the layer with this identifier. Removing the last active
    /// layer, or the last layer overall, is rejected and nothing changes;
    /// so is an unknown identifier. When the removed layer was current, the
    /// first active layer becomes current.
    pub fn remove_layer(&mut self, id: u64)
        requires
            old(self).wf(),
        ensures
            final(self).wf(),
            final(self).spec_width() == old(self).spec_width(),
            final(self).spec_height() == old(self).spec_height(),
            final(self).spec_next_id() == old(self).spec_next_id(),
            (!old(self).ids().contains(id) || (old(self).active_seq().contains(id) && old(self).active_seq().len() == 1) || old(self).layers_seq().len() == 1) ==> {
                &&& final(self).layers_seq() == old(self).layers_seq()
                &&& final(self).active_seq() == old(self).active_seq()
                &&& final(self).spec_current() == old(self).spec_current()
            },
            (old(self).ids().contains(id) && !(old(self).active_seq().contains(id) && old(self).active_seq().len() == 1) && old(self).layers_seq().len() > 1) ==> {
                &&& exists|i: int|
                    0 <= i < old(self).layers_seq().len() && old(self).layers_seq()[i].spec_id()
                        == id && final(self).layers_seq() == old(self).layers_seq().remove(i)
                &&& (forall|v: u64|
                    final(self).active_seq().contains(v) <==> (old(self).active_seq().contains(v)
                        && v != id))
                &&& (old(self).spec_current() == Some(id) ==> final(self).spec_current() is Some
                    && final(self).active_seq().contains(final(self).spec_current().unwrap()))
                &&& (old(self).spec_current() != Some(id) ==> final(self).spec_current() == old(self).spec_current())
            },
    {
        let idx = match self.find_layer(id) {
            Some(i) => i,
            None => {
                return ;
            },
        };
        proof {
            assert(self.ids()[idx as int] == id);
            assert(self.ids().contains(id));
        }
        let active = self.is_active(id);
        if active && self.active_layers.len() == 1 {
            return ;
        }
        if self.layers.len() == 1 {
            proof {
                // the single layer is referenced by the whole active set, so
                // the removed id is the last active layer and the previous
                // branch already returned
                let k2 = choose|k2: int| 0 <= k2 < self.ids().len() && self.ids()[k2] == id;
                assert(self.ids()[0] == id);
                assert(self.active_seq().contains(self.active_seq()[0]));
                let k3 = choose|k3: int|
                    0 <= k3 < self.ids().len() && self.ids()[k3] == self.active_seq()[0];
                assert(self.active_seq()[0] == id);
                if self.active_seq().len() > 1 {
                    assert(self.active_seq().contains(self.active_seq()[1]));
                    let k4 = choose|k4: int|
                        0 <= k4 < self.ids().len() && self.ids()[k4] == self.active_seq()[1];
                    assert(self.active_seq()[1] == id);
                }
                assert(false);
            }
            return ;
        }
        let ghost pre = *self;
        self.layers.remove(idx);
        proof {
            assert forall|i1: int, j1: int|
                0 <= i1 < self.layers_seq().len() && 0 <= j1 < self.layers_seq().len() && i1
                    != j1 implies (#[trigger] self.layers_seq()[i1]).spec_id() != (
            #[trigger] self.layers_seq()[j1]).spec_id() by {
                let oi = if i1 < idx {
                    i1
                } else {
                    i1 + 1
                };
                let oj = if j1 < idx {
                    j1
                } else {
                    j1 + 1
                };
                assert(self.layers_seq()[i1] == pre.layers_seq()[oi]);
                assert(self.layers_seq()[j1] == pre.layers_seq()[oj]);
            }
            assert forall|v: u64| pre.ids().contains(v) && v != id implies self.ids().contains(
                v,
            ) by {
                let k = choose|k: int| 0 <= k < pre.ids().len() && pre.ids()[k] == v;
                if k < idx {
                    assert(self.ids()[k] == v);
                } else {
                    assert(pre.layers_seq()[k].spec_id() == v && pre.layers_seq()[idx as int].spec_id()
                        == id);
                    assert(k != idx);
                    assert(self.ids()[k - 1] == v);
                }
            }
        }
        // drop the identifier from the active set
        if active {
            let ghost pre_active = self.active_layers@;
            let n = self.active_layers.len();
            let mut kept: Vec<u64> = Vec::new();
            let mut i: usize = 0;
            while i < n
                invariant
                    n == pre_active.len(),
                    pre_active.no_duplicates(),
                    i <= n,
                    self.active_layers@ == pre_active,
                    forall|v: u64|
                        kept@.contains(v) <==> (exists|k: int|
                            0 <= k < i && pre_active[k] == v && v != id),
                    kept@.no_duplicates(),
                    forall|k2: int, k3: int|
                        0 <= k2 < kept@.len() && 0 <= k3 < pre_active.len() && kept@[k2]
                            == pre_active[k3] ==> k3 < i,
                decreases n - i,
            {
                let v = self.active_layers[i];
                if v != id {
                    proof {
                        assert(!kept@.contains(v)) by {
                            if kept@.contains(v) {
                                let k2 = choose|k2: int|
                                    0 <= k2 < kept@.len() && kept@[k2] == v;
                            }
                        }
                    }
                    kept.push(v);
                }
                i = i + 1;
            }
            proof {
                // a second active id exists, and it survives the filter
                assert(pre_active.contains(id));
                let kid = choose|k: int| 0 <= k < pre_active.len() && pre_active[k] == id;
                let other: int = if kid == 0 {
                    1
                } else {
                    0
                };
                assert(pre_active[other] != id);
                assert(kept@.contains(pre_active[other]));
            }
            self.active_layers = kept;
        }
        proof {
            assert forall|k: int|
                0 <= k < self.active_seq().len() implies self.ids().contains(
                #[trigger] self.active_seq()[k],
            ) by {
                assert(self.active_seq().contains(self.active_seq()[k]));
                if active {
                } else {
                    assert(pre.active_seq().contains(self.active_seq()[k]));
                    assert(self.active_seq()[k] != id) by {
                        if self.active_seq()[k] == id {
                            assert(pre.active_seq().contains(id));
                        }
                    }
                }
            }
        }
        // re-point the current layer if it was the removed one
        let fix = match &self.current_layer {
            Some(cid) => *cid == id,
            None => false,
        };
        if fix {
            let first = self.active_layers[0];
            proof {
                assert(self.active_seq().contains(self.active_seq()[0]));
            }
            self.current_layer = Some(first);
        }
        proof {
            if self.spec_current() is Some {
                if !fix {
                    assert(pre.ids().contains(self.spec_current().unwrap()));
                    assert(self.spec_current().unwrap() != id) by {
                        if self.spec_current().unwrap() == id {
                        }
                    }
                }
            }
        }
    }

    /// The current layer, re-validated first: always some active layer.
    pub fn get_current_layer(&mut self) -> (r: Option<&Layer>)
        requires
            old(self).wf(),
        ensures
            final(self).wf(),
            final(self).layers_seq() == old(self).layers_seq(),
            final(self).active_seq() == old(self).active_seq(),
            final(self).spec_width() == old(self).spec_width(),
            final(self).spec_height() == old(self).spec_height(),
            final(self).spec_next_id() == old(self).spec_next_id(),
            r is Some,
            final(self).spec_current() is Some,
            r.unwrap().spec_id() == final(self).spec_current().unwrap(),
            exists|i: int|
                0 <= i < final(self).layers_seq().len() && *(#[trigger] r.unwrap()) == final(self).layers_seq()[i],
    {
        self.check_current_layer();
        let cid = match &self.current_layer {
            Some(c) => *c,
            None => {
                proof {
                    assert(false);
                }
                return None;
            },
        };
        proof {
            let k = choose|k: int| 0 <= k < self.ids().len() && self.ids()[k] == cid;
        }
        match self.find_layer(cid) {
            Some(i) => {
                let r = &self.layers[i];
                proof {
                    assert(*r == self.layers_seq()[i as int]);
                }
                Some(r)
            },
            None => {
                proof {
                    assert(false);
                }
                None
            },
        }
    }

    /// The layer with this identifier, after re-validating the current
    /// layer.
    pub fn get_active_layer(&mut self, id: u64) -> (r: Option<&Layer>)
        requires
            old(self).wf(),
        ensures
            final(self).wf(),
            final(self).layers_seq() == old(self).layers_seq(),
            final(self).active_seq() == old(self).active_seq(),
            final(self).spec_width() == old(self).spec_width(),
            final(self).spec_height() == old(self).spec_height(),
            final(self).spec_next_id() == old(self).spec_next_id(),
            r is Some <==> old(self).ids().contains(id),
            r is Some ==> r.unwrap().spec_id() == id,
    {
        self.check_current_layer();
        match self.find_layer(id) {
            Some(i) => {
                proof {
                    assert(self.ids()[i as int] == id);
                    assert(self.ids().contains(id));
                }
                Some(&self.layers[i])
            },
            None => None,
        }
    }

    /// Independent copies of the active layers, bottom first.
    pub fn get_all_active_canvas(&self) -> (r: Vec<Layer>)
        requires
            self.wf(),
        ensures
            forall|k: int|
                0 <= k < r@.len() ==> (#[trigger] r@[k]).wf() && self.active_seq().contains(
                    r@[k].spec_id(),
                ) && exists|i: int|
                    0 <= i < self.layers_seq().len() && (#[trigger] self.layers_seq()[i]).spec_id()
                        == r@[k].spec_id() && self.layers_seq()[i]@ == r@[k]@,
            forall|i: int|
                0 <= i < self.layers_seq().len() && self.active_seq().contains(
                    (#[trigger] self.layers_seq()[i]).spec_id(),
                ) ==> exists|k: int| 0 <= k < r@.len() && r@[k].spec_id() == self.layers_seq()[
                    i
                ].spec_id(),
    {
        let n = self.layers.len();
        let mut r: Vec<Layer> = Vec::new();
        let mut i: usize = 0;
        while i < n
            invariant
                self.wf(),
                n == self.layers_seq().len(),
                i <= n,
                forall|k: int|
                    0 <= k < r@.len() ==> (#[trigger] r@[k]).wf() && self.active_seq().contains(
                        r@[k].spec_id(),
                    ) && exists|i2: int|
                        0 <= i2 < self.layers_seq().len() && (
                        #[trigger] self.layers_seq()[i2]).spec_id() == r@[k].spec_id()
                            && self.layers_seq()[i2]@ == r@[k]@,
                forall|i2: int|
                    0 <= i2 < i && self.active_seq().contains(
                        (#[trigger] self.layers_seq()[i2]).spec_id(),
                    ) ==> exists|k: int| 0 <= k < r@.len() && r@[k].spec_id()
                        == self.layers_seq()[i2].spec_id(),
            decreases n - i,
        {
            let id = self.layers[i].id();
            let ghost r_pre = r@;
            if self.is_active(id) {
                let copy = self.layers[i].duplicate();
                r.push(copy);
                proof {
                    assert(r@.last().spec_id() == self.layers_seq()[i as int].spec_id());
                }
            }
            proof {
                assert forall|i2: int|
                    0 <= i2 < i + 1 && self.active_seq().contains(
                        (#[trigger] self.layers_seq()[i2]).spec_id(),
                    ) implies exists|k: int|
                    0 <= k < r@.len() && r@[k].spec_id() == self.layers_seq()[i2].spec_id() by {
                    if i2 == i {
                        assert(r@[r@.len() - 1].spec_id() == self.layers_seq()[i2].spec_id());
                    } else {
                        let k = choose|k: int|
                            0 <= k < r_pre.len() && r_pre[k].spec_id() == self.layers_seq()[
                                i2
                            ].spec_id();
                        assert(r@[k].spec_id() == self.layers_seq()[i2].spec_id());
                    }
                }
            }
            i = i + 1;
        }
        r
    }

    /// Flatten the active layers into one grid: start from an all-unset
    /// grid and, walking the stack bottom to top, copy every set cell of
    /// each active layer over the result. Later layers paint over earlier
    /// ones; unset cells are transparent and never overwrite.
    pub fn get_combined_export(&self) -> (r: PixelGrid)
        requires
            self.wf(),
        ensures
            r.wf(),
            r.spec_width() == self.spec_width(),
            r.spec_height() == self.spec_height(),
            forall|j: int|
                0 <= j < r@.len() ==> r@[j] == flatten_at(
                    self.layers_seq(),
                    self.active_seq(),
                    j,
                ),
    {
        let mut out = PixelGrid::new(self.width, self.height);
        let n = self.layers.len();
        let mut i: usize = 0;
        while i < n
            invariant
                self.wf(),
                n == self.layers_seq().len(),
                i <= n,
                out.wf(),
                out.spec_width() == self.spec_width(),
                out.spec_height() == self.spec_height(),
                forall|j: int|
                    0 <= j < out@.len() ==> out@[j] == flatten_at(
                        self.layers_seq().subrange(0, i as int),
                        self.active_seq(),
                        j,
                    ),
            decreases n - i,
        {
            let id = self.layers[i].id();
            let ghost prev_out = out@;
            if self.is_active(id) {
                let layer = &self.layers[i];
                proof {
                    assert(*layer == self.layers_seq()[i as int]);
                }
                let m = out.len();
                proof {
                    assert(layer@.len() == m) by {
                        assert(layer.wf());
                    }
                }
                let mut j: usize = 0;
                while j < m
                    invariant
                        layer.wf(),
                        layer@.len() == m,
                        out.wf(),
                        out@.len() == m,
                        out.spec_width() == layer.spec_width(),
                        out.spec_height() == layer.spec_height(),
                        j <= m,
                        prev_out.len() == m,
                        forall|jj: int|
                            0 <= jj < j ==> out@[jj] == (if layer@[jj] is Some {
                                layer@[jj]
                            } else {
                                prev_out[jj]
                            }),
                        forall|jj: int| j <= jj < m ==> out@[jj] == prev_out[jj],
                    decreases m - j,
                {
                    let c = layer.grid().get_index(j);
                    match c {
                        Some(col) => {
                            out.set_index(j, Some(col));
                        },
                        None => {},
                    }
                    j = j + 1;
                }
            }
            proof {
                let sub1 = self.layers_seq().subrange(0, i + 1);
                assert(sub1.drop_last() =~= self.layers_seq().subrange(0, i as int));
                assert(sub1.last() == self.layers_seq()[i as int]);
                assert forall|j: int| 0 <= j < out@.len() implies out@[j] == flatten_at(
                    sub1,
                    self.active_seq(),
                    j,
                ) by {
                    if self.active_seq().contains(self.layers_seq()[i as int].spec_id()) {
                    } else {
                        assert(out@[j] == prev_out[j]);
                    }
                }
            }
            i = i + 1;
        }
        proof {
            assert(self.layers_seq().subrange(0, n as int) =~= self.layers_seq());
        }
        out
    }

    /// Index of the current layer, after re-validation.
    fn current_index(&mut self) -> (i: usize)
        requires
            old(self).wf(),
        ensures
            final(self).wf(),
            final(self).layers_seq() == old(self).layers_seq(),
            final(self).active_seq() == old(self).active_seq(),
            final(self).spec_width() == old(self).spec_width(),
            final(self).spec_height() == old(self).spec_height(),
            final(self).spec_next_id() == old(self).spec_next_id(),
            final(self).spec_current() is Some,
            final(self).active_seq().contains(final(self).spec_current().unwrap()),
            i < final(self).layers_seq().len(),
            final(self).layers_seq()[i as int].spec_id() == final(self).spec_current().unwrap(),
    {
        self.check_current_layer();
        let cid = match &self.current_layer {
            Some(c) => *c,
            None => {
                proof {
                    assert(false);
                }
                0
            },
        };
        proof {
            let k = choose|k: int| 0 <= k < self.ids().len() && self.ids()[k] == cid;
        }
        match self.find_layer(cid) {
            Some(i) => i,
            None => {
                proof {
                    assert(false);
                }
                0
            },
        }
    }

    /// Apply a click tool at `(x, y)` of the current layer. While the
    /// current layer is mid-stroke nothing happens: clicks belong to the
    /// stroke protocol then.
    pub fn apply_click_current(&mut self, tool: &Tool, x: u32, y: u32)
        requires
            old(self).wf(),
        ensures
            final(self).wf(),
            final(self).active_seq() == old(self).active_seq(),
            final(self).spec_width() == old(self).spec_width(),
            final(self).spec_height() == old(self).spec_height(),
            final(self).spec_next_id() == old(self).spec_next_id(),
            final(self).layers_seq().len() == old(self).layers_seq().len(),
            final(self).spec_current() is Some,
            exists|i: int|
                {
                    &&& 0 <= i < old(self).layers_seq().len()
                    &&& final(self).spec_current() == Some(
                        (#[trigger] old(self).layers_seq()[i]).spec_id(),
                    )
                    &&& (forall|k: int|
                        0 <= k < old(self).layers_seq().len() && k != i ==> final(self).layers_seq()[k] == old(self).layers_seq()[k])
                    &&& (old(self).layers_seq()[i].in_stroke() ==> final(self).layers_seq()[i]
                        == old(self).layers_seq()[i])
                    &&& (!old(self).layers_seq()[i].in_stroke() ==> click_applied(
                        old(self).layers_seq()[i],
                        final(self).layers_seq()[i],
                        *tool,
                        x,
                        y,
                    ))
                },
    {
        let i = self.current_index();
        let ghost mid = *self;
        let l = &mut self.layers[i];
        if !l.stroke_active() {
            l.apply_click(tool, x, y);
        }
        proof {
            assert(self.ids() =~= mid.ids());
            assert(self.layers_seq()[i as int].spec_id() == mid.layers_seq()[i as int].spec_id());
        }
    }

    /// Begin a drag stroke on the current layer at the anchor cell. An
    /// out-of-range anchor is ignored.
    pub fn begin_stroke_current(&mut self, ax: u32, ay: u32)
        requires
            old(self).wf(),
        ensures
            final(self).wf(),
            final(self).active_seq() == old(self).active_seq(),
            final(self).spec_width() == old(self).spec_width(),
            final(self).spec_height() == old(self).spec_height(),
            final(self).spec_next_id() == old(self).spec_next_id(),
            final(self).layers_seq().len() == old(self).layers_seq().len(),
            final(self).spec_current() is Some,
            exists|i: int|
                {
                    &&& 0 <= i < old(self).layers_seq().len()
                    &&& final(self).spec_current() == Some(
                        (#[trigger] old(self).layers_seq()[i]).spec_id(),
                    )
                    &&& (forall|k: int|
                        0 <= k < old(self).layers_seq().len() && k != i ==> final(self).layers_seq()[k] == old(self).layers_seq()[k])
                    &&& (!(ax < old(self).spec_width() && ay < old(self).spec_height()) ==> final(self).layers_seq()[i] == old(self).layers_seq()[i])
                    &&& ((ax < old(self).spec_width() && ay < old(self).spec_height())
                        ==> begin_applied(
                        old(self).layers_seq()[i],
                        final(self).layers_seq()[i],
                        ax,
                        ay,
                    ))
                },
    {
        let i = self.current_index();
        let ghost mid = *self;
        let in_range = ax < self.width && ay < self.height;
        let l = &mut self.layers[i];
        if in_range {
            l.begin_stroke(ax, ay);
        }
        proof {
            assert(self.ids() =~= mid.ids());
        }
    }

    /// Repaint the current layer's stroke preview for the current cell.
    /// Without an active stroke, a non-drag tool, or an out-of-range cell,
    /// nothing happens.
    pub fn update_stroke_current(&mut self, tool: &Tool, cx: u32, cy: u32)
        requires
            old(self).wf(),
        ensures
            final(self).wf(),
            final(self).active_seq() == old(self).active_seq(),
            final(self).spec_width() == old(self).spec_width(),
            final(self).spec_height() == old(self).spec_height(),
            final(self).spec_next_id() == old(self).spec_next_id(),
            final(self).layers_seq().len() == old(self).layers_seq().len(),
            final(self).spec_current() is Some,
            exists|i: int|
                {
                    &&& 0 <= i < old(self).layers_seq().len()
                    &&& final(self).spec_current() == Some(
                        (#[trigger] old(self).layers_seq()[i]).spec_id(),
                    )
                    &&& (forall|k: int|
                        0 <= k < old(self).layers_seq().len() && k != i ==> final(self).layers_seq()[k] == old(self).layers_seq()[k])
                    &&& (!(old(self).layers_seq()[i].in_stroke() && tool.spec_is_drag() && cx
                        < old(self).spec_width() && cy < old(self).spec_height()) ==> final(self).layers_seq()[i] == old(self).layers_seq()[i])
                    &&& ((old(self).layers_seq()[i].in_stroke() && tool.spec_is_drag() && cx
                        < old(self).spec_width() && cy < old(self).spec_height())
                        ==> update_applied(
                        old(self).layers_seq()[i],
                        final(self).layers_seq()[i],
                        *tool,
                        cx,
                        cy,
                    ))
                },
    {
        let i = self.current_index();
        let ghost mid = *self;
        let in_range = cx < self.width && cy < self.height;
        let is_drag = tool.is_drag();
        let l = &mut self.layers[i];
        if l.stroke_active() && is_drag && in_range {
            l.update_stroke(tool, cx, cy);
        }
        proof {
            assert(self.ids() =~= mid.ids());
        }
    }

    /// Commit the current layer's stroke. Without an active stroke or a
    /// drag tool, nothing happens.
    pub fn commit_stroke_current(&mut self, tool: &Tool)
        requires
            old(self).wf(),
        ensures
            final(self).wf(),
            final(self).active_seq() == old(self).active_seq(),
            final(self).spec_width() == old(self).spec_width(),
            final(self).spec_height() == old(self).spec_height(),
            final(self).spec_next_id() == old(self).spec_next_id(),
            final(self).layers_seq().len() == old(self).layers_seq().len(),
            final(self).spec_current() is Some,
            exists|i: int|
                {
                    &&& 0 <= i < old(self).layers_seq().len()
                    &&& final(self).spec_current() == Some(
                        (#[trigger] old(self).layers_seq()[i]).spec_id(),
                    )
                    &&& (forall|k: int|
                        0 <= k < old(self).layers_seq().len() && k != i ==> final(self).layers_seq()[k] == old(self).layers_seq()[k])
                    &&& (!(old(self).layers_seq()[i].in_stroke() && tool.spec_is_drag()) ==> final(self).layers_seq()[i] == old(self).layers_seq()[i])
                    &&& ((old(self).layers_seq()[i].in_stroke() && tool.spec_is_drag())
                        ==> commit_applied(
                        old(self).layers_seq()[i],
                        final(self).layers_seq()[i],
                        *tool,
                    ))
                },
    {
        let i = self.current_index();
        let ghost mid = *self;
        let is_drag = tool.is_drag();
        let l = &mut self.layers[i];
        if l.stroke_active() && is_drag {
            l.commit_stroke(tool);
        }
        proof {
            assert(self.ids() =~= mid.ids());
        }
    }

    /// Undo the newest committed action of the current layer. Returns
    /// whether anything was undone.
    pub fn undo_current(&mut self) -> (r: bool)
        requires
            old(self).wf(),
        ensures
            final(self).wf(),
            final(self).active_seq() == old(self).active_seq(),
            final(self).spec_width() == old(self).spec_width(),
            final(self).spec_height() == old(self).spec_height(),
            final(self).spec_next_id() == old(self).spec_next_id(),
            final(self).layers_seq().len() == old(self).layers_seq().len(),
            final(self).spec_current() is Some,
            exists|i: int|
                {
                    &&& 0 <= i < old(self).layers_seq().len()
                    &&& final(self).spec_current() == Some(
                        (#[trigger] old(self).layers_seq()[i]).spec_id(),
                    )
                    &&& (forall|k: int|
                        0 <= k < old(self).layers_seq().len() && k != i ==> final(self).layers_seq()[k] == old(self).layers_seq()[k])
                    &&& undo_applied(old(self).layers_seq()[i], final(self).layers_seq()[i], r)
                },
    {
        let i = self.current_index();
        let ghost mid = *self;
        let l = &mut self.layers[i];
        let r = l.undo();
        proof {
            assert(self.ids() =~= mid.ids());
        }
        r
    }

    /// Redo the newest undone action of the current layer. Returns whether
    /// anything was redone.
    pub fn redo_current(&mut self) -> (r: bool)
        requires
            old(self).wf(),
        ensures
            final(self).wf(),
            final(self).active_seq() == old(self).active_seq(),
            final(self).spec_width() == old(self).spec_width(),
            final(self).spec_height() == old(self).spec_height(),
            final(self).spec_next_id() == old(self).spec_next_id(),
            final(self).layers_seq().len() == old(self).layers_seq().len(),
            final(self).spec_current() is Some,
            exists|i: int|
                {
                    &&& 0 <= i < old(self).layers_seq().len()
                    &&& final(self).spec_current() == Some(
                        (#[trigger] old(self).layers_seq()[i]).spec_id(),
                    )
                    &&& (forall|k: int|
                        0 <= k < old(self).layers_seq().len() && k != i ==> final(self).layers_seq()[k] == old(self).layers_seq()[k])
                    &&& redo_applied(old(self).layers_seq()[i], final(self).layers_seq()[i], r)
                },
    {
        let i = self.current_index();
        let ghost mid = *self;
        let l = &mut self.layers[i];
        let r = l.redo();
        proof {
            assert(self.ids() =~= mid.ids());
        }
        r
    }
}

} // verus!
