//! The undo/redo action journal.
//!
//! An action is a pair of effects: apply forward and apply backward, each a
//! replay of the same mutation primitives used for normal edits. Applying an
//! effect is total: when the referenced object no longer exists the effect
//! silently reports a no-op rather than failing, which keeps undo and redo
//! robust against stale handles.

use vstd::prelude::*;

use crate::counts::{count_of, key_index, lemma_key_index};
use crate::folder::{t_folder_insert, t_folder_remove, t_folder_set, FolderData};
use crate::frame::{clamped, t_frame_insert, t_frame_remove, t_frame_set, FrameData};
use crate::graphic::{t_graphic_insert, t_graphic_remove, t_graphic_set, GraphicData};
use crate::layer::{
    layer_list_of, parent_live, t_layer_insert, t_layer_remove, t_layer_set, t_layer_transfer,
    LayerData, LayerParent,
};
use crate::palette::{t_palette_insert, t_palette_remove, t_palette_set, PaletteData};
use crate::project::{ownership_ok, ProjV, Project};
use crate::store::ObjPtr;
use crate::stroke::{t_stroke_insert, t_stroke_remove, t_stroke_set, StrokeData};

verus! {

/// The captured field data of one object, tagged by entity kind. Owned child
/// collections are never captured: a cascade records one action per owned
/// object instead.
pub enum ObjData {
    Folder(FolderData),
    Graphic(GraphicData),
    Layer(LayerData),
    Frame(FrameData),
    Stroke(StrokeData),
    Palette(PaletteData),
}

impl ObjData {
    /// Whether two captured values concern the same entity kind.
    pub open spec fn same_kind(self, other: ObjData) -> bool {
        match (self, other) {
            (ObjData::Folder(_), ObjData::Folder(_)) => true,
            (ObjData::Graphic(_), ObjData::Graphic(_)) => true,
            (ObjData::Layer(_), ObjData::Layer(_)) => true,
            (ObjData::Frame(_), ObjData::Frame(_)) => true,
            (ObjData::Stroke(_), ObjData::Stroke(_)) => true,
            (ObjData::Palette(_), ObjData::Palette(_)) => true,
            _ => false,
        }
    }
}

/// One primitive undoable edit.
///
/// `Addition` re-creates an object at the end of its parent\'s child list;
/// `Deletion` removes one (childless) object, remembering the position it
/// held so that undo can restore it there; `Modification` rewrites captured
/// field data; `TransferLayer` moves a layer between parents, remembering
/// the old parent and position.
pub enum ObjAction {
    Addition { key: u64, data: ObjData },
    Deletion { key: u64, data: ObjData, index: usize },
    Modification { key: u64, old_data: ObjData, new_data: ObjData },
    TransferLayer { layer: u64, old_parent: LayerParent, old_index: usize, new_parent: LayerParent },
}

/// Whether the forward effect of `act` finds everything it needs in `v` and
/// will mutate the graph (rather than report a benign no-op).
pub open spec fn forward_applicable(v: ProjV, act: ObjAction) -> bool {
    match act {
        ObjAction::Addition { key, data } => addition_applicable(v, key, data),
        ObjAction::Deletion { key, data, index } => deletion_applicable(v, key, data),
        ObjAction::Modification { key, old_data, new_data } => modification_applicable(
            v,
            key,
            new_data,
        ),
        ObjAction::TransferLayer { layer, old_parent, old_index, new_parent } => {
            &&& v.layers.contains_key(layer)
            &&& parent_live(v, new_parent)
            &&& new_parent != LayerParent::Layer(layer)
        },
    }
}

pub open spec fn addition_applicable(v: ProjV, key: u64, data: ObjData) -> bool {
    &&& 0 < key < u64::MAX
    &&& match data {
        ObjData::Folder(d) => !v.folders.contains_key(key) && v.folders.contains_key(d@.folder),
        ObjData::Graphic(d) => !v.graphics.contains_key(key) && v.folders.contains_key(d@.folder),
        ObjData::Layer(d) => !v.layers.contains_key(key) && parent_live(v, d@.parent),
        ObjData::Frame(d) => !v.frames.contains_key(key) && v.layers.contains_key(d.layer),
        ObjData::Stroke(d) => !v.strokes.contains_key(key) && v.frames.contains_key(d@.frame),
        ObjData::Palette(d) => !v.palettes.contains_key(key) && v.folders.contains_key(d@.folder),
    }
}

pub open spec fn deletion_applicable(v: ProjV, key: u64, data: ObjData) -> bool {
    match data {
        ObjData::Folder(_) => v.folders.contains_key(key) && key != v.root_folder
            && v.folders[key].graphics.len() == 0 && v.folders[key].palettes.len() == 0
            && v.folders[key].audios.len() == 0 && v.folders[key].folders.len() == 0,
        ObjData::Graphic(_) => v.graphics.contains_key(key) && v.graphics[key].layers.len() == 0,
        ObjData::Layer(_) => v.layers.contains_key(key) && v.layers[key].frames.len() == 0
            && v.layers[key].layers.len() == 0,
        ObjData::Frame(_) => v.frames.contains_key(key) && v.frames[key].strokes.len() == 0,
        ObjData::Stroke(_) => v.strokes.contains_key(key),
        ObjData::Palette(_) => v.palettes.contains_key(key),
    }
}

pub open spec fn modification_applicable(v: ProjV, key: u64, new_data: ObjData) -> bool {
    match new_data {
        ObjData::Folder(d) => v.folders.contains_key(key) && d@.folder
            == v.folders[key].data.folder,
        ObjData::Graphic(d) => v.graphics.contains_key(key) && d@.folder
            == v.graphics[key].data.folder,
        ObjData::Layer(d) => v.layers.contains_key(key) && d@.parent
            == v.layers[key].data.parent,
        ObjData::Frame(d) => v.frames.contains_key(key) && d.layer == v.frames[key].data.layer,
        ObjData::Stroke(d) => v.strokes.contains_key(key) && d@.frame
            == v.strokes[key].data.frame,
        ObjData::Palette(d) => v.palettes.contains_key(key) && d@.folder
            == v.palettes[key].data.folder,
    }
}

/// The position `key` currently holds in its parent\'s child list.
pub open spec fn current_index(v: ProjV, key: u64, data: ObjData) -> int {
    match data {
        ObjData::Folder(_) => key_index(v.folders[v.folders[key].data.folder].folders, key),
        ObjData::Graphic(_) => key_index(v.folders[v.graphics[key].data.folder].graphics, key),
        ObjData::Layer(_) => key_index(layer_list_of(v, v.layers[key].data.parent), key),
        ObjData::Frame(_) => key_index(v.layers[v.frames[key].data.layer].frames, key),
        ObjData::Stroke(_) => key_index(v.frames[v.strokes[key].data.frame].strokes, key),
        ObjData::Palette(_) => key_index(v.folders[v.palettes[key].data.folder].palettes, key),
    }
}

/// The graph state the forward effect produces when it is applicable.
pub open spec fn forward_t(v: ProjV, act: ObjAction) -> ProjV {
    match act {
        ObjAction::Addition { key, data } => add_t(v, key, data, usize::MAX as int),
        ObjAction::Deletion { key, data, index } => remove_t(v, key, data),
        ObjAction::Modification { key, old_data, new_data } => set_t(v, key, new_data),
        ObjAction::TransferLayer { layer, old_parent, old_index, new_parent } => t_layer_transfer(
            v,
            layer,
            new_parent,
            key_index(layer_list_of(v, v.layers[layer].data.parent), layer),
            usize::MAX as int,
        ),
    }
}

/// Whether the backward effect of `act` finds everything it needs in `v`.
pub open spec fn backward_applicable(v: ProjV, act: ObjAction) -> bool {
    match act {
        ObjAction::Addition { key, data } => deletion_applicable(v, key, data),
        ObjAction::Deletion { key, data, index } => addition_applicable(v, key, data),
        ObjAction::Modification { key, old_data, new_data } => modification_applicable(
            v,
            key,
            old_data,
        ),
        ObjAction::TransferLayer { layer, old_parent, old_index, new_parent } => {
            &&& v.layers.contains_key(layer)
            &&& parent_live(v, old_parent)
            &&& old_parent != LayerParent::Layer(layer)
        },
    }
}

/// The graph state the backward effect produces when it is applicable.
pub open spec fn backward_t(v: ProjV, act: ObjAction) -> ProjV {
    match act {
        ObjAction::Addition { key, data } => remove_t(v, key, data),
        ObjAction::Deletion { key, data, index } => add_t(v, key, data, index as int),
        ObjAction::Modification { key, old_data, new_data } => set_t(v, key, old_data),
        ObjAction::TransferLayer { layer, old_parent, old_index, new_parent } => t_layer_transfer(
            v,
            layer,
            old_parent,
            key_index(layer_list_of(v, v.layers[layer].data.parent), layer),
            old_index as int,
        ),
    }
}

pub open spec fn add_t(v: ProjV, key: u64, data: ObjData, at: int) -> ProjV {
    match data {
        ObjData::Folder(d) => t_folder_insert(
            v,
            key,
            d@,
            clamped(at, v.folders[d@.folder].folders.len() as int),
        ),
        ObjData::Graphic(d) => t_graphic_insert(
            v,
            key,
            d@,
            clamped(at, v.folders[d@.folder].graphics.len() as int),
        ),
        ObjData::Layer(d) => t_layer_insert(v, key, d@, at),
        ObjData::Frame(d) => t_frame_insert(
            v,
            key,
            d,
            clamped(at, v.layers[d.layer].frames.len() as int),
        ),
        ObjData::Stroke(d) => t_stroke_insert(
            v,
            key,
            d@,
            clamped(at, v.frames[d@.frame].strokes.len() as int),
        ),
        ObjData::Palette(d) => t_palette_insert(
            v,
            key,
            d@,
            clamped(at, v.folders[d@.folder].palettes.len() as int),
        ),
    }
}

pub open spec fn remove_t(v: ProjV, key: u64, data: ObjData) -> ProjV {
    match data {
        ObjData::Folder(_) => t_folder_remove(v, key, current_index(v, key, data)),
        ObjData::Graphic(_) => t_graphic_remove(v, key, current_index(v, key, data)),
        ObjData::Layer(_) => t_layer_remove(v, key, current_index(v, key, data)),
        ObjData::Frame(_) => t_frame_remove(v, key, current_index(v, key, data)),
        ObjData::Stroke(_) => t_stroke_remove(v, key, current_index(v, key, data)),
        ObjData::Palette(_) => t_palette_remove(v, key, current_index(v, key, data)),
    }
}

pub open spec fn set_t(v: ProjV, key: u64, data: ObjData) -> ProjV {
    match data {
        ObjData::Folder(d) => t_folder_set(v, key, d@),
        ObjData::Graphic(d) => t_graphic_set(v, key, d@),
        ObjData::Layer(d) => t_layer_set(v, key, d@),
        ObjData::Frame(d) => t_frame_set(v, key, d),
        ObjData::Stroke(d) => t_stroke_set(v, key, d@),
        ObjData::Palette(d) => t_palette_set(v, key, d@),
    }
}

impl ObjAction {
    /// Applies the forward effect, reporting whether the graph changed. A
    /// stale or inapplicable action is a benign no-op reporting `false`.
    pub fn forward(&self, project: &mut Project) -> (r: bool)
        requires
            old(project).wf(),
        ensures
            final(project).wf(),
            r == forward_applicable(old(project)@, *self),
            r ==> final(project)@ == forward_t(old(project)@, *self),
            !r ==> final(project)@ == old(project)@,
    {
        match self {
            ObjAction::Addition { key, data } => apply_add(project, *key, data, usize::MAX),
            ObjAction::Deletion { key, data, index } => apply_remove(project, *key, data),
            ObjAction::Modification { key, old_data, new_data } => apply_set(
                project,
                *key,
                new_data,
            ),
            ObjAction::TransferLayer { layer, old_parent, old_index, new_parent } => apply_transfer(
                project,
                *layer,
                *new_parent,
                usize::MAX,
            ),
        }
    }

    /// Applies the backward effect, reporting whether the graph changed. A
    /// stale or inapplicable action is a benign no-op reporting `false`.
    pub fn backward(&self, project: &mut Project) -> (r: bool)
        requires
            old(project).wf(),
        ensures
            final(project).wf(),
            r == backward_applicable(old(project)@, *self),
            r ==> final(project)@ == backward_t(old(project)@, *self),
            !r ==> final(project)@ == old(project)@,
    {
        match self {
            ObjAction::Addition { key, data } => apply_remove(project, *key, data),
            ObjAction::Deletion { key, data, index } => apply_add(project, *key, data, *index),
            ObjAction::Modification { key, old_data, new_data } => apply_set(
                project,
                *key,
                old_data,
            ),
            ObjAction::TransferLayer { layer, old_parent, old_index, new_parent } => apply_transfer(
                project,
                *layer,
                *old_parent,
                *old_index,
            ),
        }
    }
}

fn apply_add(project: &mut Project, key: u64, data: &ObjData, at: usize) -> (r: bool)
    requires
        old(project).wf(),
    ensures
        final(project).wf(),
        r == addition_applicable(old(project)@, key, *data),
        r ==> final(project)@ == add_t(old(project)@, key, *data, at as int),
        !r ==> final(project)@ == old(project)@,
{
    match data {
        ObjData::Folder(d) => project.insert_folder_at(key, d.clone(), at),
        ObjData::Graphic(d) => project.insert_graphic_at(key, d.clone(), at),
        ObjData::Layer(d) => project.insert_layer_at(key, d.clone(), at),
        ObjData::Frame(d) => project.insert_frame_at(key, *d, at),
        ObjData::Stroke(d) => project.insert_stroke_at(key, d.clone(), at),
        ObjData::Palette(d) => project.insert_palette_at(key, d.clone(), at),
    }
}

fn apply_remove(project: &mut Project, key: u64, data: &ObjData) -> (r: bool)
    requires
        old(project).wf(),
    ensures
        final(project).wf(),
        r == deletion_applicable(old(project)@, key, *data),
        r ==> final(project)@ == remove_t(old(project)@, key, *data),
        !r ==> final(project)@ == old(project)@,
{
    let ghost v0 = old(project)@;
    match data {
        ObjData::Folder(_) => {
            let res = project.remove_folder_empty(key);
            proof {
                if res is Some {
                    let i = res->Some_0.1;
                    assert(count_of(v0.folders[v0.folders[key].data.folder].folders, key) == 1);
                    lemma_key_index(v0.folders[v0.folders[key].data.folder].folders, key, i as int);
                }
            }
            res.is_some()
        },
        ObjData::Graphic(_) => {
            let res = project.remove_graphic_empty(key);
            proof {
                if res is Some {
                    let i = res->Some_0.1;
                    assert(count_of(v0.folders[v0.graphics[key].data.folder].graphics, key) == 1);
                    lemma_key_index(
                        v0.folders[v0.graphics[key].data.folder].graphics,
                        key,
                        i as int,
                    );
                }
            }
            res.is_some()
        },
        ObjData::Layer(_) => {
            let res = project.remove_layer_empty(key);
            proof {
                if res is Some {
                    let i = res->Some_0.1;
                    let list = layer_list_of(v0, v0.layers[key].data.parent);
                    assert(count_of(list, key) == 1) by {
                        match v0.layers[key].data.parent {
                            LayerParent::Graphic(g) => {
                                assert(count_of(v0.graphics[g].layers, key)
                                    == crate::project::layer_in_graphic_expected(v0, g, key));
                            },
                            LayerParent::Layer(p) => {
                                assert(count_of(v0.layers[p].layers, key)
                                    == crate::project::layer_in_layer_expected(v0, p, key));
                            },
                        }
                    }
                    lemma_key_index(list, key, i as int);
                }
            }
            res.is_some()
        },
        ObjData::Frame(_) => {
            let res = project.remove_frame_empty(key);
            proof {
                if res is Some {
                    let i = res->Some_0.1;
                    assert(count_of(v0.layers[v0.frames[key].data.layer].frames, key) == 1);
                    lemma_key_index(v0.layers[v0.frames[key].data.layer].frames, key, i as int);
                }
            }
            res.is_some()
        },
        ObjData::Stroke(_) => {
            let res = project.remove_stroke(key);
            proof {
                if res is Some {
                    let i = res->Some_0.1;
                    assert(count_of(v0.frames[v0.strokes[key].data.frame].strokes, key) == 1);
                    lemma_key_index(v0.frames[v0.strokes[key].data.frame].strokes, key, i as int);
                }
            }
            res.is_some()
        },
        ObjData::Palette(_) => {
            let res = project.remove_palette(key);
            proof {
                if res is Some {
                    let i = res->Some_0.1;
                    assert(count_of(v0.folders[v0.palettes[key].data.folder].palettes, key) == 1);
                    lemma_key_index(
                        v0.folders[v0.palettes[key].data.folder].palettes,
                        key,
                        i as int,
                    );
                }
            }
            res.is_some()
        },
    }
}

fn apply_set(project: &mut Project, key: u64, data: &ObjData) -> (r: bool)
    requires
        old(project).wf(),
    ensures
        final(project).wf(),
        r == modification_applicable(old(project)@, key, *data),
        r ==> final(project)@ == set_t(old(project)@, key, *data),
        !r ==> final(project)@ == old(project)@,
{
    match data {
        ObjData::Folder(d) => project.replace_folder_data(key, d.clone()).is_some(),
        ObjData::Graphic(d) => project.replace_graphic_data(key, d.clone()).is_some(),
        ObjData::Layer(d) => project.replace_layer_data(key, d.clone()).is_some(),
        ObjData::Frame(d) => project.replace_frame_data(key, *d).is_some(),
        ObjData::Stroke(d) => project.replace_stroke_data(key, d.clone()).is_some(),
        ObjData::Palette(d) => project.replace_palette_data(key, d.clone()).is_some(),
    }
}

fn apply_transfer(project: &mut Project, layer: u64, parent: LayerParent, at: usize) -> (r: bool)
    requires
        old(project).wf(),
    ensures
        final(project).wf(),
        r == (old(project)@.layers.contains_key(layer) && parent_live(old(project)@, parent)
            && parent != LayerParent::Layer(layer)),
        r ==> final(project)@ == t_layer_transfer(
            old(project)@,
            layer,
            parent,
            key_index(layer_list_of(old(project)@, old(project)@.layers[layer].data.parent), layer),
            at as int,
        ),
        !r ==> final(project)@ == old(project)@,
{
    let ghost v0 = old(project)@;
    let res = project.transfer_layer_at(layer, parent, at);
    proof {
        if res is Some {
            let op = res->Some_0.0;
            let i = res->Some_0.1;
            let list = layer_list_of(v0, op);
            assert(count_of(list, layer) == 1) by {
                match op {
                    LayerParent::Graphic(g) => {
                        assert(count_of(v0.graphics[g].layers, layer)
                            == crate::project::layer_in_graphic_expected(v0, g, layer));
                    },
                    LayerParent::Layer(p) => {
                        assert(count_of(v0.layers[p].layers, layer)
                            == crate::project::layer_in_layer_expected(v0, p, layer));
                    },
                }
            }
            lemma_key_index(list, layer, i as int);
        }
    }
    res.is_some()
}

/// Whether `act`'s captured values agree with the graph state it is about to
/// be applied to: data captures the object's current field data, recorded
/// positions are the positions actually held. Every action the mutation API
/// returns satisfies this for the state it was recorded in.
pub open spec fn captures_state(v: ProjV, act: ObjAction) -> bool {
    match act {
        ObjAction::Addition { key, data } => true,
        ObjAction::Deletion { key, data, index } => 0 < key < u64::MAX && data_matches(v, key, data)
            && index == current_index(v, key, data),
        ObjAction::Modification { key, old_data, new_data } => data_matches(v, key, old_data)
            && old_data.same_kind(new_data),
        ObjAction::TransferLayer { layer, old_parent, old_index, new_parent } => {
            &&& v.layers.contains_key(layer)
            &&& v.layers[layer].data.parent == old_parent
            &&& old_index == key_index(layer_list_of(v, old_parent), layer)
        },
    }
}

/// Whether the captured data is the current field data of object `key`.
pub open spec fn data_matches(v: ProjV, key: u64, data: ObjData) -> bool {
    match data {
        ObjData::Folder(d) => v.folders.contains_key(key) && d@ == v.folders[key].data,
        ObjData::Graphic(d) => v.graphics.contains_key(key) && d@ == v.graphics[key].data,
        ObjData::Layer(d) => v.layers.contains_key(key) && d@ == v.layers[key].data,
        ObjData::Frame(d) => v.frames.contains_key(key) && d == v.frames[key].data,
        ObjData::Stroke(d) => v.strokes.contains_key(key) && d@ == v.strokes[key].data,
        ObjData::Palette(d) => v.palettes.contains_key(key) && d@ == v.palettes[key].data,
    }
}

proof fn lemma_frame_remove_of_add(v: ProjV, key: u64, d: FrameData, at: int)
    requires
        ownership_ok(v),
        0 <= at,
        0 < key < u64::MAX,
        !v.frames.contains_key(key),
        v.layers.contains_key(d.layer),
    ensures
        ({
            let w = add_t(v, key, ObjData::Frame(d), at);
            &&& deletion_applicable(w, key, ObjData::Frame(d))
            &&& data_matches(w, key, ObjData::Frame(d))
            &&& remove_t(w, key, ObjData::Frame(d)) == v
        }),
{
    let a = clamped(at, v.layers[d.layer].frames.len() as int);
    let w = add_t(v, key, ObjData::Frame(d), at);
    let ll = d.layer;
    let oldlist = v.layers[ll].frames;
    assert(w.layers[ll].frames == oldlist.insert(a, key));
    assert(count_of(oldlist, key) == 0);
    crate::counts::lemma_count_insert(oldlist, a, key, key);
    oldlist.insert_ensures(a, key);
    crate::counts::lemma_key_index(w.layers[ll].frames, key, a);
    crate::counts::lemma_insert_remove(oldlist, a, key);
    let u = remove_t(w, key, ObjData::Frame(d));
    assert(u.frames =~= v.frames);
    assert(w.layers[ll].frames.remove(a) =~= oldlist);
    assert((crate::layer::LayerV {
        frames: w.layers[ll].frames.remove(a),
        ..w.layers[ll]
    }) =~= v.layers[ll]);
    assert(u.layers =~= v.layers);
    assert(u =~~= v);
}

proof fn lemma_frame_add_of_remove(v: ProjV, key: u64, d: FrameData, index: int)
    requires
        ownership_ok(v),
        0 < key < u64::MAX,
        v.frames.contains_key(key),
        v.frames[key].strokes.len() == 0,
        d == v.frames[key].data,
        index == current_index(v, key, ObjData::Frame(d)),
    ensures
        ({
            let w = remove_t(v, key, ObjData::Frame(d));
            &&& addition_applicable(w, key, ObjData::Frame(d))
            &&& add_t(w, key, ObjData::Frame(d), index) == v
        }),
{
    let ll = d.layer;
    let oldlist = v.layers[ll].frames;
    assert(count_of(oldlist, key) == 1);
    let i = crate::counts::lemma_count_position(oldlist, key);
    crate::counts::lemma_key_index(oldlist, key, i);
    assert(index == i);
    let w = remove_t(v, key, ObjData::Frame(d));
    assert(w.layers[ll].frames == oldlist.remove(i));
    oldlist.remove_ensures(i);
    crate::counts::lemma_count_remove(oldlist, i, key);
    assert(!w.frames.contains_key(key));
    assert(w.layers.contains_key(ll));
    assert(addition_applicable(w, key, ObjData::Frame(d)));
    let u = add_t(w, key, ObjData::Frame(d), index);
    assert(0 <= i <= w.layers[ll].frames.len());
    assert(clamped(index, w.layers[ll].frames.len() as int) == i);
    crate::counts::lemma_remove_insert(oldlist, i);
    assert(w.layers[ll].frames.insert(i, key) =~= oldlist);
    assert((crate::frame::FrameV { data: d, strokes: Seq::empty() }) =~= v.frames[key]);
    assert(u.frames =~= v.frames);
    assert((crate::layer::LayerV {
        frames: w.layers[ll].frames.insert(i, key),
        ..w.layers[ll]
    }) =~= v.layers[ll]);
    assert(u.layers =~= v.layers);
    assert(u =~~= v);
}

proof fn lemma_frame_set_set(v: ProjV, key: u64, dold: FrameData, dnew: FrameData)
    requires
        ownership_ok(v),
        v.frames.contains_key(key),
        dold == v.frames[key].data,
        dnew.layer == v.frames[key].data.layer,
    ensures
        ({
            let w = set_t(v, key, ObjData::Frame(dnew));
            &&& modification_applicable(w, key, ObjData::Frame(dold))
            &&& data_matches(w, key, ObjData::Frame(dnew))
            &&& set_t(w, key, ObjData::Frame(dold)) == v
        }),
{
    let w = set_t(v, key, ObjData::Frame(dnew));
    let u = set_t(w, key, ObjData::Frame(dold));
    assert((crate::frame::FrameV { data: dold, strokes: w.frames[key].strokes })
        =~= v.frames[key]);
    assert(u.frames =~= v.frames);
    assert(u =~~= v);
}


proof fn lemma_stroke_remove_of_add(v: ProjV, key: u64, d: StrokeData, at: int)
    requires
        ownership_ok(v),
        0 <= at,
        0 < key < u64::MAX,
        !v.strokes.contains_key(key),
        v.frames.contains_key(d@.frame),
    ensures
        ({
            let w = add_t(v, key, ObjData::Stroke(d), at);
            &&& deletion_applicable(w, key, ObjData::Stroke(d))
            &&& data_matches(w, key, ObjData::Stroke(d))
            &&& remove_t(w, key, ObjData::Stroke(d)) == v
        }),
{
    let a = clamped(at, v.frames[d@.frame].strokes.len() as int);
    let w = add_t(v, key, ObjData::Stroke(d), at);
    let ll = d@.frame;
    let oldlist = v.frames[ll].strokes;
    assert(w.frames[ll].strokes == oldlist.insert(a, key));
    assert(count_of(oldlist, key) == 0);
    crate::counts::lemma_count_insert(oldlist, a, key, key);
    oldlist.insert_ensures(a, key);
    crate::counts::lemma_key_index(w.frames[ll].strokes, key, a);
    crate::counts::lemma_insert_remove(oldlist, a, key);
    let u = remove_t(w, key, ObjData::Stroke(d));
    assert(u.strokes =~= v.strokes);
    assert(w.frames[ll].strokes.remove(a) =~= oldlist);
    assert((crate::frame::FrameV {
        strokes: w.frames[ll].strokes.remove(a),
        ..w.frames[ll]
    }) =~= v.frames[ll]);
    assert(u.frames =~= v.frames);
    assert(u =~~= v);
}

proof fn lemma_stroke_add_of_remove(v: ProjV, key: u64, d: StrokeData, index: int)
    requires
        ownership_ok(v),
        0 < key < u64::MAX,
        v.strokes.contains_key(key),
        
        d@ == v.strokes[key].data,
        index == current_index(v, key, ObjData::Stroke(d)),
    ensures
        ({
            let w = remove_t(v, key, ObjData::Stroke(d));
            &&& addition_applicable(w, key, ObjData::Stroke(d))
            &&& add_t(w, key, ObjData::Stroke(d), index) == v
        }),
{
    let ll = d@.frame;
    let oldlist = v.frames[ll].strokes;
    assert(count_of(oldlist, key) == 1);
    let i = crate::counts::lemma_count_position(oldlist, key);
    crate::counts::lemma_key_index(oldlist, key, i);
    assert(index == i);
    let w = remove_t(v, key, ObjData::Stroke(d));
    assert(w.frames[ll].strokes == oldlist.remove(i));
    oldlist.remove_ensures(i);
    crate::counts::lemma_count_remove(oldlist, i, key);
    assert(!w.strokes.contains_key(key));
    assert(w.frames.contains_key(ll));
    assert(addition_applicable(w, key, ObjData::Stroke(d)));
    let u = add_t(w, key, ObjData::Stroke(d), index);
    assert(0 <= i <= w.frames[ll].strokes.len());
    assert(clamped(index, w.frames[ll].strokes.len() as int) == i);
    crate::counts::lemma_remove_insert(oldlist, i);
    assert(w.frames[ll].strokes.insert(i, key) =~= oldlist);
    assert((crate::stroke::StrokeV { data: d@ }) =~= v.strokes[key]);
    assert(u.strokes =~= v.strokes);
    assert((crate::frame::FrameV {
        strokes: w.frames[ll].strokes.insert(i, key),
        ..w.frames[ll]
    }) =~= v.frames[ll]);
    assert(u.frames =~= v.frames);
    assert(u =~~= v);
}

proof fn lemma_stroke_set_set(v: ProjV, key: u64, dold: StrokeData, dnew: StrokeData)
    requires
        ownership_ok(v),
        v.strokes.contains_key(key),
        dold@ == v.strokes[key].data,
        dnew@.frame == v.strokes[key].data.frame,
    ensures
        ({
            let w = set_t(v, key, ObjData::Stroke(dnew));
            &&& modification_applicable(w, key, ObjData::Stroke(dold))
            &&& data_matches(w, key, ObjData::Stroke(dnew))
            &&& set_t(w, key, ObjData::Stroke(dold)) == v
        }),
{
    let w = set_t(v, key, ObjData::Stroke(dnew));
    let u = set_t(w, key, ObjData::Stroke(dold));
    assert((crate::stroke::StrokeV { data: dold@ }) =~= v.strokes[key]);
    assert(u.strokes =~= v.strokes);
    assert(u =~~= v);
}

proof fn lemma_palette_remove_of_add(v: ProjV, key: u64, d: PaletteData, at: int)
    requires
        ownership_ok(v),
        0 <= at,
        0 < key < u64::MAX,
        !v.palettes.contains_key(key),
        v.folders.contains_key(d@.folder),
    ensures
        ({
            let w = add_t(v, key, ObjData::Palette(d), at);
            &&& deletion_applicable(w, key, ObjData::Palette(d))
            &&& data_matches(w, key, ObjData::Palette(d))
            &&& remove_t(w, key, ObjData::Palette(d)) == v
        }),
{
    let a = clamped(at, v.folders[d@.folder].palettes.len() as int);
    let w = add_t(v, key, ObjData::Palette(d), at);
    let ll = d@.folder;
    let oldlist = v.folders[ll].palettes;
    assert(w.folders[ll].palettes == oldlist.insert(a, key));
    assert(count_of(oldlist, key) == 0);
    crate::counts::lemma_count_insert(oldlist, a, key, key);
    oldlist.insert_ensures(a, key);
    crate::counts::lemma_key_index(w.folders[ll].palettes, key, a);
    crate::counts::lemma_insert_remove(oldlist, a, key);
    let u = remove_t(w, key, ObjData::Palette(d));
    assert(u.palettes =~= v.palettes);
    assert(w.folders[ll].palettes.remove(a) =~= oldlist);
    assert((crate::folder::FolderV {
        palettes: w.folders[ll].palettes.remove(a),
        ..w.folders[ll]
    }) =~= v.folders[ll]);
    assert(u.folders =~= v.folders);
    assert(u =~~= v);
}

proof fn lemma_palette_add_of_remove(v: ProjV, key: u64, d: PaletteData, index: int)
    requires
        ownership_ok(v),
        0 < key < u64::MAX,
        v.palettes.contains_key(key),
        
        d@ == v.palettes[key].data,
        index == current_index(v, key, ObjData::Palette(d)),
    ensures
        ({
            let w = remove_t(v, key, ObjData::Palette(d));
            &&& addition_applicable(w, key, ObjData::Palette(d))
            &&& add_t(w, key, ObjData::Palette(d), index) == v
        }),
{
    let ll = d@.folder;
    let oldlist = v.folders[ll].palettes;
    assert(count_of(oldlist, key) == 1);
    let i = crate::counts::lemma_count_position(oldlist, key);
    crate::counts::lemma_key_index(oldlist, key, i);
    assert(index == i);
    let w = remove_t(v, key, ObjData::Palette(d));
    assert(w.folders[ll].palettes == oldlist.remove(i));
    oldlist.remove_ensures(i);
    crate::counts::lemma_count_remove(oldlist, i, key);
    assert(!w.palettes.contains_key(key));
    assert(w.folders.contains_key(ll));
    assert(addition_applicable(w, key, ObjData::Palette(d)));
    let u = add_t(w, key, ObjData::Palette(d), index);
    assert(0 <= i <= w.folders[ll].palettes.len());
    assert(clamped(index, w.folders[ll].palettes.len() as int) == i);
    crate::counts::lemma_remove_insert(oldlist, i);
    assert(w.folders[ll].palettes.insert(i, key) =~= oldlist);
    assert((crate::palette::PaletteV { data: d@ }) =~= v.palettes[key]);
    assert(u.palettes =~= v.palettes);
    assert((crate::folder::FolderV {
        palettes: w.folders[ll].palettes.insert(i, key),
        ..w.folders[ll]
    }) =~= v.folders[ll]);
    assert(u.folders =~= v.folders);
    assert(u =~~= v);
}

proof fn lemma_palette_set_set(v: ProjV, key: u64, dold: PaletteData, dnew: PaletteData)
    requires
        ownership_ok(v),
        v.palettes.contains_key(key),
        dold@ == v.palettes[key].data,
        dnew@.folder == v.palettes[key].data.folder,
    ensures
        ({
            let w = set_t(v, key, ObjData::Palette(dnew));
            &&& modification_applicable(w, key, ObjData::Palette(dold))
            &&& data_matches(w, key, ObjData::Palette(dnew))
            &&& set_t(w, key, ObjData::Palette(dold)) == v
        }),
{
    let w = set_t(v, key, ObjData::Palette(dnew));
    let u = set_t(w, key, ObjData::Palette(dold));
    assert((crate::palette::PaletteV { data: dold@ }) =~= v.palettes[key]);
    assert(u.palettes =~= v.palettes);
    assert(u =~~= v);
}

proof fn lemma_graphic_remove_of_add(v: ProjV, key: u64, d: GraphicData, at: int)
    requires
        ownership_ok(v),
        0 <= at,
        0 < key < u64::MAX,
        !v.graphics.contains_key(key),
        v.folders.contains_key(d@.folder),
    ensures
        ({
            let w = add_t(v, key, ObjData::Graphic(d), at);
            &&& deletion_applicable(w, key, ObjData::Graphic(d))
            &&& data_matches(w, key, ObjData::Graphic(d))
            &&& remove_t(w, key, ObjData::Graphic(d)) == v
        }),
{
    let a = clamped(at, v.folders[d@.folder].graphics.len() as int);
    let w = add_t(v, key, ObjData::Graphic(d), at);
    let ll = d@.folder;
    let oldlist = v.folders[ll].graphics;
    assert(w.folders[ll].graphics == oldlist.insert(a, key));
    assert(count_of(oldlist, key) == 0);
    crate::counts::lemma_count_insert(oldlist, a, key, key);
    oldlist.insert_ensures(a, key);
    crate::counts::lemma_key_index(w.folders[ll].graphics, key, a);
    crate::counts::lemma_insert_remove(oldlist, a, key);
    let u = remove_t(w, key, ObjData::Graphic(d));
    assert(u.graphics =~= v.graphics);
    assert(w.folders[ll].graphics.remove(a) =~= oldlist);
    assert((crate::folder::FolderV {
        graphics: w.folders[ll].graphics.remove(a),
        ..w.folders[ll]
    }) =~= v.folders[ll]);
    assert(u.folders =~= v.folders);
    assert(u =~~= v);
}

proof fn lemma_graphic_add_of_remove(v: ProjV, key: u64, d: GraphicData, index: int)
    requires
        ownership_ok(v),
        0 < key < u64::MAX,
        v.graphics.contains_key(key),
        v.graphics[key].layers.len() == 0,
        d@ == v.graphics[key].data,
        index == current_index(v, key, ObjData::Graphic(d)),
    ensures
        ({
            let w = remove_t(v, key, ObjData::Graphic(d));
            &&& addition_applicable(w, key, ObjData::Graphic(d))
            &&& add_t(w, key, ObjData::Graphic(d), index) == v
        }),
{
    let ll = d@.folder;
    let oldlist = v.folders[ll].graphics;
    assert(count_of(oldlist, key) == 1);
    let i = crate::counts::lemma_count_position(oldlist, key);
    crate::counts::lemma_key_index(oldlist, key, i);
    assert(index == i);
    let w = remove_t(v, key, ObjData::Graphic(d));
    assert(w.folders[ll].graphics == oldlist.remove(i));
    oldlist.remove_ensures(i);
    crate::counts::lemma_count_remove(oldlist, i, key);
    assert(!w.graphics.contains_key(key));
    assert(w.folders.contains_key(ll));
    assert(addition_applicable(w, key, ObjData::Graphic(d)));
    let u = add_t(w, key, ObjData::Graphic(d), index);
    assert(0 <= i <= w.folders[ll].graphics.len());
    assert(clamped(index, w.folders[ll].graphics.len() as int) == i);
    crate::counts::lemma_remove_insert(oldlist, i);
    assert(w.folders[ll].graphics.insert(i, key) =~= oldlist);
    assert((crate::graphic::GraphicV { data: d@, layers: Seq::empty() }) =~= v.graphics[key]);
    assert(u.graphics =~= v.graphics);
    assert((crate::folder::FolderV {
        graphics: w.folders[ll].graphics.insert(i, key),
        ..w.folders[ll]
    }) =~= v.folders[ll]);
    assert(u.folders =~= v.folders);
    assert(u =~~= v);
}

proof fn lemma_graphic_set_set(v: ProjV, key: u64, dold: GraphicData, dnew: GraphicData)
    requires
        ownership_ok(v),
        v.graphics.contains_key(key),
        dold@ == v.graphics[key].data,
        dnew@.folder == v.graphics[key].data.folder,
    ensures
        ({
            let w = set_t(v, key, ObjData::Graphic(dnew));
            &&& modification_applicable(w, key, ObjData::Graphic(dold))
            &&& data_matches(w, key, ObjData::Graphic(dnew))
            &&& set_t(w, key, ObjData::Graphic(dold)) == v
        }),
{
    let w = set_t(v, key, ObjData::Graphic(dnew));
    let u = set_t(w, key, ObjData::Graphic(dold));
    assert((crate::graphic::GraphicV { data: dold@, layers: w.graphics[key].layers }) =~= v.graphics[key]);
    assert(u.graphics =~= v.graphics);
    assert(u =~~= v);
}


proof fn lemma_folder_remove_of_add(v: ProjV, key: u64, d: FolderData, at: int)
    requires
        ownership_ok(v),
        0 <= at,
        0 < key < u64::MAX,
        !v.folders.contains_key(key),
        v.folders.contains_key(d@.folder),
    ensures
        ({
            let w = add_t(v, key, ObjData::Folder(d), at);
            &&& deletion_applicable(w, key, ObjData::Folder(d))
            &&& data_matches(w, key, ObjData::Folder(d))
            &&& remove_t(w, key, ObjData::Folder(d)) == v
        }),
{
    let pp = d@.folder;
    assert(pp != key);
    assert(key != v.root_folder);
    let oldlist = v.folders[pp].folders;
    let a = clamped(at, oldlist.len() as int);
    let w = add_t(v, key, ObjData::Folder(d), at);
    assert(w.folders[key].data == d@);
    assert(w.folders[pp].folders == oldlist.insert(a, key));
    assert(count_of(oldlist, key) == 0);
    crate::counts::lemma_count_insert(oldlist, a, key, key);
    oldlist.insert_ensures(a, key);
    crate::counts::lemma_key_index(w.folders[pp].folders, key, a);
    crate::counts::lemma_insert_remove(oldlist, a, key);
    let u = remove_t(w, key, ObjData::Folder(d));
    assert((crate::folder::FolderV {
        folders: w.folders[pp].folders.remove(a),
        ..w.folders[pp]
    }) =~= v.folders[pp]);
    assert(u.folders =~= v.folders);
    assert(u =~~= v);
}

proof fn lemma_folder_add_of_remove(v: ProjV, key: u64, d: FolderData, index: int)
    requires
        ownership_ok(v),
        0 < key < u64::MAX,
        v.folders.contains_key(key),
        key != v.root_folder,
        v.folders[key].graphics.len() == 0,
        v.folders[key].palettes.len() == 0,
        v.folders[key].audios.len() == 0,
        v.folders[key].folders.len() == 0,
        d@ == v.folders[key].data,
        index == current_index(v, key, ObjData::Folder(d)),
    ensures
        ({
            let w = remove_t(v, key, ObjData::Folder(d));
            &&& addition_applicable(w, key, ObjData::Folder(d))
            &&& add_t(w, key, ObjData::Folder(d), index) == v
        }),
{
    let pp = d@.folder;
    assert(pp != key);
    let oldlist = v.folders[pp].folders;
    assert(count_of(oldlist, key) == 1);
    let i = crate::counts::lemma_count_position(oldlist, key);
    crate::counts::lemma_key_index(oldlist, key, i);
    assert(index == i);
    let w = remove_t(v, key, ObjData::Folder(d));
    assert(w.folders[pp].folders == oldlist.remove(i));
    oldlist.remove_ensures(i);
    crate::counts::lemma_count_remove(oldlist, i, key);
    crate::counts::lemma_remove_insert(oldlist, i);
    assert(!w.folders.contains_key(key));
    assert(w.folders.contains_key(pp));
    assert(addition_applicable(w, key, ObjData::Folder(d)));
    let u = add_t(w, key, ObjData::Folder(d), index);
    assert(0 <= i <= w.folders[pp].folders.len());
    assert(clamped(index, w.folders[pp].folders.len() as int) == i);
    let w1 = ProjV {
        folders: w.folders.insert(
            key,
            crate::folder::FolderV {
                data: d@,
                graphics: Seq::empty(),
                palettes: Seq::empty(),
                audios: Seq::empty(),
                folders: Seq::empty(),
            },
        ),
        ..w
    };
    assert((crate::folder::FolderV {
        data: d@,
        graphics: Seq::empty(),
        palettes: Seq::empty(),
        audios: Seq::empty(),
        folders: Seq::empty(),
    }) =~= v.folders[key]);
    assert(w1.folders[pp].folders == oldlist.remove(i));
    assert((crate::folder::FolderV {
        folders: w1.folders[pp].folders.insert(i, key),
        ..w1.folders[pp]
    }) =~= v.folders[pp]);
    assert(u.folders =~= v.folders);
    assert(u =~~= v);
}

proof fn lemma_folder_set_set(v: ProjV, key: u64, dold: FolderData, dnew: FolderData)
    requires
        ownership_ok(v),
        v.folders.contains_key(key),
        dold@ == v.folders[key].data,
        dnew@.folder == v.folders[key].data.folder,
    ensures
        ({
            let w = set_t(v, key, ObjData::Folder(dnew));
            &&& modification_applicable(w, key, ObjData::Folder(dold))
            &&& data_matches(w, key, ObjData::Folder(dnew))
            &&& set_t(w, key, ObjData::Folder(dold)) == v
        }),
{
    let w = set_t(v, key, ObjData::Folder(dnew));
    let u = set_t(w, key, ObjData::Folder(dold));
    assert((crate::folder::FolderV { data: dold@, ..w.folders[key] }) =~= v.folders[key]);
    assert(u.folders =~= v.folders);
    assert(u =~~= v);
}

proof fn lemma_layer_remove_of_add(v: ProjV, key: u64, d: LayerData, at: int)
    requires
        ownership_ok(v),
        0 <= at,
        0 < key < u64::MAX,
        !v.layers.contains_key(key),
        parent_live(v, d@.parent),
    ensures
        ({
            let w = add_t(v, key, ObjData::Layer(d), at);
            &&& deletion_applicable(w, key, ObjData::Layer(d))
            &&& data_matches(w, key, ObjData::Layer(d))
            &&& remove_t(w, key, ObjData::Layer(d)) == v
        }),
{
    let p = d@.parent;
    let w = add_t(v, key, ObjData::Layer(d), at);
    let v1 = ProjV {
        layers: v.layers.insert(
            key,
            crate::layer::LayerV { data: d@, frames: Seq::empty(), layers: Seq::empty() },
        ),
        ..v
    };
    let list1 = layer_list_of(v1, p);
    let a = clamped(at, list1.len() as int);
    match p {
        LayerParent::Graphic(g) => {
            assert(list1 == v.graphics[g].layers);
            assert(count_of(list1, key) == 0);
        },
        LayerParent::Layer(l) => {
            assert(l != key);
            assert(list1 == v.layers[l].layers);
            assert(count_of(list1, key) == 0);
        },
    }
    crate::counts::lemma_count_insert(list1, a, key, key);
    list1.insert_ensures(a, key);
    assert(layer_list_of(w, p) == list1.insert(a, key));
    assert(w.layers[key].data == d@);
    crate::counts::lemma_key_index(layer_list_of(w, p), key, a);
    crate::counts::lemma_insert_remove(list1, a, key);
    let u = remove_t(w, key, ObjData::Layer(d));
    match p {
        LayerParent::Graphic(g) => {
            assert((crate::graphic::GraphicV {
                layers: layer_list_of(w, p).remove(a),
                ..w.graphics[g]
            }) =~= v.graphics[g]);
            assert(u.graphics =~= v.graphics);
            assert(u.layers =~= v.layers);
            assert(u =~~= v);
        },
        LayerParent::Layer(l) => {
            assert((crate::layer::LayerV {
                layers: layer_list_of(w, p).remove(a),
                ..w.layers[l]
            }) =~= v.layers[l]);
            assert(u.layers =~= v.layers);
            assert(u =~~= v);
        },
    }
}

proof fn lemma_layer_add_of_remove(v: ProjV, key: u64, d: LayerData, index: int)
    requires
        ownership_ok(v),
        0 < key < u64::MAX,
        v.layers.contains_key(key),
        v.layers[key].frames.len() == 0,
        v.layers[key].layers.len() == 0,
        d@ == v.layers[key].data,
        index == current_index(v, key, ObjData::Layer(d)),
    ensures
        ({
            let w = remove_t(v, key, ObjData::Layer(d));
            &&& addition_applicable(w, key, ObjData::Layer(d))
            &&& add_t(w, key, ObjData::Layer(d), index) == v
        }),
{
    let p = d@.parent;
    let oldlist = layer_list_of(v, p);
    assert(count_of(oldlist, key) == 1) by {
        match p {
            LayerParent::Graphic(g) => {
                assert(count_of(v.graphics[g].layers, key)
                    == crate::project::layer_in_graphic_expected(v, g, key));
            },
            LayerParent::Layer(l) => {
                assert(count_of(v.layers[l].layers, key)
                    == crate::project::layer_in_layer_expected(v, l, key));
            },
        }
    }
    let i = crate::counts::lemma_count_position(oldlist, key);
    crate::counts::lemma_key_index(oldlist, key, i);
    assert(index == i);
    let w = remove_t(v, key, ObjData::Layer(d));
    oldlist.remove_ensures(i);
    crate::counts::lemma_count_remove(oldlist, i, key);
    crate::counts::lemma_remove_insert(oldlist, i);
    match p {
        LayerParent::Graphic(g) => {
            assert(w.graphics[g].layers == oldlist.remove(i));
            assert(!w.layers.contains_key(key));
            assert(parent_live(w, p));
            assert(addition_applicable(w, key, ObjData::Layer(d)));
            let w1 = ProjV {
                layers: w.layers.insert(
                    key,
                    crate::layer::LayerV { data: d@, frames: Seq::empty(), layers: Seq::empty() },
                ),
                ..w
            };
            assert(layer_list_of(w1, p) == oldlist.remove(i));
            assert(clamped(index, oldlist.remove(i).len() as int) == i);
            let u = add_t(w, key, ObjData::Layer(d), index);
            assert((crate::layer::LayerV {
                data: d@,
                frames: Seq::empty(),
                layers: Seq::empty(),
            }) =~= v.layers[key]);
            assert(w1.layers =~= v.layers);
            assert((crate::graphic::GraphicV {
                layers: oldlist.remove(i).insert(i, key),
                ..w1.graphics[g]
            }) =~= v.graphics[g]);
            assert(u.graphics =~= v.graphics);
            assert(u.layers =~= v.layers);
            assert(u =~~= v);
        },
        LayerParent::Layer(l) => {
            assert(l != key);
            assert(w.layers[l].layers == oldlist.remove(i));
            assert(!w.layers.contains_key(key));
            assert(parent_live(w, p));
            assert(addition_applicable(w, key, ObjData::Layer(d)));
            let w1 = ProjV {
                layers: w.layers.insert(
                    key,
                    crate::layer::LayerV { data: d@, frames: Seq::empty(), layers: Seq::empty() },
                ),
                ..w
            };
            assert(layer_list_of(w1, p) == oldlist.remove(i));
            assert(clamped(index, oldlist.remove(i).len() as int) == i);
            let u = add_t(w, key, ObjData::Layer(d), index);
            assert((crate::layer::LayerV {
                data: d@,
                frames: Seq::empty(),
                layers: Seq::empty(),
            }) =~= v.layers[key]);
            assert((crate::layer::LayerV {
                layers: oldlist.remove(i).insert(i, key),
                ..w1.layers[l]
            }) =~= v.layers[l]);
            assert(u.layers =~= v.layers);
            assert(u =~~= v);
        },
    }
}

proof fn lemma_layer_set_set(v: ProjV, key: u64, dold: LayerData, dnew: LayerData)
    requires
        ownership_ok(v),
        v.layers.contains_key(key),
        dold@ == v.layers[key].data,
        dnew@.parent == v.layers[key].data.parent,
    ensures
        ({
            let w = set_t(v, key, ObjData::Layer(dnew));
            &&& modification_applicable(w, key, ObjData::Layer(dold))
            &&& data_matches(w, key, ObjData::Layer(dnew))
            &&& set_t(w, key, ObjData::Layer(dold)) == v
        }),
{
    let w = set_t(v, key, ObjData::Layer(dnew));
    let u = set_t(w, key, ObjData::Layer(dold));
    assert((crate::layer::LayerV { data: dold@, ..w.layers[key] }) =~= v.layers[key]);
    assert(u.layers =~= v.layers);
    assert(u =~~= v);
}

proof fn lemma_layer_transfer_inverse(v: ProjV, key: u64, np: LayerParent, at: int)
    requires
        ownership_ok(v),
        0 <= at,
        v.layers.contains_key(key),
        parent_live(v, np),
        np != LayerParent::Layer(key),
    ensures
        ({
            let op = v.layers[key].data.parent;
            let i = key_index(layer_list_of(v, op), key);
            let w = t_layer_transfer(v, key, np, i, at);
            &&& w.layers.contains_key(key)
            &&& w.layers[key].data.parent == np
            &&& parent_live(w, op)
            &&& op != LayerParent::Layer(key)
            &&& t_layer_transfer(w, key, op, key_index(layer_list_of(w, np), key), i) == v
        }),
{
    let op = v.layers[key].data.parent;
    let oldlist = layer_list_of(v, op);
    assert(count_of(oldlist, key) == 1) by {
        match op {
            LayerParent::Graphic(g) => {
                assert(count_of(v.graphics[g].layers, key)
                    == crate::project::layer_in_graphic_expected(v, g, key));
            },
            LayerParent::Layer(l) => {
                assert(count_of(v.layers[l].layers, key)
                    == crate::project::layer_in_layer_expected(v, l, key));
            },
        }
    }
    let i = crate::counts::lemma_count_position(oldlist, key);
    crate::counts::lemma_key_index(oldlist, key, i);
    oldlist.remove_ensures(i);
    crate::counts::lemma_count_remove(oldlist, i, key);
    crate::counts::lemma_remove_insert(oldlist, i);
    let v1 = crate::layer::with_layer_list(v, op, oldlist.remove(i));
    let v2 = crate::layer::with_layer_parent(v1, key, np);
    let list2 = layer_list_of(v2, np);
    let a2 = clamped(at, list2.len() as int);
    let w = crate::layer::with_layer_list(v2, np, list2.insert(a2, key));
    assert(w == t_layer_transfer(v, key, np, i, at));
    assert(count_of(list2, key) == 0) by {
        match np {
            LayerParent::Graphic(g) => {
                if op == np {
                    crate::counts::lemma_count_remove(oldlist, i, key);
                } else {
                    assert(count_of(v.graphics[g].layers, key)
                        == crate::project::layer_in_graphic_expected(v, g, key));
                    assert(list2 == v.graphics[g].layers);
                }
            },
            LayerParent::Layer(l) => {
                assert(l != key);
                if op == np {
                } else {
                    assert(count_of(v.layers[l].layers, key)
                        == crate::project::layer_in_layer_expected(v, l, key));
                    match op {
                        LayerParent::Layer(l0) => {
                            if l0 == l {
                                assert(op == np);
                            } else {
                                assert(list2 == v.layers[l].layers);
                            }
                        },
                        LayerParent::Graphic(_) => {
                            assert(list2 == v.layers[l].layers);
                        },
                    }
                }
            },
        }
    }
    crate::counts::lemma_count_insert(list2, a2, key, key);
    list2.insert_ensures(a2, key);
    assert(layer_list_of(w, np) == list2.insert(a2, key));
    crate::counts::lemma_key_index(layer_list_of(w, np), key, a2);
    crate::counts::lemma_insert_remove(list2, a2, key);
    assert(w.layers[key].data.parent == np);
    assert(parent_live(w, op)) by {
        match op {
            LayerParent::Graphic(g) => {},
            LayerParent::Layer(l) => {
                assert(l != key);
            },
        }
    }
    let u1 = crate::layer::with_layer_list(w, np, layer_list_of(w, np).remove(a2));
    assert(layer_list_of(w, np).remove(a2) =~= list2);
    let u2 = crate::layer::with_layer_parent(u1, key, op);
    let listu = layer_list_of(u2, op);
    assert(listu =~= oldlist.remove(i)) by {
        match (op, np) {
            (LayerParent::Graphic(g1), LayerParent::Graphic(g2)) => {
                if g1 == g2 {
                    assert(listu == list2);
                } else {
                    assert(listu == v1.graphics[g1].layers);
                }
            },
            (LayerParent::Graphic(g1), LayerParent::Layer(l2)) => {
                assert(listu == v1.graphics[g1].layers);
            },
            (LayerParent::Layer(l1), LayerParent::Graphic(g2)) => {
                assert(listu == v1.layers[l1].layers);
            },
            (LayerParent::Layer(l1), LayerParent::Layer(l2)) => {
                if l1 == l2 {
                    assert(listu == list2);
                } else {
                    assert(listu == v1.layers[l1].layers);
                }
            },
        }
    }
    assert(0 <= i <= listu.len());
    assert(clamped(i, listu.len() as int) == i);
    let u = crate::layer::with_layer_list(u2, op, listu.insert(i, key));
    assert(u == t_layer_transfer(w, key, op, key_index(layer_list_of(w, np), key), i));
    assert(listu.insert(i, key) =~= oldlist) by {
        assert(oldlist.remove(i).insert(i, key) =~= oldlist);
    }
    assert(u.layers =~= v.layers) by {
        match (op, np) {
            (LayerParent::Graphic(g1), LayerParent::Graphic(g2)) => {
                assert(u.layers =~= v.layers);
            },
            (LayerParent::Graphic(g1), LayerParent::Layer(l2)) => {
                assert((crate::layer::LayerV { layers: list2, ..w.layers[l2] })
                    =~= v.layers[l2]);
                assert(u.layers =~= v.layers);
            },
            (LayerParent::Layer(l1), LayerParent::Graphic(g2)) => {
                assert((crate::layer::LayerV {
                    layers: listu.insert(i, key),
                    ..u2.layers[l1]
                }) =~= v.layers[l1]);
                assert(u.layers =~= v.layers);
            },
            (LayerParent::Layer(l1), LayerParent::Layer(l2)) => {
                if l1 == l2 {
                    assert((crate::layer::LayerV {
                        layers: listu.insert(i, key),
                        ..u2.layers[l1]
                    }) =~= v.layers[l1]);
                    assert(u.layers =~= v.layers);
                } else {
                    assert((crate::layer::LayerV { layers: list2, ..w.layers[l2] })
                        =~= v.layers[l2]);
                    assert((crate::layer::LayerV {
                        layers: listu.insert(i, key),
                        ..u2.layers[l1]
                    }) =~= v.layers[l1]);
                    assert(u.layers =~= v.layers);
                }
            },
        }
    }
    assert(u.graphics =~= v.graphics) by {
        match (op, np) {
            (LayerParent::Graphic(g1), LayerParent::Graphic(g2)) => {
                if g1 == g2 {
                    assert((crate::graphic::GraphicV {
                        layers: listu.insert(i, key),
                        ..u2.graphics[g1]
                    }) =~= v.graphics[g1]);
                } else {
                    assert((crate::graphic::GraphicV { layers: list2, ..w.graphics[g2] })
                        =~= v.graphics[g2]);
                    assert((crate::graphic::GraphicV {
                        layers: listu.insert(i, key),
                        ..u2.graphics[g1]
                    }) =~= v.graphics[g1]);
                }
            },
            (LayerParent::Graphic(g1), LayerParent::Layer(l2)) => {
                assert((crate::graphic::GraphicV {
                    layers: listu.insert(i, key),
                    ..u2.graphics[g1]
                }) =~= v.graphics[g1]);
            },
            (LayerParent::Layer(l1), LayerParent::Graphic(g2)) => {
                assert((crate::graphic::GraphicV { layers: list2, ..w.graphics[g2] })
                    =~= v.graphics[g2]);
            },
            (LayerParent::Layer(l1), LayerParent::Layer(l2)) => {},
        }
    }
    assert(u =~~= v);
}

/// A transfer that starts from the position its layer actually holds
/// preserves the ownership invariant.
pub proof fn lemma_transfer_ownership(v: ProjV, key: u64, np: LayerParent, at: int)
    requires
        ownership_ok(v),
        0 <= at,
        v.layers.contains_key(key),
        parent_live(v, np),
        np != LayerParent::Layer(key),
    ensures
        ownership_ok(
            t_layer_transfer(v, key, np, key_index(layer_list_of(v, v.layers[key].data.parent), key), at),
        ),
{
    let op = v.layers[key].data.parent;
    let oldlist = layer_list_of(v, op);
    assert(count_of(oldlist, key) == 1) by {
        match op {
            LayerParent::Graphic(g) => {
                assert(count_of(v.graphics[g].layers, key)
                    == crate::project::layer_in_graphic_expected(v, g, key));
            },
            LayerParent::Layer(l) => {
                assert(count_of(v.layers[l].layers, key)
                    == crate::project::layer_in_layer_expected(v, l, key));
            },
        }
    }
    let i = crate::counts::lemma_count_position(oldlist, key);
    crate::counts::lemma_key_index(oldlist, key, i);
    crate::layer::lemma_layer_detach(v, key, i);
    let v1 = crate::layer::with_layer_list(v, op, oldlist.remove(i));
    assert(v1.layers.contains_key(key)) by {
        match op {
            LayerParent::Graphic(g) => {},
            LayerParent::Layer(l) => {
                assert(l != key);
            },
        }
    }
    crate::layer::lemma_layer_setparent(v1, key, np);
    let v2 = crate::layer::with_layer_parent(v1, key, np);
    let list2 = layer_list_of(v2, np);
    let a2 = clamped(at, list2.len() as int);
    assert(parent_live(v2, np)) by {
        match np {
            LayerParent::Graphic(g) => {},
            LayerParent::Layer(l) => {
                assert(l != key);
            },
        }
    }
    crate::layer::lemma_layer_attach(v2, key, a2);
    assert(t_layer_transfer(v, key, np, i, at) == crate::layer::with_layer_list(
        v2,
        np,
        list2.insert(a2, key),
    ));
}

/// The undo/redo inverse law: for any action whose forward effect applies to
/// a graph state that the action correctly captures, applying backward after
/// forward restores the state exactly, and re-applying forward after that
/// reproduces the forward state.
pub proof fn lemma_action_inverse(v: ProjV, act: ObjAction)
    requires
        ownership_ok(v),
        forward_applicable(v, act),
        captures_state(v, act),
    ensures
        backward_applicable(forward_t(v, act), act),
        backward_t(forward_t(v, act), act) == v,
        forward_applicable(backward_t(forward_t(v, act), act), act),
        forward_t(backward_t(forward_t(v, act), act), act) == forward_t(v, act),
{
    match act {
        ObjAction::Addition { key, data } => {
            match data {
                ObjData::Folder(d) => {
                    lemma_folder_remove_of_add(v, key, d, usize::MAX as int);
                },
                ObjData::Graphic(d) => {
                    lemma_graphic_remove_of_add(v, key, d, usize::MAX as int);
                },
                ObjData::Layer(d) => {
                    lemma_layer_remove_of_add(v, key, d, usize::MAX as int);
                },
                ObjData::Frame(d) => {
                    lemma_frame_remove_of_add(v, key, d, usize::MAX as int);
                },
                ObjData::Stroke(d) => {
                    lemma_stroke_remove_of_add(v, key, d, usize::MAX as int);
                },
                ObjData::Palette(d) => {
                    lemma_palette_remove_of_add(v, key, d, usize::MAX as int);
                },
            }
        },
        ObjAction::Deletion { key, data, index } => {
            match data {
                ObjData::Folder(d) => {
                    lemma_folder_add_of_remove(v, key, d, index as int);
                },
                ObjData::Graphic(d) => {
                    lemma_graphic_add_of_remove(v, key, d, index as int);
                },
                ObjData::Layer(d) => {
                    lemma_layer_add_of_remove(v, key, d, index as int);
                },
                ObjData::Frame(d) => {
                    lemma_frame_add_of_remove(v, key, d, index as int);
                },
                ObjData::Stroke(d) => {
                    lemma_stroke_add_of_remove(v, key, d, index as int);
                },
                ObjData::Palette(d) => {
                    lemma_palette_add_of_remove(v, key, d, index as int);
                },
            }
        },
        ObjAction::Modification { key, old_data, new_data } => {
            match (old_data, new_data) {
                (ObjData::Folder(dold), ObjData::Folder(dnew)) => {
                    lemma_folder_set_set(v, key, dold, dnew);
                },
                (ObjData::Graphic(dold), ObjData::Graphic(dnew)) => {
                    lemma_graphic_set_set(v, key, dold, dnew);
                },
                (ObjData::Layer(dold), ObjData::Layer(dnew)) => {
                    lemma_layer_set_set(v, key, dold, dnew);
                },
                (ObjData::Frame(dold), ObjData::Frame(dnew)) => {
                    lemma_frame_set_set(v, key, dold, dnew);
                },
                (ObjData::Stroke(dold), ObjData::Stroke(dnew)) => {
                    lemma_stroke_set_set(v, key, dold, dnew);
                },
                (ObjData::Palette(dold), ObjData::Palette(dnew)) => {
                    lemma_palette_set_set(v, key, dold, dnew);
                },
                _ => {
                    assert(false);
                },
            }
        },
        ObjAction::TransferLayer { layer, old_parent, old_index, new_parent } => {
            assert(old_parent != LayerParent::Layer(layer));
            lemma_layer_transfer_inverse(v, layer, new_parent, usize::MAX as int);
            lemma_transfer_ownership(v, layer, new_parent, usize::MAX as int);
            let w = forward_t(v, act);
            lemma_layer_transfer_inverse(w, layer, old_parent, old_index as int);
        },
    }
}

/// One applied effect: the state change if the effect is applicable, the
/// same state otherwise (a benign no-op).
pub open spec fn forward_step(v: ProjV, act: ObjAction) -> ProjV {
    if forward_applicable(v, act) {
        forward_t(v, act)
    } else {
        v
    }
}

pub open spec fn backward_step(v: ProjV, act: ObjAction) -> ProjV {
    if backward_applicable(v, act) {
        backward_t(v, act)
    } else {
        v
    }
}

/// Applying the forward effects of a list of actions, first to last.
pub open spec fn forward_all_t(v: ProjV, acts: Seq<ObjAction>) -> ProjV
    decreases acts.len(),
{
    if acts.len() == 0 {
        v
    } else {
        forward_all_t(forward_step(v, acts.first()), acts.drop_first())
    }
}

/// Applying the backward effects of a list of actions, last to first: the
/// undo order of one composite edit.
pub open spec fn backward_all_t(v: ProjV, acts: Seq<ObjAction>) -> ProjV
    decreases acts.len(),
{
    if acts.len() == 0 {
        v
    } else {
        backward_all_t(backward_step(v, acts.last()), acts.drop_last())
    }
}

/// Whether every action in the list is applicable and correctly captures the
/// state it meets when the list is applied first to last.
pub open spec fn chain_ok(v: ProjV, acts: Seq<ObjAction>) -> bool
    decreases acts.len(),
{
    acts.len() == 0 || (forward_applicable(v, acts.first()) && captures_state(v, acts.first())
        && chain_ok(forward_t(v, acts.first()), acts.drop_first()))
}

/// An applicable forward effect preserves the ownership invariant.
pub proof fn lemma_forward_ownership(v: ProjV, act: ObjAction)
    requires
        ownership_ok(v),
        forward_applicable(v, act),
    ensures
        ownership_ok(forward_t(v, act)),
{
    match act {
        ObjAction::Addition { key, data } => {
            match data {
                ObjData::Folder(d) => {
                    crate::folder::lemma_folder_insert_ok(
                        v,
                        key,
                        d@,
                        clamped(usize::MAX as int, v.folders[d@.folder].folders.len() as int),
                    );
                },
                ObjData::Graphic(d) => {
                    crate::graphic::lemma_graphic_insert_ok(
                        v,
                        key,
                        d@,
                        clamped(usize::MAX as int, v.folders[d@.folder].graphics.len() as int),
                    );
                },
                ObjData::Layer(d) => {
                    crate::layer::lemma_layer_fresh_unowned(v, key, d@);
                    let v1 = ProjV {
                        layers: v.layers.insert(
                            key,
                            crate::layer::LayerV {
                                data: d@,
                                frames: Seq::empty(),
                                layers: Seq::empty(),
                            },
                        ),
                        ..v
                    };
                    let list = layer_list_of(v1, d@.parent);
                    crate::layer::lemma_layer_attach(
                        v1,
                        key,
                        clamped(usize::MAX as int, list.len() as int),
                    );
                },
                ObjData::Frame(d) => {
                    crate::frame::lemma_frame_insert_ok(
                        v,
                        key,
                        d,
                        clamped(usize::MAX as int, v.layers[d.layer].frames.len() as int),
                    );
                },
                ObjData::Stroke(d) => {
                    crate::stroke::lemma_stroke_insert_ok(
                        v,
                        key,
                        d@,
                        clamped(usize::MAX as int, v.frames[d@.frame].strokes.len() as int),
                    );
                },
                ObjData::Palette(d) => {
                    crate::palette::lemma_palette_insert_ok(
                        v,
                        key,
                        d@,
                        clamped(usize::MAX as int, v.folders[d@.folder].palettes.len() as int),
                    );
                },
            }
        },
        ObjAction::Deletion { key, data, index } => {
            lemma_remove_ownership(v, key, data);
        },
        ObjAction::Modification { key, old_data, new_data } => {
            match new_data {
                ObjData::Folder(d) => {
                    crate::folder::lemma_folder_set_ok(v, key, d@);
                },
                ObjData::Graphic(d) => {
                    crate::graphic::lemma_graphic_set_ok(v, key, d@);
                },
                ObjData::Layer(d) => {
                    crate::layer::lemma_layer_set_ok(v, key, d@);
                },
                ObjData::Frame(d) => {
                    crate::frame::lemma_frame_set_ok(v, key, d);
                },
                ObjData::Stroke(d) => {
                    crate::stroke::lemma_stroke_set_ok(v, key, d@);
                },
                ObjData::Palette(d) => {
                    crate::palette::lemma_palette_set_ok(v, key, d@);
                },
            }
        },
        ObjAction::TransferLayer { layer, old_parent, old_index, new_parent } => {
            lemma_transfer_ownership(v, layer, new_parent, usize::MAX as int);
        },
    }
}

/// An applicable removal preserves the ownership invariant.
proof fn lemma_remove_ownership(v: ProjV, key: u64, data: ObjData)
    requires
        ownership_ok(v),
        deletion_applicable(v, key, data),
    ensures
        ownership_ok(remove_t(v, key, data)),
{
    match data {
        ObjData::Folder(_) => {
            let list = v.folders[v.folders[key].data.folder].folders;
            assert(count_of(list, key) == 1);
            let i = crate::counts::lemma_count_position(list, key);
            crate::counts::lemma_key_index(list, key, i);
            crate::folder::lemma_folder_remove_ok(v, key, i);
        },
        ObjData::Graphic(_) => {
            let list = v.folders[v.graphics[key].data.folder].graphics;
            assert(count_of(list, key) == 1);
            let i = crate::counts::lemma_count_position(list, key);
            crate::counts::lemma_key_index(list, key, i);
            crate::graphic::lemma_graphic_remove_ok(v, key, i);
        },
        ObjData::Layer(_) => {
            let op = v.layers[key].data.parent;
            let list = layer_list_of(v, op);
            assert(count_of(list, key) == 1) by {
                match op {
                    LayerParent::Graphic(g) => {
                        assert(count_of(v.graphics[g].layers, key)
                            == crate::project::layer_in_graphic_expected(v, g, key));
                    },
                    LayerParent::Layer(p) => {
                        assert(count_of(v.layers[p].layers, key)
                            == crate::project::layer_in_layer_expected(v, p, key));
                    },
                }
            }
            let i = crate::counts::lemma_count_position(list, key);
            crate::counts::lemma_key_index(list, key, i);
            crate::layer::lemma_layer_detach(v, key, i);
            let v1 = crate::layer::with_layer_list(v, op, list.remove(i));
            assert(v1.layers.contains_key(key)) by {
                match op {
                    LayerParent::Graphic(g) => {},
                    LayerParent::Layer(l) => {
                        assert(l != key);
                    },
                }
            }
            crate::layer::lemma_layer_drop_unowned(v1, key);
        },
        ObjData::Frame(_) => {
            let list = v.layers[v.frames[key].data.layer].frames;
            assert(count_of(list, key) == 1);
            let i = crate::counts::lemma_count_position(list, key);
            crate::counts::lemma_key_index(list, key, i);
            crate::frame::lemma_frame_remove_ok(v, key, i);
        },
        ObjData::Stroke(_) => {
            let list = v.frames[v.strokes[key].data.frame].strokes;
            assert(count_of(list, key) == 1);
            let i = crate::counts::lemma_count_position(list, key);
            crate::counts::lemma_key_index(list, key, i);
            crate::stroke::lemma_stroke_remove_ok(v, key, i);
        },
        ObjData::Palette(_) => {
            let list = v.folders[v.palettes[key].data.folder].palettes;
            assert(count_of(list, key) == 1);
            let i = crate::counts::lemma_count_position(list, key);
            crate::counts::lemma_key_index(list, key, i);
            crate::palette::lemma_palette_remove_ok(v, key, i);
        },
    }
}

proof fn lemma_backward_all_unfold_first(z: ProjV, a: ObjAction, rest: Seq<ObjAction>)
    ensures
        backward_all_t(z, seq![a] + rest) == backward_step(backward_all_t(z, rest), a),
    decreases rest.len(),
{
    let s = seq![a] + rest;
    if rest.len() == 0 {
        assert(s.len() == 1);
        assert(s.last() == a);
        assert(s.drop_last() =~= Seq::<ObjAction>::empty());
        assert(backward_all_t(z, s) == backward_all_t(backward_step(z, a), s.drop_last()));
        assert(backward_all_t(backward_step(z, a), s.drop_last()) == backward_step(z, a));
        assert(backward_all_t(z, rest) == z);
    } else {
        assert(s.last() == rest.last());
        assert(s.drop_last() =~= seq![a] + rest.drop_last());
        lemma_backward_all_unfold_first(backward_step(z, rest.last()), a, rest.drop_last());
        assert(backward_all_t(z, s) == backward_all_t(backward_step(z, rest.last()), s.drop_last()));
        assert(backward_all_t(backward_step(z, rest.last()), seq![a] + rest.drop_last())
            == backward_step(backward_all_t(backward_step(z, rest.last()), rest.drop_last()), a));
        assert(backward_all_t(z, rest) == backward_all_t(
            backward_step(z, rest.last()),
            rest.drop_last(),
        ));
    }
}

/// Undo/redo inverse law for one composite edit: applying every forward
/// effect first to last and then every backward effect last to first
/// restores the starting state, provided each action applies to and captures
/// the state it meets.
pub proof fn lemma_chain_inverse(v: ProjV, acts: Seq<ObjAction>)
    requires
        ownership_ok(v),
        chain_ok(v, acts),
    ensures
        backward_all_t(forward_all_t(v, acts), acts) == v,
        ownership_ok(forward_all_t(v, acts)),
    decreases acts.len(),
{
    if acts.len() > 0 {
        let a = acts.first();
        let rest = acts.drop_first();
        let w1 = forward_t(v, a);
        lemma_forward_ownership(v, a);
        lemma_chain_inverse(w1, rest);
        assert(forward_all_t(v, acts) == forward_all_t(w1, rest));
        assert(backward_all_t(forward_all_t(w1, rest), rest) == w1);
        assert(acts =~= seq![a] + rest);
        lemma_backward_all_unfold_first(forward_all_t(w1, rest), a, rest);
        lemma_action_inverse(v, a);
        assert(backward_step(w1, a) == v);
        assert(backward_all_t(forward_all_t(v, acts), acts) == backward_step(
            backward_all_t(forward_all_t(w1, rest), rest),
            a,
        ));
    }
}

/// One undoable edit: the list of primitive actions of one composite
/// operation, applied first to last on redo and last to first on undo.
pub struct Action {
    pub acts: Vec<ObjAction>,
}

impl View for Action {
    type V = Seq<ObjAction>;

    open spec fn view(&self) -> Seq<ObjAction> {
        self.acts@
    }
}

impl DeepView for Action {
    type V = Seq<ObjAction>;

    open spec fn deep_view(&self) -> Seq<ObjAction> {
        self.acts@
    }
}

impl Action {
    pub fn new() -> (r: Action)
        ensures
            r@ =~= Seq::<ObjAction>::empty(),
    {
        Action { acts: Vec::new() }
    }

    pub fn single(act: ObjAction) -> (r: Action)
        ensures
            r@ =~= seq![act],
    {
        let mut acts = Vec::new();
        acts.push(act);
        Action { acts }
    }

    pub fn from_list(acts: Vec<ObjAction>) -> (r: Action)
        ensures
            r@ == acts@,
    {
        Action { acts }
    }

    /// Redo: applies every forward effect, first to last.
    pub fn redo(&self, project: &mut Project) -> (r: bool)
        requires
            old(project).wf(),
        ensures
            final(project).wf(),
            final(project)@ == forward_all_t(old(project)@, self@),
    {
        let ghost v0 = old(project)@;
        proof {
            assert(self@.skip(0) =~= self@);
        }
        let mut i: usize = 0;
        let n = self.acts.len();
        let mut any = false;
        while i < n
            invariant
                project.wf(),
                n == self@.len(),
                0 <= i <= n,
                forward_all_t(project@, self@.skip(i as int)) == forward_all_t(v0, self@),
            decreases n - i,
        {
            proof {
                assert(self@.skip(i as int).first() == self@[i as int]);
                assert(self@.skip(i as int).drop_first() =~= self@.skip(i as int + 1));
            }
            let applied = self.acts[i].forward(project);
            any = any || applied;
            i = i + 1;
        }
        proof {
            assert(self@.skip(n as int) =~= Seq::<ObjAction>::empty());
        }
        any
    }

    /// Undo: applies every backward effect, last to first.
    pub fn undo(&self, project: &mut Project) -> (r: bool)
        requires
            old(project).wf(),
        ensures
            final(project).wf(),
            final(project)@ == backward_all_t(old(project)@, self@),
    {
        let ghost v0 = old(project)@;
        proof {
            assert(self@.take(self@.len() as int) =~= self@);
        }
        let mut i = self.acts.len();
        let mut any = false;
        while i > 0
            invariant
                project.wf(),
                0 <= i <= self@.len(),
                backward_all_t(project@, self@.take(i as int)) == backward_all_t(v0, self@),
            decreases i,
        {
            i = i - 1;
            proof {
                assert(self@.take(i as int + 1).last() == self@[i as int]);
                assert(self@.take(i as int + 1).drop_last() =~= self@.take(i as int));
            }
            let applied = self.acts[i].backward(project);
            any = any || applied;
        }
        proof {
            assert(self@.take(0) =~= Seq::<ObjAction>::empty());
        }
        any
    }
}

/// The history manager: two stacks. Recording pushes onto the undo stack and
/// clears the redo stack; undo pops, applies backward and pushes onto redo;
/// redo pops, applies forward and pushes back. No coalescing: every recorded
/// edit is one history entry.
pub struct ActionManager {
    undo_stack: Vec<Action>,
    redo_stack: Vec<Action>,
}

impl ActionManager {
    pub closed spec fn undo_spec(self) -> Seq<Seq<ObjAction>> {
        self.undo_stack.deep_view()
    }

    pub closed spec fn redo_spec(self) -> Seq<Seq<ObjAction>> {
        self.redo_stack.deep_view()
    }

    pub fn new() -> (r: ActionManager)
        ensures
            r.undo_spec() =~= Seq::<Seq<ObjAction>>::empty(),
            r.redo_spec() =~= Seq::<Seq<ObjAction>>::empty(),
    {
        ActionManager { undo_stack: Vec::new(), redo_stack: Vec::new() }
    }

    pub fn can_undo(&self) -> (r: bool)
        ensures
            r == (self.undo_spec().len() > 0),
    {
        self.undo_stack.len() > 0
    }

    pub fn can_redo(&self) -> (r: bool)
        ensures
            r == (self.redo_spec().len() > 0),
    {
        self.redo_stack.len() > 0
    }

    /// Records a new edit: pushes it onto the undo stack and clears the redo
    /// stack.
    pub fn add(&mut self, action: Action)
        ensures
            final(self).undo_spec() =~= old(self).undo_spec().push(action@),
            final(self).redo_spec() =~= Seq::<Seq<ObjAction>>::empty(),
    {
        self.undo_stack.push(action);
        self.redo_stack.clear();
        proof {
            assert(self.undo_stack@.drop_last() =~= old(self).undo_stack@);
            assert(self.undo_stack.deep_view().drop_last() =~= old(self).undo_stack.deep_view());
            assert(self.undo_stack.deep_view() =~= old(self).undo_stack.deep_view().push(
                self.undo_stack@.last()@,
            ));
        }
    }

    /// Undo: pops the most recent edit, applies its backward effects last to
    /// first, and pushes it onto the redo stack. With an empty undo stack the
    /// graph is untouched and the call reports failure.
    pub fn undo(&mut self, project: &mut Project) -> (r: bool)
        requires
            old(project).wf(),
        ensures
            final(project).wf(),
            r == (old(self).undo_spec().len() > 0),
            r ==> {
                &&& final(project)@ == backward_all_t(
                    old(project)@,
                    old(self).undo_spec().last(),
                )
                &&& final(self).undo_spec() =~= old(self).undo_spec().drop_last()
                &&& final(self).redo_spec() =~= old(self).redo_spec().push(
                    old(self).undo_spec().last(),
                )
            },
            !r ==> final(project)@ == old(project)@ && final(self).undo_spec() == old(
                self,
            ).undo_spec() && final(self).redo_spec() == old(self).redo_spec(),
    {
        let action = match self.undo_stack.pop() {
            Some(a) => a,
            None => {
                return false;
            },
        };
        proof {
            assert(action@ == old(self).undo_spec().last());
        }
        action.undo(project);
        self.redo_stack.push(action);
        proof {
            assert(self.redo_stack@.drop_last() =~= old(self).redo_stack@);
            assert(self.redo_stack.deep_view().drop_last() =~= old(self).redo_stack.deep_view());
            assert(self.redo_stack.deep_view() =~= old(self).redo_stack.deep_view().push(
                old(self).undo_stack@.last()@,
            ));
            assert(self.undo_stack.deep_view() =~= old(self).undo_stack.deep_view().drop_last());
        }
        true
    }

    /// Redo: pops the most recently undone edit, applies its forward effects
    /// first to last, and pushes it back onto the undo stack.
    pub fn redo(&mut self, project: &mut Project) -> (r: bool)
        requires
            old(project).wf(),
        ensures
            final(project).wf(),
            r == (old(self).redo_spec().len() > 0),
            r ==> {
                &&& final(project)@ == forward_all_t(old(project)@, old(self).redo_spec().last())
                &&& final(self).redo_spec() =~= old(self).redo_spec().drop_last()
                &&& final(self).undo_spec() =~= old(self).undo_spec().push(
                    old(self).redo_spec().last(),
                )
            },
            !r ==> final(project)@ == old(project)@ && final(self).undo_spec() == old(
                self,
            ).undo_spec() && final(self).redo_spec() == old(self).redo_spec(),
    {
        let action = match self.redo_stack.pop() {
            Some(a) => a,
            None => {
                return false;
            },
        };
        proof {
            assert(action@ == old(self).redo_spec().last());
        }
        action.redo(project);
        self.undo_stack.push(action);
        proof {
            assert(self.undo_stack@.drop_last() =~= old(self).undo_stack@);
            assert(self.undo_stack.deep_view().drop_last() =~= old(self).undo_stack.deep_view());
            assert(self.undo_stack.deep_view() =~= old(self).undo_stack.deep_view().push(
                old(self).redo_stack@.last()@,
            ));
            assert(self.redo_stack.deep_view() =~= old(self).redo_stack.deep_view().drop_last());
        }
        true
    }
}

proof fn lemma_forward_all_snoc(v: ProjV, s: Seq<ObjAction>, a: ObjAction)
    ensures
        forward_all_t(v, s.push(a)) == forward_step(forward_all_t(v, s), a),
    decreases s.len(),
{
    if s.len() == 0 {
        assert(s.push(a).first() == a);
        assert(s.push(a).drop_first() =~= Seq::<ObjAction>::empty());
        assert(forward_all_t(v, s.push(a)) == forward_all_t(
            forward_step(v, a),
            Seq::<ObjAction>::empty(),
        ));
        assert(forward_all_t(v, s) == v);
    } else {
        assert(s.push(a).first() == s.first());
        assert(s.push(a).drop_first() =~= s.drop_first().push(a));
        lemma_forward_all_snoc(forward_step(v, s.first()), s.drop_first(), a);
        assert(forward_all_t(v, s.push(a)) == forward_all_t(
            forward_step(v, s.first()),
            s.drop_first().push(a),
        ));
        assert(forward_all_t(v, s) == forward_all_t(forward_step(v, s.first()), s.drop_first()));
    }
}

proof fn lemma_chain_ok_snoc(v: ProjV, s: Seq<ObjAction>, a: ObjAction)
    requires
        chain_ok(v, s),
        forward_applicable(forward_all_t(v, s), a),
        captures_state(forward_all_t(v, s), a),
    ensures
        chain_ok(v, s.push(a)),
    decreases s.len(),
{
    if s.len() == 0 {
        assert(s.push(a).first() == a);
        assert(s.push(a).drop_first() =~= Seq::<ObjAction>::empty());
        assert(chain_ok(forward_t(v, a), Seq::<ObjAction>::empty()));
    } else {
        assert(s.push(a).first() == s.first());
        assert(s.push(a).drop_first() =~= s.drop_first().push(a));
        assert(forward_all_t(v, s) == forward_all_t(forward_step(v, s.first()), s.drop_first()));
        lemma_chain_ok_snoc(forward_t(v, s.first()), s.drop_first(), a);
    }
}

/// Cascade completeness, undo half: an action chain recorded against a graph
/// state restores that state exactly when undone, last action first.
pub proof fn lemma_cascade_restores(v: ProjV, w: ProjV, acts: Seq<ObjAction>)
    requires
        ownership_ok(v),
        chain_ok(v, acts),
        w == forward_all_t(v, acts),
    ensures
        backward_all_t(w, acts) == v,
{
    lemma_chain_inverse(v, acts);
}

impl Project {
    /// Adds a frame under a freshly allocated identifier at the given time,
    /// appended to the layer's frame list, and returns its handle together
    /// with the action that journals the edit. A stale layer handle returns
    /// `None` and leaves the graph unchanged (the allocator still advances).
    pub fn add_frame(&mut self, layer: ObjPtr<crate::layer::Layer>, time: i32) -> (r: Option<
        (ObjPtr<crate::frame::Frame>, ObjAction),
    >)
        requires
            old(self).wf(),
            old(self).frames.next_key_spec() < u64::MAX,
        ensures
            final(self).wf(),
            match r {
                Some((ptr, act)) => {
                    &&& old(self)@.layers.contains_key(layer.key)
                    &&& ptr.key == old(self).frames.next_key_spec()
                    &&& !old(self)@.frames.contains_key(ptr.key)
                    &&& act == (ObjAction::Addition {
                        key: ptr.key,
                        data: ObjData::Frame(
                            crate::frame::FrameData { time, layer: layer.key },
                        ),
                    })
                    &&& forward_applicable(old(self)@, act)
                    &&& captures_state(old(self)@, act)
                    &&& final(self)@ == forward_t(old(self)@, act)
                },
                None => !old(self)@.layers.contains_key(layer.key) && final(self)@ == old(
                    self,
                )@,
            },
            r is None ==> final(self).frames.next_key_spec() == old(
                self,
            ).frames.next_key_spec() + 1,
    {
        let key = self.frames.next_key();
        self.add_frame_with_key(key, layer, time)
    }

    /// Adds a frame under a caller-chosen identifier, appended to the
    /// layer's frame list. Used by the loader to preserve on-disk
    /// identities. A claimed identifier or a stale layer handle returns
    /// `None` and leaves the graph unchanged.
    pub fn add_frame_with_key(
        &mut self,
        key: u64,
        layer: ObjPtr<crate::layer::Layer>,
        time: i32,
    ) -> (r: Option<(ObjPtr<crate::frame::Frame>, ObjAction)>)
        requires
            old(self).wf(),
        ensures
            final(self).wf(),
            match r {
                Some((ptr, act)) => {
                    &&& ptr.key == key
                    &&& act == (ObjAction::Addition {
                        key,
                        data: ObjData::Frame(
                            crate::frame::FrameData { time, layer: layer.key },
                        ),
                    })
                    &&& forward_applicable(old(self)@, act)
                    &&& captures_state(old(self)@, act)
                    &&& final(self)@ == forward_t(old(self)@, act)
                },
                None => {
                    &&& !(0 < key < u64::MAX && !old(self)@.frames.contains_key(key) && old(
                        self,
                    )@.layers.contains_key(layer.key))
                    &&& final(self)@ == old(self)@
                    &&& final(self).frames.next_key_spec() == old(
                        self,
                    ).frames.next_key_spec()
                },
            },
    {
        let data = crate::frame::FrameData { time, layer: layer.key };
        if self.insert_frame_at(key, data, usize::MAX) {
            Some((
                ObjPtr::from_key(key),
                ObjAction::Addition { key, data: ObjData::Frame(data) },
            ))
        } else {
            None
        }
    }

    /// Overwrites a frame's field data and returns the action that journals
    /// the edit: forward re-applies the new data, backward the captured
    /// prior data. A stale handle, or data that names another parent layer,
    /// returns `None` and leaves the graph unchanged.
    pub fn set_frame_data(
        &mut self,
        key: ObjPtr<crate::frame::Frame>,
        data: crate::frame::FrameData,
    ) -> (r: Option<ObjAction>)
        requires
            old(self).wf(),
        ensures
            final(self).wf(),
            match r {
                Some(act) => {
                    &&& old(self)@.frames.contains_key(key.key)
                    &&& act == (ObjAction::Modification {
                        key: key.key,
                        old_data: ObjData::Frame(old(self)@.frames[key.key].data),
                        new_data: ObjData::Frame(data),
                    })
                    &&& forward_applicable(old(self)@, act)
                    &&& captures_state(old(self)@, act)
                    &&& final(self)@ == forward_t(old(self)@, act)
                },
                None => {
                    &&& final(self)@ == old(self)@
                    &&& !(old(self)@.frames.contains_key(key.key) && data.layer == old(
                        self,
                    )@.frames[key.key].data.layer)
                },
            },
    {
        match self.replace_frame_data(key.key, data) {
            Some(prior) => Some(
                ObjAction::Modification {
                    key: key.key,
                    old_data: ObjData::Frame(prior),
                    new_data: ObjData::Frame(data),
                },
            ),
            None => None,
        }
    }

    /// Adds a stroke under a freshly allocated identifier, appended to its
    /// frame's stroke list, and returns its handle together with the action
    /// that journals the edit.
    pub fn add_stroke(&mut self, data: crate::stroke::StrokeData) -> (r: Option<
        (ObjPtr<crate::stroke::Stroke>, ObjAction),
    >)
        requires
            old(self).wf(),
            old(self).strokes.next_key_spec() < u64::MAX,
        ensures
            final(self).wf(),
            match r {
                Some((ptr, act)) => {
                    &&& ptr.key == old(self).strokes.next_key_spec()
                    &&& act == (ObjAction::Addition { key: ptr.key, data: ObjData::Stroke(
                        act->Addition_data->Stroke_0,
                    ) })
                    &&& act->Addition_data->Stroke_0@ == data@
                    &&& forward_applicable(old(self)@, act)
                    &&& captures_state(old(self)@, act)
                    &&& final(self)@ == forward_t(old(self)@, act)
                },
                None => !old(self)@.frames.contains_key(data@.frame) && final(self)@ == old(
                    self,
                )@,
            },
    {
        let key = self.strokes.next_key();
        let act_data = data.clone();
        if self.insert_stroke_at(key, data, usize::MAX) {
            proof {
                assert(forward_t(
                    old(self)@,
                    ObjAction::Addition { key, data: ObjData::Stroke(act_data) },
                ) =~~= self@);
            }
            Some((
                ObjPtr::from_key(key),
                ObjAction::Addition { key, data: ObjData::Stroke(act_data) },
            ))
        } else {
            None
        }
    }

    /// Overwrites a stroke's field data and returns the journaling action. A
    /// stale handle, or data that names another parent frame, returns `None`
    /// and leaves the graph unchanged.
    pub fn set_stroke_data(
        &mut self,
        key: ObjPtr<crate::stroke::Stroke>,
        data: crate::stroke::StrokeData,
    ) -> (r: Option<ObjAction>)
        requires
            old(self).wf(),
        ensures
            final(self).wf(),
            match r {
                Some(act) => {
                    &&& old(self)@.strokes.contains_key(key.key)
                    &&& act is Modification
                    &&& act->Modification_key == key.key
                    &&& act->Modification_old_data->Stroke_0@ == old(self)@.strokes[key.key].data
                    &&& act->Modification_new_data->Stroke_0@ == data@
                    &&& forward_applicable(old(self)@, act)
                    &&& captures_state(old(self)@, act)
                    &&& final(self)@ == forward_t(old(self)@, act)
                },
                None => {
                    &&& final(self)@ == old(self)@
                    &&& !(old(self)@.strokes.contains_key(key.key) && data@.frame == old(
                        self,
                    )@.strokes[key.key].data.frame)
                },
            },
    {
        let act_data = data.clone();
        match self.replace_stroke_data(key.key, data) {
            Some(prior) => {
                let act = ObjAction::Modification {
                    key: key.key,
                    old_data: ObjData::Stroke(prior),
                    new_data: ObjData::Stroke(act_data),
                };
                proof {
                    assert(forward_t(old(self)@, act) =~~= self@);
                }
                Some(act)
            },
            None => None,
        }
    }

    /// Deletes a stroke, producing the single-step action list that journals
    /// the cascade (a stroke owns nothing, so the list has one entry).
    pub fn delete_stroke(&mut self, key: ObjPtr<crate::stroke::Stroke>) -> (r: Option<
        Vec<ObjAction>,
    >)
        requires
            old(self).wf(),
        ensures
            final(self).wf(),
            match r {
                Some(acts) => {
                    &&& old(self)@.strokes.contains_key(key.key)
                    &&& acts@.len() == 1
                    &&& chain_ok(old(self)@, acts@)
                    &&& final(self)@ == forward_all_t(old(self)@, acts@)
                    &&& !final(self)@.strokes.contains_key(key.key)
                },
                None => !old(self)@.strokes.contains_key(key.key) && final(self)@ == old(
                    self,
                )@,
            },
    {
        proof {
            if old(self)@.strokes.contains_key(key.key) {
                old(self).strokes.lemma_live_key_bounds(key.key);
            }
        }
        match self.remove_stroke(key.key) {
            Some((data, i)) => {
                let ghost v0 = old(self)@;
                proof {
                    assert(count_of(v0.frames[v0.strokes[key.key].data.frame].strokes, key.key)
                        == 1);
                    lemma_key_index(
                        v0.frames[v0.strokes[key.key].data.frame].strokes,
                        key.key,
                        i as int,
                    );
                }
                let act = ObjAction::Deletion {
                    key: key.key,
                    data: ObjData::Stroke(data),
                    index: i,
                };
                proof {
                    assert(forward_applicable(v0, act));
                    assert(captures_state(v0, act));
                    assert(forward_t(v0, act) == self@);
                    assert(seq![act].first() == act);
                    assert(seq![act].drop_first() =~= Seq::<ObjAction>::empty());
                    assert(chain_ok(forward_t(v0, act), Seq::<ObjAction>::empty()));
                    assert(chain_ok(v0, seq![act]));
                }
                let mut acts: Vec<ObjAction> = Vec::new();
                acts.push(act);
                proof {
                    assert(acts@ =~= seq![act]);
                    assert(forward_all_t(forward_step(v0, act), Seq::<ObjAction>::empty())
                        == forward_step(v0, act));
                    assert(forward_all_t(v0, seq![act]) == self@);
                }
                Some(acts)
            },
            None => None,
        }
    }
}

/// The exact shape of the journal `delete_frame` records against graph
/// state `v`: one deletion per owned stroke, back to front (so that undoing
/// last-to-first re-adds them front to back, at their original positions),
/// followed by the frame's own deletion at its recorded list position.
pub open spec fn cascade_acts_shape(v: ProjV, fk: u64, acts: Seq<ObjAction>) -> bool {
    let slist = v.frames[fk].strokes;
    let n = slist.len() as int;
    &&& acts.len() == n + 1
    &&& forall|j: int| #![trigger acts[j]]
        0 <= j < n ==> {
            &&& acts[j] is Deletion
            &&& acts[j]->Deletion_key == slist[n - 1 - j]
            &&& acts[j]->Deletion_index as int == n - 1 - j
            &&& acts[j]->Deletion_data is Stroke
            &&& acts[j]->Deletion_data->Stroke_0@ == v.strokes[slist[n - 1 - j]].data
        }
    &&& acts[n] is Deletion
    &&& acts[n]->Deletion_key == fk
    &&& acts[n]->Deletion_data is Frame
    &&& acts[n]->Deletion_data->Frame_0 == v.frames[fk].data
    &&& acts[n]->Deletion_index as int == key_index(
        v.layers[v.frames[fk].data.layer].frames,
        fk,
    )
}

impl Project {
    /// Deletes a frame together with every stroke it owns, removing the
    /// strokes back to front, and produces the journal of the cascade: one
    /// deletion action per stroke followed by the frame's own deletion.
    /// Undoing the returned actions last to first restores the graph exactly
    /// ([`lemma_cascade_restores`]). A stale handle returns `None` and
    /// leaves the graph unchanged.
    pub fn delete_frame(&mut self, key: ObjPtr<crate::frame::Frame>) -> (r: Option<
        Vec<ObjAction>,
    >)
        requires
            old(self).wf(),
        ensures
            final(self).wf(),
            match r {
                Some(acts) => {
                    &&& old(self)@.frames.contains_key(key.key)
                    &&& acts@.len() == old(self)@.frames[key.key].strokes.len() + 1
                    &&& chain_ok(old(self)@, acts@)
                    &&& final(self)@ == forward_all_t(old(self)@, acts@)
                    &&& cascade_acts_shape(old(self)@, key.key, acts@)
                    &&& final(self)@.frames == old(self)@.frames.remove(key.key)
                    &&& final(self)@.layers == old(self)@.layers.insert(
                        old(self)@.frames[key.key].data.layer,
                        crate::layer::LayerV {
                            frames: old(self)@.layers[old(
                                self,
                            )@.frames[key.key].data.layer].frames.remove(
                                key_index(
                                    old(self)@.layers[old(
                                        self,
                                    )@.frames[key.key].data.layer].frames,
                                    key.key,
                                ),
                            ),
                            ..old(self)@.layers[old(self)@.frames[key.key].data.layer]
                        },
                    )
                    &&& !final(self)@.frames.contains_key(key.key)
                    &&& forall|sk: u64| #[trigger]
                        final(self)@.strokes.contains_key(sk) <==> (old(
                            self,
                        )@.strokes.contains_key(sk) && old(self)@.strokes[sk].data.frame
                            != key.key)
                    &&& forall|sk: u64| #[trigger]
                        final(self)@.strokes.contains_key(sk) ==> final(self)@.strokes[sk] == old(
                            self,
                        )@.strokes[sk]
                    &&& final(self)@.folders == old(self)@.folders
                    &&& final(self)@.graphics == old(self)@.graphics
                    &&& final(self)@.palettes == old(self)@.palettes
                    &&& final(self)@.audio_files == old(self)@.audio_files
                    &&& final(self)@.path_index == old(self)@.path_index
                    &&& final(self)@.hash_index == old(self)@.hash_index
                    &&& final(self)@.root_folder == old(self)@.root_folder
                    &&& final(self)@.fps == old(self)@.fps
                    &&& final(self)@.sample_rate == old(self)@.sample_rate
                    &&& final(self)@.save_path == old(self)@.save_path
                },
                None => !old(self)@.frames.contains_key(key.key) && final(self)@ == old(
                    self,
                )@,
            },
    {
        let fk = key.key;
        let stroke_keys: Vec<u64> = match self.frames.get(key) {
            Some(f) => f.strokes.clone(),
            None => {
                return None;
            },
        };
        let ghost v0 = self@;
        let ghost slist = v0.frames[fk].strokes;
        proof {
            assert forall|j: int| 0 <= j < stroke_keys@.len() implies stroke_keys@[j]
                == slist[j] by {
                assert(cloned::<u64>(old(self)@.frames[fk].strokes[j], stroke_keys@[j]));
            }
            assert(stroke_keys@ =~= slist);
            assert forall|j: int| 0 <= j < slist.len() implies v0.strokes.contains_key(
                #[trigger] slist[j],
            ) && v0.strokes[slist[j]].data.frame == fk by {
                crate::counts::lemma_count_at_least_one(slist, slist[j], j);
                assert(count_of(v0.frames[fk].strokes, slist[j])
                    == crate::project::stroke_count_expected(v0, fk, slist[j]));
            }
            assert forall|p: int, q: int| 0 <= p < q < slist.len() implies slist[p] != slist[q] by {
                if slist[p] == slist[q] {
                    assert(count_of(v0.frames[fk].strokes, slist[p])
                        == crate::project::stroke_count_expected(v0, fk, slist[p]));
                    crate::counts::lemma_count_one_unique(slist, slist[p], p, q);
                }
            }
        }
        let mut acts: Vec<ObjAction> = Vec::new();
        let mut i = stroke_keys.len();
        proof {
            assert(slist.take(i as int) =~= slist);
            assert(slist.skip(i as int) =~= Seq::<u64>::empty());
            assert(forward_all_t(v0, acts@) == v0);
            assert(chain_ok(v0, acts@));
        }
        while i > 0
            invariant
                self.wf(),
                0 <= i <= slist.len(),
                stroke_keys@ == slist,
                v0.frames.contains_key(fk),
                slist == v0.frames[fk].strokes,
                forall|j: int|
                    0 <= j < slist.len() ==> v0.strokes.contains_key(#[trigger] slist[j])
                        && v0.strokes[slist[j]].data.frame == fk,
                forall|p: int, q: int| 0 <= p < q < slist.len() ==> slist[p] != slist[q],
                self@.frames.contains_key(fk),
                self@.frames[fk].data == v0.frames[fk].data,
                self@.frames[fk].strokes == slist.take(i as int),
                forall|fk2: u64| #[trigger]
                    self@.frames.contains_key(fk2) <==> v0.frames.contains_key(fk2),
                forall|fk2: u64|
                    fk2 != fk && #[trigger] self@.frames.contains_key(fk2) ==> self@.frames[fk2]
                        == v0.frames[fk2],
                forall|sk: u64| #[trigger]
                    self@.strokes.contains_key(sk) <==> (v0.strokes.contains_key(sk)
                        && !slist.skip(i as int).contains(sk)),
                forall|sk: u64| #[trigger]
                    self@.strokes.contains_key(sk) ==> self@.strokes[sk] == v0.strokes[sk],
                self@.layers == v0.layers,
                self@.graphics == v0.graphics,
                self@.folders == v0.folders,
                self@.palettes == v0.palettes,
                self@.audio_files == v0.audio_files,
                self@.path_index == v0.path_index,
                self@.hash_index == v0.hash_index,
                self@.root_folder == v0.root_folder,
                self@.fps == v0.fps,
                self@.sample_rate == v0.sample_rate,
                self@.save_path == v0.save_path,
                acts@.len() == slist.len() - i,
                forall|j: int| #![trigger acts@[j]]
                    0 <= j < acts@.len() ==> {
                        &&& acts@[j] is Deletion
                        &&& acts@[j]->Deletion_key == slist[slist.len() - 1 - j]
                        &&& acts@[j]->Deletion_index as int == slist.len() - 1 - j
                        &&& acts@[j]->Deletion_data is Stroke
                        &&& acts@[j]->Deletion_data->Stroke_0@ == v0.strokes[slist[slist.len()
                            - 1 - j]].data
                    },
                chain_ok(v0, acts@),
                forward_all_t(v0, acts@) == self@,
            decreases i,
        {
            i = i - 1;
            let sk = stroke_keys[i];
            let ghost cur = self@;
            proof {
                assert(!slist.skip(i as int + 1).contains(sk)) by {
                    if slist.skip(i as int + 1).contains(sk) {
                        let j = choose|j: int|
                            0 <= j < slist.skip(i as int + 1).len() && #[trigger] slist.skip(
                                i as int + 1,
                            )[j] == sk;
                        assert(slist[i as int + 1 + j] == sk);
                    }
                }
                assert(cur.strokes.contains_key(sk));
                assert(cur.strokes[sk] == v0.strokes[sk]);
                assert(cur.strokes[sk].data.frame == fk);
                self.strokes.lemma_live_key_bounds(sk);
            }
            let res = self.remove_stroke(sk);
            let (sdata, sidx) = match res {
                Some(x) => x,
                None => {
                    proof {
                        assert(false);
                    }
                    vstd::pervasive::unreached()
                },
            };
            proof {
                assert(cur.frames[fk].strokes == slist.take(i as int + 1));
                assert(slist.take(i as int + 1)[sidx as int] == sk);
                assert(slist.take(i as int + 1)[i as int] == sk);
                assert(sidx as int == i as int) by {
                    if sidx as int != i as int {
                        assert(slist[sidx as int] == sk);
                        assert(slist[i as int] == sk);
                    }
                }
                assert(count_of(cur.frames[fk].strokes, sk) == 1);
                lemma_key_index(cur.frames[fk].strokes, sk, sidx as int);
            }
            let act = ObjAction::Deletion { key: sk, data: ObjData::Stroke(sdata), index: sidx };
            proof {
                assert(forward_applicable(cur, act));
                assert(captures_state(cur, act));
                assert(forward_t(cur, act) == self@);
                lemma_chain_ok_snoc(v0, acts@, act);
                lemma_forward_all_snoc(v0, acts@, act);
            }
            let ghost actspre = acts@;
            acts.push(act);
            proof {
                assert forall|j: int| #![trigger acts@[j]] 0 <= j < acts@.len() implies {
                    &&& acts@[j] is Deletion
                    &&& acts@[j]->Deletion_key == slist[slist.len() - 1 - j]
                    &&& acts@[j]->Deletion_index as int == slist.len() - 1 - j
                    &&& acts@[j]->Deletion_data is Stroke
                    &&& acts@[j]->Deletion_data->Stroke_0@ == v0.strokes[slist[slist.len() - 1
                        - j]].data
                } by {
                    if j < acts@.len() - 1 {
                        assert(acts@[j] == actspre[j]);
                    } else {
                        assert(acts@[j] == act);
                        assert(slist.len() - 1 - j == i as int);
                        assert(sdata@ == cur.strokes[sk].data);
                        assert(cur.strokes[sk] == v0.strokes[sk]);
                    }
                }
            }
            proof {
                assert(slist.take(i as int + 1).remove(i as int) =~= slist.take(i as int));
                assert(self@.frames[fk].strokes == slist.take(i as int));
                assert forall|sk2: u64| #[trigger]
                    self@.strokes.contains_key(sk2) <==> (v0.strokes.contains_key(sk2)
                        && !slist.skip(i as int).contains(sk2)) by {
                    if sk2 == sk {
                        assert(slist.skip(i as int)[0] == slist[i as int]);
                        assert(slist.skip(i as int).contains(sk));
                        assert(!self@.strokes.contains_key(sk));
                    } else {
                        assert(self@.strokes.contains_key(sk2) <==> cur.strokes.contains_key(
                            sk2,
                        ));
                        assert(slist.skip(i as int).contains(sk2) <==> slist.skip(
                            i as int + 1,
                        ).contains(sk2)) by {
                            if slist.skip(i as int + 1).contains(sk2) {
                                let j = choose|j: int|
                                    0 <= j < slist.skip(i as int + 1).len() && #[trigger] slist.skip(
                                        i as int + 1,
                                    )[j] == sk2;
                                assert(slist.skip(i as int)[j + 1] == slist.skip(
                                    i as int + 1,
                                )[j]);
                            }
                            if slist.skip(i as int).contains(sk2) {
                                let j = choose|j: int|
                                    0 <= j < slist.skip(i as int).len() && #[trigger] slist.skip(
                                        i as int,
                                    )[j] == sk2;
                                assert(slist.skip(i as int)[0] == sk);
                                assert(j > 0);
                                assert(slist.skip(i as int + 1)[j - 1] == slist.skip(
                                    i as int,
                                )[j]);
                            }
                        }
                    }
                }
            }
        }
        let ghost cur = self@;
        proof {
            assert(slist.take(0) =~= Seq::<u64>::empty());
            assert(cur.frames[fk].strokes.len() == 0);
            self.frames.lemma_live_key_bounds(fk);
        }
        let res = self.remove_frame_empty(fk);
        let (fdata, fidx) = match res {
            Some(x) => x,
            None => {
                proof {
                    assert(false);
                }
                vstd::pervasive::unreached()
            },
        };
        proof {
            assert(count_of(cur.layers[cur.frames[fk].data.layer].frames, fk) == 1);
            lemma_key_index(cur.layers[cur.frames[fk].data.layer].frames, fk, fidx as int);
        }
        let act = ObjAction::Deletion { key: fk, data: ObjData::Frame(fdata), index: fidx };
        proof {
            assert(forward_applicable(cur, act));
            assert(captures_state(cur, act));
            assert(forward_t(cur, act) == self@);
            lemma_chain_ok_snoc(v0, acts@, act);
            lemma_forward_all_snoc(v0, acts@, act);
        }
        let ghost actspre = acts@;
        acts.push(act);
        proof {
            let n = slist.len() as int;
            assert forall|j: int| #![trigger acts@[j]] 0 <= j < n implies {
                &&& acts@[j] is Deletion
                &&& acts@[j]->Deletion_key == slist[n - 1 - j]
                &&& acts@[j]->Deletion_index as int == n - 1 - j
                &&& acts@[j]->Deletion_data is Stroke
                &&& acts@[j]->Deletion_data->Stroke_0@ == v0.strokes[slist[n - 1 - j]].data
            } by {
                assert(acts@[j] == actspre[j]);
            }
            assert(acts@[n] == act);
            assert(fdata == cur.frames[fk].data);
            assert(cur.frames[fk].data == v0.frames[fk].data);
            assert(cur.layers == v0.layers);
            assert(cascade_acts_shape(v0, fk, acts@));
            assert(self@.frames =~= v0.frames.remove(fk));
            assert(self@.layers =~= v0.layers.insert(
                v0.frames[fk].data.layer,
                crate::layer::LayerV {
                    frames: v0.layers[v0.frames[fk].data.layer].frames.remove(
                        key_index(v0.layers[v0.frames[fk].data.layer].frames, fk),
                    ),
                    ..v0.layers[v0.frames[fk].data.layer]
                },
            ));
            assert(!self@.frames.contains_key(fk));
            assert(slist.skip(0) =~= slist);
            assert forall|sk: u64| #[trigger]
                self@.strokes.contains_key(sk) <==> (v0.strokes.contains_key(sk)
                    && v0.strokes[sk].data.frame != fk) by {
                if v0.strokes.contains_key(sk) {
                    if v0.strokes[sk].data.frame == fk {
                        assert(count_of(v0.frames[fk].strokes, sk)
                            == crate::project::stroke_count_expected(v0, fk, sk));
                        let j = crate::counts::lemma_count_position(v0.frames[fk].strokes, sk);
                        assert(slist.contains(sk));
                    } else {
                        if slist.contains(sk) {
                            let j = choose|j: int| 0 <= j < slist.len() && slist[j] == sk;
                            assert(v0.strokes[slist[j]].data.frame == fk);
                        }
                    }
                }
            }
        }
        Some(acts)
    }
}

impl crate::layer::Layer {
    /// Moves a layer under a new parent, appended to that parent's layer
    /// list, and returns the action that journals the move. The sole cycle
    /// guard of the system: if the moved layer appears in the prospective
    /// new parent's ancestor chain (in particular, if the layer would be
    /// moved under itself or under one of its own descendants), the graph is
    /// left unchanged and `None` reports the rejection. A stale handle or a
    /// stale new parent is likewise a no-op.
    pub fn transfer(
        project: &mut Project,
        layer: ObjPtr<crate::layer::Layer>,
        new_parent: LayerParent,
    ) -> (r: Option<ObjAction>)
        requires
            old(project).wf(),
        ensures
            final(project).wf(),
            r is None <==> (crate::layer::reaches_layer(
                old(project)@,
                new_parent,
                layer.key,
                old(project)@.layers.len(),
            ) || !old(project)@.layers.contains_key(layer.key) || !parent_live(
                old(project)@,
                new_parent,
            )),
            match r {
                Some(act) => {
                    &&& old(project)@.layers.contains_key(layer.key)
                    &&& parent_live(old(project)@, new_parent)
                    &&& act is TransferLayer
                    &&& act->TransferLayer_layer == layer.key
                    &&& act->TransferLayer_old_parent == old(
                        project,
                    )@.layers[layer.key].data.parent
                    &&& act->TransferLayer_new_parent == new_parent
                    &&& forward_applicable(old(project)@, act)
                    &&& captures_state(old(project)@, act)
                    &&& final(project)@ == forward_t(old(project)@, act)
                },
                None => final(project)@ == old(project)@,
            },
    {
        if crate::layer::Layer::inside(project, layer, new_parent) {
            return None;
        }
        let ghost v0 = project@;
        proof {
            if new_parent == LayerParent::Layer(layer.key) {
                assert(crate::layer::reaches_layer(
                    v0,
                    new_parent,
                    layer.key,
                    v0.layers.len(),
                ));
            }
        }
        match project.transfer_layer_at(layer.key, new_parent, usize::MAX) {
            Some((op, i)) => {
                proof {
                    let list = layer_list_of(v0, op);
                    assert(count_of(list, layer.key) == 1) by {
                        match op {
                            LayerParent::Graphic(g) => {
                                assert(count_of(v0.graphics[g].layers, layer.key)
                                    == crate::project::layer_in_graphic_expected(
                                    v0,
                                    g,
                                    layer.key,
                                ));
                            },
                            LayerParent::Layer(p) => {
                                assert(count_of(v0.layers[p].layers, layer.key)
                                    == crate::project::layer_in_layer_expected(
                                    v0,
                                    p,
                                    layer.key,
                                ));
                            },
                        }
                    }
                    lemma_key_index(list, layer.key, i as int);
                }
                let act = ObjAction::TransferLayer {
                    layer: layer.key,
                    old_parent: op,
                    old_index: i,
                    new_parent,
                };
                proof {
                    assert(forward_applicable(v0, act));
                    assert(captures_state(v0, act));
                    assert(forward_t(v0, act) == project@);
                }
                Some(act)
            },
            None => None,
        }
    }
}

impl Project {
    /// Adds a layer under a freshly allocated identifier, appended to its
    /// parent's layer list, and returns its handle and the journaling
    /// action.
    pub fn add_layer(&mut self, data: crate::layer::LayerData) -> (r: Option<
        (ObjPtr<crate::layer::Layer>, ObjAction),
    >)
        requires
            old(self).wf(),
            old(self).layers.next_key_spec() < u64::MAX,
        ensures
            final(self).wf(),
            match r {
                Some((ptr, act)) => {
                    &&& ptr.key == old(self).layers.next_key_spec()
                    &&& act is Addition
                    &&& act->Addition_key == ptr.key
                    &&& act->Addition_data->Layer_0@ == data@
                    &&& forward_applicable(old(self)@, act)
                    &&& captures_state(old(self)@, act)
                    &&& final(self)@ == forward_t(old(self)@, act)
                },
                None => !parent_live(old(self)@, data@.parent) && final(self)@ == old(self)@,
            },
    {
        let key = self.layers.next_key();
        let act_data = data.clone();
        if self.insert_layer_at(key, data, usize::MAX) {
            proof {
                assert(forward_t(
                    old(self)@,
                    ObjAction::Addition { key, data: ObjData::Layer(act_data) },
                ) =~~= self@);
            }
            Some((
                ObjPtr::from_key(key),
                ObjAction::Addition { key, data: ObjData::Layer(act_data) },
            ))
        } else {
            None
        }
    }

    /// Overwrites a layer's field data (name, visibility, kind; never its
    /// parent) and returns the journaling action.
    pub fn set_layer_data(
        &mut self,
        key: ObjPtr<crate::layer::Layer>,
        data: crate::layer::LayerData,
    ) -> (r: Option<ObjAction>)
        requires
            old(self).wf(),
        ensures
            final(self).wf(),
            match r {
                Some(act) => {
                    &&& old(self)@.layers.contains_key(key.key)
                    &&& act is Modification
                    &&& act->Modification_key == key.key
                    &&& act->Modification_old_data->Layer_0@ == old(self)@.layers[key.key].data
                    &&& act->Modification_new_data->Layer_0@ == data@
                    &&& forward_applicable(old(self)@, act)
                    &&& captures_state(old(self)@, act)
                    &&& final(self)@ == forward_t(old(self)@, act)
                },
                None => {
                    &&& final(self)@ == old(self)@
                    &&& !(old(self)@.layers.contains_key(key.key) && data@.parent == old(
                        self,
                    )@.layers[key.key].data.parent)
                },
            },
    {
        let act_data = data.clone();
        match self.replace_layer_data(key.key, data) {
            Some(prior) => {
                let act = ObjAction::Modification {
                    key: key.key,
                    old_data: ObjData::Layer(prior),
                    new_data: ObjData::Layer(act_data),
                };
                proof {
                    assert(forward_t(old(self)@, act) =~~= self@);
                }
                Some(act)
            },
            None => None,
        }
    }

    /// Adds a graphic under a freshly allocated identifier, appended to its
    /// folder's graphic list, and returns its handle and the journaling
    /// action.
    pub fn add_graphic(&mut self, data: crate::graphic::GraphicData) -> (r: Option<
        (ObjPtr<crate::graphic::Graphic>, ObjAction),
    >)
        requires
            old(self).wf(),
            old(self).graphics.next_key_spec() < u64::MAX,
        ensures
            final(self).wf(),
            match r {
                Some((ptr, act)) => {
                    &&& ptr.key == old(self).graphics.next_key_spec()
                    &&& act is Addition
                    &&& act->Addition_key == ptr.key
                    &&& act->Addition_data->Graphic_0@ == data@
                    &&& forward_applicable(old(self)@, act)
                    &&& captures_state(old(self)@, act)
                    &&& final(self)@ == forward_t(old(self)@, act)
                },
                None => !old(self)@.folders.contains_key(data@.folder) && final(self)@ == old(
                    self,
                )@,
            },
    {
        let key = self.graphics.next_key();
        let act_data = data.clone();
        if self.insert_graphic_at(key, data, usize::MAX) {
            proof {
                assert(forward_t(
                    old(self)@,
                    ObjAction::Addition { key, data: ObjData::Graphic(act_data) },
                ) =~~= self@);
            }
            Some((
                ObjPtr::from_key(key),
                ObjAction::Addition { key, data: ObjData::Graphic(act_data) },
            ))
        } else {
            None
        }
    }

    /// Adds a palette under a freshly allocated identifier, appended to its
    /// folder's palette list, and returns its handle and the journaling
    /// action.
    pub fn add_palette(&mut self, data: crate::palette::PaletteData) -> (r: Option<
        (ObjPtr<crate::palette::Palette>, ObjAction),
    >)
        requires
            old(self).wf(),
            old(self).palettes.next_key_spec() < u64::MAX,
        ensures
            final(self).wf(),
            match r {
                Some((ptr, act)) => {
                    &&& ptr.key == old(self).palettes.next_key_spec()
                    &&& act is Addition
                    &&& act->Addition_key == ptr.key
                    &&& act->Addition_data->Palette_0@ == data@
                    &&& forward_applicable(old(self)@, act)
                    &&& captures_state(old(self)@, act)
                    &&& final(self)@ == forward_t(old(self)@, act)
                },
                None => !old(self)@.folders.contains_key(data@.folder) && final(self)@ == old(
                    self,
                )@,
            },
    {
        let key = self.palettes.next_key();
        let act_data = data.clone();
        if self.insert_palette_at(key, data, usize::MAX) {
            proof {
                assert(forward_t(
                    old(self)@,
                    ObjAction::Addition { key, data: ObjData::Palette(act_data) },
                ) =~~= self@);
            }
            Some((
                ObjPtr::from_key(key),
                ObjAction::Addition { key, data: ObjData::Palette(act_data) },
            ))
        } else {
            None
        }
    }

    /// Overwrites a graphic's field data (name, length, clip, size; never
    /// its parent) and returns the journaling action.
    pub fn set_graphic_data(
        &mut self,
        key: ObjPtr<crate::graphic::Graphic>,
        data: crate::graphic::GraphicData,
    ) -> (r: Option<ObjAction>)
        requires
            old(self).wf(),
        ensures
            final(self).wf(),
            match r {
                Some(act) => {
                    &&& old(self)@.graphics.contains_key(key.key)
                    &&& act is Modification
                    &&& act->Modification_key == key.key
                    &&& act->Modification_old_data->Graphic_0@ == old(self)@.graphics[key.key].data
                    &&& act->Modification_new_data->Graphic_0@ == data@
                    &&& forward_applicable(old(self)@, act)
                    &&& captures_state(old(self)@, act)
                    &&& final(self)@ == forward_t(old(self)@, act)
                },
                None => {
                    &&& final(self)@ == old(self)@
                    &&& !(old(self)@.graphics.contains_key(key.key) && data@.folder == old(
                        self,
                    )@.graphics[key.key].data.folder)
                },
            },
    {
        let act_data = data.clone();
        match self.replace_graphic_data(key.key, data) {
            Some(prior) => {
                let act = ObjAction::Modification {
                    key: key.key,
                    old_data: ObjData::Graphic(prior),
                    new_data: ObjData::Graphic(act_data),
                };
                proof {
                    assert(forward_t(old(self)@, act) =~~= self@);
                }
                Some(act)
            },
            None => None,
        }
    }

    /// Overwrites a palette's field data (name, colors; never its parent)
    /// and returns the journaling action.
    pub fn set_palette_data(
        &mut self,
        key: ObjPtr<crate::palette::Palette>,
        data: crate::palette::PaletteData,
    ) -> (r: Option<ObjAction>)
        requires
            old(self).wf(),
        ensures
            final(self).wf(),
            match r {
                Some(act) => {
                    &&& old(self)@.palettes.contains_key(key.key)
                    &&& act is Modification
                    &&& act->Modification_key == key.key
                    &&& act->Modification_old_data->Palette_0@ == old(self)@.palettes[key.key].data
                    &&& act->Modification_new_data->Palette_0@ == data@
                    &&& forward_applicable(old(self)@, act)
                    &&& captures_state(old(self)@, act)
                    &&& final(self)@ == forward_t(old(self)@, act)
                },
                None => {
                    &&& final(self)@ == old(self)@
                    &&& !(old(self)@.palettes.contains_key(key.key) && data@.folder == old(
                        self,
                    )@.palettes[key.key].data.folder)
                },
            },
    {
        let act_data = data.clone();
        match self.replace_palette_data(key.key, data) {
            Some(prior) => {
                let act = ObjAction::Modification {
                    key: key.key,
                    old_data: ObjData::Palette(prior),
                    new_data: ObjData::Palette(act_data),
                };
                proof {
                    assert(forward_t(old(self)@, act) =~~= self@);
                }
                Some(act)
            },
            None => None,
        }
    }

    /// Renames a folder (its display name; never its parent) and returns the
    /// journaling action.
    pub fn set_folder_name(
        &mut self,
        key: ObjPtr<crate::folder::Folder>,
        name: String,
    ) -> (r: Option<ObjAction>)
        requires
            old(self).wf(),
        ensures
            final(self).wf(),
            match r {
                Some(act) => {
                    &&& old(self)@.folders.contains_key(key.key)
                    &&& act is Modification
                    &&& act->Modification_key == key.key
                    &&& act->Modification_old_data->Folder_0@ == old(self)@.folders[key.key].data
                    &&& act->Modification_new_data->Folder_0@.name == name@
                    &&& forward_applicable(old(self)@, act)
                    &&& captures_state(old(self)@, act)
                    &&& final(self)@ == forward_t(old(self)@, act)
                },
                None => !old(self)@.folders.contains_key(key.key) && final(self)@ == old(
                    self,
                )@,
            },
    {
        let parent = match self.folders.get(ObjPtr::from_key(key.key)) {
            Some(f) => f.data.folder,
            None => {
                return None;
            },
        };
        let data = crate::folder::FolderData { name, folder: parent };
        let act_data = data.clone();
        match self.replace_folder_data(key.key, data) {
            Some(prior) => {
                let act = ObjAction::Modification {
                    key: key.key,
                    old_data: ObjData::Folder(prior),
                    new_data: ObjData::Folder(act_data),
                };
                proof {
                    assert(forward_t(old(self)@, act) =~~= self@);
                }
                Some(act)
            },
            None => None,
        }
    }
}

} // verus!
