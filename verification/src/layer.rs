//! Layers: animation/audio/group tracks, owned by a graphic or by another
//! layer, owning frames and sub-layers.

use vstd::prelude::*;

use crate::counts::{count_of, lemma_count_insert, lemma_count_remove, lemma_count_zero};
use crate::frame::Frame;
use crate::graphic::{Graphic, GraphicV};
use crate::project::{
    audio_count_expected, audios_owned_ok, folder_count_expected, folders_owned_ok,
    frame_count_expected, frames_owned_ok, graphic_count_expected, graphics_owned_ok,
    layer_in_graphic_expected, layer_in_layer_expected, layers_owned_ok, ownership_ok,
    palette_count_expected, palettes_owned_ok, stroke_count_expected, strokes_owned_ok, ProjV,
    Project,
};
use crate::store::ObjPtr;

verus! {

/// What a layer tracks. An `Audio` layer marks a sound track; the audio
/// clips themselves live outside the object graph, as content-addressed
/// file references owned by the enclosing folder, so an audio layer holds
/// no per-clip placement objects of its own here.
#[derive(Clone, Copy, PartialEq, Eq, Structural, Debug)]
pub enum LayerKind {
    Animation,
    Audio,
    Group,
}

/// A layer's parent is either a graphic or another layer: a closed tagged
/// variant standing in for a type-erased parent handle, carrying the parent's
/// identifier under the tag.
#[derive(Clone, Copy)]
pub enum LayerParent {
    Graphic(u64),
    Layer(u64),
}

impl LayerParent {
    /// The identifier under the tag, whichever store it points into.
    pub open spec fn key(self) -> u64 {
        match self {
            LayerParent::Graphic(k) => k,
            LayerParent::Layer(k) => k,
        }
    }

    pub open spec fn is_layer(self) -> bool {
        matches!(self, LayerParent::Layer(_))
    }

    /// Checked downcast to a layer handle; casting a graphic parent to a
    /// layer is programmer misuse, excluded by the precondition.
    pub fn as_layer(self) -> (r: ObjPtr<Layer>)
        requires
            self.is_layer(),
        ensures
            r.key == self.key(),
    {
        match self {
            LayerParent::Layer(k) => ObjPtr::from_key(k),
            LayerParent::Graphic(k) => ObjPtr::from_key(k),
        }
    }

    /// Checked downcast to a graphic handle.
    pub fn as_graphic(self) -> (r: ObjPtr<Graphic>)
        requires
            !self.is_layer(),
        ensures
            r.key == self.key(),
    {
        match self {
            LayerParent::Graphic(k) => ObjPtr::from_key(k),
            LayerParent::Layer(k) => ObjPtr::from_key(k),
        }
    }

    /// Whether two parent values denote the same child collection.
    pub open spec fn same_spec(self, other: LayerParent) -> bool {
        match (self, other) {
            (LayerParent::Graphic(a), LayerParent::Graphic(b)) => a == b,
            (LayerParent::Layer(a), LayerParent::Layer(b)) => a == b,
            _ => false,
        }
    }

    pub fn same(self, other: LayerParent) -> (r: bool)
        ensures
            r == self.same_spec(other),
    {
        match (self, other) {
            (LayerParent::Graphic(a), LayerParent::Graphic(b)) => a == b,
            (LayerParent::Layer(a), LayerParent::Layer(b)) => a == b,
            _ => false,
        }
    }
}

/// The journaled field data of a layer. `parent` is the owning parent.
pub struct LayerData {
    pub parent: LayerParent,
    pub name: String,
    pub show: bool,
    pub kind: LayerKind,
}

#[verifier::ext_equal]
pub struct LayerDataV {
    pub parent: LayerParent,
    pub name: Seq<char>,
    pub show: bool,
    pub kind: LayerKind,
}

impl View for LayerData {
    type V = LayerDataV;

    open spec fn view(&self) -> LayerDataV {
        LayerDataV { parent: self.parent, name: self.name@, show: self.show, kind: self.kind }
    }
}

impl Clone for LayerData {
    fn clone(&self) -> (r: Self)
        ensures
            r@ == self@,
    {
        LayerData {
            parent: self.parent,
            name: self.name.clone(),
            show: self.show,
            kind: self.kind,
        }
    }
}

/// A live layer: its field data plus the owning handles of its frames and
/// sub-layers.
pub struct Layer {
    pub data: LayerData,
    pub frames: Vec<u64>,
    pub layers: Vec<u64>,
}

#[verifier::ext_equal]
pub struct LayerV {
    pub data: LayerDataV,
    pub frames: Seq<u64>,
    pub layers: Seq<u64>,
}

impl View for Layer {
    type V = LayerV;

    open spec fn view(&self) -> LayerV {
        LayerV { data: self.data@, frames: self.frames@, layers: self.layers@ }
    }
}

impl Layer {
    pub fn new(data: LayerData) -> (r: Self)
        ensures
            r@.data == data@,
            r@.frames =~= Seq::<u64>::empty(),
            r@.layers =~= Seq::<u64>::empty(),
    {
        Layer { data, frames: Vec::new(), layers: Vec::new() }
    }
}

/// Whether a parent value names a live object.
pub open spec fn parent_live(v: ProjV, p: LayerParent) -> bool {
    match p {
        LayerParent::Graphic(g) => v.graphics.contains_key(g),
        LayerParent::Layer(l) => v.layers.contains_key(l),
    }
}

/// The layer child collection of a parent.
pub open spec fn layer_list_of(v: ProjV, p: LayerParent) -> Seq<u64> {
    match p {
        LayerParent::Graphic(g) => v.graphics[g].layers,
        LayerParent::Layer(l) => v.layers[l].layers,
    }
}

/// The graph state with a parent's layer child collection replaced.
pub open spec fn with_layer_list(v: ProjV, p: LayerParent, s: Seq<u64>) -> ProjV {
    match p {
        LayerParent::Graphic(g) => ProjV {
            graphics: v.graphics.insert(g, GraphicV { layers: s, ..v.graphics[g] }),
            ..v
        },
        LayerParent::Layer(l) => ProjV {
            layers: v.layers.insert(l, LayerV { layers: s, ..v.layers[l] }),
            ..v
        },
    }
}

/// The graph state with a layer's parent field replaced.
pub open spec fn with_layer_parent(v: ProjV, key: u64, p: LayerParent) -> ProjV {
    ProjV {
        layers: v.layers.insert(
            key,
            LayerV { data: LayerDataV { parent: p, ..v.layers[key].data }, ..v.layers[key] },
        ),
        ..v
    }
}

/// The layer ownership clauses, except that layer `key` is counted by no
/// child collection and its own parent field is not yet binding: the state in
/// the middle of a transfer, between detach and attach.
pub open spec fn layers_unowned_except(v: ProjV, key: u64) -> bool {
    &&& forall|lk: u64| #[trigger]
        v.layers.contains_key(lk) && lk != key ==> match v.layers[lk].data.parent {
            LayerParent::Graphic(g) => v.graphics.contains_key(g),
            LayerParent::Layer(p) => v.layers.contains_key(p) && p != lk,
        }
    &&& forall|gk: u64, lk: u64|
        v.graphics.contains_key(gk) ==> #[trigger] count_of(v.graphics[gk].layers, lk) == if lk
            == key {
            0nat
        } else {
            layer_in_graphic_expected(v, gk, lk)
        }
    &&& forall|pk: u64, lk: u64|
        v.layers.contains_key(pk) ==> #[trigger] count_of(v.layers[pk].layers, lk) == if lk
            == key {
            0nat
        } else {
            layer_in_layer_expected(v, pk, lk)
        }
}

/// The ownership clauses that do not mention layer child collections or layer
/// parent fields.
pub open spec fn nonlayer_clauses_ok(v: ProjV) -> bool {
    &&& frames_owned_ok(v)
    &&& strokes_owned_ok(v)
    &&& graphics_owned_ok(v)
    &&& palettes_owned_ok(v)
    &&& audios_owned_ok(v)
    &&& folders_owned_ok(v)
}

/// The non-layer clauses survive any change that keeps the frame, stroke,
/// palette, audio and folder stores, the graphic domain and field data, the
/// layer domain, and every layer's frame list.
proof fn lemma_nonlayer_clauses(v: ProjV, w: ProjV)
    requires
        nonlayer_clauses_ok(v),
        w.frames == v.frames,
        w.strokes == v.strokes,
        w.palettes == v.palettes,
        w.audio_files == v.audio_files,
        w.folders == v.folders,
        w.root_folder == v.root_folder,
        w.graphics.dom() =~= v.graphics.dom(),
        forall|gk: u64| #[trigger] w.graphics.contains_key(gk) ==> w.graphics[gk].data
            == v.graphics[gk].data,
        w.layers.dom() =~= v.layers.dom(),
        forall|lk: u64| #[trigger] w.layers.contains_key(lk) ==> w.layers[lk].frames
            == v.layers[lk].frames,
    ensures
        nonlayer_clauses_ok(w),
{
    assert forall|lk: u64, fk: u64| w.layers.contains_key(lk) implies #[trigger] count_of(
        w.layers[lk].frames,
        fk,
    ) == frame_count_expected(w, lk, fk) by {
        assert(count_of(v.layers[lk].frames, fk) == frame_count_expected(v, lk, fk));
    }
    assert forall|fk: u64, sk: u64| w.frames.contains_key(fk) implies #[trigger] count_of(
        w.frames[fk].strokes,
        sk,
    ) == stroke_count_expected(w, fk, sk) by {
        assert(count_of(v.frames[fk].strokes, sk) == stroke_count_expected(v, fk, sk));
    }
    assert forall|fk: u64, gk: u64| w.folders.contains_key(fk) implies #[trigger] count_of(
        w.folders[fk].graphics,
        gk,
    ) == graphic_count_expected(w, fk, gk) by {
        assert(count_of(v.folders[fk].graphics, gk) == graphic_count_expected(v, fk, gk));
    }
    assert forall|fk: u64, pk: u64| w.folders.contains_key(fk) implies #[trigger] count_of(
        w.folders[fk].palettes,
        pk,
    ) == palette_count_expected(w, fk, pk) by {
        assert(count_of(v.folders[fk].palettes, pk) == palette_count_expected(v, fk, pk));
    }
    assert forall|fk: u64, ak: u64| w.folders.contains_key(fk) implies #[trigger] count_of(
        w.folders[fk].audios,
        ak,
    ) == audio_count_expected(w, fk, ak) by {
        assert(count_of(v.folders[fk].audios, ak) == audio_count_expected(v, fk, ak));
    }
    assert forall|pk: u64, ck: u64| w.folders.contains_key(pk) implies #[trigger] count_of(
        w.folders[pk].folders,
        ck,
    ) == folder_count_expected(w, pk, ck) by {
        assert(count_of(v.folders[pk].folders, ck) == folder_count_expected(v, pk, ck));
    }
}

/// Detaching a live layer from its parent's child collection leaves the
/// graph with that one layer unowned and everything else intact.
pub proof fn lemma_layer_detach(v: ProjV, key: u64, i: int)
    requires
        ownership_ok(v),
        v.layers.contains_key(key),
        0 <= i < layer_list_of(v, v.layers[key].data.parent).len(),
        layer_list_of(v, v.layers[key].data.parent)[i] == key,
    ensures
        nonlayer_clauses_ok(
            with_layer_list(
                v,
                v.layers[key].data.parent,
                layer_list_of(v, v.layers[key].data.parent).remove(i),
            ),
        ),
        layers_unowned_except(
            with_layer_list(
                v,
                v.layers[key].data.parent,
                layer_list_of(v, v.layers[key].data.parent).remove(i),
            ),
            key,
        ),
{
    let op = v.layers[key].data.parent;
    let oldlist = layer_list_of(v, op);
    let w = with_layer_list(v, op, oldlist.remove(i));
    assert(count_of(oldlist, key) == 1) by {
        match op {
            LayerParent::Graphic(g) => {
                assert(count_of(v.graphics[g].layers, key) == layer_in_graphic_expected(
                    v,
                    g,
                    key,
                ));
            },
            LayerParent::Layer(p) => {
                assert(count_of(v.layers[p].layers, key) == layer_in_layer_expected(v, p, key));
            },
        }
    }
    match op {
        LayerParent::Graphic(g) => {
            assert(w.graphics.dom() =~= v.graphics.dom());
            lemma_nonlayer_clauses(v, w);
            assert forall|gk: u64, lk: u64| w.graphics.contains_key(gk) implies #[trigger] count_of(
                w.graphics[gk].layers,
                lk,
            ) == if lk == key {
                0nat
            } else {
                layer_in_graphic_expected(w, gk, lk)
            } by {
                assert(count_of(v.graphics[gk].layers, lk) == layer_in_graphic_expected(v, gk, lk));
                if gk == g {
                    lemma_count_remove(oldlist, i, lk);
                }
            }
            assert forall|pk: u64, lk: u64| w.layers.contains_key(pk) implies #[trigger] count_of(
                w.layers[pk].layers,
                lk,
            ) == if lk == key {
                0nat
            } else {
                layer_in_layer_expected(w, pk, lk)
            } by {
                assert(count_of(v.layers[pk].layers, lk) == layer_in_layer_expected(v, pk, lk));
            }
        },
        LayerParent::Layer(p) => {
            assert(w.layers.dom() =~= v.layers.dom());
            assert(p != key);
            lemma_nonlayer_clauses(v, w);
            assert forall|gk: u64, lk: u64| w.graphics.contains_key(gk) implies #[trigger] count_of(
                w.graphics[gk].layers,
                lk,
            ) == if lk == key {
                0nat
            } else {
                layer_in_graphic_expected(w, gk, lk)
            } by {
                assert(count_of(v.graphics[gk].layers, lk) == layer_in_graphic_expected(v, gk, lk));
                assert(w.layers.contains_key(lk) ==> w.layers[lk].data == v.layers[lk].data);
            }
            assert forall|pk: u64, lk: u64| w.layers.contains_key(pk) implies #[trigger] count_of(
                w.layers[pk].layers,
                lk,
            ) == if lk == key {
                0nat
            } else {
                layer_in_layer_expected(w, pk, lk)
            } by {
                assert(count_of(v.layers[pk].layers, lk) == layer_in_layer_expected(v, pk, lk));
                if pk == p {
                    lemma_count_remove(oldlist, i, lk);
                }
                assert(w.layers.contains_key(lk) ==> w.layers[lk].data == v.layers[lk].data);
            }
        },
    }
}

/// Rewriting the parent field of an unowned layer keeps the graph in the
/// same in-between shape.
pub proof fn lemma_layer_setparent(v: ProjV, key: u64, np: LayerParent)
    requires
        nonlayer_clauses_ok(v),
        layers_unowned_except(v, key),
        v.layers.contains_key(key),
    ensures
        nonlayer_clauses_ok(with_layer_parent(v, key, np)),
        layers_unowned_except(with_layer_parent(v, key, np), key),
        with_layer_parent(v, key, np).layers[key].data.parent == np,
{
    let w = with_layer_parent(v, key, np);
    assert(w.layers.dom() =~= v.layers.dom());
    lemma_nonlayer_clauses(v, w);
    assert forall|gk: u64, lk: u64| w.graphics.contains_key(gk) implies #[trigger] count_of(
        w.graphics[gk].layers,
        lk,
    ) == if lk == key {
        0nat
    } else {
        layer_in_graphic_expected(w, gk, lk)
    } by {
        assert(count_of(v.graphics[gk].layers, lk) == if lk == key {
            0nat
        } else {
            layer_in_graphic_expected(v, gk, lk)
        });
        assert(lk != key && w.layers.contains_key(lk) ==> w.layers[lk].data
            == v.layers[lk].data);
    }
    assert forall|pk: u64, lk: u64| w.layers.contains_key(pk) implies #[trigger] count_of(
        w.layers[pk].layers,
        lk,
    ) == if lk == key {
        0nat
    } else {
        layer_in_layer_expected(w, pk, lk)
    } by {
        assert(w.layers[pk].layers == v.layers[pk].layers);
        assert(count_of(v.layers[pk].layers, lk) == if lk == key {
            0nat
        } else {
            layer_in_layer_expected(v, pk, lk)
        });
        assert(lk != key && w.layers.contains_key(lk) ==> w.layers[lk].data
            == v.layers[lk].data);
    }
}

/// Attaching an unowned layer into the child collection its parent field
/// names restores full ownership.
pub proof fn lemma_layer_attach(v: ProjV, key: u64, at: int)
    requires
        nonlayer_clauses_ok(v),
        layers_unowned_except(v, key),
        v.layers.contains_key(key),
        parent_live(v, v.layers[key].data.parent),
        v.layers[key].data.parent != LayerParent::Layer(key),
        0 <= at <= layer_list_of(v, v.layers[key].data.parent).len(),
    ensures
        ownership_ok(
            with_layer_list(
                v,
                v.layers[key].data.parent,
                layer_list_of(v, v.layers[key].data.parent).insert(at, key),
            ),
        ),
{
    let np = v.layers[key].data.parent;
    let oldlist = layer_list_of(v, np);
    let w = with_layer_list(v, np, oldlist.insert(at, key));
    match np {
        LayerParent::Graphic(g) => {
            assert(w.graphics.dom() =~= v.graphics.dom());
            lemma_nonlayer_clauses(v, w);
            assert forall|lk: u64| #[trigger]
                w.layers.contains_key(lk) implies match w.layers[lk].data.parent {
                LayerParent::Graphic(gg) => w.graphics.contains_key(gg),
                LayerParent::Layer(pp) => w.layers.contains_key(pp) && pp != lk,
            } by {
                if lk != key {
                    assert(v.layers[lk].data == w.layers[lk].data);
                }
            }
            assert forall|gk: u64, lk: u64| w.graphics.contains_key(gk) implies #[trigger] count_of(
                w.graphics[gk].layers,
                lk,
            ) == layer_in_graphic_expected(w, gk, lk) by {
                assert(count_of(v.graphics[gk].layers, lk) == if lk == key {
                    0nat
                } else {
                    layer_in_graphic_expected(v, gk, lk)
                });
                if gk == g {
                    lemma_count_insert(oldlist, at, key, lk);
                }
                assert(w.layers.contains_key(lk) ==> w.layers[lk].data == v.layers[lk].data);
            }
            assert forall|pk: u64, lk: u64| w.layers.contains_key(pk) implies #[trigger] count_of(
                w.layers[pk].layers,
                lk,
            ) == layer_in_layer_expected(w, pk, lk) by {
                assert(w.layers[pk].layers == v.layers[pk].layers);
                assert(count_of(v.layers[pk].layers, lk) == if lk == key {
                    0nat
                } else {
                    layer_in_layer_expected(v, pk, lk)
                });
                assert(w.layers.contains_key(lk) ==> w.layers[lk].data == v.layers[lk].data);
            }
            assert(layers_owned_ok(w));
        },
        LayerParent::Layer(p) => {
            assert(w.layers.dom() =~= v.layers.dom());
            assert(p != key);
            lemma_nonlayer_clauses(v, w);
            assert forall|lk: u64| #[trigger]
                w.layers.contains_key(lk) implies match w.layers[lk].data.parent {
                LayerParent::Graphic(gg) => w.graphics.contains_key(gg),
                LayerParent::Layer(pp) => w.layers.contains_key(pp) && pp != lk,
            } by {
                assert(w.layers[lk].data == v.layers[lk].data);
                if lk != key {
                }
            }
            assert forall|gk: u64, lk: u64| w.graphics.contains_key(gk) implies #[trigger] count_of(
                w.graphics[gk].layers,
                lk,
            ) == layer_in_graphic_expected(w, gk, lk) by {
                assert(count_of(v.graphics[gk].layers, lk) == if lk == key {
                    0nat
                } else {
                    layer_in_graphic_expected(v, gk, lk)
                });
                assert(w.layers.contains_key(lk) ==> w.layers[lk].data == v.layers[lk].data);
            }
            assert forall|pk: u64, lk: u64| w.layers.contains_key(pk) implies #[trigger] count_of(
                w.layers[pk].layers,
                lk,
            ) == layer_in_layer_expected(w, pk, lk) by {
                assert(count_of(v.layers[pk].layers, lk) == if lk == key {
                    0nat
                } else {
                    layer_in_layer_expected(v, pk, lk)
                });
                if pk == p {
                    lemma_count_insert(oldlist, at, key, lk);
                }
                assert(w.layers.contains_key(lk) ==> w.layers[lk].data == v.layers[lk].data);
            }
            assert(layers_owned_ok(w));
        },
    }
}

/// A freshly stored layer, not yet in any child collection, leaves the graph
/// in the in-between shape with every other clause intact.
pub proof fn lemma_layer_fresh_unowned(v: ProjV, key: u64, data: LayerDataV)
    requires
        ownership_ok(v),
        !v.layers.contains_key(key),
        parent_live(v, data.parent),
    ensures
        nonlayer_clauses_ok(
            ProjV {
                layers: v.layers.insert(
                    key,
                    LayerV { data, frames: Seq::empty(), layers: Seq::empty() },
                ),
                ..v
            },
        ),
        layers_unowned_except(
            ProjV {
                layers: v.layers.insert(
                    key,
                    LayerV { data, frames: Seq::empty(), layers: Seq::empty() },
                ),
                ..v
            },
            key,
        ),
{
    let w = ProjV {
        layers: v.layers.insert(key, LayerV { data, frames: Seq::empty(), layers: Seq::empty() }),
        ..v
    };
    assert forall|fk: u64| #[trigger] w.frames.contains_key(fk) implies w.layers.contains_key(
        w.frames[fk].data.layer,
    ) by {
        assert(v.layers.contains_key(v.frames[fk].data.layer));
    }
    assert forall|lk: u64, fk: u64| w.layers.contains_key(lk) implies #[trigger] count_of(
        w.layers[lk].frames,
        fk,
    ) == frame_count_expected(w, lk, fk) by {
        if lk == key {
            assert(count_of(w.layers[lk].frames, fk) == 0);
            if w.frames.contains_key(fk) {
                assert(v.layers.contains_key(v.frames[fk].data.layer));
                assert(w.frames[fk].data.layer != key);
            }
        } else {
            assert(count_of(v.layers[lk].frames, fk) == frame_count_expected(v, lk, fk));
        }
    }
    assert(frames_owned_ok(w));
    assert forall|fk: u64, sk: u64| w.frames.contains_key(fk) implies #[trigger] count_of(
        w.frames[fk].strokes,
        sk,
    ) == stroke_count_expected(w, fk, sk) by {
        assert(count_of(v.frames[fk].strokes, sk) == stroke_count_expected(v, fk, sk));
    }
    assert(strokes_owned_ok(w));
    assert forall|fk: u64, gk: u64| w.folders.contains_key(fk) implies #[trigger] count_of(
        w.folders[fk].graphics,
        gk,
    ) == graphic_count_expected(w, fk, gk) by {
        assert(count_of(v.folders[fk].graphics, gk) == graphic_count_expected(v, fk, gk));
    }
    assert(graphics_owned_ok(w));
    assert forall|fk: u64, pk: u64| w.folders.contains_key(fk) implies #[trigger] count_of(
        w.folders[fk].palettes,
        pk,
    ) == palette_count_expected(w, fk, pk) by {
        assert(count_of(v.folders[fk].palettes, pk) == palette_count_expected(v, fk, pk));
    }
    assert(palettes_owned_ok(w));
    assert forall|fk: u64, ak: u64| w.folders.contains_key(fk) implies #[trigger] count_of(
        w.folders[fk].audios,
        ak,
    ) == audio_count_expected(w, fk, ak) by {
        assert(count_of(v.folders[fk].audios, ak) == audio_count_expected(v, fk, ak));
    }
    assert(audios_owned_ok(w));
    assert forall|pk: u64, ck: u64| w.folders.contains_key(pk) implies #[trigger] count_of(
        w.folders[pk].folders,
        ck,
    ) == folder_count_expected(w, pk, ck) by {
        assert(count_of(v.folders[pk].folders, ck) == folder_count_expected(v, pk, ck));
    }
    assert(folders_owned_ok(w));
    assert forall|gk: u64, lk: u64| w.graphics.contains_key(gk) implies #[trigger] count_of(
        w.graphics[gk].layers,
        lk,
    ) == if lk == key {
        0nat
    } else {
        layer_in_graphic_expected(w, gk, lk)
    } by {
        assert(count_of(v.graphics[gk].layers, lk) == layer_in_graphic_expected(v, gk, lk));
        if lk == key {
            lemma_count_zero(v.graphics[gk].layers, lk);
        } else {
            assert(w.layers.contains_key(lk) ==> w.layers[lk].data == v.layers[lk].data);
        }
    }
    assert forall|pk: u64, lk: u64| w.layers.contains_key(pk) implies #[trigger] count_of(
        w.layers[pk].layers,
        lk,
    ) == if lk == key {
        0nat
    } else {
        layer_in_layer_expected(w, pk, lk)
    } by {
        if pk == key {
            assert(count_of(w.layers[pk].layers, lk) == 0);
            if lk != key && w.layers.contains_key(lk) {
                assert(match v.layers[lk].data.parent {
                    LayerParent::Graphic(g) => v.graphics.contains_key(g),
                    LayerParent::Layer(p) => v.layers.contains_key(p) && p != lk,
                });
                assert(w.layers[lk].data.parent != LayerParent::Layer(key));
            }
        } else {
            assert(count_of(v.layers[pk].layers, lk) == layer_in_layer_expected(v, pk, lk));
            if lk == key {
            } else {
                assert(w.layers.contains_key(lk) ==> w.layers[lk].data == v.layers[lk].data);
            }
        }
    }
}

/// Dropping an unowned, childless layer from the store restores full
/// ownership.
pub proof fn lemma_layer_drop_unowned(v: ProjV, key: u64)
    requires
        nonlayer_clauses_ok(v),
        layers_unowned_except(v, key),
        v.layers.contains_key(key),
        v.layers[key].frames.len() == 0,
        v.layers[key].layers.len() == 0,
    ensures
        ownership_ok(ProjV { layers: v.layers.remove(key), ..v }),
{
    let w = ProjV { layers: v.layers.remove(key), ..v };
    assert forall|fk: u64| #[trigger] w.frames.contains_key(fk) implies w.layers.contains_key(
        w.frames[fk].data.layer,
    ) by {
        assert(v.layers.contains_key(v.frames[fk].data.layer));
        if v.frames[fk].data.layer == key {
            assert(count_of(v.layers[key].frames, fk) == frame_count_expected(v, key, fk));
            lemma_count_zero(v.layers[key].frames, fk);
        }
    }
    assert forall|lk: u64, fk: u64| w.layers.contains_key(lk) implies #[trigger] count_of(
        w.layers[lk].frames,
        fk,
    ) == frame_count_expected(w, lk, fk) by {
        assert(count_of(v.layers[lk].frames, fk) == frame_count_expected(v, lk, fk));
    }
    assert(frames_owned_ok(w));
    assert forall|fk: u64, sk: u64| w.frames.contains_key(fk) implies #[trigger] count_of(
        w.frames[fk].strokes,
        sk,
    ) == stroke_count_expected(w, fk, sk) by {
        assert(count_of(v.frames[fk].strokes, sk) == stroke_count_expected(v, fk, sk));
    }
    assert(strokes_owned_ok(w));
    assert forall|lk: u64| #[trigger]
        w.layers.contains_key(lk) implies match w.layers[lk].data.parent {
        LayerParent::Graphic(g) => w.graphics.contains_key(g),
        LayerParent::Layer(p) => w.layers.contains_key(p) && p != lk,
    } by {
        assert(lk != key);
        assert(match v.layers[lk].data.parent {
            LayerParent::Graphic(g) => v.graphics.contains_key(g),
            LayerParent::Layer(p) => v.layers.contains_key(p) && p != lk,
        });
        if v.layers[lk].data.parent == LayerParent::Layer(key) {
            assert(count_of(v.layers[key].layers, lk) == 0);
            assert(layer_in_layer_expected(v, key, lk) == 1nat || count_of(
                v.layers[key].layers,
                lk,
            ) == 0);
            lemma_count_zero(v.layers[key].layers, lk);
            assert(false);
        }
    }
    assert forall|gk: u64, lk: u64| w.graphics.contains_key(gk) implies #[trigger] count_of(
        w.graphics[gk].layers,
        lk,
    ) == layer_in_graphic_expected(w, gk, lk) by {
        assert(count_of(v.graphics[gk].layers, lk) == if lk == key {
            0nat
        } else {
            layer_in_graphic_expected(v, gk, lk)
        });
    }
    assert forall|pk: u64, lk: u64| w.layers.contains_key(pk) implies #[trigger] count_of(
        w.layers[pk].layers,
        lk,
    ) == layer_in_layer_expected(w, pk, lk) by {
        assert(count_of(v.layers[pk].layers, lk) == if lk == key {
            0nat
        } else {
            layer_in_layer_expected(v, pk, lk)
        });
    }
    assert(layers_owned_ok(w));
    assert forall|fk: u64, gk: u64| w.folders.contains_key(fk) implies #[trigger] count_of(
        w.folders[fk].graphics,
        gk,
    ) == graphic_count_expected(w, fk, gk) by {
        assert(count_of(v.folders[fk].graphics, gk) == graphic_count_expected(v, fk, gk));
    }
    assert(graphics_owned_ok(w));
    assert forall|fk: u64, pk: u64| w.folders.contains_key(fk) implies #[trigger] count_of(
        w.folders[fk].palettes,
        pk,
    ) == palette_count_expected(w, fk, pk) by {
        assert(count_of(v.folders[fk].palettes, pk) == palette_count_expected(v, fk, pk));
    }
    assert(palettes_owned_ok(w));
    assert forall|fk: u64, ak: u64| w.folders.contains_key(fk) implies #[trigger] count_of(
        w.folders[fk].audios,
        ak,
    ) == audio_count_expected(w, fk, ak) by {
        assert(count_of(v.folders[fk].audios, ak) == audio_count_expected(v, fk, ak));
    }
    assert(audios_owned_ok(w));
    assert forall|pk: u64, ck: u64| w.folders.contains_key(pk) implies #[trigger] count_of(
        w.folders[pk].folders,
        ck,
    ) == folder_count_expected(w, pk, ck) by {
        assert(count_of(v.folders[pk].folders, ck) == folder_count_expected(v, pk, ck));
    }
    assert(folders_owned_ok(w));
}

/// The graph state after inserting a fresh layer `key` with data `data` at
/// position `at` (clamped) of its parent's layer list.
pub open spec fn t_layer_insert(v: ProjV, key: u64, data: LayerDataV, at: int) -> ProjV {
    let v1 = ProjV {
        layers: v.layers.insert(key, LayerV { data, frames: Seq::empty(), layers: Seq::empty() }),
        ..v
    };
    let list = layer_list_of(v1, data.parent);
    with_layer_list(v1, data.parent, list.insert(crate::frame::clamped(at, list.len() as int), key))
}

/// The graph state after overwriting the field data of layer `key`, its
/// parent unchanged.
pub open spec fn t_layer_set(v: ProjV, key: u64, data: LayerDataV) -> ProjV {
    ProjV { layers: v.layers.insert(key, LayerV { data, ..v.layers[key] }), ..v }
}

/// The graph state after removing the childless layer `key`, which sits at
/// position `i` of its parent's layer list.
pub open spec fn t_layer_remove(v: ProjV, key: u64, i: int) -> ProjV {
    let op = v.layers[key].data.parent;
    let v1 = with_layer_list(v, op, layer_list_of(v, op).remove(i));
    ProjV { layers: v1.layers.remove(key), ..v1 }
}

/// The graph state after moving layer `key` from position `i` of its old
/// parent's list to position `at` (clamped) of `np`'s list.
pub open spec fn t_layer_transfer(v: ProjV, key: u64, np: LayerParent, i: int, at: int) -> ProjV {
    let op = v.layers[key].data.parent;
    let v1 = with_layer_list(v, op, layer_list_of(v, op).remove(i));
    let v2 = with_layer_parent(v1, key, np);
    let list = layer_list_of(v2, np);
    with_layer_list(v2, np, list.insert(crate::frame::clamped(at, list.len() as int), key))
}

/// Overwriting a live layer's field data, parent unchanged, preserves the
/// ownership invariant.
pub proof fn lemma_layer_set_ok(v: ProjV, key: u64, data: LayerDataV)
    requires
        ownership_ok(v),
        v.layers.contains_key(key),
        data.parent == v.layers[key].data.parent,
    ensures
        ownership_ok(t_layer_set(v, key, data)),
{
    let w = t_layer_set(v, key, data);
    assert(w.layers.dom() =~= v.layers.dom());
    lemma_nonlayer_clauses(v, w);
    assert forall|lk: u64| #[trigger]
        w.layers.contains_key(lk) implies match w.layers[lk].data.parent {
        LayerParent::Graphic(g) => w.graphics.contains_key(g),
        LayerParent::Layer(p) => w.layers.contains_key(p) && p != lk,
    } by {
        assert(w.layers[lk].data.parent == v.layers[lk].data.parent);
    }
    assert forall|gk: u64, lk: u64| w.graphics.contains_key(gk) implies #[trigger] count_of(
        w.graphics[gk].layers,
        lk,
    ) == layer_in_graphic_expected(w, gk, lk) by {
        assert(count_of(v.graphics[gk].layers, lk) == layer_in_graphic_expected(v, gk, lk));
        assert(w.layers.contains_key(lk) ==> w.layers[lk].data.parent
            == v.layers[lk].data.parent);
    }
    assert forall|pk: u64, lk: u64| w.layers.contains_key(pk) implies #[trigger] count_of(
        w.layers[pk].layers,
        lk,
    ) == layer_in_layer_expected(w, pk, lk) by {
        assert(w.layers[pk].layers == v.layers[pk].layers);
        assert(count_of(v.layers[pk].layers, lk) == layer_in_layer_expected(v, pk, lk));
        assert(w.layers.contains_key(lk) ==> w.layers[lk].data.parent
            == v.layers[lk].data.parent);
    }
    assert(layers_owned_ok(w));
}

impl Project {
    /// Removes `key` from the layer child collection of `op`, returning the
    /// position it held.
    fn detach_layer_from(&mut self, op: LayerParent, key: u64) -> (r: usize)
        requires
            old(self).graphics.wf(),
            old(self).layers.wf(),
            parent_live(old(self)@, op),
            count_of(layer_list_of(old(self)@, op), key) >= 1,
        ensures
            final(self).graphics.wf(),
            final(self).layers.wf(),
            r < layer_list_of(old(self)@, op).len(),
            layer_list_of(old(self)@, op)[r as int] == key,
            final(self)@ == with_layer_list(
                old(self)@,
                op,
                layer_list_of(old(self)@, op).remove(r as int),
            ),
            final(self).graphics.next_key_spec() == old(self).graphics.next_key_spec(),
            final(self).layers.next_key_spec() == old(self).layers.next_key_spec(),
            final(self).frames == old(self).frames,
            final(self).strokes == old(self).strokes,
            final(self).folders == old(self).folders,
            final(self).palettes == old(self).palettes,
            final(self).audio_files == old(self).audio_files,
            final(self).path_file_ptr == old(self).path_file_ptr,
            final(self).hash_file_ptr == old(self).hash_file_ptr,
    {
        match op {
            LayerParent::Graphic(g) => {
                let gptr: ObjPtr<Graphic> = ObjPtr::from_key(g);
                let mut gobj = match self.graphics.remove(gptr) {
                    Some(x) => x,
                    None => {
                        proof {
                            assert(false);
                        }
                        vstd::pervasive::unreached()
                    },
                };
                proof {
                    old(self).graphics.lemma_live_key_bounds(g);
                }
                let ghost oldg = gobj@;
                let mut i: usize = 0;
                let mut found: Option<usize> = None;
                let n = gobj.layers.len();
                while i < n
                    invariant
                        n == gobj.layers@.len(),
                        0 <= i <= n,
                        match found {
                            Some(f) => f < n && gobj.layers@[f as int] == key,
                            None => forall|j: int| 0 <= j < i ==> gobj.layers@[j] != key,
                        },
                    decreases n - i,
                {
                    if found.is_none() && gobj.layers[i] == key {
                        found = Some(i);
                    }
                    i = i + 1;
                }
                let i = match found {
                    Some(f) => f,
                    None => {
                        proof {
                            lemma_count_zero(gobj.layers@, key);
                            assert(false);
                        }
                        vstd::pervasive::unreached()
                    },
                };
                gobj.layers.remove(i);
                proof {
                    assert(gobj@ =~= (GraphicV {
                        layers: oldg.layers.remove(i as int),
                        ..oldg
                    }));
                }
                self.graphics.insert_with_key(g, gobj);
                proof {
                    assert(self@.graphics =~= with_layer_list(
                        old(self)@,
                        op,
                        layer_list_of(old(self)@, op).remove(i as int),
                    ).graphics);
                    assert(self@ =~~= with_layer_list(
                        old(self)@,
                        op,
                        layer_list_of(old(self)@, op).remove(i as int),
                    ));
                }
                i
            },
            LayerParent::Layer(l) => {
                let lptr: ObjPtr<Layer> = ObjPtr::from_key(l);
                let mut lobj = match self.layers.remove(lptr) {
                    Some(x) => x,
                    None => {
                        proof {
                            assert(false);
                        }
                        vstd::pervasive::unreached()
                    },
                };
                proof {
                    old(self).layers.lemma_live_key_bounds(l);
                }
                let ghost oldl = lobj@;
                let mut i: usize = 0;
                let mut found: Option<usize> = None;
                let n = lobj.layers.len();
                while i < n
                    invariant
                        n == lobj.layers@.len(),
                        0 <= i <= n,
                        match found {
                            Some(f) => f < n && lobj.layers@[f as int] == key,
                            None => forall|j: int| 0 <= j < i ==> lobj.layers@[j] != key,
                        },
                    decreases n - i,
                {
                    if found.is_none() && lobj.layers[i] == key {
                        found = Some(i);
                    }
                    i = i + 1;
                }
                let i = match found {
                    Some(f) => f,
                    None => {
                        proof {
                            lemma_count_zero(lobj.layers@, key);
                            assert(false);
                        }
                        vstd::pervasive::unreached()
                    },
                };
                lobj.layers.remove(i);
                proof {
                    assert(lobj@ =~= (LayerV { layers: oldl.layers.remove(i as int), ..oldl }));
                }
                self.layers.insert_with_key(l, lobj);
                proof {
                    assert(self@.layers =~= with_layer_list(
                        old(self)@,
                        op,
                        layer_list_of(old(self)@, op).remove(i as int),
                    ).layers);
                    assert(self@ =~~= with_layer_list(
                        old(self)@,
                        op,
                        layer_list_of(old(self)@, op).remove(i as int),
                    ));
                }
                i
            },
        }
    }

    /// Inserts `key` at position `at` (clamped) of the layer child collection
    /// of `np`.
    fn attach_layer_to(&mut self, np: LayerParent, key: u64, at: usize)
        requires
            old(self).graphics.wf(),
            old(self).layers.wf(),
            parent_live(old(self)@, np),
        ensures
            final(self).graphics.wf(),
            final(self).layers.wf(),
            final(self)@ == with_layer_list(
                old(self)@,
                np,
                layer_list_of(old(self)@, np).insert(
                    crate::frame::clamped(at as int, layer_list_of(old(self)@, np).len() as int),
                    key,
                ),
            ),
            final(self).graphics.next_key_spec() == old(self).graphics.next_key_spec(),
            final(self).layers.next_key_spec() == old(self).layers.next_key_spec(),
            final(self).frames == old(self).frames,
            final(self).strokes == old(self).strokes,
            final(self).folders == old(self).folders,
            final(self).palettes == old(self).palettes,
            final(self).audio_files == old(self).audio_files,
            final(self).path_file_ptr == old(self).path_file_ptr,
            final(self).hash_file_ptr == old(self).hash_file_ptr,
    {
        match np {
            LayerParent::Graphic(g) => {
                let gptr: ObjPtr<Graphic> = ObjPtr::from_key(g);
                let mut gobj = match self.graphics.remove(gptr) {
                    Some(x) => x,
                    None => {
                        proof {
                            assert(false);
                        }
                        vstd::pervasive::unreached()
                    },
                };
                proof {
                    old(self).graphics.lemma_live_key_bounds(g);
                }
                let ghost oldg = gobj@;
                let at2 = if at > gobj.layers.len() {
                    gobj.layers.len()
                } else {
                    at
                };
                gobj.layers.insert(at2, key);
                proof {
                    assert(gobj@ =~= (GraphicV {
                        layers: oldg.layers.insert(at2 as int, key),
                        ..oldg
                    }));
                }
                self.graphics.insert_with_key(g, gobj);
                proof {
                    let t = with_layer_list(
                        old(self)@,
                        np,
                        layer_list_of(old(self)@, np).insert(
                            crate::frame::clamped(
                                at as int,
                                layer_list_of(old(self)@, np).len() as int,
                            ),
                            key,
                        ),
                    );
                    assert(self@.graphics =~= t.graphics);
                    assert(self@ =~~= t);
                }
            },
            LayerParent::Layer(l) => {
                let lptr: ObjPtr<Layer> = ObjPtr::from_key(l);
                let mut lobj = match self.layers.remove(lptr) {
                    Some(x) => x,
                    None => {
                        proof {
                            assert(false);
                        }
                        vstd::pervasive::unreached()
                    },
                };
                proof {
                    old(self).layers.lemma_live_key_bounds(l);
                }
                let ghost oldl = lobj@;
                let at2 = if at > lobj.layers.len() {
                    lobj.layers.len()
                } else {
                    at
                };
                lobj.layers.insert(at2, key);
                proof {
                    assert(lobj@ =~= (LayerV {
                        layers: oldl.layers.insert(at2 as int, key),
                        ..oldl
                    }));
                }
                self.layers.insert_with_key(l, lobj);
                proof {
                    let t = with_layer_list(
                        old(self)@,
                        np,
                        layer_list_of(old(self)@, np).insert(
                            crate::frame::clamped(
                                at as int,
                                layer_list_of(old(self)@, np).len() as int,
                            ),
                            key,
                        ),
                    );
                    assert(self@.layers =~= t.layers);
                    assert(self@ =~~= t);
                }
            },
        }
    }

    /// Rewrites the parent field of layer `key`.
    fn set_layer_parent_field(&mut self, key: u64, np: LayerParent)
        requires
            old(self).layers.wf(),
            old(self)@.layers.contains_key(key),
        ensures
            final(self).layers.wf(),
            final(self)@ == with_layer_parent(old(self)@, key, np),
            final(self).layers.next_key_spec() == old(self).layers.next_key_spec(),
            final(self).graphics == old(self).graphics,
            final(self).frames == old(self).frames,
            final(self).strokes == old(self).strokes,
            final(self).folders == old(self).folders,
            final(self).palettes == old(self).palettes,
            final(self).audio_files == old(self).audio_files,
            final(self).path_file_ptr == old(self).path_file_ptr,
            final(self).hash_file_ptr == old(self).hash_file_ptr,
    {
        let lptr: ObjPtr<Layer> = ObjPtr::from_key(key);
        let mut lobj = match self.layers.remove(lptr) {
            Some(x) => x,
            None => {
                proof {
                    assert(false);
                }
                vstd::pervasive::unreached()
            },
        };
        proof {
            old(self).layers.lemma_live_key_bounds(key);
        }
        let ghost oldl = lobj@;
        lobj.data.parent = np;
        proof {
            assert(lobj@ =~= (LayerV { data: LayerDataV { parent: np, ..oldl.data }, ..oldl }));
        }
        self.layers.insert_with_key(key, lobj);
        proof {
            assert(self@.layers =~= with_layer_parent(old(self)@, key, np).layers);
            assert(self@ =~~= with_layer_parent(old(self)@, key, np));
        }
    }
}

impl Project {
    /// Inserts a layer under a caller-chosen identifier at the given position
    /// of its parent's layer list (clamped). A claimed identifier or a stale
    /// parent makes the call a no-op that reports failure.
    pub fn insert_layer_at(&mut self, key: u64, data: LayerData, at: usize) -> (r: bool)
        requires
            old(self).wf(),
        ensures
            final(self).wf(),
            r == (0 < key < u64::MAX && !old(self)@.layers.contains_key(key) && parent_live(
                old(self)@,
                data@.parent,
            )),
            r ==> final(self)@ == t_layer_insert(old(self)@, key, data@, at as int),
            !r ==> *final(self) == *old(self),
            final(self).layers.next_key_spec() == if r && key >= old(
                self,
            ).layers.next_key_spec() {
                key + 1
            } else {
                old(self).layers.next_key_spec() as int
            },
            final(self).graphics.next_key_spec() == old(self).graphics.next_key_spec(),
            final(self).frames.next_key_spec() == old(self).frames.next_key_spec(),
            final(self).strokes.next_key_spec() == old(self).strokes.next_key_spec(),
            final(self).folders.next_key_spec() == old(self).folders.next_key_spec(),
            final(self).palettes.next_key_spec() == old(self).palettes.next_key_spec(),
            final(self).frames == old(self).frames,
    {
        if key == 0 || key == u64::MAX {
            return false;
        }
        if self.layers.contains(ObjPtr::from_key(key)) {
            return false;
        }
        let alive = match data.parent {
            LayerParent::Graphic(g) => self.graphics.contains(ObjPtr::from_key(g)),
            LayerParent::Layer(l) => self.layers.contains(ObjPtr::from_key(l)),
        };
        if !alive {
            return false;
        }
        let np = data.parent;
        let ghost dv = data@;
        self.layers.insert_with_key(key, Layer::new(data));
        proof {
            lemma_layer_fresh_unowned(old(self)@, key, dv);
            assert(self@.layers =~= old(self)@.layers.insert(
                key,
                LayerV { data: dv, frames: Seq::empty(), layers: Seq::empty() },
            ));
            assert(self@ =~~= (ProjV {
                layers: old(self)@.layers.insert(
                    key,
                    LayerV { data: dv, frames: Seq::empty(), layers: Seq::empty() },
                ),
                ..old(self)@
            }));
        }
        let ghost v1 = self@;
        self.attach_layer_to(np, key, at);
        proof {
            lemma_layer_attach(
                v1,
                key,
                crate::frame::clamped(at as int, layer_list_of(v1, np).len() as int),
            );
            assert(self@ =~~= t_layer_insert(old(self)@, key, dv, at as int));
        }
        true
    }

    /// Overwrites a layer's field data and returns the prior data. A stale
    /// handle, or data that names another parent (parents change only by
    /// transfer), makes the call a no-op returning `None`.
    pub fn replace_layer_data(&mut self, key: u64, data: LayerData) -> (r: Option<LayerData>)
        requires
            old(self).wf(),
        ensures
            final(self).wf(),
            match r {
                Some(prior) => {
                    &&& old(self)@.layers.contains_key(key)
                    &&& prior@ == old(self)@.layers[key].data
                    &&& data@.parent == prior@.parent
                    &&& final(self)@ == t_layer_set(old(self)@, key, data@)
                },
                None => {
                    &&& final(self)@ == old(self)@
                    &&& !(old(self)@.layers.contains_key(key) && data@.parent == old(
                        self,
                    )@.layers[key].data.parent)
                },
            },
            final(self).layers.next_key_spec() == old(self).layers.next_key_spec(),
            final(self).frames == old(self).frames,
    {
        let lptr: ObjPtr<Layer> = ObjPtr::from_key(key);
        let mut lobj = match self.layers.remove(lptr) {
            Some(x) => x,
            None => {
                return None;
            },
        };
        proof {
            old(self).layers.lemma_live_key_bounds(key);
        }
        if !lobj.data.parent.same(data.parent) {
            self.layers.insert_with_key(key, lobj);
            proof {
                assert(self@.layers =~= old(self)@.layers);
                assert(self@ =~~= old(self)@);
            }
            return None;
        }
        proof {
            assert(data@.parent == lobj@.data.parent);
        }
        let prior = lobj.data;
        let ghost oldl = old(self)@.layers[key];
        lobj = Layer { data, frames: lobj.frames, layers: lobj.layers };
        proof {
            assert(lobj@ =~= (LayerV { data: lobj.data@, ..oldl }));
        }
        let ghost dv = lobj.data@;
        self.layers.insert_with_key(key, lobj);
        proof {
            assert(self@.layers =~= t_layer_set(old(self)@, key, dv).layers);
            assert(self@ =~~= t_layer_set(old(self)@, key, dv));
            lemma_layer_set_ok(old(self)@, key, dv);
        }
        Some(prior)
    }

    /// Removes a layer that owns no frames and no sub-layers, detaching it
    /// from its parent's layer list, and returns its field data and its
    /// position in that list. A stale handle, or a layer that still owns
    /// children, makes the call a no-op returning `None`.
    pub fn remove_layer_empty(&mut self, key: u64) -> (r: Option<(LayerData, usize)>)
        requires
            old(self).wf(),
        ensures
            final(self).wf(),
            match r {
                Some((data, i)) => {
                    &&& old(self)@.layers.contains_key(key)
                    &&& data@ == old(self)@.layers[key].data
                    &&& old(self)@.layers[key].frames.len() == 0
                    &&& old(self)@.layers[key].layers.len() == 0
                    &&& 0 <= i < layer_list_of(old(self)@, data@.parent).len()
                    &&& layer_list_of(old(self)@, data@.parent)[i as int] == key
                    &&& final(self)@ == t_layer_remove(old(self)@, key, i as int)
                },
                None => {
                    &&& final(self)@ == old(self)@
                    &&& !(old(self)@.layers.contains_key(key) && old(
                        self,
                    )@.layers[key].frames.len() == 0 && old(self)@.layers[key].layers.len() == 0)
                },
            },
            final(self).layers.next_key_spec() == old(self).layers.next_key_spec(),
            final(self).frames == old(self).frames,
    {
        let lptr: ObjPtr<Layer> = ObjPtr::from_key(key);
        match self.layers.get(lptr) {
            Some(l) => {
                if l.frames.len() > 0 || l.layers.len() > 0 {
                    return None;
                }
            },
            None => {
                return None;
            },
        }
        proof {
            old(self).layers.lemma_live_key_bounds(key);
        }
        let ghost v0 = old(self)@;
        let op = match self.layers.get(lptr) {
            Some(l) => l.data.parent,
            None => {
                proof {
                    assert(false);
                }
                vstd::pervasive::unreached()
            },
        };
        proof {
            assert(count_of(layer_list_of(v0, op), key) == 1) by {
                match op {
                    LayerParent::Graphic(g) => {
                        assert(count_of(v0.graphics[g].layers, key) == layer_in_graphic_expected(
                            v0,
                            g,
                            key,
                        ));
                    },
                    LayerParent::Layer(p) => {
                        assert(count_of(v0.layers[p].layers, key) == layer_in_layer_expected(
                            v0,
                            p,
                            key,
                        ));
                    },
                }
            }
        }
        let i = self.detach_layer_from(op, key);
        proof {
            lemma_layer_detach(v0, key, i as int);
        }
        let ghost v1 = self@;
        let lobj = match self.layers.remove(lptr) {
            Some(x) => x,
            None => {
                proof {
                    assert(false);
                }
                vstd::pervasive::unreached()
            },
        };
        proof {
            lemma_layer_drop_unowned(v1, key);
            assert(self@.layers =~= t_layer_remove(v0, key, i as int).layers);
            assert(self@ =~~= t_layer_remove(v0, key, i as int));
        }
        Some((lobj.data, i))
    }

    /// Moves a layer from its current parent's child collection to position
    /// `at` (clamped) of `new_parent`'s collection, rewriting its parent
    /// field, and returns the old parent and the position the layer held
    /// there. A stale handle, a stale or self-referential new parent, makes
    /// the call a no-op returning `None`. This is the raw move: the cycle
    /// guard lives in [`Layer::transfer`].
    pub fn transfer_layer_at(&mut self, key: u64, new_parent: LayerParent, at: usize) -> (r:
        Option<(LayerParent, usize)>)
        requires
            old(self).wf(),
        ensures
            final(self).wf(),
            match r {
                Some((op, i)) => {
                    &&& old(self)@.layers.contains_key(key)
                    &&& parent_live(old(self)@, new_parent)
                    &&& new_parent != LayerParent::Layer(key)
                    &&& op == old(self)@.layers[key].data.parent
                    &&& 0 <= i < layer_list_of(old(self)@, op).len()
                    &&& layer_list_of(old(self)@, op)[i as int] == key
                    &&& final(self)@ == t_layer_transfer(
                        old(self)@,
                        key,
                        new_parent,
                        i as int,
                        at as int,
                    )
                },
                None => {
                    &&& *final(self) == *old(self)
                    &&& !(old(self)@.layers.contains_key(key) && parent_live(
                        old(self)@,
                        new_parent,
                    ) && new_parent != LayerParent::Layer(key))
                },
            },
            final(self).layers.next_key_spec() == old(self).layers.next_key_spec(),
            final(self).graphics.next_key_spec() == old(self).graphics.next_key_spec(),
            final(self).frames == old(self).frames,
    {
        let lptr: ObjPtr<Layer> = ObjPtr::from_key(key);
        let op = match self.layers.get(lptr) {
            Some(l) => l.data.parent,
            None => {
                return None;
            },
        };
        let alive = match new_parent {
            LayerParent::Graphic(g) => self.graphics.contains(ObjPtr::from_key(g)),
            LayerParent::Layer(l) => l != key && self.layers.contains(ObjPtr::from_key(l)),
        };
        if !alive {
            return None;
        }
        let ghost v0 = old(self)@;
        proof {
            assert(count_of(layer_list_of(v0, op), key) == 1) by {
                match op {
                    LayerParent::Graphic(g) => {
                        assert(count_of(v0.graphics[g].layers, key) == layer_in_graphic_expected(
                            v0,
                            g,
                            key,
                        ));
                    },
                    LayerParent::Layer(p) => {
                        assert(count_of(v0.layers[p].layers, key) == layer_in_layer_expected(
                            v0,
                            p,
                            key,
                        ));
                    },
                }
            }
        }
        let i = self.detach_layer_from(op, key);
        proof {
            lemma_layer_detach(v0, key, i as int);
        }
        let ghost v1 = self@;
        self.set_layer_parent_field(key, new_parent);
        proof {
            lemma_layer_setparent(v1, key, new_parent);
        }
        let ghost v2 = self@;
        self.attach_layer_to(new_parent, key, at);
        proof {
            lemma_layer_attach(
                v2,
                key,
                crate::frame::clamped(at as int, layer_list_of(v2, new_parent).len() as int),
            );
            assert(self@ =~~= t_layer_transfer(v0, key, new_parent, i as int, at as int));
        }
        Some((op, i))
    }
}

/// Whether the `j`-th entry of layer `l`'s frame list is a live frame with
/// time at most `t`.
pub open spec fn frame_cand_at_most(v: ProjV, l: LayerV, t: i32, j: int) -> bool {
    &&& 0 <= j < l.frames.len()
    &&& v.frames.contains_key(l.frames[j])
    &&& v.frames[l.frames[j]].data.time <= t
}

/// Whether the `j`-th entry is a live frame strictly before `t`.
pub open spec fn frame_cand_before(v: ProjV, l: LayerV, t: i32, j: int) -> bool {
    &&& 0 <= j < l.frames.len()
    &&& v.frames.contains_key(l.frames[j])
    &&& v.frames[l.frames[j]].data.time < t
}

/// Whether the `j`-th entry is a live frame strictly after `t`.
pub open spec fn frame_cand_after(v: ProjV, l: LayerV, t: i32, j: int) -> bool {
    &&& 0 <= j < l.frames.len()
    &&& v.frames.contains_key(l.frames[j])
    &&& v.frames[l.frames[j]].data.time > t
}

pub open spec fn frame_time(v: ProjV, l: LayerV, j: int) -> i32 {
    v.frames[l.frames[j]].data.time
}

/// Whether `target` occurs in the parent chain starting at `from`, following
/// at most `fuel` parent links: the defensively bounded ancestor relation
/// that the cycle guard decides.
pub open spec fn reaches_layer(v: ProjV, from: LayerParent, target: u64, fuel: nat) -> bool
    decreases fuel,
{
    match from {
        LayerParent::Graphic(_) => false,
        LayerParent::Layer(l) => l == target || (fuel > 0 && v.layers.contains_key(l)
            && reaches_layer(v, v.layers[l].data.parent, target, (fuel - 1) as nat)),
    }
}

impl Layer {
    /// The frame at `time`: among this layer's live frames with time at most
    /// `time`, the one with the greatest time, ties resolved to the earliest
    /// list position; `None` if there is none.
    pub fn get_frame_at(&self, project: &Project, time: i32) -> (r: Option<ObjPtr<Frame>>)
        requires
            project.wf(),
        ensures
            match r {
                Some(p) => exists|j: int|
                    {
                        &&& #[trigger] frame_cand_at_most(project@, self@, time, j)
                        &&& self@.frames[j] == p.key
                        &&& forall|k: int|
                            #[trigger] frame_cand_at_most(project@, self@, time, k) ==> frame_time(
                                project@,
                                self@,
                                k,
                            ) <= frame_time(project@, self@, j)
                        &&& forall|k: int|
                            k < j && #[trigger] frame_cand_at_most(project@, self@, time, k)
                                ==> frame_time(project@, self@, k) < frame_time(project@, self@, j)
                    },
                None => forall|j: int| !(#[trigger] frame_cand_at_most(project@, self@, time, j)),
            },
    {
        let mut best: Option<usize> = None;
        let mut i: usize = 0;
        let n = self.frames.len();
        while i < n
            invariant
                project.wf(),
                n == self@.frames.len(),
                0 <= i <= n,
                match best {
                    Some(b) => {
                        &&& b < i
                        &&& frame_cand_at_most(project@, self@, time, b as int)
                        &&& forall|k: int|
                            k < i && #[trigger] frame_cand_at_most(project@, self@, time, k)
                                ==> frame_time(project@, self@, k) <= frame_time(
                                project@,
                                self@,
                                b as int,
                            )
                        &&& forall|k: int|
                            k < b && #[trigger] frame_cand_at_most(project@, self@, time, k)
                                ==> frame_time(project@, self@, k) < frame_time(
                                project@,
                                self@,
                                b as int,
                            )
                    },
                    None => forall|k: int|
                        k < i ==> !(#[trigger] frame_cand_at_most(project@, self@, time, k)),
                },
            decreases n - i,
        {
            let fk = self.frames[i];
            match project.frames.get(ObjPtr::from_key(fk)) {
                Some(f) => {
                    if f.data.time <= time {
                        let better = match best {
                            Some(b) => {
                                let bk = self.frames[b];
                                let bt = match project.frames.get(ObjPtr::from_key(bk)) {
                                    Some(bf) => bf.data.time,
                                    None => {
                                        proof {
                                            assert(false);
                                        }
                                        vstd::pervasive::unreached()
                                    },
                                };
                                f.data.time > bt
                            },
                            None => true,
                        };
                        if better {
                            best = Some(i);
                        }
                    }
                },
                None => {},
            }
            i = i + 1;
        }
        match best {
            Some(b) => Some(ObjPtr::from_key(self.frames[b])),
            None => None,
        }
    }

    /// The frame exactly at `time`: the earliest listed live frame whose time
    /// equals `time`, or `None`.
    pub fn get_frame_exactly_at(&self, project: &Project, time: i32) -> (r: Option<ObjPtr<Frame>>)
        requires
            project.wf(),
        ensures
            match r {
                Some(p) => exists|j: int|
                    {
                        &&& 0 <= j < self@.frames.len()
                        &&& #[trigger] project@.frames.contains_key(self@.frames[j])
                        &&& frame_time(project@, self@, j) == time
                        &&& self@.frames[j] == p.key
                        &&& forall|k: int|
                            0 <= k < j && #[trigger] project@.frames.contains_key(self@.frames[k])
                                ==> frame_time(project@, self@, k) != time
                    },
                None => forall|j: int|
                    0 <= j < self@.frames.len() && #[trigger] project@.frames.contains_key(
                        self@.frames[j],
                    ) ==> frame_time(project@, self@, j) != time,
            },
    {
        let mut i: usize = 0;
        let n = self.frames.len();
        while i < n
            invariant
                project.wf(),
                n == self@.frames.len(),
                0 <= i <= n,
                forall|k: int|
                    0 <= k < i && #[trigger] project@.frames.contains_key(self@.frames[k])
                        ==> frame_time(project@, self@, k) != time,
            decreases n - i,
        {
            let fk = self.frames[i];
            match project.frames.get(ObjPtr::from_key(fk)) {
                Some(f) => {
                    if f.data.time == time {
                        proof {
                            let j = i as int;
                            assert(project@.frames.contains_key(self@.frames[j]));
                            assert(frame_time(project@, self@, j) == time);
                        }
                        return Some(ObjPtr::from_key(fk));
                    }
                },
                None => {},
            }
            i = i + 1;
        }
        None
    }

    /// The nearest frame strictly before `time`, ties resolved to the
    /// earliest list position; `None` if there is none.
    pub fn get_frame_before(&self, project: &Project, time: i32) -> (r: Option<ObjPtr<Frame>>)
        requires
            project.wf(),
        ensures
            match r {
                Some(p) => exists|j: int|
                    {
                        &&& #[trigger] frame_cand_before(project@, self@, time, j)
                        &&& self@.frames[j] == p.key
                        &&& forall|k: int|
                            #[trigger] frame_cand_before(project@, self@, time, k) ==> frame_time(
                                project@,
                                self@,
                                k,
                            ) <= frame_time(project@, self@, j)
                        &&& forall|k: int|
                            k < j && #[trigger] frame_cand_before(project@, self@, time, k)
                                ==> frame_time(project@, self@, k) < frame_time(project@, self@, j)
                    },
                None => forall|j: int| !(#[trigger] frame_cand_before(project@, self@, time, j)),
            },
    {
        let mut best: Option<usize> = None;
        let mut i: usize = 0;
        let n = self.frames.len();
        while i < n
            invariant
                project.wf(),
                n == self@.frames.len(),
                0 <= i <= n,
                match best {
                    Some(b) => {
                        &&& b < i
                        &&& frame_cand_before(project@, self@, time, b as int)
                        &&& forall|k: int|
                            k < i && #[trigger] frame_cand_before(project@, self@, time, k)
                                ==> frame_time(project@, self@, k) <= frame_time(
                                project@,
                                self@,
                                b as int,
                            )
                        &&& forall|k: int|
                            k < b && #[trigger] frame_cand_before(project@, self@, time, k)
                                ==> frame_time(project@, self@, k) < frame_time(
                                project@,
                                self@,
                                b as int,
                            )
                    },
                    None => forall|k: int|
                        k < i ==> !(#[trigger] frame_cand_before(project@, self@, time, k)),
                },
            decreases n - i,
        {
            let fk = self.frames[i];
            match project.frames.get(ObjPtr::from_key(fk)) {
                Some(f) => {
                    if f.data.time < time {
                        let better = match best {
                            Some(b) => {
                                let bk = self.frames[b];
                                let bt = match project.frames.get(ObjPtr::from_key(bk)) {
                                    Some(bf) => bf.data.time,
                                    None => {
                                        proof {
                                            assert(false);
                                        }
                                        vstd::pervasive::unreached()
                                    },
                                };
                                f.data.time > bt
                            },
                            None => true,
                        };
                        if better {
                            best = Some(i);
                        }
                    }
                },
                None => {},
            }
            i = i + 1;
        }
        match best {
            Some(b) => Some(ObjPtr::from_key(self.frames[b])),
            None => None,
        }
    }

    /// The nearest frame strictly after `time`, ties resolved to the
    /// earliest list position; `None` if there is none.
    pub fn get_frame_after(&self, project: &Project, time: i32) -> (r: Option<ObjPtr<Frame>>)
        requires
            project.wf(),
        ensures
            match r {
                Some(p) => exists|j: int|
                    {
                        &&& #[trigger] frame_cand_after(project@, self@, time, j)
                        &&& self@.frames[j] == p.key
                        &&& forall|k: int|
                            #[trigger] frame_cand_after(project@, self@, time, k) ==> frame_time(
                                project@,
                                self@,
                                k,
                            ) >= frame_time(project@, self@, j)
                        &&& forall|k: int|
                            k < j && #[trigger] frame_cand_after(project@, self@, time, k)
                                ==> frame_time(project@, self@, k) > frame_time(project@, self@, j)
                    },
                None => forall|j: int| !(#[trigger] frame_cand_after(project@, self@, time, j)),
            },
    {
        let mut best: Option<usize> = None;
        let mut i: usize = 0;
        let n = self.frames.len();
        while i < n
            invariant
                project.wf(),
                n == self@.frames.len(),
                0 <= i <= n,
                match best {
                    Some(b) => {
                        &&& b < i
                        &&& frame_cand_after(project@, self@, time, b as int)
                        &&& forall|k: int|
                            k < i && #[trigger] frame_cand_after(project@, self@, time, k)
                                ==> frame_time(project@, self@, k) >= frame_time(
                                project@,
                                self@,
                                b as int,
                            )
                        &&& forall|k: int|
                            k < b && #[trigger] frame_cand_after(project@, self@, time, k)
                                ==> frame_time(project@, self@, k) > frame_time(
                                project@,
                                self@,
                                b as int,
                            )
                    },
                    None => forall|k: int|
                        k < i ==> !(#[trigger] frame_cand_after(project@, self@, time, k)),
                },
            decreases n - i,
        {
            let fk = self.frames[i];
            match project.frames.get(ObjPtr::from_key(fk)) {
                Some(f) => {
                    if f.data.time > time {
                        let better = match best {
                            Some(b) => {
                                let bk = self.frames[b];
                                let bt = match project.frames.get(ObjPtr::from_key(bk)) {
                                    Some(bf) => bf.data.time,
                                    None => {
                                        proof {
                                            assert(false);
                                        }
                                        vstd::pervasive::unreached()
                                    },
                                };
                                f.data.time < bt
                            },
                            None => true,
                        };
                        if better {
                            best = Some(i);
                        }
                    }
                },
                None => {},
            }
            i = i + 1;
        }
        match best {
            Some(b) => Some(ObjPtr::from_key(self.frames[b])),
            None => None,
        }
    }

    /// Whether `layer` appears in the ancestor chain starting at `parent`,
    /// following at most as many parent links as there are live layers: the
    /// defensive bound turns a corrupted cyclic chain into a negative answer
    /// instead of an endless walk.
    pub fn inside(project: &Project, layer: ObjPtr<Layer>, parent: LayerParent) -> (r: bool)
        requires
            project.wf(),
        ensures
            r == reaches_layer(project@, parent, layer.key, project@.layers.len()),
    {
        let fuel = project.layers.len();
        Self::inside_fueled(project, layer.key, parent, fuel)
    }

    /// The graphic at the top of a layer's parent chain, following at most
    /// `fuel` links: the asset file the layer is stored in.
    pub open spec fn root_asset_of(v: ProjV, lk: u64, fuel: nat) -> Option<u64>
        decreases fuel,
    {
        if !v.layers.contains_key(lk) {
            None
        } else {
            match v.layers[lk].data.parent {
                LayerParent::Graphic(g) => Some(g),
                LayerParent::Layer(p) => if fuel == 0 {
                    None
                } else {
                    Self::root_asset_of(v, p, (fuel - 1) as nat)
                },
            }
        }
    }

    /// The graphic whose asset file owns this layer, found by walking the
    /// parent chain; bounded by the number of live layers, so a corrupted
    /// cyclic chain yields `None` instead of an endless walk.
    pub fn get_root_asset(project: &Project, ptr: ObjPtr<Layer>) -> (r: Option<ObjPtr<Graphic>>)
        requires
            project.wf(),
        ensures
            match r {
                Some(g) => Self::root_asset_of(project@, ptr.key, project@.layers.len()) == Some(
                    g.key,
                ),
                None => Self::root_asset_of(project@, ptr.key, project@.layers.len()) is None,
            },
    {
        let fuel = project.layers.len();
        Self::root_asset_fueled(project, ptr.key, fuel)
    }

    fn root_asset_fueled(project: &Project, lk: u64, fuel: usize) -> (r: Option<ObjPtr<Graphic>>)
        requires
            project.wf(),
        ensures
            match r {
                Some(g) => Self::root_asset_of(project@, lk, fuel as nat) == Some(g.key),
                None => Self::root_asset_of(project@, lk, fuel as nat) is None,
            },
        decreases fuel,
    {
        let lobj = match project.layers.get(ObjPtr::from_key(lk)) {
            Some(l) => l,
            None => {
                return None;
            },
        };
        match lobj.data.parent {
            LayerParent::Graphic(g) => Some(ObjPtr::from_key(g)),
            LayerParent::Layer(p) => {
                if fuel == 0 {
                    return None;
                }
                Self::root_asset_fueled(project, p, fuel - 1)
            },
        }
    }

    fn inside_fueled(project: &Project, layer: u64, parent: LayerParent, fuel: usize) -> (r: bool)
        requires
            project.wf(),
        ensures
            r == reaches_layer(project@, parent, layer, fuel as nat),
        decreases fuel,
    {
        match parent {
            LayerParent::Graphic(_) => false,
            LayerParent::Layer(l) => {
                if l == layer {
                    return true;
                }
                if fuel == 0 {
                    return false;
                }
                match project.layers.get(ObjPtr::from_key(l)) {
                    Some(lobj) => Self::inside_fueled(project, layer, lobj.data.parent, fuel - 1),
                    None => false,
                }
            },
        }
    }
}

} // verus!
