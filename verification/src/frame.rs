//! Frames: keyframes at an integer time, owned by a layer, owning strokes.

use vstd::prelude::*;

use crate::counts::{count_of, lemma_count_insert, lemma_count_zero};
use crate::layer::{Layer, LayerV};
use crate::project::{
    audio_count_expected, audios_owned_ok, folder_count_expected, folders_owned_ok,
    frame_count_expected, frames_owned_ok, graphic_count_expected, graphics_owned_ok,
    layer_in_graphic_expected, layer_in_layer_expected, layers_owned_ok, ownership_ok,
    palette_count_expected, palettes_owned_ok, stroke_count_expected, strokes_owned_ok, ProjV,
    Project,
};
use crate::store::ObjPtr;

verus! {

/// The journaled field data of a frame. `layer` is the identifier of the
/// owning parent.
#[derive(Clone, Copy)]
pub struct FrameData {
    pub time: i32,
    pub layer: u64,
}

impl View for FrameData {
    type V = FrameData;

    open spec fn view(&self) -> FrameData {
        *self
    }
}

/// A live frame: its field data plus the owning handles of its strokes.
pub struct Frame {
    pub data: FrameData,
    pub strokes: Vec<u64>,
}

#[verifier::ext_equal]
pub struct FrameV {
    pub data: FrameData,
    pub strokes: Seq<u64>,
}

impl View for Frame {
    type V = FrameV;

    open spec fn view(&self) -> FrameV {
        FrameV { data: self.data, strokes: self.strokes@ }
    }
}

impl Frame {
    pub fn new(data: FrameData) -> (r: Self)
        ensures
            r@.data == data,
            r@.strokes =~= Seq::<u64>::empty(),
    {
        Frame { data, strokes: Vec::new() }
    }
}

/// A list position clamped to the list's length.
pub open spec fn clamped(at: int, len: int) -> int {
    if at <= len {
        at
    } else {
        len
    }
}

/// The graph state after inserting a fresh frame `key` with data `data` at
/// position `at` of its layer's frame list.
pub open spec fn t_frame_insert(v: ProjV, key: u64, data: FrameData, at: int) -> ProjV {
    let l = v.layers[data.layer];
    ProjV {
        frames: v.frames.insert(key, FrameV { data, strokes: Seq::empty() }),
        layers: v.layers.insert(data.layer, LayerV { frames: l.frames.insert(at, key), ..l }),
        ..v
    }
}

/// Inserting a fresh frame under a live layer preserves the ownership
/// invariant.
pub proof fn lemma_frame_insert_ok(v: ProjV, key: u64, data: FrameData, at: int)
    requires
        ownership_ok(v),
        !v.frames.contains_key(key),
        v.layers.contains_key(data.layer),
        0 <= at <= v.layers[data.layer].frames.len(),
    ensures
        ownership_ok(t_frame_insert(v, key, data, at)),
{
    let w = t_frame_insert(v, key, data, at);
    let ll = data.layer;
    let oldlist = v.layers[ll].frames;
    assert(w.layers.dom() =~= v.layers.dom());
    assert forall|fk: u64| #[trigger] w.frames.contains_key(fk) implies w.layers.contains_key(
        w.frames[fk].data.layer,
    ) by {}
    assert forall|lk: u64, fk: u64| w.layers.contains_key(lk) implies #[trigger] count_of(
        w.layers[lk].frames,
        fk,
    ) == frame_count_expected(w, lk, fk) by {
        if lk == ll {
            lemma_count_insert(oldlist, at, key, fk);
            assert(count_of(oldlist, fk) == frame_count_expected(v, ll, fk));
        } else {
            assert(w.layers[lk] == v.layers[lk]);
            assert(count_of(v.layers[lk].frames, fk) == frame_count_expected(v, lk, fk));
        }
    }
    assert(frames_owned_ok(w));
    assert forall|sk: u64| #[trigger] w.strokes.contains_key(sk) implies w.frames.contains_key(
        w.strokes[sk].data.frame,
    ) by {}
    assert forall|fk: u64, sk: u64| w.frames.contains_key(fk) implies #[trigger] count_of(
        w.frames[fk].strokes,
        sk,
    ) == stroke_count_expected(w, fk, sk) by {
        if fk == key {
            assert(count_of(w.frames[fk].strokes, sk) == 0);
            if w.strokes.contains_key(sk) {
                assert(v.frames.contains_key(v.strokes[sk].data.frame));
                assert(w.strokes[sk].data.frame != key);
            }
        } else {
            assert(w.frames[fk] == v.frames[fk]);
            assert(count_of(v.frames[fk].strokes, sk) == stroke_count_expected(v, fk, sk));
        }
    }
    assert(strokes_owned_ok(w));
    assert forall|lk: u64| #[trigger] w.layers.contains_key(lk) implies match w.layers[lk].data.parent {
        crate::layer::LayerParent::Graphic(g) => w.graphics.contains_key(g),
        crate::layer::LayerParent::Layer(p) => w.layers.contains_key(p),
    } by {
        assert(w.layers[lk].data == v.layers[lk].data);
    }
    assert forall|gk: u64, lk: u64| w.graphics.contains_key(gk) implies #[trigger] count_of(
        w.graphics[gk].layers,
        lk,
    ) == layer_in_graphic_expected(w, gk, lk) by {
        assert(count_of(v.graphics[gk].layers, lk) == layer_in_graphic_expected(v, gk, lk));
        assert(w.layers.contains_key(lk) ==> w.layers[lk].data == v.layers[lk].data);
    }
    assert forall|pk: u64, lk: u64| w.layers.contains_key(pk) implies #[trigger] count_of(
        w.layers[pk].layers,
        lk,
    ) == layer_in_layer_expected(w, pk, lk) by {
        assert(w.layers[pk].layers == v.layers[pk].layers);
        assert(count_of(v.layers[pk].layers, lk) == layer_in_layer_expected(v, pk, lk));
        assert(w.layers.contains_key(lk) ==> w.layers[lk].data == v.layers[lk].data);
    }
    assert(layers_owned_ok(w));
    assert forall|fk: u64, gk: u64| w.folders.contains_key(fk) implies #[trigger] count_of(
        w.folders[fk].graphics,
        gk,
    ) == graphic_count_expected(w, fk, gk) by {
        assert(count_of(v.folders[fk].graphics, gk) == graphic_count_expected(v, fk, gk));
    }
    assert(graphics_owned_ok(w));
    assert forall|fk: u64, pk: u64| w.folders.contains_key(fk) implies #[trigger] count_of(
        w.folders[fk].palettes,
        pk,
    ) == palette_count_expected(w, fk, pk) by {
        assert(count_of(v.folders[fk].palettes, pk) == palette_count_expected(v, fk, pk));
    }
    assert(palettes_owned_ok(w));
    assert forall|fk: u64, ak: u64| w.folders.contains_key(fk) implies #[trigger] count_of(
        w.folders[fk].audios,
        ak,
    ) == audio_count_expected(w, fk, ak) by {
        assert(count_of(v.folders[fk].audios, ak) == audio_count_expected(v, fk, ak));
    }
    assert(audios_owned_ok(w));
    assert forall|pk: u64, ck: u64| w.folders.contains_key(pk) implies #[trigger] count_of(
        w.folders[pk].folders,
        ck,
    ) == folder_count_expected(w, pk, ck) by {
        assert(count_of(v.folders[pk].folders, ck) == folder_count_expected(v, pk, ck));
    }
    assert(folders_owned_ok(w));
}

/// The graph state after overwriting the field data of frame `key`, its
/// parent unchanged.
pub open spec fn t_frame_set(v: ProjV, key: u64, data: FrameData) -> ProjV {
    ProjV { frames: v.frames.insert(key, FrameV { data, strokes: v.frames[key].strokes }), ..v }
}

/// Overwriting a live frame's field data, parent unchanged, preserves the
/// ownership invariant.
pub proof fn lemma_frame_set_ok(v: ProjV, key: u64, data: FrameData)
    requires
        ownership_ok(v),
        v.frames.contains_key(key),
        data.layer == v.frames[key].data.layer,
    ensures
        ownership_ok(t_frame_set(v, key, data)),
{
    let w = t_frame_set(v, key, data);
    assert(w.frames.dom() =~= v.frames.dom());
    assert forall|lk: u64, fk: u64| w.layers.contains_key(lk) implies #[trigger] count_of(
        w.layers[lk].frames,
        fk,
    ) == frame_count_expected(w, lk, fk) by {
        assert(count_of(v.layers[lk].frames, fk) == frame_count_expected(v, lk, fk));
    }
    assert(frames_owned_ok(w));
    assert forall|fk: u64, sk: u64| w.frames.contains_key(fk) implies #[trigger] count_of(
        w.frames[fk].strokes,
        sk,
    ) == stroke_count_expected(w, fk, sk) by {
        assert(w.frames[fk].strokes == v.frames[fk].strokes);
        assert(count_of(v.frames[fk].strokes, sk) == stroke_count_expected(v, fk, sk));
    }
    assert(strokes_owned_ok(w));
    assert forall|gk: u64, lk: u64| w.graphics.contains_key(gk) implies #[trigger] count_of(
        w.graphics[gk].layers,
        lk,
    ) == layer_in_graphic_expected(w, gk, lk) by {
        assert(count_of(v.graphics[gk].layers, lk) == layer_in_graphic_expected(v, gk, lk));
    }
    assert forall|pk: u64, lk: u64| w.layers.contains_key(pk) implies #[trigger] count_of(
        w.layers[pk].layers,
        lk,
    ) == layer_in_layer_expected(w, pk, lk) by {
        assert(count_of(v.layers[pk].layers, lk) == layer_in_layer_expected(v, pk, lk));
    }
    assert(layers_owned_ok(w));
    assert forall|fk: u64, gk: u64| w.folders.contains_key(fk) implies #[trigger] count_of(
        w.folders[fk].graphics,
        gk,
    ) == graphic_count_expected(w, fk, gk) by {
        assert(count_of(v.folders[fk].graphics, gk) == graphic_count_expected(v, fk, gk));
    }
    assert(graphics_owned_ok(w));
    assert forall|fk: u64, pk: u64| w.folders.contains_key(fk) implies #[trigger] count_of(
        w.folders[fk].palettes,
        pk,
    ) == palette_count_expected(w, fk, pk) by {
        assert(count_of(v.folders[fk].palettes, pk) == palette_count_expected(v, fk, pk));
    }
    assert(palettes_owned_ok(w));
    assert forall|fk: u64, ak: u64| w.folders.contains_key(fk) implies #[trigger] count_of(
        w.folders[fk].audios,
        ak,
    ) == audio_count_expected(w, fk, ak) by {
        assert(count_of(v.folders[fk].audios, ak) == audio_count_expected(v, fk, ak));
    }
    assert(audios_owned_ok(w));
    assert forall|pk: u64, ck: u64| w.folders.contains_key(pk) implies #[trigger] count_of(
        w.folders[pk].folders,
        ck,
    ) == folder_count_expected(w, pk, ck) by {
        assert(count_of(v.folders[pk].folders, ck) == folder_count_expected(v, pk, ck));
    }
    assert(folders_owned_ok(w));
}

/// The graph state after removing the (stroke-less) frame `key`, which sits
/// at position `i` of its layer's frame list.
pub open spec fn t_frame_remove(v: ProjV, key: u64, i: int) -> ProjV {
    let ll = v.frames[key].data.layer;
    let l = v.layers[ll];
    ProjV {
        frames: v.frames.remove(key),
        layers: v.layers.insert(ll, LayerV { frames: l.frames.remove(i), ..l }),
        ..v
    }
}

/// Removing a live frame that owns no strokes preserves the ownership
/// invariant.
pub proof fn lemma_frame_remove_ok(v: ProjV, key: u64, i: int)
    requires
        ownership_ok(v),
        v.frames.contains_key(key),
        v.frames[key].strokes.len() == 0,
        0 <= i < v.layers[v.frames[key].data.layer].frames.len(),
        v.layers[v.frames[key].data.layer].frames[i] == key,
    ensures
        ownership_ok(t_frame_remove(v, key, i)),
{
    let w = t_frame_remove(v, key, i);
    let ll = v.frames[key].data.layer;
    let oldlist = v.layers[ll].frames;
    assert(w.layers.dom() =~= v.layers.dom());
    assert forall|fk: u64| #[trigger] w.frames.contains_key(fk) implies w.layers.contains_key(
        w.frames[fk].data.layer,
    ) by {}
    assert forall|lk: u64, fk: u64| w.layers.contains_key(lk) implies #[trigger] count_of(
        w.layers[lk].frames,
        fk,
    ) == frame_count_expected(w, lk, fk) by {
        assert(count_of(v.layers[lk].frames, fk) == frame_count_expected(v, lk, fk));
        if lk == ll {
            crate::counts::lemma_count_remove(oldlist, i, fk);
        } else {
            assert(w.layers[lk] == v.layers[lk]);
        }
    }
    assert(frames_owned_ok(w));
    assert forall|sk: u64| #[trigger] w.strokes.contains_key(sk) implies w.frames.contains_key(
        w.strokes[sk].data.frame,
    ) by {
        assert(v.frames.contains_key(v.strokes[sk].data.frame));
        if v.strokes[sk].data.frame == key {
            assert(count_of(v.frames[key].strokes, sk) == 1);
            lemma_count_zero(v.frames[key].strokes, sk);
        }
    }
    assert forall|fk: u64, sk: u64| w.frames.contains_key(fk) implies #[trigger] count_of(
        w.frames[fk].strokes,
        sk,
    ) == stroke_count_expected(w, fk, sk) by {
        assert(w.frames[fk] == v.frames[fk]);
        assert(count_of(v.frames[fk].strokes, sk) == stroke_count_expected(v, fk, sk));
    }
    assert(strokes_owned_ok(w));
    assert forall|lk: u64| #[trigger] w.layers.contains_key(lk) implies match w.layers[lk].data.parent {
        crate::layer::LayerParent::Graphic(g) => w.graphics.contains_key(g),
        crate::layer::LayerParent::Layer(p) => w.layers.contains_key(p),
    } by {
        assert(w.layers[lk].data == v.layers[lk].data);
    }
    assert forall|gk: u64, lk: u64| w.graphics.contains_key(gk) implies #[trigger] count_of(
        w.graphics[gk].layers,
        lk,
    ) == layer_in_graphic_expected(w, gk, lk) by {
        assert(count_of(v.graphics[gk].layers, lk) == layer_in_graphic_expected(v, gk, lk));
        assert(w.layers.contains_key(lk) ==> w.layers[lk].data == v.layers[lk].data);
    }
    assert forall|pk: u64, lk: u64| w.layers.contains_key(pk) implies #[trigger] count_of(
        w.layers[pk].layers,
        lk,
    ) == layer_in_layer_expected(w, pk, lk) by {
        assert(w.layers[pk].layers == v.layers[pk].layers);
        assert(count_of(v.layers[pk].layers, lk) == layer_in_layer_expected(v, pk, lk));
        assert(w.layers.contains_key(lk) ==> w.layers[lk].data == v.layers[lk].data);
    }
    assert(layers_owned_ok(w));
    assert forall|fk: u64, gk: u64| w.folders.contains_key(fk) implies #[trigger] count_of(
        w.folders[fk].graphics,
        gk,
    ) == graphic_count_expected(w, fk, gk) by {
        assert(count_of(v.folders[fk].graphics, gk) == graphic_count_expected(v, fk, gk));
    }
    assert(graphics_owned_ok(w));
    assert forall|fk: u64, pk: u64| w.folders.contains_key(fk) implies #[trigger] count_of(
        w.folders[fk].palettes,
        pk,
    ) == palette_count_expected(w, fk, pk) by {
        assert(count_of(v.folders[fk].palettes, pk) == palette_count_expected(v, fk, pk));
    }
    assert(palettes_owned_ok(w));
    assert forall|fk: u64, ak: u64| w.folders.contains_key(fk) implies #[trigger] count_of(
        w.folders[fk].audios,
        ak,
    ) == audio_count_expected(w, fk, ak) by {
        assert(count_of(v.folders[fk].audios, ak) == audio_count_expected(v, fk, ak));
    }
    assert(audios_owned_ok(w));
    assert forall|pk: u64, ck: u64| w.folders.contains_key(pk) implies #[trigger] count_of(
        w.folders[pk].folders,
        ck,
    ) == folder_count_expected(w, pk, ck) by {
        assert(count_of(v.folders[pk].folders, ck) == folder_count_expected(v, pk, ck));
    }
    assert(folders_owned_ok(w));
}

impl Project {
    /// Inserts a frame under a caller-chosen identifier at the given position
    /// of its layer's frame list (clamped to the list's length). A claimed
    /// identifier or a stale layer handle makes the call a no-op that reports
    /// failure; used both by fresh additions (appending) and by undo/redo
    /// replay (restoring a frame at its recorded position).
    pub fn insert_frame_at(&mut self, key: u64, data: FrameData, at: usize) -> (r: bool)
        requires
            old(self).wf(),
        ensures
            final(self).wf(),
            r == (0 < key < u64::MAX && !old(self)@.frames.contains_key(key)
                && old(self)@.layers.contains_key(data.layer)),
            r ==> final(self)@ == t_frame_insert(
                old(self)@,
                key,
                data,
                clamped(at as int, old(self)@.layers[data.layer].frames.len() as int),
            ),
            !r ==> *final(self) == *old(self),
            final(self).frames.next_key_spec() == if r && key >= old(
                self,
            ).frames.next_key_spec() {
                key + 1
            } else {
                old(self).frames.next_key_spec() as int
            },
            final(self).layers.next_key_spec() == old(self).layers.next_key_spec(),
            final(self).strokes.next_key_spec() == old(self).strokes.next_key_spec(),
            final(self).folders.next_key_spec() == old(self).folders.next_key_spec(),
            final(self).graphics.next_key_spec() == old(self).graphics.next_key_spec(),
            final(self).palettes.next_key_spec() == old(self).palettes.next_key_spec(),
    {
        if key == 0 || key == u64::MAX {
            return false;
        }
        if self.frames.contains(ObjPtr::from_key(key)) {
            return false;
        }
        let lptr: ObjPtr<Layer> = ObjPtr::from_key(data.layer);
        let mut layer = match self.layers.remove(lptr) {
            Some(l) => l,
            None => {
                return false;
            },
        };
        proof {
            old(self).layers.lemma_live_key_bounds(data.layer);
        }
        let ghost oldlayer = layer@;
        let at2 = if at > layer.frames.len() {
            layer.frames.len()
        } else {
            at
        };
        layer.frames.insert(at2, key);
        proof {
            assert(layer@ =~= (LayerV {
                frames: oldlayer.frames.insert(at2 as int, key),
                ..oldlayer
            }));
        }
        self.layers.insert_with_key(data.layer, layer);
        self.frames.insert_with_key(key, Frame::new(data));
        proof {
            assert(self@.layers =~= old(self)@.layers.insert(data.layer, (LayerV {
                frames: oldlayer.frames.insert(at2 as int, key),
                ..oldlayer
            })));
            let t = t_frame_insert(
                old(self)@,
                key,
                data,
                clamped(at as int, old(self)@.layers[data.layer].frames.len() as int),
            );
            assert(self@.frames =~= t.frames);
            assert(self@ =~~= t);
            lemma_frame_insert_ok(
                old(self)@,
                key,
                data,
                clamped(at as int, old(self)@.layers[data.layer].frames.len() as int),
            );
        }
        true
    }

    /// Overwrites a frame's field data and returns the prior data. A stale
    /// handle, or data that names another parent layer (parents change only
    /// by transfer), makes the call a no-op returning `None`.
    pub fn replace_frame_data(&mut self, key: u64, data: FrameData) -> (r: Option<FrameData>)
        requires
            old(self).wf(),
        ensures
            final(self).wf(),
            match r {
                Some(prior) => {
                    &&& old(self)@.frames.contains_key(key)
                    &&& prior == old(self)@.frames[key].data
                    &&& data.layer == prior.layer
                    &&& final(self)@ == t_frame_set(old(self)@, key, data)
                },
                None => {
                    &&& final(self)@ == old(self)@
                    &&& !(old(self)@.frames.contains_key(key) && data.layer == old(
                        self,
                    )@.frames[key].data.layer)
                },
            },
            final(self).frames.next_key_spec() == old(self).frames.next_key_spec(),
            final(self).layers.next_key_spec() == old(self).layers.next_key_spec(),
    {
        let fptr: ObjPtr<Frame> = ObjPtr::from_key(key);
        let frame = match self.frames.remove(fptr) {
            Some(f) => f,
            None => {
                return None;
            },
        };
        proof {
            old(self).frames.lemma_live_key_bounds(key);
        }
        if data.layer != frame.data.layer {
            let ghost prior = frame@;
            self.frames.insert_with_key(key, frame);
            proof {
                assert(self@.frames =~= old(self)@.frames);
                assert(self@ =~~= old(self)@);
            }
            return None;
        }
        let prior = frame.data;
        self.frames.insert_with_key(key, Frame { data, strokes: frame.strokes });
        proof {
            assert(self@.frames =~= t_frame_set(old(self)@, key, data).frames);
            assert(self@ =~~= t_frame_set(old(self)@, key, data));
            lemma_frame_set_ok(old(self)@, key, data);
        }
        Some(prior)
    }

    /// Removes a frame that owns no strokes, detaching it from its layer's
    /// frame list, and returns its field data and its position in that list.
    /// A stale handle, or a frame that still owns strokes, makes the call a
    /// no-op returning `None`.
    pub fn remove_frame_empty(&mut self, key: u64) -> (r: Option<(FrameData, usize)>)
        requires
            old(self).wf(),
        ensures
            final(self).wf(),
            match r {
                Some((data, i)) => {
                    &&& old(self)@.frames.contains_key(key)
                    &&& data == old(self)@.frames[key].data
                    &&& old(self)@.frames[key].strokes.len() == 0
                    &&& 0 <= i < old(self)@.layers[data.layer].frames.len()
                    &&& old(self)@.layers[data.layer].frames[i as int] == key
                    &&& final(self)@ == t_frame_remove(old(self)@, key, i as int)
                },
                None => {
                    &&& final(self)@ == old(self)@
                    &&& !(old(self)@.frames.contains_key(key) && old(
                        self,
                    )@.frames[key].strokes.len() == 0)
                },
            },
            final(self).frames.next_key_spec() == old(self).frames.next_key_spec(),
            final(self).layers.next_key_spec() == old(self).layers.next_key_spec(),
    {
        let fptr: ObjPtr<Frame> = ObjPtr::from_key(key);
        let frame = match self.frames.remove(fptr) {
            Some(f) => f,
            None => {
                return None;
            },
        };
        proof {
            old(self).frames.lemma_live_key_bounds(key);
        }
        if frame.strokes.len() > 0 {
            self.frames.insert_with_key(key, frame);
            proof {
                assert(self@.frames =~= old(self)@.frames);
                assert(self@ =~~= old(self)@);
            }
            return None;
        }
        let ll = frame.data.layer;
        proof {
            assert(old(self)@.frames.contains_key(key));
            assert(frame@ == old(self)@.frames[key]);
            assert(old(self)@.layers.contains_key(ll));
        }
        let lptr: ObjPtr<Layer> = ObjPtr::from_key(ll);
        let mut layer = match self.layers.remove(lptr) {
            Some(l) => l,
            None => {
                proof {
                    assert(false);
                }
                vstd::pervasive::unreached()
            },
        };
        proof {
            old(self).layers.lemma_live_key_bounds(ll);
            assert(count_of(old(self)@.layers[ll].frames, key) == 1);
        }
        let ghost oldlayer = layer@;
        let mut i: usize = 0;
        let mut found: Option<usize> = None;
        let n = layer.frames.len();
        while i < n
            invariant
                n == layer.frames@.len(),
                0 <= i <= n,
                match found {
                    Some(f) => f < n && layer.frames@[f as int] == key,
                    None => forall|j: int| 0 <= j < i ==> layer.frames@[j] != key,
                },
            decreases n - i,
        {
            if found.is_none() && layer.frames[i] == key {
                found = Some(i);
            }
            i = i + 1;
        }
        let i = match found {
            Some(f) => f,
            None => {
                proof {
                    lemma_count_zero(layer.frames@, key);
                    assert(false);
                }
                vstd::pervasive::unreached()
            },
        };
        let ghost idx = i as int;
        layer.frames.remove(i);
        proof {
            assert(layer@ =~= (LayerV { frames: oldlayer.frames.remove(idx), ..oldlayer }));
        }
        self.layers.insert_with_key(ll, layer);
        proof {
            let t = t_frame_remove(old(self)@, key, idx);
            assert(self@.layers =~= t.layers);
            assert(self@.frames =~= t.frames);
            assert(self@ =~~= t);
            lemma_frame_remove_ok(old(self)@, key, idx);
        }
        Some((frame.data, i))
    }
}

} // verus!
