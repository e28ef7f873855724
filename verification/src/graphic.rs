//! Graphics: one animated clip, owned by a folder, owning layers.

use vstd::prelude::*;

use crate::counts::{count_of, lemma_count_insert, lemma_count_remove, lemma_count_zero};
use crate::folder::{Folder, FolderV};
use crate::frame::clamped;
use crate::project::{
    audio_count_expected, audios_owned_ok, folder_count_expected, folders_owned_ok,
    frame_count_expected, frames_owned_ok, graphic_count_expected, graphics_owned_ok,
    layer_in_graphic_expected, layer_in_layer_expected, layers_owned_ok, ownership_ok,
    palette_count_expected, palettes_owned_ok, stroke_count_expected, strokes_owned_ok, ProjV,
    Project,
};
use crate::store::ObjPtr;

verus! {

/// The journaled field data of a graphic. `folder` is the identifier of the
/// owning parent; `len` is the clip length in frames, `w` and `h` the clip
/// size.
pub struct GraphicData {
    pub name: String,
    pub folder: u64,
    pub len: u32,
    pub clip: bool,
    pub w: u32,
    pub h: u32,
}

#[verifier::ext_equal]
pub struct GraphicDataV {
    pub name: Seq<char>,
    pub folder: u64,
    pub len: u32,
    pub clip: bool,
    pub w: u32,
    pub h: u32,
}

impl View for GraphicData {
    type V = GraphicDataV;

    open spec fn view(&self) -> GraphicDataV {
        GraphicDataV {
            name: self.name@,
            folder: self.folder,
            len: self.len,
            clip: self.clip,
            w: self.w,
            h: self.h,
        }
    }
}

impl Clone for GraphicData {
    fn clone(&self) -> (r: Self)
        ensures
            r@ == self@,
    {
        GraphicData {
            name: self.name.clone(),
            folder: self.folder,
            len: self.len,
            clip: self.clip,
            w: self.w,
            h: self.h,
        }
    }
}

/// A live graphic: its field data plus the owning handles of its layers.
pub struct Graphic {
    pub data: GraphicData,
    pub layers: Vec<u64>,
}

#[verifier::ext_equal]
pub struct GraphicV {
    pub data: GraphicDataV,
    pub layers: Seq<u64>,
}

impl View for Graphic {
    type V = GraphicV;

    open spec fn view(&self) -> GraphicV {
        GraphicV { data: self.data@, layers: self.layers@ }
    }
}

impl Graphic {
    pub fn new(data: GraphicData) -> (r: Self)
        ensures
            r@.data == data@,
            r@.layers =~= Seq::<u64>::empty(),
    {
        Graphic { data, layers: Vec::new() }
    }
}

/// The graph state after inserting a fresh graphic `key` with data `data` at
/// position `at` of its folder's graphic list.
pub open spec fn t_graphic_insert(v: ProjV, key: u64, data: GraphicDataV, at: int) -> ProjV {
    let f = v.folders[data.folder];
    ProjV {
        graphics: v.graphics.insert(key, GraphicV { data, layers: Seq::empty() }),
        folders: v.folders.insert(
            data.folder,
            FolderV { graphics: f.graphics.insert(at, key), ..f },
        ),
        ..v
    }
}

/// The graph state after overwriting the field data of graphic `key`, its
/// parent unchanged.
pub open spec fn t_graphic_set(v: ProjV, key: u64, data: GraphicDataV) -> ProjV {
    ProjV {
        graphics: v.graphics.insert(key, GraphicV { data, layers: v.graphics[key].layers }),
        ..v
    }
}

/// The graph state after removing the (layer-less) graphic `key`, which sits
/// at position `i` of its folder's graphic list.
pub open spec fn t_graphic_remove(v: ProjV, key: u64, i: int) -> ProjV {
    let fk = v.graphics[key].data.folder;
    let f = v.folders[fk];
    ProjV {
        graphics: v.graphics.remove(key),
        folders: v.folders.insert(fk, FolderV { graphics: f.graphics.remove(i), ..f }),
        ..v
    }
}

proof fn lemma_graphic_side_clauses(v: ProjV, w: ProjV)
    requires
        ownership_ok(v),
        w.frames == v.frames,
        w.strokes == v.strokes,
        w.palettes == v.palettes,
        w.audio_files == v.audio_files,
        w.root_folder == v.root_folder,
        w.layers == v.layers,
        w.folders.dom() =~= v.folders.dom(),
        forall|fk: u64| #[trigger] w.folders.contains_key(fk) ==> w.folders[fk].data
            == v.folders[fk].data && w.folders[fk].palettes == v.folders[fk].palettes
            && w.folders[fk].audios == v.folders[fk].audios && w.folders[fk].folders
            == v.folders[fk].folders,
    ensures
        frames_owned_ok(w),
        strokes_owned_ok(w),
        palettes_owned_ok(w),
        audios_owned_ok(w),
        folders_owned_ok(w),
{
    assert forall|lk: u64, fk: u64| w.layers.contains_key(lk) implies #[trigger] count_of(
        w.layers[lk].frames,
        fk,
    ) == frame_count_expected(w, lk, fk) by {
        assert(count_of(v.layers[lk].frames, fk) == frame_count_expected(v, lk, fk));
    }
    assert forall|fk: u64, sk: u64| w.frames.contains_key(fk) implies #[trigger] count_of(
        w.frames[fk].strokes,
        sk,
    ) == stroke_count_expected(w, fk, sk) by {
        assert(count_of(v.frames[fk].strokes, sk) == stroke_count_expected(v, fk, sk));
    }
    assert forall|fk: u64, pk: u64| w.folders.contains_key(fk) implies #[trigger] count_of(
        w.folders[fk].palettes,
        pk,
    ) == palette_count_expected(w, fk, pk) by {
        assert(count_of(v.folders[fk].palettes, pk) == palette_count_expected(v, fk, pk));
    }
    assert forall|fk: u64, ak: u64| w.folders.contains_key(fk) implies #[trigger] count_of(
        w.folders[fk].audios,
        ak,
    ) == audio_count_expected(w, fk, ak) by {
        assert(count_of(v.folders[fk].audios, ak) == audio_count_expected(v, fk, ak));
    }
    assert forall|pk: u64, ck: u64| w.folders.contains_key(pk) implies #[trigger] count_of(
        w.folders[pk].folders,
        ck,
    ) == folder_count_expected(w, pk, ck) by {
        assert(count_of(v.folders[pk].folders, ck) == folder_count_expected(v, pk, ck));
    }
}

/// Inserting a fresh graphic under a live folder preserves the ownership
/// invariant.
pub proof fn lemma_graphic_insert_ok(v: ProjV, key: u64, data: GraphicDataV, at: int)
    requires
        ownership_ok(v),
        !v.graphics.contains_key(key),
        v.folders.contains_key(data.folder),
        0 <= at <= v.folders[data.folder].graphics.len(),
    ensures
        ownership_ok(t_graphic_insert(v, key, data, at)),
{
    let w = t_graphic_insert(v, key, data, at);
    let ff = data.folder;
    let oldlist = v.folders[ff].graphics;
    assert(w.folders.dom() =~= v.folders.dom());
    lemma_graphic_side_clauses(v, w);
    assert forall|gk: u64| #[trigger] w.graphics.contains_key(gk) implies w.folders.contains_key(
        w.graphics[gk].data.folder,
    ) by {}
    assert forall|fk: u64, gk: u64| w.folders.contains_key(fk) implies #[trigger] count_of(
        w.folders[fk].graphics,
        gk,
    ) == graphic_count_expected(w, fk, gk) by {
        if fk == ff {
            lemma_count_insert(oldlist, at, key, gk);
            assert(count_of(oldlist, gk) == graphic_count_expected(v, ff, gk));
        } else {
            assert(w.folders[fk] == v.folders[fk]);
            assert(count_of(v.folders[fk].graphics, gk) == graphic_count_expected(v, fk, gk));
        }
    }
    assert(graphics_owned_ok(w));
    assert forall|lk: u64| #[trigger]
        w.layers.contains_key(lk) implies match w.layers[lk].data.parent {
        crate::layer::LayerParent::Graphic(g) => w.graphics.contains_key(g),
        crate::layer::LayerParent::Layer(p) => w.layers.contains_key(p) && p != lk,
    } by {}
    assert forall|gk: u64, lk: u64| w.graphics.contains_key(gk) implies #[trigger] count_of(
        w.graphics[gk].layers,
        lk,
    ) == layer_in_graphic_expected(w, gk, lk) by {
        if gk == key {
            assert(count_of(w.graphics[gk].layers, lk) == 0);
            if w.layers.contains_key(lk) {
                assert(match v.layers[lk].data.parent {
                    crate::layer::LayerParent::Graphic(g) => v.graphics.contains_key(g),
                    crate::layer::LayerParent::Layer(p) => v.layers.contains_key(p) && p != lk,
                });
                assert(w.layers[lk].data.parent != crate::layer::LayerParent::Graphic(key));
            }
        } else {
            assert(w.graphics[gk] == v.graphics[gk]);
            assert(count_of(v.graphics[gk].layers, lk) == layer_in_graphic_expected(v, gk, lk));
        }
    }
    assert forall|pk: u64, lk: u64| w.layers.contains_key(pk) implies #[trigger] count_of(
        w.layers[pk].layers,
        lk,
    ) == layer_in_layer_expected(w, pk, lk) by {
        assert(count_of(v.layers[pk].layers, lk) == layer_in_layer_expected(v, pk, lk));
    }
    assert(layers_owned_ok(w));
}

/// Overwriting a live graphic's field data, parent unchanged, preserves the
/// ownership invariant.
pub proof fn lemma_graphic_set_ok(v: ProjV, key: u64, data: GraphicDataV)
    requires
        ownership_ok(v),
        v.graphics.contains_key(key),
        data.folder == v.graphics[key].data.folder,
    ensures
        ownership_ok(t_graphic_set(v, key, data)),
{
    let w = t_graphic_set(v, key, data);
    assert(w.graphics.dom() =~= v.graphics.dom());
    lemma_graphic_side_clauses(v, w);
    assert forall|fk: u64, gk: u64| w.folders.contains_key(fk) implies #[trigger] count_of(
        w.folders[fk].graphics,
        gk,
    ) == graphic_count_expected(w, fk, gk) by {
        assert(count_of(v.folders[fk].graphics, gk) == graphic_count_expected(v, fk, gk));
    }
    assert(graphics_owned_ok(w));
    assert forall|gk: u64, lk: u64| w.graphics.contains_key(gk) implies #[trigger] count_of(
        w.graphics[gk].layers,
        lk,
    ) == layer_in_graphic_expected(w, gk, lk) by {
        assert(w.graphics[gk].layers == v.graphics[gk].layers);
        assert(count_of(v.graphics[gk].layers, lk) == layer_in_graphic_expected(v, gk, lk));
    }
    assert forall|pk: u64, lk: u64| w.layers.contains_key(pk) implies #[trigger] count_of(
        w.layers[pk].layers,
        lk,
    ) == layer_in_layer_expected(w, pk, lk) by {
        assert(count_of(v.layers[pk].layers, lk) == layer_in_layer_expected(v, pk, lk));
    }
    assert(layers_owned_ok(w));
}

/// Removing a live graphic that owns no layers preserves the ownership
/// invariant.
pub proof fn lemma_graphic_remove_ok(v: ProjV, key: u64, i: int)
    requires
        ownership_ok(v),
        v.graphics.contains_key(key),
        v.graphics[key].layers.len() == 0,
        0 <= i < v.folders[v.graphics[key].data.folder].graphics.len(),
        v.folders[v.graphics[key].data.folder].graphics[i] == key,
    ensures
        ownership_ok(t_graphic_remove(v, key, i)),
{
    let w = t_graphic_remove(v, key, i);
    let ff = v.graphics[key].data.folder;
    let oldlist = v.folders[ff].graphics;
    assert(w.folders.dom() =~= v.folders.dom());
    lemma_graphic_side_clauses(v, w);
    assert forall|gk: u64| #[trigger] w.graphics.contains_key(gk) implies w.folders.contains_key(
        w.graphics[gk].data.folder,
    ) by {}
    assert forall|fk: u64, gk: u64| w.folders.contains_key(fk) implies #[trigger] count_of(
        w.folders[fk].graphics,
        gk,
    ) == graphic_count_expected(w, fk, gk) by {
        assert(count_of(v.folders[fk].graphics, gk) == graphic_count_expected(v, fk, gk));
        if fk == ff {
            lemma_count_remove(oldlist, i, gk);
        } else {
            assert(w.folders[fk] == v.folders[fk]);
        }
    }
    assert(graphics_owned_ok(w));
    assert forall|lk: u64| #[trigger]
        w.layers.contains_key(lk) implies match w.layers[lk].data.parent {
        crate::layer::LayerParent::Graphic(g) => w.graphics.contains_key(g),
        crate::layer::LayerParent::Layer(p) => w.layers.contains_key(p) && p != lk,
    } by {
        if v.layers[lk].data.parent == crate::layer::LayerParent::Graphic(key) {
            assert(count_of(v.graphics[key].layers, lk) == layer_in_graphic_expected(v, key, lk));
            lemma_count_zero(v.graphics[key].layers, lk);
            assert(false);
        }
    }
    assert forall|gk: u64, lk: u64| w.graphics.contains_key(gk) implies #[trigger] count_of(
        w.graphics[gk].layers,
        lk,
    ) == layer_in_graphic_expected(w, gk, lk) by {
        assert(w.graphics[gk] == v.graphics[gk]);
        assert(count_of(v.graphics[gk].layers, lk) == layer_in_graphic_expected(v, gk, lk));
    }
    assert forall|pk: u64, lk: u64| w.layers.contains_key(pk) implies #[trigger] count_of(
        w.layers[pk].layers,
        lk,
    ) == layer_in_layer_expected(w, pk, lk) by {
        assert(count_of(v.layers[pk].layers, lk) == layer_in_layer_expected(v, pk, lk));
    }
    assert(layers_owned_ok(w));
}

impl Project {
    /// Inserts a graphic under a caller-chosen identifier at the given
    /// position of its folder's graphic list (clamped). A claimed identifier
    /// or a stale folder makes the call a no-op that reports failure.
    pub fn insert_graphic_at(&mut self, key: u64, data: GraphicData, at: usize) -> (r: bool)
        requires
            old(self).wf(),
        ensures
            final(self).wf(),
            r == (0 < key < u64::MAX && !old(self)@.graphics.contains_key(key)
                && old(self)@.folders.contains_key(data@.folder)),
            r ==> final(self)@ == t_graphic_insert(
                old(self)@,
                key,
                data@,
                clamped(at as int, old(self)@.folders[data@.folder].graphics.len() as int),
            ),
            !r ==> *final(self) == *old(self),
            final(self).graphics.next_key_spec() == if r && key >= old(
                self,
            ).graphics.next_key_spec() {
                key + 1
            } else {
                old(self).graphics.next_key_spec() as int
            },
            final(self).layers.next_key_spec() == old(self).layers.next_key_spec(),
            final(self).frames.next_key_spec() == old(self).frames.next_key_spec(),
            final(self).strokes.next_key_spec() == old(self).strokes.next_key_spec(),
            final(self).folders.next_key_spec() == old(self).folders.next_key_spec(),
            final(self).palettes.next_key_spec() == old(self).palettes.next_key_spec(),
    {
        if key == 0 || key == u64::MAX {
            return false;
        }
        if self.graphics.contains(ObjPtr::from_key(key)) {
            return false;
        }
        let fptr: ObjPtr<Folder> = ObjPtr::from_key(data.folder);
        let mut folder = match self.folders.remove(fptr) {
            Some(f) => f,
            None => {
                return false;
            },
        };
        proof {
            old(self).folders.lemma_live_key_bounds(data.folder);
        }
        let ghost oldfolder = folder@;
        let at2 = if at > folder.graphics.len() {
            folder.graphics.len()
        } else {
            at
        };
        folder.graphics.insert(at2, key);
        proof {
            assert(folder@ =~= (FolderV {
                graphics: oldfolder.graphics.insert(at2 as int, key),
                ..oldfolder
            }));
        }
        let ghost fk = data.folder;
        let ghost dv = data@;
        self.folders.insert_with_key(data.folder, folder);
        self.graphics.insert_with_key(key, Graphic::new(data));
        proof {
            let t = t_graphic_insert(
                old(self)@,
                key,
                dv,
                clamped(at as int, old(self)@.folders[fk].graphics.len() as int),
            );
            assert(self@.folders =~= t.folders);
            assert(self@.graphics =~= t.graphics);
            assert(self@ =~~= t);
            lemma_graphic_insert_ok(
                old(self)@,
                key,
                dv,
                clamped(at as int, old(self)@.folders[fk].graphics.len() as int),
            );
        }
        true
    }

    /// Overwrites a graphic's field data and returns the prior data. A stale
    /// handle, or data that names another parent folder, makes the call a
    /// no-op returning `None`.
    pub fn replace_graphic_data(&mut self, key: u64, data: GraphicData) -> (r: Option<GraphicData>)
        requires
            old(self).wf(),
        ensures
            final(self).wf(),
            match r {
                Some(prior) => {
                    &&& old(self)@.graphics.contains_key(key)
                    &&& prior@ == old(self)@.graphics[key].data
                    &&& data@.folder == prior@.folder
                    &&& final(self)@ == t_graphic_set(old(self)@, key, data@)
                },
                None => {
                    &&& final(self)@ == old(self)@
                    &&& !(old(self)@.graphics.contains_key(key) && data@.folder == old(
                        self,
                    )@.graphics[key].data.folder)
                },
            },
            final(self).graphics.next_key_spec() == old(self).graphics.next_key_spec(),
            final(self).folders.next_key_spec() == old(self).folders.next_key_spec(),
    {
        let gptr: ObjPtr<Graphic> = ObjPtr::from_key(key);
        let gobj = match self.graphics.remove(gptr) {
            Some(g) => g,
            None => {
                return None;
            },
        };
        proof {
            old(self).graphics.lemma_live_key_bounds(key);
        }
        if data.folder != gobj.data.folder {
            self.graphics.insert_with_key(key, gobj);
            proof {
                assert(self@.graphics =~= old(self)@.graphics);
                assert(self@ =~~= old(self)@);
            }
            return None;
        }
        let prior = gobj.data;
        let ghost dv = data@;
        self.graphics.insert_with_key(key, Graphic { data, layers: gobj.layers });
        proof {
            assert(self@.graphics =~= t_graphic_set(old(self)@, key, dv).graphics);
            assert(self@ =~~= t_graphic_set(old(self)@, key, dv));
            lemma_graphic_set_ok(old(self)@, key, dv);
        }
        Some(prior)
    }

    /// Removes a graphic that owns no layers, detaching it from its folder's
    /// graphic list, and returns its field data and its position in that
    /// list. A stale handle, or a graphic that still owns layers, makes the
    /// call a no-op returning `None`.
    pub fn remove_graphic_empty(&mut self, key: u64) -> (r: Option<(GraphicData, usize)>)
        requires
            old(self).wf(),
        ensures
            final(self).wf(),
            match r {
                Some((data, i)) => {
                    &&& old(self)@.graphics.contains_key(key)
                    &&& data@ == old(self)@.graphics[key].data
                    &&& old(self)@.graphics[key].layers.len() == 0
                    &&& 0 <= i < old(self)@.folders[data@.folder].graphics.len()
                    &&& old(self)@.folders[data@.folder].graphics[i as int] == key
                    &&& final(self)@ == t_graphic_remove(old(self)@, key, i as int)
                },
                None => {
                    &&& final(self)@ == old(self)@
                    &&& !(old(self)@.graphics.contains_key(key) && old(
                        self,
                    )@.graphics[key].layers.len() == 0)
                },
            },
            final(self).graphics.next_key_spec() == old(self).graphics.next_key_spec(),
            final(self).folders.next_key_spec() == old(self).folders.next_key_spec(),
    {
        let gptr: ObjPtr<Graphic> = ObjPtr::from_key(key);
        let gobj = match self.graphics.remove(gptr) {
            Some(g) => g,
            None => {
                return None;
            },
        };
        proof {
            old(self).graphics.lemma_live_key_bounds(key);
        }
        if gobj.layers.len() > 0 {
            self.graphics.insert_with_key(key, gobj);
            proof {
                assert(self@.graphics =~= old(self)@.graphics);
                assert(self@ =~~= old(self)@);
            }
            return None;
        }
        let ff = gobj.data.folder;
        proof {
            assert(old(self)@.graphics.contains_key(key));
            assert(gobj@ == old(self)@.graphics[key]);
            assert(old(self)@.folders.contains_key(ff));
        }
        let fptr: ObjPtr<Folder> = ObjPtr::from_key(ff);
        let mut folder = match self.folders.remove(fptr) {
            Some(f) => f,
            None => {
                proof {
                    assert(false);
                }
                vstd::pervasive::unreached()
            },
        };
        proof {
            old(self).folders.lemma_live_key_bounds(ff);
            assert(count_of(old(self)@.folders[ff].graphics, key) == 1);
        }
        let ghost oldfolder = folder@;
        let mut i: usize = 0;
        let mut found: Option<usize> = None;
        let n = folder.graphics.len();
        while i < n
            invariant
                n == folder.graphics@.len(),
                0 <= i <= n,
                match found {
                    Some(f) => f < n && folder.graphics@[f as int] == key,
                    None => forall|j: int| 0 <= j < i ==> folder.graphics@[j] != key,
                },
            decreases n - i,
        {
            if found.is_none() && folder.graphics[i] == key {
                found = Some(i);
            }
            i = i + 1;
        }
        let i = match found {
            Some(f) => f,
            None => {
                proof {
                    lemma_count_zero(folder.graphics@, key);
                    assert(false);
                }
                vstd::pervasive::unreached()
            },
        };
        let ghost idx = i as int;
        folder.graphics.remove(i);
        proof {
            assert(folder@ =~= (FolderV {
                graphics: oldfolder.graphics.remove(idx),
                ..oldfolder
            }));
        }
        self.folders.insert_with_key(ff, folder);
        proof {
            let t = t_graphic_remove(old(self)@, key, idx);
            assert(self@.folders =~= t.folders);
            assert(self@.graphics =~= t.graphics);
            assert(self@ =~~= t);
            lemma_graphic_remove_ok(old(self)@, key, idx);
        }
        Some((gobj.data, i))
    }
}

} // verus!
