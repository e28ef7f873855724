//! Palettes: a named color set, owned by a folder.

use vstd::prelude::*;

use crate::counts::{count_of, lemma_count_insert, lemma_count_remove, lemma_count_zero};
use crate::folder::{Folder, FolderV};
use crate::frame::clamped;
use crate::project::{
    audio_count_expected, audios_owned_ok, folder_count_expected, folders_owned_ok,
    frame_count_expected, frames_owned_ok, graphic_count_expected, graphics_owned_ok,
    layer_in_graphic_expected, layer_in_layer_expected, layers_owned_ok, ownership_ok,
    palette_count_expected, palettes_owned_ok, stroke_count_expected, strokes_owned_ok, ProjV,
    Project,
};
use crate::store::ObjPtr;

verus! {

/// The journaled field data of a palette. `folder` is the identifier of the
/// owning parent; each color is an RGBA encoding.
pub struct PaletteData {
    pub name: String,
    pub folder: u64,
    pub colors: Vec<u32>,
}

#[verifier::ext_equal]
pub struct PaletteDataV {
    pub name: Seq<char>,
    pub folder: u64,
    pub colors: Seq<u32>,
}

impl View for PaletteData {
    type V = PaletteDataV;

    open spec fn view(&self) -> PaletteDataV {
        PaletteDataV { name: self.name@, folder: self.folder, colors: self.colors@ }
    }
}

impl Clone for PaletteData {
    fn clone(&self) -> (r: Self)
        ensures
            r@ == self@,
    {
        let r = PaletteData {
            name: self.name.clone(),
            folder: self.folder,
            colors: self.colors.clone(),
        };
        proof {
            assert(r.colors@ =~= self.colors@);
        }
        r
    }
}

/// A live palette; it owns no children.
pub struct Palette {
    pub data: PaletteData,
}

#[verifier::ext_equal]
pub struct PaletteV {
    pub data: PaletteDataV,
}

impl View for Palette {
    type V = PaletteV;

    open spec fn view(&self) -> PaletteV {
        PaletteV { data: self.data@ }
    }
}

impl Palette {
    pub fn new(data: PaletteData) -> (r: Self)
        ensures
            r@.data == data@,
    {
        Palette { data }
    }
}

/// The graph state after inserting a fresh palette `key` with data `data` at
/// position `at` of its folder's palette list.
pub open spec fn t_palette_insert(v: ProjV, key: u64, data: PaletteDataV, at: int) -> ProjV {
    let f = v.folders[data.folder];
    ProjV {
        palettes: v.palettes.insert(key, PaletteV { data }),
        folders: v.folders.insert(
            data.folder,
            FolderV { palettes: f.palettes.insert(at, key), ..f },
        ),
        ..v
    }
}

/// The graph state after overwriting the field data of palette `key`, its
/// parent unchanged.
pub open spec fn t_palette_set(v: ProjV, key: u64, data: PaletteDataV) -> ProjV {
    ProjV { palettes: v.palettes.insert(key, PaletteV { data }), ..v }
}

/// The graph state after removing the palette `key`, which sits at position
/// `i` of its folder's palette list.
pub open spec fn t_palette_remove(v: ProjV, key: u64, i: int) -> ProjV {
    let fk = v.palettes[key].data.folder;
    let f = v.folders[fk];
    ProjV {
        palettes: v.palettes.remove(key),
        folders: v.folders.insert(fk, FolderV { palettes: f.palettes.remove(i), ..f }),
        ..v
    }
}

proof fn lemma_palette_side_clauses(v: ProjV, w: ProjV)
    requires
        ownership_ok(v),
        w.frames == v.frames,
        w.strokes == v.strokes,
        w.graphics == v.graphics,
        w.audio_files == v.audio_files,
        w.root_folder == v.root_folder,
        w.layers == v.layers,
        w.folders.dom() =~= v.folders.dom(),
        forall|fk: u64| #[trigger] w.folders.contains_key(fk) ==> w.folders[fk].data
            == v.folders[fk].data && w.folders[fk].graphics == v.folders[fk].graphics
            && w.folders[fk].audios == v.folders[fk].audios && w.folders[fk].folders
            == v.folders[fk].folders,
    ensures
        frames_owned_ok(w),
        strokes_owned_ok(w),
        layers_owned_ok(w),
        graphics_owned_ok(w),
        audios_owned_ok(w),
        folders_owned_ok(w),
{
    assert forall|lk: u64, fk: u64| w.layers.contains_key(lk) implies #[trigger] count_of(
        w.layers[lk].frames,
        fk,
    ) == frame_count_expected(w, lk, fk) by {
        assert(count_of(v.layers[lk].frames, fk) == frame_count_expected(v, lk, fk));
    }
    assert forall|fk: u64, sk: u64| w.frames.contains_key(fk) implies #[trigger] count_of(
        w.frames[fk].strokes,
        sk,
    ) == stroke_count_expected(w, fk, sk) by {
        assert(count_of(v.frames[fk].strokes, sk) == stroke_count_expected(v, fk, sk));
    }
    assert forall|gk: u64, lk: u64| w.graphics.contains_key(gk) implies #[trigger] count_of(
        w.graphics[gk].layers,
        lk,
    ) == layer_in_graphic_expected(w, gk, lk) by {
        assert(count_of(v.graphics[gk].layers, lk) == layer_in_graphic_expected(v, gk, lk));
    }
    assert forall|pk: u64, lk: u64| w.layers.contains_key(pk) implies #[trigger] count_of(
        w.layers[pk].layers,
        lk,
    ) == layer_in_layer_expected(w, pk, lk) by {
        assert(count_of(v.layers[pk].layers, lk) == layer_in_layer_expected(v, pk, lk));
    }
    assert forall|fk: u64, gk: u64| w.folders.contains_key(fk) implies #[trigger] count_of(
        w.folders[fk].graphics,
        gk,
    ) == graphic_count_expected(w, fk, gk) by {
        assert(count_of(v.folders[fk].graphics, gk) == graphic_count_expected(v, fk, gk));
    }
    assert forall|fk: u64, ak: u64| w.folders.contains_key(fk) implies #[trigger] count_of(
        w.folders[fk].audios,
        ak,
    ) == audio_count_expected(w, fk, ak) by {
        assert(count_of(v.folders[fk].audios, ak) == audio_count_expected(v, fk, ak));
    }
    assert forall|pk: u64, ck: u64| w.folders.contains_key(pk) implies #[trigger] count_of(
        w.folders[pk].folders,
        ck,
    ) == folder_count_expected(w, pk, ck) by {
        assert(count_of(v.folders[pk].folders, ck) == folder_count_expected(v, pk, ck));
    }
}

/// Inserting a fresh palette under a live folder preserves the ownership
/// invariant.
pub proof fn lemma_palette_insert_ok(v: ProjV, key: u64, data: PaletteDataV, at: int)
    requires
        ownership_ok(v),
        !v.palettes.contains_key(key),
        v.folders.contains_key(data.folder),
        0 <= at <= v.folders[data.folder].palettes.len(),
    ensures
        ownership_ok(t_palette_insert(v, key, data, at)),
{
    let w = t_palette_insert(v, key, data, at);
    let ff = data.folder;
    let oldlist = v.folders[ff].palettes;
    assert(w.folders.dom() =~= v.folders.dom());
    lemma_palette_side_clauses(v, w);
    assert forall|pk: u64| #[trigger] w.palettes.contains_key(pk) implies w.folders.contains_key(
        w.palettes[pk].data.folder,
    ) by {}
    assert forall|fk: u64, pk: u64| w.folders.contains_key(fk) implies #[trigger] count_of(
        w.folders[fk].palettes,
        pk,
    ) == palette_count_expected(w, fk, pk) by {
        if fk == ff {
            lemma_count_insert(oldlist, at, key, pk);
            assert(count_of(oldlist, pk) == palette_count_expected(v, ff, pk));
        } else {
            assert(w.folders[fk] == v.folders[fk]);
            assert(count_of(v.folders[fk].palettes, pk) == palette_count_expected(v, fk, pk));
        }
    }
    assert(palettes_owned_ok(w));
}

/// Overwriting a live palette's field data, parent unchanged, preserves the
/// ownership invariant.
pub proof fn lemma_palette_set_ok(v: ProjV, key: u64, data: PaletteDataV)
    requires
        ownership_ok(v),
        v.palettes.contains_key(key),
        data.folder == v.palettes[key].data.folder,
    ensures
        ownership_ok(t_palette_set(v, key, data)),
{
    let w = t_palette_set(v, key, data);
    assert(w.palettes.dom() =~= v.palettes.dom());
    lemma_palette_side_clauses(v, w);
    assert forall|fk: u64, pk: u64| w.folders.contains_key(fk) implies #[trigger] count_of(
        w.folders[fk].palettes,
        pk,
    ) == palette_count_expected(w, fk, pk) by {
        assert(count_of(v.folders[fk].palettes, pk) == palette_count_expected(v, fk, pk));
    }
    assert(palettes_owned_ok(w));
}

/// Removing a live palette preserves the ownership invariant.
pub proof fn lemma_palette_remove_ok(v: ProjV, key: u64, i: int)
    requires
        ownership_ok(v),
        v.palettes.contains_key(key),
        0 <= i < v.folders[v.palettes[key].data.folder].palettes.len(),
        v.folders[v.palettes[key].data.folder].palettes[i] == key,
    ensures
        ownership_ok(t_palette_remove(v, key, i)),
{
    let w = t_palette_remove(v, key, i);
    let ff = v.palettes[key].data.folder;
    let oldlist = v.folders[ff].palettes;
    assert(w.folders.dom() =~= v.folders.dom());
    lemma_palette_side_clauses(v, w);
    assert forall|pk: u64| #[trigger] w.palettes.contains_key(pk) implies w.folders.contains_key(
        w.palettes[pk].data.folder,
    ) by {}
    assert forall|fk: u64, pk: u64| w.folders.contains_key(fk) implies #[trigger] count_of(
        w.folders[fk].palettes,
        pk,
    ) == palette_count_expected(w, fk, pk) by {
        assert(count_of(v.folders[fk].palettes, pk) == palette_count_expected(v, fk, pk));
        if fk == ff {
            lemma_count_remove(oldlist, i, pk);
        } else {
            assert(w.folders[fk] == v.folders[fk]);
        }
    }
    assert(palettes_owned_ok(w));
}

impl Project {
    /// Inserts a palette under a caller-chosen identifier at the given
    /// position of its folder's palette list (clamped). A claimed identifier
    /// or a stale folder makes the call a no-op that reports failure.
    pub fn insert_palette_at(&mut self, key: u64, data: PaletteData, at: usize) -> (r: bool)
        requires
            old(self).wf(),
        ensures
            final(self).wf(),
            r == (0 < key < u64::MAX && !old(self)@.palettes.contains_key(key)
                && old(self)@.folders.contains_key(data@.folder)),
            r ==> final(self)@ == t_palette_insert(
                old(self)@,
                key,
                data@,
                clamped(at as int, old(self)@.folders[data@.folder].palettes.len() as int),
            ),
            !r ==> *final(self) == *old(self),
            final(self).palettes.next_key_spec() == if r && key >= old(
                self,
            ).palettes.next_key_spec() {
                key + 1
            } else {
                old(self).palettes.next_key_spec() as int
            },
            final(self).layers.next_key_spec() == old(self).layers.next_key_spec(),
            final(self).frames.next_key_spec() == old(self).frames.next_key_spec(),
            final(self).strokes.next_key_spec() == old(self).strokes.next_key_spec(),
            final(self).folders.next_key_spec() == old(self).folders.next_key_spec(),
            final(self).graphics.next_key_spec() == old(self).graphics.next_key_spec(),
    {
        if key == 0 || key == u64::MAX {
            return false;
        }
        if self.palettes.contains(ObjPtr::from_key(key)) {
            return false;
        }
        let fptr: ObjPtr<Folder> = ObjPtr::from_key(data.folder);
        let mut folder = match self.folders.remove(fptr) {
            Some(f) => f,
            None => {
                return false;
            },
        };
        proof {
            old(self).folders.lemma_live_key_bounds(data.folder);
        }
        let ghost oldfolder = folder@;
        let at2 = if at > folder.palettes.len() {
            folder.palettes.len()
        } else {
            at
        };
        folder.palettes.insert(at2, key);
        proof {
            assert(folder@ =~= (FolderV {
                palettes: oldfolder.palettes.insert(at2 as int, key),
                ..oldfolder
            }));
        }
        let ghost fk = data.folder;
        let ghost dv = data@;
        self.folders.insert_with_key(data.folder, folder);
        self.palettes.insert_with_key(key, Palette::new(data));
        proof {
            let t = t_palette_insert(
                old(self)@,
                key,
                dv,
                clamped(at as int, old(self)@.folders[fk].palettes.len() as int),
            );
            assert(self@.folders =~= t.folders);
            assert(self@.palettes =~= t.palettes);
            assert(self@ =~~= t);
            lemma_palette_insert_ok(
                old(self)@,
                key,
                dv,
                clamped(at as int, old(self)@.folders[fk].palettes.len() as int),
            );
        }
        true
    }

    /// Overwrites a palette's field data and returns the prior data. A stale
    /// handle, or data that names another parent folder, makes the call a
    /// no-op returning `None`.
    pub fn replace_palette_data(&mut self, key: u64, data: PaletteData) -> (r: Option<PaletteData>)
        requires
            old(self).wf(),
        ensures
            final(self).wf(),
            match r {
                Some(prior) => {
                    &&& old(self)@.palettes.contains_key(key)
                    &&& prior@ == old(self)@.palettes[key].data
                    &&& data@.folder == prior@.folder
                    &&& final(self)@ == t_palette_set(old(self)@, key, data@)
                },
                None => {
                    &&& final(self)@ == old(self)@
                    &&& !(old(self)@.palettes.contains_key(key) && data@.folder == old(
                        self,
                    )@.palettes[key].data.folder)
                },
            },
            final(self).palettes.next_key_spec() == old(self).palettes.next_key_spec(),
            final(self).folders.next_key_spec() == old(self).folders.next_key_spec(),
    {
        let pptr: ObjPtr<Palette> = ObjPtr::from_key(key);
        let pobj = match self.palettes.remove(pptr) {
            Some(p) => p,
            None => {
                return None;
            },
        };
        proof {
            old(self).palettes.lemma_live_key_bounds(key);
        }
        if data.folder != pobj.data.folder {
            self.palettes.insert_with_key(key, pobj);
            proof {
                assert(self@.palettes =~= old(self)@.palettes);
                assert(self@ =~~= old(self)@);
            }
            return None;
        }
        let prior = pobj.data;
        let ghost dv = data@;
        self.palettes.insert_with_key(key, Palette::new(data));
        proof {
            assert(self@.palettes =~= t_palette_set(old(self)@, key, dv).palettes);
            assert(self@ =~~= t_palette_set(old(self)@, key, dv));
            lemma_palette_set_ok(old(self)@, key, dv);
        }
        Some(prior)
    }

    /// Removes a palette, detaching it from its folder's palette list, and
    /// returns its field data and its position in that list. A stale handle
    /// makes the call a no-op returning `None`.
    pub fn remove_palette(&mut self, key: u64) -> (r: Option<(PaletteData, usize)>)
        requires
            old(self).wf(),
        ensures
            final(self).wf(),
            match r {
                Some((data, i)) => {
                    &&& old(self)@.palettes.contains_key(key)
                    &&& data@ == old(self)@.palettes[key].data
                    &&& 0 <= i < old(self)@.folders[data@.folder].palettes.len()
                    &&& old(self)@.folders[data@.folder].palettes[i as int] == key
                    &&& final(self)@ == t_palette_remove(old(self)@, key, i as int)
                },
                None => final(self)@ == old(self)@ && !old(self)@.palettes.contains_key(key)
                    && *final(self) == *old(self),
            },
            final(self).palettes.next_key_spec() == old(self).palettes.next_key_spec(),
            final(self).folders.next_key_spec() == old(self).folders.next_key_spec(),
    {
        let pptr: ObjPtr<Palette> = ObjPtr::from_key(key);
        let pobj = match self.palettes.remove(pptr) {
            Some(p) => p,
            None => {
                return None;
            },
        };
        proof {
            old(self).palettes.lemma_live_key_bounds(key);
        }
        let ff = pobj.data.folder;
        proof {
            assert(old(self)@.palettes.contains_key(key));
            assert(pobj@ == old(self)@.palettes[key]);
            assert(old(self)@.folders.contains_key(ff));
        }
        let fptr: ObjPtr<Folder> = ObjPtr::from_key(ff);
        let mut folder = match self.folders.remove(fptr) {
            Some(f) => f,
            None => {
                proof {
                    assert(false);
                }
                vstd::pervasive::unreached()
            },
        };
        proof {
            old(self).folders.lemma_live_key_bounds(ff);
            assert(count_of(old(self)@.folders[ff].palettes, key) == 1);
        }
        let ghost oldfolder = folder@;
        let mut i: usize = 0;
        let mut found: Option<usize> = None;
        let n = folder.palettes.len();
        while i < n
            invariant
                n == folder.palettes@.len(),
                0 <= i <= n,
                match found {
                    Some(f) => f < n && folder.palettes@[f as int] == key,
                    None => forall|j: int| 0 <= j < i ==> folder.palettes@[j] != key,
                },
            decreases n - i,
        {
            if found.is_none() && folder.palettes[i] == key {
                found = Some(i);
            }
            i = i + 1;
        }
        let i = match found {
            Some(f) => f,
            None => {
                proof {
                    lemma_count_zero(folder.palettes@, key);
                    assert(false);
                }
                vstd::pervasive::unreached()
            },
        };
        let ghost idx = i as int;
        folder.palettes.remove(i);
        proof {
            assert(folder@ =~= (FolderV {
                palettes: oldfolder.palettes.remove(idx),
                ..oldfolder
            }));
        }
        self.folders.insert_with_key(ff, folder);
        proof {
            let t = t_palette_remove(old(self)@, key, idx);
            assert(self@.folders =~= t.folders);
            assert(self@.palettes =~= t.palettes);
            assert(self@ =~~= t);
            lemma_palette_remove_ok(old(self)@, key, idx);
        }
        Some((pobj.data, i))
    }
}

} // verus!
