//! Folders: filesystem-like grouping of assets; the root folder has the null
//! handle as its parent.

use vstd::prelude::*;

use crate::counts::{count_of, lemma_count_insert, lemma_count_remove, lemma_count_zero};
use crate::frame::clamped;
use crate::project::{
    audio_count_expected, audios_owned_ok, folder_count_expected, folders_owned_ok,
    frame_count_expected, frames_owned_ok, graphic_count_expected, graphics_owned_ok,
    layer_in_graphic_expected, layer_in_layer_expected, layers_owned_ok, ownership_ok,
    palette_count_expected, palettes_owned_ok, stroke_count_expected, strokes_owned_ok, ProjV,
    Project,
};
use crate::store::ObjPtr;

verus! {

/// The journaled field data of a folder. `folder` is the identifier of the
/// owning parent; it is null exactly for the root folder.
pub struct FolderData {
    pub name: String,
    pub folder: u64,
}

#[verifier::ext_equal]
pub struct FolderDataV {
    pub name: Seq<char>,
    pub folder: u64,
}

impl View for FolderData {
    type V = FolderDataV;

    open spec fn view(&self) -> FolderDataV {
        FolderDataV { name: self.name@, folder: self.folder }
    }
}

impl Clone for FolderData {
    fn clone(&self) -> (r: Self)
        ensures
            r@ == self@,
    {
        FolderData { name: self.name.clone(), folder: self.folder }
    }
}

/// A live folder: its field data plus the owning handles of its graphics,
/// palettes, audio references and sub-folders.
pub struct Folder {
    pub data: FolderData,
    pub graphics: Vec<u64>,
    pub palettes: Vec<u64>,
    pub audios: Vec<u64>,
    pub folders: Vec<u64>,
}

#[verifier::ext_equal]
pub struct FolderV {
    pub data: FolderDataV,
    pub graphics: Seq<u64>,
    pub palettes: Seq<u64>,
    pub audios: Seq<u64>,
    pub folders: Seq<u64>,
}

impl View for Folder {
    type V = FolderV;

    open spec fn view(&self) -> FolderV {
        FolderV {
            data: self.data@,
            graphics: self.graphics@,
            palettes: self.palettes@,
            audios: self.audios@,
            folders: self.folders@,
        }
    }
}

impl Folder {
    /// A fresh, empty folder under the given parent, with the default
    /// display name.
    pub fn new(parent: u64) -> (r: Self)
        ensures
            r@.data.folder == parent,
            r@.data.name == "Folder"@,
            r@.graphics =~= Seq::<u64>::empty(),
            r@.palettes =~= Seq::<u64>::empty(),
            r@.audios =~= Seq::<u64>::empty(),
            r@.folders =~= Seq::<u64>::empty(),
    {
        Folder {
            data: FolderData { name: String::from_str("Folder"), folder: parent },
            graphics: Vec::new(),
            palettes: Vec::new(),
            audios: Vec::new(),
            folders: Vec::new(),
        }
    }

    pub fn with_data(data: FolderData) -> (r: Self)
        ensures
            r@.data == data@,
            r@.graphics =~= Seq::<u64>::empty(),
            r@.palettes =~= Seq::<u64>::empty(),
            r@.audios =~= Seq::<u64>::empty(),
            r@.folders =~= Seq::<u64>::empty(),
    {
        Folder {
            data,
            graphics: Vec::new(),
            palettes: Vec::new(),
            audios: Vec::new(),
            folders: Vec::new(),
        }
    }
}

/// The graph state after inserting a fresh folder `key` with data `data` at
/// position `at` of its parent folder's sub-folder list.
pub open spec fn t_folder_insert(v: ProjV, key: u64, data: FolderDataV, at: int) -> ProjV {
    let v1 = ProjV {
        folders: v.folders.insert(
            key,
            FolderV {
                data,
                graphics: Seq::empty(),
                palettes: Seq::empty(),
                audios: Seq::empty(),
                folders: Seq::empty(),
            },
        ),
        ..v
    };
    let f = v1.folders[data.folder];
    ProjV {
        folders: v1.folders.insert(data.folder, FolderV { folders: f.folders.insert(at, key), ..f }),
        ..v1
    }
}

/// The graph state after overwriting the field data of folder `key`, its
/// parent unchanged.
pub open spec fn t_folder_set(v: ProjV, key: u64, data: FolderDataV) -> ProjV {
    ProjV { folders: v.folders.insert(key, FolderV { data, ..v.folders[key] }), ..v }
}

/// The graph state after removing the empty folder `key`, which sits at
/// position `i` of its parent's sub-folder list.
pub open spec fn t_folder_remove(v: ProjV, key: u64, i: int) -> ProjV {
    let pk = v.folders[key].data.folder;
    let f = v.folders[pk];
    let v1 = ProjV {
        folders: v.folders.insert(pk, FolderV { folders: f.folders.remove(i), ..f }),
        ..v
    };
    ProjV { folders: v1.folders.remove(key), ..v1 }
}

proof fn lemma_folder_side_clauses(v: ProjV, w: ProjV)
    requires
        ownership_ok(v),
        w.frames == v.frames,
        w.strokes == v.strokes,
        w.graphics == v.graphics,
        w.palettes == v.palettes,
        w.audio_files == v.audio_files,
        w.layers == v.layers,
    ensures
        frames_owned_ok(w),
        strokes_owned_ok(w),
    {
    assert forall|lk: u64, fk: u64| w.layers.contains_key(lk) implies #[trigger] count_of(
        w.layers[lk].frames,
        fk,
    ) == frame_count_expected(w, lk, fk) by {
        assert(count_of(v.layers[lk].frames, fk) == frame_count_expected(v, lk, fk));
    }
    assert forall|fk: u64, sk: u64| w.frames.contains_key(fk) implies #[trigger] count_of(
        w.frames[fk].strokes,
        sk,
    ) == stroke_count_expected(w, fk, sk) by {
        assert(count_of(v.frames[fk].strokes, sk) == stroke_count_expected(v, fk, sk));
    }
    assert forall|gk: u64, lk: u64| w.graphics.contains_key(gk) implies #[trigger] count_of(
        w.graphics[gk].layers,
        lk,
    ) == layer_in_graphic_expected(w, gk, lk) by {
        assert(count_of(v.graphics[gk].layers, lk) == layer_in_graphic_expected(v, gk, lk));
    }
    assert forall|pk: u64, lk: u64| w.layers.contains_key(pk) implies #[trigger] count_of(
        w.layers[pk].layers,
        lk,
    ) == layer_in_layer_expected(w, pk, lk) by {
        assert(count_of(v.layers[pk].layers, lk) == layer_in_layer_expected(v, pk, lk));
    }
    assert(layers_owned_ok(w));
}

/// Inserting a fresh folder under a live parent folder preserves the
/// ownership invariant.
pub proof fn lemma_folder_insert_ok(v: ProjV, key: u64, data: FolderDataV, at: int)
    requires
        ownership_ok(v),
        !v.folders.contains_key(key),
        v.folders.contains_key(data.folder),
        0 <= at <= v.folders[data.folder].folders.len(),
    ensures
        ownership_ok(t_folder_insert(v, key, data, at)),
{
    let w = t_folder_insert(v, key, data, at);
    let pp = data.folder;
    let oldlist = v.folders[pp].folders;
    assert(key != v.root_folder);
    lemma_folder_side_clauses(v, w);
    assert forall|gk: u64| #[trigger] w.graphics.contains_key(gk) implies w.folders.contains_key(
        w.graphics[gk].data.folder,
    ) by {}
    assert forall|fk: u64, gk: u64| w.folders.contains_key(fk) implies #[trigger] count_of(
        w.folders[fk].graphics,
        gk,
    ) == graphic_count_expected(w, fk, gk) by {
        if fk == key {
            assert(count_of(w.folders[fk].graphics, gk) == 0);
            if w.graphics.contains_key(gk) {
                assert(v.folders.contains_key(v.graphics[gk].data.folder));
                assert(w.graphics[gk].data.folder != key);
            }
        } else {
            assert(w.folders[fk].graphics == v.folders[fk].graphics);
            assert(count_of(v.folders[fk].graphics, gk) == graphic_count_expected(v, fk, gk));
        }
    }
    assert(graphics_owned_ok(w));
    assert forall|pk: u64| #[trigger] w.palettes.contains_key(pk) implies w.folders.contains_key(
        w.palettes[pk].data.folder,
    ) by {}
    assert forall|fk: u64, pk: u64| w.folders.contains_key(fk) implies #[trigger] count_of(
        w.folders[fk].palettes,
        pk,
    ) == palette_count_expected(w, fk, pk) by {
        if fk == key {
            assert(count_of(w.folders[fk].palettes, pk) == 0);
            if w.palettes.contains_key(pk) {
                assert(v.folders.contains_key(v.palettes[pk].data.folder));
                assert(w.palettes[pk].data.folder != key);
            }
        } else {
            assert(w.folders[fk].palettes == v.folders[fk].palettes);
            assert(count_of(v.folders[fk].palettes, pk) == palette_count_expected(v, fk, pk));
        }
    }
    assert(palettes_owned_ok(w));
    assert forall|ak: u64| #[trigger] w.audio_files.contains_key(ak) implies w.folders.contains_key(
        w.audio_files[ak].folder,
    ) by {}
    assert forall|fk: u64, ak: u64| w.folders.contains_key(fk) implies #[trigger] count_of(
        w.folders[fk].audios,
        ak,
    ) == audio_count_expected(w, fk, ak) by {
        if fk == key {
            assert(count_of(w.folders[fk].audios, ak) == 0);
            if w.audio_files.contains_key(ak) {
                assert(v.folders.contains_key(v.audio_files[ak].folder));
                assert(w.audio_files[ak].folder != key);
            }
        } else {
            assert(w.folders[fk].audios == v.folders[fk].audios);
            assert(count_of(v.folders[fk].audios, ak) == audio_count_expected(v, fk, ak));
        }
    }
    assert(audios_owned_ok(w));
    assert(w.folders.contains_key(w.root_folder));
    assert(w.folders[w.root_folder].data == v.folders[v.root_folder].data);
    assert forall|ck: u64| #[trigger]
        w.folders.contains_key(ck) && ck != w.root_folder implies w.folders.contains_key(
        w.folders[ck].data.folder,
    ) && w.folders[ck].data.folder != ck by {
        if ck != key {
            assert(w.folders[ck].data == v.folders[ck].data);
        }
    }
    assert forall|pk: u64, ck: u64| w.folders.contains_key(pk) implies #[trigger] count_of(
        w.folders[pk].folders,
        ck,
    ) == folder_count_expected(w, pk, ck) by {
        if pk == key {
            assert(count_of(w.folders[pk].folders, ck) == 0);
            if ck != w.root_folder && w.folders.contains_key(ck) && ck != key {
                assert(v.folders.contains_key(v.folders[ck].data.folder));
                assert(w.folders[ck].data.folder != key);
            }
        } else if pk == pp {
            lemma_count_insert(oldlist, at, key, ck);
            assert(count_of(oldlist, ck) == folder_count_expected(v, pp, ck));
            if ck != key {
                assert(ck != w.root_folder && w.folders.contains_key(ck) ==> w.folders[ck].data
                    == v.folders[ck].data);
            }
        } else {
            assert(w.folders[pk].folders == v.folders[pk].folders);
            assert(count_of(v.folders[pk].folders, ck) == folder_count_expected(v, pk, ck));
            if ck != key {
                assert(ck != w.root_folder && w.folders.contains_key(ck) ==> w.folders[ck].data
                    == v.folders[ck].data);
            } else {
                lemma_count_zero(v.folders[pk].folders, ck);
            }
        }
    }
    assert(folders_owned_ok(w));
}

/// Overwriting a live folder's field data, parent unchanged, preserves the
/// ownership invariant.
pub proof fn lemma_folder_set_ok(v: ProjV, key: u64, data: FolderDataV)
    requires
        ownership_ok(v),
        v.folders.contains_key(key),
        data.folder == v.folders[key].data.folder,
    ensures
        ownership_ok(t_folder_set(v, key, data)),
{
    let w = t_folder_set(v, key, data);
    assert(w.folders.dom() =~= v.folders.dom());
    lemma_folder_side_clauses(v, w);
    assert forall|fk: u64, gk: u64| w.folders.contains_key(fk) implies #[trigger] count_of(
        w.folders[fk].graphics,
        gk,
    ) == graphic_count_expected(w, fk, gk) by {
        assert(w.folders[fk].graphics == v.folders[fk].graphics);
        assert(count_of(v.folders[fk].graphics, gk) == graphic_count_expected(v, fk, gk));
    }
    assert(graphics_owned_ok(w));
    assert forall|fk: u64, pk: u64| w.folders.contains_key(fk) implies #[trigger] count_of(
        w.folders[fk].palettes,
        pk,
    ) == palette_count_expected(w, fk, pk) by {
        assert(w.folders[fk].palettes == v.folders[fk].palettes);
        assert(count_of(v.folders[fk].palettes, pk) == palette_count_expected(v, fk, pk));
    }
    assert(palettes_owned_ok(w));
    assert forall|fk: u64, ak: u64| w.folders.contains_key(fk) implies #[trigger] count_of(
        w.folders[fk].audios,
        ak,
    ) == audio_count_expected(w, fk, ak) by {
        assert(w.folders[fk].audios == v.folders[fk].audios);
        assert(count_of(v.folders[fk].audios, ak) == audio_count_expected(v, fk, ak));
    }
    assert(audios_owned_ok(w));
    assert forall|ck: u64| #[trigger]
        w.folders.contains_key(ck) && ck != w.root_folder implies w.folders.contains_key(
        w.folders[ck].data.folder,
    ) && w.folders[ck].data.folder != ck by {
        assert(w.folders[ck].data.folder == v.folders[ck].data.folder);
    }
    assert forall|pk: u64, ck: u64| w.folders.contains_key(pk) implies #[trigger] count_of(
        w.folders[pk].folders,
        ck,
    ) == folder_count_expected(w, pk, ck) by {
        assert(w.folders[pk].folders == v.folders[pk].folders);
        assert(count_of(v.folders[pk].folders, ck) == folder_count_expected(v, pk, ck));
        assert(w.folders.contains_key(ck) ==> w.folders[ck].data.folder
            == v.folders[ck].data.folder);
    }
    assert(folders_owned_ok(w));
}

/// Removing a live, empty, non-root folder preserves the ownership
/// invariant.
pub proof fn lemma_folder_remove_ok(v: ProjV, key: u64, i: int)
    requires
        ownership_ok(v),
        v.folders.contains_key(key),
        key != v.root_folder,
        v.folders[key].graphics.len() == 0,
        v.folders[key].palettes.len() == 0,
        v.folders[key].audios.len() == 0,
        v.folders[key].folders.len() == 0,
        0 <= i < v.folders[v.folders[key].data.folder].folders.len(),
        v.folders[v.folders[key].data.folder].folders[i] == key,
    ensures
        ownership_ok(t_folder_remove(v, key, i)),
{
    let w = t_folder_remove(v, key, i);
    let pp = v.folders[key].data.folder;
    let oldlist = v.folders[pp].folders;
    assert(pp != key);
    lemma_folder_side_clauses(v, w);
    assert forall|gk: u64| #[trigger] w.graphics.contains_key(gk) implies w.folders.contains_key(
        w.graphics[gk].data.folder,
    ) by {
        if v.graphics[gk].data.folder == key {
            assert(count_of(v.folders[key].graphics, gk) == 1);
            lemma_count_zero(v.folders[key].graphics, gk);
        }
    }
    assert forall|fk: u64, gk: u64| w.folders.contains_key(fk) implies #[trigger] count_of(
        w.folders[fk].graphics,
        gk,
    ) == graphic_count_expected(w, fk, gk) by {
        assert(w.folders[fk].graphics == v.folders[fk].graphics);
        assert(count_of(v.folders[fk].graphics, gk) == graphic_count_expected(v, fk, gk));
    }
    assert(graphics_owned_ok(w));
    assert forall|pk: u64| #[trigger] w.palettes.contains_key(pk) implies w.folders.contains_key(
        w.palettes[pk].data.folder,
    ) by {
        if v.palettes[pk].data.folder == key {
            assert(count_of(v.folders[key].palettes, pk) == 1);
            lemma_count_zero(v.folders[key].palettes, pk);
        }
    }
    assert forall|fk: u64, pk: u64| w.folders.contains_key(fk) implies #[trigger] count_of(
        w.folders[fk].palettes,
        pk,
    ) == palette_count_expected(w, fk, pk) by {
        assert(w.folders[fk].palettes == v.folders[fk].palettes);
        assert(count_of(v.folders[fk].palettes, pk) == palette_count_expected(v, fk, pk));
    }
    assert(palettes_owned_ok(w));
    assert forall|ak: u64| #[trigger] w.audio_files.contains_key(ak) implies w.folders.contains_key(
        w.audio_files[ak].folder,
    ) by {
        if v.audio_files[ak].folder == key {
            assert(count_of(v.folders[key].audios, ak) == 1);
            lemma_count_zero(v.folders[key].audios, ak);
        }
    }
    assert forall|fk: u64, ak: u64| w.folders.contains_key(fk) implies #[trigger] count_of(
        w.folders[fk].audios,
        ak,
    ) == audio_count_expected(w, fk, ak) by {
        assert(w.folders[fk].audios == v.folders[fk].audios);
        assert(count_of(v.folders[fk].audios, ak) == audio_count_expected(v, fk, ak));
    }
    assert(audios_owned_ok(w));
    assert(w.folders.contains_key(w.root_folder));
    assert(w.folders[w.root_folder].data == v.folders[v.root_folder].data);
    assert forall|ck: u64| #[trigger]
        w.folders.contains_key(ck) && ck != w.root_folder implies w.folders.contains_key(
        w.folders[ck].data.folder,
    ) && w.folders[ck].data.folder != ck by {
        assert(w.folders[ck].data == v.folders[ck].data);
        if v.folders[ck].data.folder == key {
            assert(count_of(v.folders[key].folders, ck) == 1);
            lemma_count_zero(v.folders[key].folders, ck);
        }
    }
    assert forall|pk: u64, ck: u64| w.folders.contains_key(pk) implies #[trigger] count_of(
        w.folders[pk].folders,
        ck,
    ) == folder_count_expected(w, pk, ck) by {
        assert(count_of(v.folders[pk].folders, ck) == folder_count_expected(v, pk, ck));
        if pk == pp {
            lemma_count_remove(oldlist, i, ck);
        } else {
            assert(w.folders[pk].folders == v.folders[pk].folders);
        }
        assert(w.folders.contains_key(ck) ==> w.folders[ck].data == v.folders[ck].data);
    }
    assert(folders_owned_ok(w));
}

impl Project {
    /// Inserts a folder under a caller-chosen identifier at the given
    /// position of its parent's sub-folder list (clamped). A claimed
    /// identifier or a stale parent makes the call a no-op that reports
    /// failure.
    pub fn insert_folder_at(&mut self, key: u64, data: FolderData, at: usize) -> (r: bool)
        requires
            old(self).wf(),
        ensures
            final(self).wf(),
            r == (0 < key < u64::MAX && !old(self)@.folders.contains_key(key)
                && old(self)@.folders.contains_key(data@.folder)),
            r ==> final(self)@ == t_folder_insert(
                old(self)@,
                key,
                data@,
                clamped(at as int, old(self)@.folders[data@.folder].folders.len() as int),
            ),
            !r ==> *final(self) == *old(self),
            final(self).folders.next_key_spec() == if r && key >= old(
                self,
            ).folders.next_key_spec() {
                key + 1
            } else {
                old(self).folders.next_key_spec() as int
            },
            final(self).layers.next_key_spec() == old(self).layers.next_key_spec(),
            final(self).frames.next_key_spec() == old(self).frames.next_key_spec(),
            final(self).strokes.next_key_spec() == old(self).strokes.next_key_spec(),
            final(self).graphics.next_key_spec() == old(self).graphics.next_key_spec(),
            final(self).palettes.next_key_spec() == old(self).palettes.next_key_spec(),
    {
        if key == 0 || key == u64::MAX {
            return false;
        }
        if self.folders.contains(ObjPtr::from_key(key)) {
            return false;
        }
        let fptr: ObjPtr<Folder> = ObjPtr::from_key(data.folder);
        if !self.folders.contains(fptr) {
            return false;
        }
        let pfk = data.folder;
        let ghost dv = data@;
        self.folders.insert_with_key(key, Folder::with_data(data));
        let ghost v1 = self@;
        let mut parent = match self.folders.remove(fptr) {
            Some(f) => f,
            None => {
                proof {
                    assert(false);
                }
                vstd::pervasive::unreached()
            },
        };
        proof {
            old(self).folders.lemma_live_key_bounds(dv.folder);
        }
        let ghost oldparent = parent@;
        let at2 = if at > parent.folders.len() {
            parent.folders.len()
        } else {
            at
        };
        parent.folders.insert(at2, key);
        proof {
            assert(parent@ =~= (FolderV {
                folders: oldparent.folders.insert(at2 as int, key),
                ..oldparent
            }));
        }
        let ghost fk = dv.folder;
        self.folders.insert_with_key(pfk, parent);
        proof {
            let t = t_folder_insert(
                old(self)@,
                key,
                dv,
                clamped(at as int, old(self)@.folders[fk].folders.len() as int),
            );
            assert(self@.folders =~= t.folders);
            assert(self@ =~~= t);
            lemma_folder_insert_ok(
                old(self)@,
                key,
                dv,
                clamped(at as int, old(self)@.folders[fk].folders.len() as int),
            );
        }
        true
    }

    /// Overwrites a folder's field data (its display name) and returns the
    /// prior data. A stale handle, or data that names another parent, makes
    /// the call a no-op returning `None`.
    pub fn replace_folder_data(&mut self, key: u64, data: FolderData) -> (r: Option<FolderData>)
        requires
            old(self).wf(),
        ensures
            final(self).wf(),
            match r {
                Some(prior) => {
                    &&& old(self)@.folders.contains_key(key)
                    &&& prior@ == old(self)@.folders[key].data
                    &&& data@.folder == prior@.folder
                    &&& final(self)@ == t_folder_set(old(self)@, key, data@)
                },
                None => {
                    &&& final(self)@ == old(self)@
                    &&& !(old(self)@.folders.contains_key(key) && data@.folder == old(
                        self,
                    )@.folders[key].data.folder)
                },
            },
            final(self).folders.next_key_spec() == old(self).folders.next_key_spec(),
    {
        let fptr: ObjPtr<Folder> = ObjPtr::from_key(key);
        let fobj = match self.folders.remove(fptr) {
            Some(f) => f,
            None => {
                return None;
            },
        };
        proof {
            old(self).folders.lemma_live_key_bounds(key);
        }
        if data.folder != fobj.data.folder {
            self.folders.insert_with_key(key, fobj);
            proof {
                assert(self@.folders =~= old(self)@.folders);
                assert(self@ =~~= old(self)@);
            }
            return None;
        }
        let prior = fobj.data;
        let ghost dv = data@;
        let ghost oldf = old(self)@.folders[key];
        let fobj2 = Folder {
            data,
            graphics: fobj.graphics,
            palettes: fobj.palettes,
            audios: fobj.audios,
            folders: fobj.folders,
        };
        proof {
            assert(fobj2@ =~= (FolderV { data: dv, ..oldf }));
        }
        self.folders.insert_with_key(key, fobj2);
        proof {
            assert(self@.folders =~= t_folder_set(old(self)@, key, dv).folders);
            assert(self@ =~~= t_folder_set(old(self)@, key, dv));
            lemma_folder_set_ok(old(self)@, key, dv);
        }
        Some(prior)
    }

    /// Removes a folder that owns nothing, detaching it from its parent's
    /// sub-folder list, and returns its field data and its position in that
    /// list. A stale handle, the root folder, or a folder that still owns
    /// anything, makes the call a no-op returning `None`.
    pub fn remove_folder_empty(&mut self, key: u64) -> (r: Option<(FolderData, usize)>)
        requires
            old(self).wf(),
        ensures
            final(self).wf(),
            match r {
                Some((data, i)) => {
                    &&& old(self)@.folders.contains_key(key)
                    &&& key != old(self)@.root_folder
                    &&& data@ == old(self)@.folders[key].data
                    &&& old(self)@.folders[key].graphics.len() == 0
                    &&& old(self)@.folders[key].palettes.len() == 0
                    &&& old(self)@.folders[key].audios.len() == 0
                    &&& old(self)@.folders[key].folders.len() == 0
                    &&& 0 <= i < old(self)@.folders[data@.folder].folders.len()
                    &&& old(self)@.folders[data@.folder].folders[i as int] == key
                    &&& final(self)@ == t_folder_remove(old(self)@, key, i as int)
                },
                None => {
                    &&& final(self)@ == old(self)@
                    &&& !(old(self)@.folders.contains_key(key) && key != old(self)@.root_folder
                        && old(self)@.folders[key].graphics.len() == 0 && old(
                        self,
                    )@.folders[key].palettes.len() == 0 && old(self)@.folders[key].audios.len()
                        == 0 && old(self)@.folders[key].folders.len() == 0)
                },
            },
            final(self).folders.next_key_spec() == old(self).folders.next_key_spec(),
    {
        if key == self.root_folder.key {
            return None;
        }
        let fptr: ObjPtr<Folder> = ObjPtr::from_key(key);
        let fobj = match self.folders.remove(fptr) {
            Some(f) => f,
            None => {
                return None;
            },
        };
        proof {
            old(self).folders.lemma_live_key_bounds(key);
        }
        if fobj.graphics.len() > 0 || fobj.palettes.len() > 0 || fobj.audios.len() > 0
            || fobj.folders.len() > 0 {
            self.folders.insert_with_key(key, fobj);
            proof {
                assert(self@.folders =~= old(self)@.folders);
                assert(self@ =~~= old(self)@);
            }
            return None;
        }
        let pp = fobj.data.folder;
        proof {
            assert(old(self)@.folders.contains_key(key));
            assert(fobj@ == old(self)@.folders[key]);
            assert(old(self)@.folders.contains_key(pp));
        }
        let pptr: ObjPtr<Folder> = ObjPtr::from_key(pp);
        let mut parent = match self.folders.remove(pptr) {
            Some(f) => f,
            None => {
                proof {
                    assert(false);
                }
                vstd::pervasive::unreached()
            },
        };
        proof {
            old(self).folders.lemma_live_key_bounds(pp);
            assert(count_of(old(self)@.folders[pp].folders, key) == 1);
        }
        let ghost oldparent = parent@;
        let mut i: usize = 0;
        let mut found: Option<usize> = None;
        let n = parent.folders.len();
        while i < n
            invariant
                n == parent.folders@.len(),
                0 <= i <= n,
                match found {
                    Some(f) => f < n && parent.folders@[f as int] == key,
                    None => forall|j: int| 0 <= j < i ==> parent.folders@[j] != key,
                },
            decreases n - i,
        {
            if found.is_none() && parent.folders[i] == key {
                found = Some(i);
            }
            i = i + 1;
        }
        let i = match found {
            Some(f) => f,
            None => {
                proof {
                    lemma_count_zero(parent.folders@, key);
                    assert(false);
                }
                vstd::pervasive::unreached()
            },
        };
        let ghost idx = i as int;
        parent.folders.remove(i);
        proof {
            assert(parent@ =~= (FolderV {
                folders: oldparent.folders.remove(idx),
                ..oldparent
            }));
        }
        self.folders.insert_with_key(pp, parent);
        proof {
            let t = t_folder_remove(old(self)@, key, idx);
            assert(self@.folders =~= t.folders);
            assert(self@ =~~= t);
            lemma_folder_remove_ok(old(self)@, key, idx);
        }
        Some((fobj.data, i))
    }
}

} // verus!
