//! The project: one per-type store for each entity kind, the content-address
//! indices, and the global document settings, together with the ownership
//! invariant that ties them into a single hierarchy.

use vstd::prelude::*;

use crate::counts::count_of;
use crate::files::{AudioFile, AudioFileV, HashIndex, PathIndex};
use crate::folder::{Folder, FolderV};
use crate::frame::{Frame, FrameV};
use crate::graphic::{Graphic, GraphicV};
use crate::layer::{Layer, LayerParent, LayerV};
use crate::palette::{Palette, PaletteV};
use crate::store::{ObjList, ObjPtr};
use crate::stroke::{Stroke, StrokeV};

verus! {

/// The graph state a project denotes: the live objects of every kind, the
/// content-address indices, and the global settings. Identifier allocators
/// are deliberately not part of this state.
#[verifier::ext_equal]
pub struct ProjV {
    pub folders: Map<u64, FolderV>,
    pub graphics: Map<u64, GraphicV>,
    pub layers: Map<u64, LayerV>,
    pub frames: Map<u64, FrameV>,
    pub strokes: Map<u64, StrokeV>,
    pub palettes: Map<u64, PaletteV>,
    pub audio_files: Map<u64, AudioFileV>,
    pub path_index: Map<Seq<char>, u64>,
    pub hash_index: Map<u64, u64>,
    pub root_folder: u64,
    pub fps: u32,
    pub sample_rate: u32,
    pub save_path: Seq<Seq<char>>,
}

/// Every live frame's owning layer is live, and each layer's frame list holds
/// exactly the identifiers of the live frames whose parent it is, once each.
pub open spec fn frames_owned_ok(v: ProjV) -> bool {
    &&& forall|fk: u64| #[trigger]
        v.frames.contains_key(fk) ==> v.layers.contains_key(v.frames[fk].data.layer)
    &&& forall|lk: u64, fk: u64|
        v.layers.contains_key(lk) ==> #[trigger] count_of(v.layers[lk].frames, fk)
            == frame_count_expected(v, lk, fk)
}

pub open spec fn frame_count_expected(v: ProjV, lk: u64, fk: u64) -> nat {
    if v.frames.contains_key(fk) && v.frames[fk].data.layer == lk {
        1nat
    } else {
        0nat
    }
}

/// Every live stroke's owning frame is live, and each frame's stroke list
/// holds exactly the identifiers of the live strokes whose parent it is.
pub open spec fn strokes_owned_ok(v: ProjV) -> bool {
    &&& forall|sk: u64| #[trigger]
        v.strokes.contains_key(sk) ==> v.frames.contains_key(v.strokes[sk].data.frame)
    &&& forall|fk: u64, sk: u64|
        v.frames.contains_key(fk) ==> #[trigger] count_of(v.frames[fk].strokes, sk)
            == stroke_count_expected(v, fk, sk)
}

pub open spec fn stroke_count_expected(v: ProjV, fk: u64, sk: u64) -> nat {
    if v.strokes.contains_key(sk) && v.strokes[sk].data.frame == fk {
        1nat
    } else {
        0nat
    }
}

/// Every live layer's parent (a graphic or another layer) is live, and each
/// parent's layer list holds exactly the identifiers of the live layers whose
/// parent it is.
pub open spec fn layers_owned_ok(v: ProjV) -> bool {
    &&& forall|lk: u64| #[trigger] v.layers.contains_key(lk) ==> match v.layers[lk].data.parent {
        LayerParent::Graphic(g) => v.graphics.contains_key(g),
        LayerParent::Layer(p) => v.layers.contains_key(p) && p != lk,
    }
    &&& forall|gk: u64, lk: u64|
        v.graphics.contains_key(gk) ==> #[trigger] count_of(v.graphics[gk].layers, lk)
            == layer_in_graphic_expected(v, gk, lk)
    &&& forall|pk: u64, lk: u64|
        v.layers.contains_key(pk) ==> #[trigger] count_of(v.layers[pk].layers, lk)
            == layer_in_layer_expected(v, pk, lk)
}

pub open spec fn layer_in_graphic_expected(v: ProjV, gk: u64, lk: u64) -> nat {
    if v.layers.contains_key(lk) && v.layers[lk].data.parent == LayerParent::Graphic(gk) {
        1nat
    } else {
        0nat
    }
}

pub open spec fn layer_in_layer_expected(v: ProjV, pk: u64, lk: u64) -> nat {
    if v.layers.contains_key(lk) && v.layers[lk].data.parent == LayerParent::Layer(pk) {
        1nat
    } else {
        0nat
    }
}

/// Every live graphic's owning folder is live, and each folder's graphic list
/// holds exactly the identifiers of the live graphics whose parent it is.
pub open spec fn graphics_owned_ok(v: ProjV) -> bool {
    &&& forall|gk: u64| #[trigger]
        v.graphics.contains_key(gk) ==> v.folders.contains_key(v.graphics[gk].data.folder)
    &&& forall|fk: u64, gk: u64|
        v.folders.contains_key(fk) ==> #[trigger] count_of(v.folders[fk].graphics, gk)
            == graphic_count_expected(v, fk, gk)
}

pub open spec fn graphic_count_expected(v: ProjV, fk: u64, gk: u64) -> nat {
    if v.graphics.contains_key(gk) && v.graphics[gk].data.folder == fk {
        1nat
    } else {
        0nat
    }
}

/// Every live palette's owning folder is live, and each folder's palette list
/// holds exactly the identifiers of the live palettes whose parent it is.
pub open spec fn palettes_owned_ok(v: ProjV) -> bool {
    &&& forall|pk: u64| #[trigger]
        v.palettes.contains_key(pk) ==> v.folders.contains_key(v.palettes[pk].data.folder)
    &&& forall|fk: u64, pk: u64|
        v.folders.contains_key(fk) ==> #[trigger] count_of(v.folders[fk].palettes, pk)
            == palette_count_expected(v, fk, pk)
}

pub open spec fn palette_count_expected(v: ProjV, fk: u64, pk: u64) -> nat {
    if v.palettes.contains_key(pk) && v.palettes[pk].data.folder == fk {
        1nat
    } else {
        0nat
    }
}

/// Every live audio reference's owning folder is live, and each folder's
/// audio list holds exactly the identifiers of the live references whose
/// parent it is.
pub open spec fn audios_owned_ok(v: ProjV) -> bool {
    &&& forall|ak: u64| #[trigger]
        v.audio_files.contains_key(ak) ==> v.folders.contains_key(v.audio_files[ak].folder)
    &&& forall|fk: u64, ak: u64|
        v.folders.contains_key(fk) ==> #[trigger] count_of(v.folders[fk].audios, ak)
            == audio_count_expected(v, fk, ak)
}

pub open spec fn audio_count_expected(v: ProjV, fk: u64, ak: u64) -> nat {
    if v.audio_files.contains_key(ak) && v.audio_files[ak].folder == fk {
        1nat
    } else {
        0nat
    }
}

/// The root folder is live with the null parent; every other live folder's
/// parent is live, and each folder's sub-folder list holds exactly the
/// identifiers of the live non-root folders whose parent it is.
pub open spec fn folders_owned_ok(v: ProjV) -> bool {
    &&& v.root_folder != 0
    &&& v.folders.contains_key(v.root_folder)
    &&& v.folders[v.root_folder].data.folder == 0
    &&& forall|ck: u64| #[trigger]
        v.folders.contains_key(ck) && ck != v.root_folder ==> v.folders.contains_key(
            v.folders[ck].data.folder,
        ) && v.folders[ck].data.folder != ck
    &&& forall|pk: u64, ck: u64|
        v.folders.contains_key(pk) ==> #[trigger] count_of(v.folders[pk].folders, ck)
            == folder_count_expected(v, pk, ck)
}

pub open spec fn folder_count_expected(v: ProjV, pk: u64, ck: u64) -> nat {
    if ck != v.root_folder && v.folders.contains_key(ck) && v.folders[ck].data.folder == pk {
        1nat
    } else {
        0nat
    }
}

/// Ownership singularity over the whole graph: every reachable entity is held
/// by exactly one parent child collection, the one its parent field names.
pub open spec fn ownership_ok(v: ProjV) -> bool {
    &&& frames_owned_ok(v)
    &&& strokes_owned_ok(v)
    &&& layers_owned_ok(v)
    &&& graphics_owned_ok(v)
    &&& palettes_owned_ok(v)
    &&& audios_owned_ok(v)
    &&& folders_owned_ok(v)
}

/// The mutable object graph: one store per entity type, the content-address
/// indices, and the global settings. `save_path` holds the components of the
/// project descriptor file's path, relative or absolute as the caller keeps
/// them.
pub struct Project {
    pub folders: ObjList<Folder>,
    pub graphics: ObjList<Graphic>,
    pub layers: ObjList<Layer>,
    pub frames: ObjList<Frame>,
    pub strokes: ObjList<Stroke>,
    pub palettes: ObjList<Palette>,
    pub audio_files: ObjList<AudioFile>,
    pub path_file_ptr: PathIndex,
    pub hash_file_ptr: HashIndex,
    pub root_folder: ObjPtr<Folder>,
    pub fps: u32,
    pub sample_rate: u32,
    pub save_path: Vec<String>,
}

impl View for Project {
    type V = ProjV;

    open spec fn view(&self) -> ProjV {
        ProjV {
            folders: self.folders@,
            graphics: self.graphics@,
            layers: self.layers@,
            frames: self.frames@,
            strokes: self.strokes@,
            palettes: self.palettes@,
            audio_files: self.audio_files@,
            path_index: self.path_file_ptr@,
            hash_index: self.hash_file_ptr@,
            root_folder: self.root_folder.key,
            fps: self.fps,
            sample_rate: self.sample_rate,
            save_path: self.save_path.deep_view(),
        }
    }
}

impl Project {
    /// Well-formedness: every store and index is well-formed and the graph
    /// satisfies the ownership invariant. Every public mutation preserves it.
    pub open spec fn wf(self) -> bool {
        &&& self.folders.wf()
        &&& self.graphics.wf()
        &&& self.layers.wf()
        &&& self.frames.wf()
        &&& self.strokes.wf()
        &&& self.palettes.wf()
        &&& self.audio_files.wf()
        &&& self.path_file_ptr.wf()
        &&& self.hash_file_ptr.wf()
        &&& ownership_ok(self@)
    }

    /// A fresh project: empty stores except for the root folder, which is
    /// allocated first.
    pub fn new(save_path: Vec<String>, fps: u32, sample_rate: u32) -> (r: Self)
        ensures
            r.wf(),
            r@.root_folder == 1,
            r@.folders =~= Map::<u64, FolderV>::empty().insert(1, r@.folders[1]),
            r@.folders[1].graphics =~= Seq::<u64>::empty(),
            r@.folders[1].palettes =~= Seq::<u64>::empty(),
            r@.folders[1].audios =~= Seq::<u64>::empty(),
            r@.folders[1].folders =~= Seq::<u64>::empty(),
            r@.folders[1].data.folder == 0,
            r@.graphics =~= Map::<u64, GraphicV>::empty(),
            r@.layers =~= Map::<u64, LayerV>::empty(),
            r@.frames =~= Map::<u64, FrameV>::empty(),
            r@.strokes =~= Map::<u64, StrokeV>::empty(),
            r@.palettes =~= Map::<u64, PaletteV>::empty(),
            r@.audio_files =~= Map::<u64, AudioFileV>::empty(),
            r@.path_index =~= Map::<Seq<char>, u64>::empty(),
            r@.hash_index =~= Map::<u64, u64>::empty(),
            r@.fps == fps,
            r@.sample_rate == sample_rate,
            r@.save_path == save_path.deep_view(),
            r.folders.next_key_spec() == 2,
            r.graphics.next_key_spec() == 1,
            r.layers.next_key_spec() == 1,
            r.frames.next_key_spec() == 1,
            r.strokes.next_key_spec() == 1,
            r.palettes.next_key_spec() == 1,
            r.audio_files.next_key_spec() == 1,
    {
        let mut folders: ObjList<Folder> = ObjList::new();
        let root_folder = folders.add(Folder::new(0));
        let r = Project {
            folders,
            graphics: ObjList::new(),
            layers: ObjList::new(),
            frames: ObjList::new(),
            strokes: ObjList::new(),
            palettes: ObjList::new(),
            audio_files: ObjList::new(),
            path_file_ptr: PathIndex::new(),
            hash_file_ptr: HashIndex::new(),
            root_folder,
            fps,
            sample_rate,
            save_path,
        };
        proof {
            let v = r@;
            assert forall|lk: u64, fk: u64| v.layers.contains_key(lk) implies #[trigger] count_of(
                v.layers[lk].frames,
                fk,
            ) == frame_count_expected(v, lk, fk) by {}
            assert(v.folders.contains_key(1u64));
            assert forall|pk: u64, ck: u64| v.folders.contains_key(pk) implies #[trigger] count_of(
                v.folders[pk].folders,
                ck,
            ) == folder_count_expected(v, pk, ck) by {
                assert(pk == 1);
                assert(v.folders[pk].folders.len() == 0);
            }
            assert forall|pk: u64, ck: u64| v.folders.contains_key(pk) implies #[trigger] count_of(
                v.folders[pk].graphics,
                ck,
            ) == graphic_count_expected(v, pk, ck) by {
                assert(pk == 1);
            }
            assert forall|pk: u64, ck: u64| v.folders.contains_key(pk) implies #[trigger] count_of(
                v.folders[pk].palettes,
                ck,
            ) == palette_count_expected(v, pk, ck) by {
                assert(pk == 1);
            }
            assert forall|pk: u64, ck: u64| v.folders.contains_key(pk) implies #[trigger] count_of(
                v.folders[pk].audios,
                ck,
            ) == audio_count_expected(v, pk, ck) by {
                assert(pk == 1);
            }
        }
        r
    }

    /// The directory of the project descriptor file: its path without the
    /// final component.
    pub fn base_path(&self) -> (r: Vec<String>)
        ensures
            r.deep_view() == if self@.save_path.len() > 0 {
                self@.save_path.drop_last()
            } else {
                Seq::<Seq<char>>::empty()
            },
    {
        let mut r = self.save_path.clone();
        proof {
            assert forall|i: int| 0 <= i < r@.len() implies r@[i]@ == self.save_path@[i]@ by {
                assert(cloned::<String>(self.save_path@[i], r@[i]));
            }
            assert(r.deep_view() =~= self.save_path.deep_view());
        }
        if r.len() > 0 {
            r.pop();
            proof {
                assert(r.deep_view() =~= self@.save_path.drop_last());
            }
        }
        r
    }
}

/// Ownership singularity, stated for frames: a live frame is held exactly
/// once by the frame list of the layer its parent field names, and by no
/// other layer's list.
pub proof fn lemma_frame_owner_singular(v: ProjV, fk: u64, lk: u64)
    requires
        ownership_ok(v),
        v.frames.contains_key(fk),
        v.layers.contains_key(lk),
    ensures
        v.layers.contains_key(v.frames[fk].data.layer),
        count_of(v.layers[v.frames[fk].data.layer].frames, fk) == 1,
        lk != v.frames[fk].data.layer ==> count_of(v.layers[lk].frames, fk) == 0,
{
}

/// Ownership singularity, stated for strokes.
pub proof fn lemma_stroke_owner_singular(v: ProjV, sk: u64, fk: u64)
    requires
        ownership_ok(v),
        v.strokes.contains_key(sk),
        v.frames.contains_key(fk),
    ensures
        v.frames.contains_key(v.strokes[sk].data.frame),
        count_of(v.frames[v.strokes[sk].data.frame].strokes, sk) == 1,
        fk != v.strokes[sk].data.frame ==> count_of(v.frames[fk].strokes, sk) == 0,
{
}

/// Ownership singularity, stated for layers: a live layer is held exactly
/// once, by the child collection of the one parent its parent field names,
/// whether that parent is a graphic or a layer.
pub proof fn lemma_layer_owner_singular(v: ProjV, lk: u64, gk: u64, pk: u64)
    requires
        ownership_ok(v),
        v.layers.contains_key(lk),
        v.graphics.contains_key(gk),
        v.layers.contains_key(pk),
    ensures
        v.layers[lk].data.parent is Graphic ==> count_of(
            v.graphics[v.layers[lk].data.parent->Graphic_0].layers,
            lk,
        ) == 1,
        v.layers[lk].data.parent is Layer ==> count_of(
            v.layers[v.layers[lk].data.parent->Layer_0].layers,
            lk,
        ) == 1,
        v.layers[lk].data.parent != LayerParent::Graphic(gk) ==> count_of(
            v.graphics[gk].layers,
            lk,
        ) == 0,
        v.layers[lk].data.parent != LayerParent::Layer(pk) ==> count_of(v.layers[pk].layers, lk)
            == 0,
{
}

/// Ownership singularity, stated for folders: a live non-root folder is held
/// exactly once, by its parent's sub-folder list; the root folder is held by
/// no list.
pub proof fn lemma_folder_owner_singular(v: ProjV, ck: u64, pk: u64)
    requires
        ownership_ok(v),
        v.folders.contains_key(ck),
        v.folders.contains_key(pk),
    ensures
        ck != v.root_folder ==> count_of(v.folders[v.folders[ck].data.folder].folders, ck) == 1,
        ck != v.root_folder && pk != v.folders[ck].data.folder ==> count_of(
            v.folders[pk].folders,
            ck,
        ) == 0,
        ck == v.root_folder ==> count_of(v.folders[pk].folders, ck) == 0,
{
}

} // verus!
