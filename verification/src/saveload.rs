//! Saving and loading the project as a directory tree.
//!
//! The on-disk shape mirrors the folder hierarchy: each folder is a
//! directory, each graphic or palette is one file holding its encoded
//! subtree, and audio lives in external files referenced by content address.
//! The shell performs the byte and file system work; the walks, the codec
//! dispatch by extension, and the identity remapping live here.
//!
//! Identity preservation: every asset file embeds the on-disk identifiers of
//! its objects. On load, an identifier that is still free is kept; a claimed
//! identifier (a duplicate import) is remapped to a freshly allocated one,
//! and since children are re-attached under their remapped parents as they
//! are inserted, the relationships inside one file stay consistent even when
//! renumbered.

use vstd::prelude::*;

use crate::codec::{
    decode_graphic, decode_palette, encode_graphic, encode_palette, FrameTree, GraphicTree,
    LayerTree, PaletteTree, StrokeTree, Value,
};
use crate::folder::{Folder, FolderData};
use crate::frame::FrameData;
use crate::graphic::{Graphic, GraphicData};
use crate::layer::{parent_live, LayerData, LayerParent};
use crate::palette::{Palette, PaletteData};
use crate::project::{ProjV, Project};
use crate::store::ObjPtr;
use crate::stroke::StrokeData;

verus! {

/// The payload of one file: a structured document for asset files, raw
/// bytes for external media.
pub enum FileData {
    Doc(Value),
    Bytes(Vec<u8>),
}

/// One entry of the on-disk directory tree, as the shell hands it over or
/// receives it: directories carry their entries, files their stem,
/// extension and payload.
pub enum DirEntry {
    Dir { name: String, entries: Vec<DirEntry> },
    File { stem: String, ext: String, data: FileData },
}

/// The load report: the external references that could not be resolved by
/// path or by content hash, one path per entry, surfaced as warnings after
/// the load completes and then discarded.
pub struct LoadingMetadata {
    pub unresolved: Vec<String>,
}

impl LoadingMetadata {
    pub fn new() -> (r: LoadingMetadata)
        ensures
            r.unresolved@.len() == 0,
    {
        LoadingMetadata { unresolved: Vec::new() }
    }
}

impl Project {
    /// Inserts a decoded stroke under `frame`, keeping its on-disk
    /// identifier when it is still free and remapping it otherwise.
    pub fn insert_stroke_tree(&mut self, t: &StrokeTree, frame: u64) -> (r: bool)
        requires
            old(self).wf(),
        ensures
            final(self).wf(),
            r ==> final(self)@.frames.contains_key(frame),
            !old(self)@.frames.contains_key(frame) ==> !r,
            old(self)@.frames.contains_key(frame) && old(self).strokes.next_key_spec()
                < u64::MAX ==> r,
            !r ==> final(self)@ == old(self)@,
            r ==> exists|k: u64|
                {
                    &&& !old(self)@.strokes.contains_key(k)
                    &&& (0 < t.key < u64::MAX && !old(self)@.strokes.contains_key(t.key) ==> k
                        == t.key)
                    &&& #[trigger] stroke_in_graph(
                        final(self)@,
                        k,
                        frame,
                        StrokeTree {
                            key: k,
                            color: t.color,
                            r: t.r,
                            filled: t.filled,
                            points: t.points,
                        },
                    )
                },
            final(self)@.graphics.dom() == old(self)@.graphics.dom(),
            final(self)@.palettes.dom() == old(self)@.palettes.dom(),
            layer_data_kept(old(self)@, final(self)@),
            frame_data_kept(old(self)@, final(self)@),
            stroke_records_kept(old(self)@, final(self)@),
            graphic_data_kept(old(self)@, final(self)@),
            palette_data_kept(old(self)@, final(self)@),
            folder_data_kept(old(self)@, final(self)@),
            settings_kept(old(self)@, final(self)@),
            allocators_monotone(*old(self), *final(self)),
    {
        let key = if t.key != 0 && t.key != u64::MAX && !self.strokes.contains(
            ObjPtr::from_key(t.key),
        ) {
            t.key
        } else {
            self.strokes.peek_next_handle().key
        };
        let data = StrokeData {
            frame,
            color: t.color,
            r: t.r,
            filled: t.filled,
            points: t.points.clone(),
        };
        let ghost dv = data@;
        let ok = self.insert_stroke_at(key, data, usize::MAX);
        proof {
            if ok {
                assert(self@.strokes.contains_key(key));
                assert(self@.strokes[key].data == dv);
                assert(dv.points =~= t.points@);
                assert(stroke_in_graph(
                    self@,
                    key,
                    frame,
                    StrokeTree {
                        key,
                        color: t.color,
                        r: t.r,
                        filled: t.filled,
                        points: t.points,
                    },
                ));
                assert(self@.graphics.dom() =~= old(self)@.graphics.dom());
                assert(self@.palettes.dom() =~= old(self)@.palettes.dom());
            }
        }
        ok
    }

    /// Inserts a decoded frame with its strokes under `layer`, remapping
    /// claimed identifiers.
    #[verifier::rlimit(100)]
    pub fn insert_frame_tree(&mut self, t: &FrameTree, layer: u64) -> (r: bool)
        requires
            old(self).wf(),
        ensures
            final(self).wf(),
            !old(self)@.layers.contains_key(layer) ==> !r,
            old(self)@.layers.contains_key(layer) && old(self).frames.next_key_spec() < u64::MAX
                ==> r,
            !r ==> final(self)@ == old(self)@,
            r ==> exists|fk: u64|
                {
                    &&& !old(self)@.frames.contains_key(fk)
                    &&& (0 < t.key < u64::MAX && !old(self)@.frames.contains_key(t.key) ==> fk
                        == t.key)
                    &&& #[trigger] final(self)@.frames.contains_key(fk)
                    &&& final(self)@.frames[fk].data.layer == layer
                    &&& final(self)@.frames[fk].data.time == t.time
                    &&& forall|i: int| #![trigger t.strokes@[i]]
                        0 <= i < t.strokes@.len() ==> (exists|sk: u64|
                            #[trigger] stroke_in_graph(
                                final(self)@,
                                sk,
                                fk,
                                StrokeTree {
                                    key: sk,
                                    color: t.strokes@[i].color,
                                    r: t.strokes@[i].r,
                                    filled: t.strokes@[i].filled,
                                    points: t.strokes@[i].points,
                                },
                            )) || final(self).strokes.next_key_spec() == u64::MAX
                },
            final(self)@.graphics.dom() == old(self)@.graphics.dom(),
            final(self)@.palettes.dom() == old(self)@.palettes.dom(),
            layer_data_kept(old(self)@, final(self)@),
            frame_data_kept(old(self)@, final(self)@),
            graphic_data_kept(old(self)@, final(self)@),
            palette_data_kept(old(self)@, final(self)@),
            folder_data_kept(old(self)@, final(self)@),
            settings_kept(old(self)@, final(self)@),
            allocators_monotone(*old(self), *final(self)),
    {
        let key = if t.key != 0 && t.key != u64::MAX && !self.frames.contains(
            ObjPtr::from_key(t.key),
        ) {
            t.key
        } else {
            self.frames.peek_next_handle().key
        };
        let data = FrameData { time: t.time, layer };
        if !self.insert_frame_at(key, data, usize::MAX) {
            return false;
        }
        let ghost v0 = self@;
        let ghost p0 = *self;
        proof {
            assert(v0.graphics == old(self)@.graphics);
            assert(graphic_data_kept(old(self)@, v0));
            assert(v0.palettes == old(self)@.palettes);
            assert(palette_data_kept(old(self)@, v0));
            assert(v0.folders == old(self)@.folders);
            assert(folder_data_kept(old(self)@, v0));
            assert(v0.strokes == old(self)@.strokes);
            assert(layer_data_kept(old(self)@, v0));
            assert(frame_data_kept(old(self)@, v0));
        }
        let mut i: usize = 0;
        while i < t.strokes.len()
            invariant
                self.wf(),
                0 <= i <= t.strokes@.len(),
                graphic_data_kept(v0, self@),
                palette_data_kept(v0, self@),
                folder_data_kept(v0, self@),
                layer_data_kept(v0, self@),
                frame_data_kept(v0, self@),
                settings_kept(v0, self@),
                allocators_monotone(p0, *self),
                self@.graphics.dom() == v0.graphics.dom(),
                self@.palettes.dom() == v0.palettes.dom(),
                v0.frames.contains_key(key),
                v0.frames[key].data.layer == layer,
                v0.frames[key].data.time == t.time,
                forall|idx: int| #![trigger t.strokes@[idx]]
                    0 <= idx < i ==> (exists|sk: u64|
                        #[trigger] stroke_in_graph(
                            self@,
                            sk,
                            key,
                            StrokeTree {
                                key: sk,
                                color: t.strokes@[idx].color,
                                r: t.strokes@[idx].r,
                                filled: t.strokes@[idx].filled,
                                points: t.strokes@[idx].points,
                            },
                        )) || self.strokes.next_key_spec() == u64::MAX,
            decreases t.strokes@.len() - i,
        {
            let ghost pre = self@;
            let ghost ppre = *self;
            let ok = self.insert_stroke_tree(&t.strokes[i], key);
            proof {
                lemma_graphic_data_kept_trans(v0, pre, self@);
                lemma_palette_data_kept_trans(v0, pre, self@);
                lemma_folder_data_kept_trans(v0, pre, self@);
                assert(layer_data_kept(v0, self@));
                assert(frame_data_kept(v0, self@));
                assert forall|idx: int| #![trigger t.strokes@[idx]]
                    0 <= idx < i + 1 implies (exists|sk: u64|
                        #[trigger] stroke_in_graph(
                            self@,
                            sk,
                            key,
                            StrokeTree {
                                key: sk,
                                color: t.strokes@[idx].color,
                                r: t.strokes@[idx].r,
                                filled: t.strokes@[idx].filled,
                                points: t.strokes@[idx].points,
                            },
                        )) || self.strokes.next_key_spec() == u64::MAX by {
                    if idx == i {
                        assert(pre.frames.contains_key(key));
                        if ppre.strokes.next_key_spec() < u64::MAX {
                            assert(ok);
                        }
                    } else {
                        if self.strokes.next_key_spec() != u64::MAX {
                            if exists|sk: u64|
                                #[trigger] stroke_in_graph(
                                    pre,
                                    sk,
                                    key,
                                    StrokeTree {
                                        key: sk,
                                        color: t.strokes@[idx].color,
                                        r: t.strokes@[idx].r,
                                        filled: t.strokes@[idx].filled,
                                        points: t.strokes@[idx].points,
                                    },
                                ) {
                                let sk = choose|sk: u64|
                                    #[trigger] stroke_in_graph(
                                        pre,
                                        sk,
                                        key,
                                        StrokeTree {
                                            key: sk,
                                            color: t.strokes@[idx].color,
                                            r: t.strokes@[idx].r,
                                            filled: t.strokes@[idx].filled,
                                            points: t.strokes@[idx].points,
                                        },
                                    );
                                assert(self@.strokes.contains_key(sk) && self@.strokes[sk]
                                    == pre.strokes[sk]);
                                assert(stroke_in_graph(
                                    self@,
                                    sk,
                                    key,
                                    StrokeTree {
                                        key: sk,
                                        color: t.strokes@[idx].color,
                                        r: t.strokes@[idx].r,
                                        filled: t.strokes@[idx].filled,
                                        points: t.strokes@[idx].points,
                                    },
                                ));
                            }
                        }
                    }
                }
            }
            i = i + 1;
        }
        proof {
            lemma_graphic_data_kept_trans(old(self)@, v0, self@);
            lemma_palette_data_kept_trans(old(self)@, v0, self@);
            lemma_folder_data_kept_trans(old(self)@, v0, self@);
            assert(v0.graphics.dom() =~= old(self)@.graphics.dom());
            assert(v0.palettes.dom() =~= old(self)@.palettes.dom());
            assert(self@.graphics.dom() == old(self)@.graphics.dom());
            assert(self@.palettes.dom() == old(self)@.palettes.dom());
            assert(self@.frames.contains_key(key) && self@.frames[key].data.layer == layer
                && self@.frames[key].data.time == t.time);
            assert(!old(self)@.frames.contains_key(key));
            assert(exists|fk: u64|
                {
                    &&& !old(self)@.frames.contains_key(fk)
                    &&& (0 < t.key < u64::MAX && !old(self)@.frames.contains_key(t.key) ==> fk
                        == t.key)
                    &&& #[trigger] self@.frames.contains_key(fk)
                    &&& self@.frames[fk].data.layer == layer
                    &&& self@.frames[fk].data.time == t.time
                    &&& forall|i: int| #![trigger t.strokes@[i]]
                        0 <= i < t.strokes@.len() ==> (exists|sk: u64|
                            #[trigger] stroke_in_graph(
                                self@,
                                sk,
                                fk,
                                StrokeTree {
                                    key: sk,
                                    color: t.strokes@[i].color,
                                    r: t.strokes@[i].r,
                                    filled: t.strokes@[i].filled,
                                    points: t.strokes@[i].points,
                                },
                            )) || self.strokes.next_key_spec() == u64::MAX
                });
        }
        true
    }

    /// Inserts a decoded layer with its frames and sub-layers under
    /// `parent`, remapping claimed identifiers. On success a fresh layer
    /// carries the subtree's field data, and each direct child subtree has
    /// a matching live child under it unless the matching allocator ended
    /// exhausted.
    pub fn insert_layer_tree(&mut self, t: &LayerTree, parent: LayerParent) -> (r: Option<u64>)
        requires
            old(self).wf(),
        ensures
            final(self).wf(),
            !parent_live(old(self)@, parent) ==> r is None,
            parent_live(old(self)@, parent) && old(self).layers.next_key_spec() < u64::MAX
                ==> r is Some,
            r is None ==> final(self)@ == old(self)@,
            match r {
                Some(lk) => {
                    &&& !old(self)@.layers.contains_key(lk)
                    &&& (0 < t.key < u64::MAX && !old(self)@.layers.contains_key(t.key) ==> lk
                        == t.key)
                    &&& final(self)@.layers.contains_key(lk)
                    &&& final(self)@.layers[lk].data.parent == parent
                    &&& final(self)@.layers[lk].data.name == t.name@
                    &&& final(self)@.layers[lk].data.show == t.show
                    &&& final(self)@.layers[lk].data.kind == t.kind
                    &&& forall|i: int| #![trigger t.layers@[i]]
                        0 <= i < t.layers@.len() ==> (exists|ck: u64|
                            {
                                &&& #[trigger] final(self)@.layers.contains_key(ck)
                                &&& final(self)@.layers[ck].data.parent == LayerParent::Layer(
                                    lk,
                                )
                                &&& final(self)@.layers[ck].data.name == t.layers@[i].name@
                                &&& final(self)@.layers[ck].data.show == t.layers@[i].show
                                &&& final(self)@.layers[ck].data.kind == t.layers@[i].kind
                            }) || final(self).layers.next_key_spec() == u64::MAX
                },
                None => true,
            },
            final(self)@.graphics.dom() == old(self)@.graphics.dom(),
            final(self)@.palettes.dom() == old(self)@.palettes.dom(),
            layer_data_kept(old(self)@, final(self)@),
            frame_data_kept(old(self)@, final(self)@),
            graphic_data_kept(old(self)@, final(self)@),
            palette_data_kept(old(self)@, final(self)@),
            folder_data_kept(old(self)@, final(self)@),
            settings_kept(old(self)@, final(self)@),
            allocators_monotone(*old(self), *final(self)),
        decreases *t,
    {
        let key = if t.key != 0 && t.key != u64::MAX && !self.layers.contains(
            ObjPtr::from_key(t.key),
        ) {
            t.key
        } else {
            self.layers.peek_next_handle().key
        };
        let data = LayerData {
            parent,
            name: t.name.clone(),
            show: t.show,
            kind: t.kind,
        };
        let ghost ventry = old(self)@;
        if !self.insert_layer_at(key, data, usize::MAX) {
            return None;
        }
        let ghost v0 = self@;
        let ghost p0 = *self;
        proof {
            assert forall|g: u64| #[trigger] ventry.graphics.contains_key(g) implies
                v0.graphics.contains_key(g) && v0.graphics[g].data
                == ventry.graphics[g].data by {}
            assert(v0.folders == ventry.folders);
            assert(folder_data_kept(ventry, v0));
            assert(v0.palettes == ventry.palettes);
            assert(palette_data_kept(ventry, v0));
            assert(v0.frames == ventry.frames);
            assert(frame_data_kept(ventry, v0));
            assert(layer_data_kept(ventry, v0));
            assert(v0.layers.contains_key(key));
            assert(v0.layers[key].data.parent == parent);
            assert(v0.layers[key].data.name == t.name@);
        }
        let mut fi: usize = 0;
        while fi < t.frames.len()
            invariant
                self.wf(),
                0 <= fi <= t.frames@.len(),
                graphic_data_kept(v0, self@),
                palette_data_kept(v0, self@),
                folder_data_kept(v0, self@),
                layer_data_kept(v0, self@),
                frame_data_kept(v0, self@),
                settings_kept(v0, self@),
                allocators_monotone(p0, *self),
                self@.graphics.dom() == v0.graphics.dom(),
                self@.palettes.dom() == v0.palettes.dom(),
                v0.layers.contains_key(key),
                forall|idx: int| #![trigger t.frames@[idx]]
                    0 <= idx < fi ==> (exists|fk: u64|
                        {
                            &&& #[trigger] self@.frames.contains_key(fk)
                            &&& self@.frames[fk].data.layer == key
                            &&& self@.frames[fk].data.time == t.frames@[idx].time
                        }) || self.frames.next_key_spec() == u64::MAX,
            decreases t.frames@.len() - fi,
        {
            let ghost pre = self@;
            let ghost ppre = *self;
            let ok = self.insert_frame_tree(&t.frames[fi], key);
            proof {
                lemma_graphic_data_kept_trans(v0, pre, self@);
                lemma_palette_data_kept_trans(v0, pre, self@);
                lemma_folder_data_kept_trans(v0, pre, self@);
                assert forall|idx: int| #![trigger t.frames@[idx]]
                    0 <= idx < fi + 1 implies (exists|fk: u64|
                        {
                            &&& #[trigger] self@.frames.contains_key(fk)
                            &&& self@.frames[fk].data.layer == key
                            &&& self@.frames[fk].data.time == t.frames@[idx].time
                        }) || self.frames.next_key_spec() == u64::MAX by {
                    if idx == fi {
                        assert(pre.layers.contains_key(key));
                        if ppre.frames.next_key_spec() < u64::MAX {
                            assert(ok);
                        } else {
                            assert(self.frames.next_key_spec()
                                >= ppre.frames.next_key_spec());
                            assert(self.frames.next_key_spec() == u64::MAX);
                        }
                    } else {
                        if self.frames.next_key_spec() != u64::MAX {
                            assert(ppre.frames.next_key_spec()
                                <= self.frames.next_key_spec());
                            assert(ppre.frames.next_key_spec() != u64::MAX);
                            let fk = choose|fk: u64|
                                {
                                    &&& #[trigger] pre.frames.contains_key(fk)
                                    &&& pre.frames[fk].data.layer == key
                                    &&& pre.frames[fk].data.time == t.frames@[idx].time
                                };
                            assert(self@.frames.contains_key(fk) && self@.frames[fk].data
                                == pre.frames[fk].data);
                        }
                    }
                }
            }
            fi = fi + 1;
        }
        let mut i: usize = 0;
        while i < t.layers.len()
            invariant
                self.wf(),
                0 <= i <= t.layers@.len(),
                graphic_data_kept(v0, self@),
                palette_data_kept(v0, self@),
                folder_data_kept(v0, self@),
                layer_data_kept(v0, self@),
                frame_data_kept(v0, self@),
                settings_kept(v0, self@),
                allocators_monotone(p0, *self),
                self@.graphics.dom() == v0.graphics.dom(),
                self@.palettes.dom() == v0.palettes.dom(),
                v0.layers.contains_key(key),
                forall|idx: int| #![trigger t.layers@[idx]]
                    0 <= idx < i ==> (exists|ck: u64|
                        {
                            &&& #[trigger] self@.layers.contains_key(ck)
                            &&& self@.layers[ck].data.parent == LayerParent::Layer(key)
                            &&& self@.layers[ck].data.name == t.layers@[idx].name@
                            &&& self@.layers[ck].data.show == t.layers@[idx].show
                            &&& self@.layers[ck].data.kind == t.layers@[idx].kind
                        }) || self.layers.next_key_spec() == u64::MAX,
            decreases t.layers@.len() - i,
        {
            proof {
                broadcast use vstd::std_specs::vec::axiom_vec_index_decreases;

                assert(decreases_to!(*t => t.layers));
                assert(decreases_to!(t.layers => t.layers[i as int]));
            }
            let ghost pre = self@;
            let ghost ppre = *self;
            let ok = self.insert_layer_tree(&t.layers[i], LayerParent::Layer(key));
            proof {
                lemma_graphic_data_kept_trans(v0, pre, self@);
                lemma_palette_data_kept_trans(v0, pre, self@);
                lemma_folder_data_kept_trans(v0, pre, self@);
                lemma_layer_data_kept_trans(v0, pre, self@);
                lemma_frame_data_kept_trans(v0, pre, self@);
                assert forall|idx: int| #![trigger t.layers@[idx]]
                    0 <= idx < i + 1 implies (exists|ck: u64|
                        {
                            &&& #[trigger] self@.layers.contains_key(ck)
                            &&& self@.layers[ck].data.parent == LayerParent::Layer(key)
                            &&& self@.layers[ck].data.name == t.layers@[idx].name@
                            &&& self@.layers[ck].data.show == t.layers@[idx].show
                            &&& self@.layers[ck].data.kind == t.layers@[idx].kind
                        }) || self.layers.next_key_spec() == u64::MAX by {
                    if idx == i {
                        assert(pre.layers.contains_key(key));
                        assert(parent_live(pre, LayerParent::Layer(key)));
                        if ppre.layers.next_key_spec() < u64::MAX {
                            assert(ok is Some);
                            let ck = ok->Some_0;
                            assert(self@.layers.contains_key(ck)
                                && self@.layers[ck].data.parent == LayerParent::Layer(key)
                                && self@.layers[ck].data.name == t.layers@[idx].name@
                                && self@.layers[ck].data.show == t.layers@[idx].show
                                && self@.layers[ck].data.kind == t.layers@[idx].kind);
                        } else {
                            assert(self.layers.next_key_spec()
                                >= ppre.layers.next_key_spec());
                            assert(self.layers.next_key_spec() == u64::MAX);
                        }
                    } else {
                        if self.layers.next_key_spec() != u64::MAX {
                            assert(ppre.layers.next_key_spec()
                                <= self.layers.next_key_spec());
                            assert(ppre.layers.next_key_spec() != u64::MAX);
                            let ck = choose|ck: u64|
                                {
                                    &&& #[trigger] pre.layers.contains_key(ck)
                                    &&& pre.layers[ck].data.parent == LayerParent::Layer(key)
                                    &&& pre.layers[ck].data.name == t.layers@[idx].name@
                                    &&& pre.layers[ck].data.show == t.layers@[idx].show
                                    &&& pre.layers[ck].data.kind == t.layers@[idx].kind
                                };
                            assert(self@.layers.contains_key(ck) && self@.layers[ck].data
                                == pre.layers[ck].data);
                        }
                    }
                }
            }
            i = i + 1;
        }
        proof {
            assert(i as int >= t.layers@.len());
            lemma_graphic_data_kept_trans(ventry, v0, self@);
            lemma_palette_data_kept_trans(ventry, v0, self@);
            lemma_folder_data_kept_trans(ventry, v0, self@);
            assert(v0.graphics.dom() =~= ventry.graphics.dom());
            assert(v0.palettes.dom() =~= ventry.palettes.dom());
            assert(self@.graphics.dom() == old(self)@.graphics.dom());
            assert(self@.palettes.dom() == old(self)@.palettes.dom());
            assert(!old(self)@.layers.contains_key(key));
            assert(self@.layers.contains_key(key) && self@.layers[key].data.parent == parent
                && self@.layers[key].data.name == t.name@ && self@.layers[key].data.show
                == t.show && self@.layers[key].data.kind == t.kind);
            assert forall|idx: int| #![trigger t.layers@[idx]]
                0 <= idx < t.layers@.len() implies (exists|ck: u64|
                    {
                        &&& #[trigger] self@.layers.contains_key(ck)
                        &&& self@.layers[ck].data.parent == LayerParent::Layer(key)
                        &&& self@.layers[ck].data.name == t.layers@[idx].name@
                        &&& self@.layers[ck].data.show == t.layers@[idx].show
                        &&& self@.layers[ck].data.kind == t.layers@[idx].kind
                    }) || self.layers.next_key_spec() == u64::MAX by {
                assert(0 <= idx < i);
                let le = t.layers@[idx];
                assert(t.layers@[idx] == le);
            }
        }
        Some(key)
    }

    /// Inserts a decoded graphic with its whole subtree under `folder`. The
    /// root identifier is kept when free — identity survives the save/load
    /// cycle — and remapped to the next free identifier on collision, as on
    /// a duplicate import.
    #[verifier::rlimit(100)]
    pub fn insert_graphic_tree(&mut self, t: &GraphicTree, folder: ObjPtr<Folder>) -> (r: Option<
        u64,
    >)
        requires
            old(self).wf(),
        ensures
            final(self).wf(),
            match r {
                Some(gk) => {
                    &&& final(self)@.graphics.contains_key(gk)
                    &&& final(self)@.graphics[gk].data.name == t.name@
                    &&& final(self)@.graphics[gk].data.folder == folder.key
                    &&& (0 < t.key < u64::MAX && !old(self)@.graphics.contains_key(t.key)
                        ==> gk == t.key)
                    &&& (!(0 < t.key < u64::MAX && !old(self)@.graphics.contains_key(t.key))
                        ==> gk == old(self).graphics.next_key_spec())
                    &&& final(self)@.graphics.dom() == old(self)@.graphics.dom().insert(gk)
                },
                None => (!old(self)@.folders.contains_key(folder.key) || old(
                    self,
                ).graphics.next_key_spec() == u64::MAX) && final(self)@ == old(self)@,
            },
            r is Some ==> graphic_children_loaded(*final(self), r->Some_0, t.layers@),
            old(self)@.folders.contains_key(folder.key) && old(self).graphics.next_key_spec()
                < u64::MAX ==> r is Some,
            graphic_data_kept(old(self)@, final(self)@),
            palette_data_kept(old(self)@, final(self)@),
            folder_data_kept(old(self)@, final(self)@),
            settings_kept(old(self)@, final(self)@),
            allocators_monotone(*old(self), *final(self)),
    {
        let key = if t.key != 0 && t.key != u64::MAX && !self.graphics.contains(
            ObjPtr::from_key(t.key),
        ) {
            t.key
        } else {
            self.graphics.peek_next_handle().key
        };
        let data = GraphicData {
            name: t.name.clone(),
            folder: folder.key,
            len: t.len,
            clip: t.clip,
            w: t.w,
            h: t.h,
        };
        if !self.insert_graphic_at(key, data, usize::MAX) {
            return None;
        }
        let ghost v0 = self@;
        let ghost p0 = *self;
        proof {
            assert(v0.folders.dom() =~= old(self)@.folders.dom().insert(folder.key));
            assert(folder_data_kept(old(self)@, v0));
            assert(graphic_data_kept(old(self)@, v0));
            assert(palette_data_kept(old(self)@, v0));
        }
        let mut i: usize = 0;
        while i < t.layers.len()
            invariant
                self.wf(),
                0 <= i <= t.layers@.len(),
                self@.graphics.contains_key(key),
                self@.graphics[key].data.name == t.name@,
                self@.graphics[key].data.folder == folder.key,
                folder_data_kept(v0, self@),
                graphic_data_kept(v0, self@),
                palette_data_kept(v0, self@),
                layer_data_kept(v0, self@),
                frame_data_kept(v0, self@),
                settings_kept(v0, self@),
                allocators_monotone(p0, *self),
                self@.graphics.dom() == v0.graphics.dom(),
                self@.palettes.dom() == v0.palettes.dom(),
                graphic_children_loaded(*self, key, t.layers@.take(i as int)),
            decreases t.layers@.len() - i,
        {
            let ghost pre = self@;
            let ghost ppre = *self;
            let ok = self.insert_layer_tree(&t.layers[i], LayerParent::Graphic(key));
            proof {
                lemma_folder_data_kept_trans(v0, pre, self@);
                lemma_graphic_data_kept_trans(v0, pre, self@);
                lemma_palette_data_kept_trans(v0, pre, self@);
                lemma_layer_data_kept_trans(v0, pre, self@);
                lemma_frame_data_kept_trans(v0, pre, self@);
                assert forall|j: int| #![trigger t.layers@.take(i as int + 1)[j]]
                    0 <= j < i + 1 implies t.layers@.take(i as int + 1)[j] == t.layers@[
                    j
                ] by {}
                assert(graphic_children_loaded(*self, key, t.layers@.take(i as int + 1))) by {
                    assert(pre.graphics.contains_key(key));
                    assert(parent_live(pre, LayerParent::Graphic(key)));
                    if ppre.layers.next_key_spec() < u64::MAX {
                        assert(ok is Some);
                    }
                }
            }
            i = i + 1;
        }
        proof {
            lemma_folder_data_kept_trans(old(self)@, v0, self@);
            lemma_graphic_data_kept_trans(old(self)@, v0, self@);
            lemma_palette_data_kept_trans(old(self)@, v0, self@);
            assert(v0.graphics.dom() =~= old(self)@.graphics.dom().insert(key));
            assert(self@.graphics.dom() == old(self)@.graphics.dom().insert(key));
            assert(t.layers@.take(t.layers@.len() as int) =~= t.layers@);
            assert(graphic_children_loaded(*self, key, t.layers@));
        }
        Some(key)
    }

    /// Inserts a decoded palette under `folder`, keeping or remapping its
    /// on-disk identifier like a graphic's.
    pub fn insert_palette_tree(&mut self, t: &PaletteTree, folder: ObjPtr<Folder>) -> (r: Option<
        u64,
    >)
        requires
            old(self).wf(),
        ensures
            final(self).wf(),
            match r {
                Some(pk) => {
                    &&& final(self)@.palettes.contains_key(pk)
                    &&& final(self)@.palettes[pk].data.name == t.name@
                    &&& final(self)@.palettes[pk].data.colors == t.colors@
                    &&& final(self)@.palettes[pk].data.folder == folder.key
                    &&& (0 < t.key < u64::MAX && !old(self)@.palettes.contains_key(t.key)
                        ==> pk == t.key)
                    &&& (!(0 < t.key < u64::MAX && !old(self)@.palettes.contains_key(t.key))
                        ==> pk == old(self).palettes.next_key_spec())
                    &&& final(self)@.palettes.dom() == old(self)@.palettes.dom().insert(pk)
                },
                None => (!old(self)@.folders.contains_key(folder.key) || old(
                    self,
                ).palettes.next_key_spec() == u64::MAX) && final(self)@ == old(self)@,
            },
            old(self)@.folders.contains_key(folder.key) && old(self).palettes.next_key_spec()
                < u64::MAX ==> r is Some,
            forall|k: u64| #[trigger]
                old(self)@.palettes.contains_key(k) ==> final(self)@.palettes.contains_key(k)
                    && final(self)@.palettes[k].data == old(self)@.palettes[k].data,
            graphic_data_kept(old(self)@, final(self)@),
            palette_data_kept(old(self)@, final(self)@),
            folder_data_kept(old(self)@, final(self)@),
            settings_kept(old(self)@, final(self)@),
            allocators_monotone(*old(self), *final(self)),
    {
        let key = if t.key != 0 && t.key != u64::MAX && !self.palettes.contains(
            ObjPtr::from_key(t.key),
        ) {
            t.key
        } else {
            self.palettes.peek_next_handle().key
        };
        let data = PaletteData {
            name: t.name.clone(),
            folder: folder.key,
            colors: t.colors.clone(),
        };
        proof {
            assert(data@.colors =~= t.colors@);
        }
        if !self.insert_palette_at(key, data, usize::MAX) {
            return None;
        }
        proof {
            assert(folder_data_kept(old(self)@, self@));
            assert(self@.palettes.dom() =~= old(self)@.palettes.dom().insert(key));
        }
        Some(key)
    }
}

/// Whether the global settings and the root handle carry over unchanged.
pub open spec fn settings_kept(v: ProjV, w: ProjV) -> bool {
    &&& w.fps == v.fps
    &&& w.sample_rate == v.sample_rate
    &&& w.save_path == v.save_path
    &&& w.root_folder == v.root_folder
}

/// Whether the folder, graphic and palette allocators only ever advance: a
/// load can exhaust an allocator but never rewind one.
pub open spec fn allocators_monotone(a: Project, b: Project) -> bool {
    &&& b.folders.next_key_spec() >= a.folders.next_key_spec()
    &&& b.graphics.next_key_spec() >= a.graphics.next_key_spec()
    &&& b.palettes.next_key_spec() >= a.palettes.next_key_spec()
    &&& b.layers.next_key_spec() >= a.layers.next_key_spec()
    &&& b.frames.next_key_spec() >= a.frames.next_key_spec()
    &&& b.strokes.next_key_spec() >= a.strokes.next_key_spec()
}

/// Whether every folder live in `v` is still live in `w` with the same
/// field data: what loading entries below a directory promises about the
/// directories already created.
pub open spec fn folder_data_kept(v: ProjV, w: ProjV) -> bool {
    forall|g: u64| #[trigger]
        v.folders.contains_key(g) ==> w.folders.contains_key(g) && w.folders[g].data
            == v.folders[g].data
}

proof fn lemma_folder_data_kept_trans(a: ProjV, b: ProjV, c: ProjV)
    requires
        folder_data_kept(a, b),
        folder_data_kept(b, c),
    ensures
        folder_data_kept(a, c),
{
}

/// Whether every layer live in `v` is still live in `w` with the same
/// field data.
pub open spec fn layer_data_kept(v: ProjV, w: ProjV) -> bool {
    forall|k: u64| #[trigger]
        v.layers.contains_key(k) ==> w.layers.contains_key(k) && w.layers[k].data
            == v.layers[k].data
}

/// Whether every frame live in `v` is still live in `w` with the same field
/// data.
pub open spec fn frame_data_kept(v: ProjV, w: ProjV) -> bool {
    forall|k: u64| #[trigger]
        v.frames.contains_key(k) ==> w.frames.contains_key(k) && w.frames[k].data
            == v.frames[k].data
}

/// Whether every stroke record of `v` is carried into `w` unchanged.
pub open spec fn stroke_records_kept(v: ProjV, w: ProjV) -> bool {
    forall|k: u64| #[trigger]
        v.strokes.contains_key(k) ==> w.strokes.contains_key(k) && w.strokes[k]
            == v.strokes[k]
}

/// Whether every palette live in `v` is still live in `w` with the same
/// field data.
pub open spec fn palette_data_kept(v: ProjV, w: ProjV) -> bool {
    forall|g: u64| #[trigger]
        v.palettes.contains_key(g) ==> w.palettes.contains_key(g) && w.palettes[g].data
            == v.palettes[g].data
}

proof fn lemma_layer_data_kept_trans(a: ProjV, b: ProjV, c: ProjV)
    requires
        layer_data_kept(a, b),
        layer_data_kept(b, c),
    ensures
        layer_data_kept(a, c),
{
}

proof fn lemma_frame_data_kept_trans(a: ProjV, b: ProjV, c: ProjV)
    requires
        frame_data_kept(a, b),
        frame_data_kept(b, c),
    ensures
        frame_data_kept(a, c),
{
}

proof fn lemma_palette_data_kept_trans(a: ProjV, b: ProjV, c: ProjV)
    requires
        palette_data_kept(a, b),
        palette_data_kept(b, c),
    ensures
        palette_data_kept(a, c),
{
}

/// Whether every graphic live in `v` is still live in `w` with the same
/// field data: what loading children below an asset promises about the
/// asset itself.
pub open spec fn graphic_data_kept(v: ProjV, w: ProjV) -> bool {
    forall|g: u64| #[trigger]
        v.graphics.contains_key(g) ==> w.graphics.contains_key(g) && w.graphics[g].data
            == v.graphics[g].data
}

proof fn lemma_graphic_data_kept_trans(a: ProjV, b: ProjV, c: ProjV)
    requires
        graphic_data_kept(a, b),
        graphic_data_kept(b, c),
    ensures
        graphic_data_kept(a, c),
{
}

/// The paths among a reference table that resolve neither by path nor by
/// hash in a given graph state.
pub open spec fn unresolved_of(v: ProjV, refs: Seq<(String, u64)>) -> Seq<Seq<char>>
    decreases refs.len(),
{
    if refs.len() == 0 {
        Seq::empty()
    } else {
        (if crate::files::resolution_of(v, refs.first().0@, refs.first().1) is None {
            seq![refs.first().0@]
        } else {
            Seq::empty()
        }) + unresolved_of(v, refs.drop_first())
    }
}

impl Project {
    /// Checks the descriptor's external reference table against the loaded
    /// indices and appends one load-report entry per reference that resolves
    /// neither by its recorded path nor by its content hash.
    pub fn check_references(&self, refs: &Vec<(String, u64)>, metadata: &mut LoadingMetadata)
        requires
            self.wf(),
        ensures
            final(metadata).unresolved.deep_view() == old(metadata).unresolved.deep_view()
                + unresolved_of(self@, refs@),
    {
        let ghost olddv = metadata.unresolved.deep_view();
        proof {
            assert(refs@.skip(0) =~= refs@);
        }
        let mut i: usize = 0;
        while i < refs.len()
            invariant
                self.wf(),
                0 <= i <= refs@.len(),
                olddv + unresolved_of(self@, refs@) =~= metadata.unresolved.deep_view()
                    + unresolved_of(self@, refs@.skip(i as int)),
            decreases refs@.len() - i,
        {
            proof {
                assert(refs@.skip(i as int).first() == refs@[i as int]);
                assert(refs@.skip(i as int).drop_first() =~= refs@.skip(i as int + 1));
            }
            match self.resolve_file_ptr(&refs[i].0, refs[i].1) {
                Some(_) => {},
                None => {
                    let ghost predv = metadata.unresolved.deep_view();
                    metadata.unresolved.push(refs[i].0.clone());
                    proof {
                        assert forall|j: int|
                            0 <= j < metadata.unresolved.deep_view().len() - 1 implies
                            metadata.unresolved.deep_view()[j] == predv[j] by {
                            assert(metadata.unresolved@[j] == metadata.unresolved@.drop_last()[j]);
                        }
                        assert(metadata.unresolved@.last()@ == refs@[i as int].0@) by {
                            assert(cloned::<String>(refs@[i as int].0, metadata.unresolved@.last()));
                        }
                        assert(metadata.unresolved.deep_view() =~= predv.push(
                            refs@[i as int].0@,
                        ));
                    }
                },
            }
            i = i + 1;
        }
        proof {
            assert(refs@.skip(refs@.len() as int) =~= Seq::<(String, u64)>::empty());
            assert(unresolved_of(self@, refs@.skip(refs@.len() as int)) =~= Seq::<
                Seq<char>,
            >::empty());
            assert(metadata.unresolved.deep_view() =~= olddv + unresolved_of(self@, refs@));
        }
    }
}

/// One level of what inserting a graphic's subtree guarantees: every layer
/// child of the tree has a matching live layer owned by the graphic `gk`,
/// unless the layer identifier allocator ended exhausted.
pub open spec fn graphic_children_loaded(p: Project, gk: u64, children: Seq<LayerTree>) -> bool {
    forall|i: int| #![trigger children[i]]
        0 <= i < children.len() ==> (exists|lk: u64|
            {
                &&& #[trigger] p@.layers.contains_key(lk)
                &&& p@.layers[lk].data.parent == LayerParent::Graphic(gk)
                &&& p@.layers[lk].data.name == children[i].name@
                &&& p@.layers[lk].data.show == children[i].show
                &&& p@.layers[lk].data.kind == children[i].kind
            }) || p.layers.next_key_spec() == u64::MAX
}

/// One level of what loading a directory's entries guarantees beneath the
/// folder `parent`: every sub-directory, graphic file and palette file has
/// a matching live object with `parent` as its owner, unless the matching
/// identifier allocator ended exhausted.
pub open spec fn sub_entries_loaded(p: Project, entries: Seq<DirEntry>, parent: u64) -> bool {
    &&& forall|i: int| #![trigger entries[i]]
        0 <= i < entries.len() && entries[i] is Dir ==> (exists|c: u64|
            {
                &&& #[trigger] p@.folders.contains_key(c)
                &&& p@.folders[c].data.name == entries[i]->Dir_name@
                &&& p@.folders[c].data.folder == parent
            }) || p.folders.next_key_spec() == u64::MAX
    &&& forall|i: int| #![trigger entries[i]]
        0 <= i < entries.len() && entries[i] is File && entries[i]->File_ext@ == "cipgfx"@
            && entries[i]->File_data is Doc ==> (exists|c: u64|
            {
                &&& #[trigger] p@.graphics.contains_key(c)
                &&& p@.graphics[c].data.name == entries[i]->File_stem@
                &&& p@.graphics[c].data.folder == parent
            }) || p.graphics.next_key_spec() == u64::MAX
    &&& forall|i: int| #![trigger entries[i]]
        0 <= i < entries.len() && entries[i] is File && entries[i]->File_ext@ == "cippal"@
            && entries[i]->File_data is Doc ==> (exists|c: u64|
            {
                &&& #[trigger] p@.palettes.contains_key(c)
                &&& p@.palettes[c].data.name == entries[i]->File_stem@
                &&& p@.palettes[c].data.folder == parent
            }) || p.palettes.next_key_spec() == u64::MAX
}

impl Project {
    /// Loads one on-disk entry into `folder_ptr`: files are dispatched by
    /// extension to the matching entity codec — graphic and palette asset
    /// files are decoded and inserted with identity remapping, audio media
    /// becomes a content-addressed reference — unrecognized extensions are
    /// ignored for forward compatibility, and a directory becomes a folder
    /// loaded recursively. `dir_path` is the path of the containing
    /// directory, `base` the project base directory.
    pub fn load_file(
        &mut self,
        entry: &DirEntry,
        folder_ptr: ObjPtr<Folder>,
        dir_path: &String,
        base: &String,
    ) -> (r: bool)
        requires
            old(self).wf(),
        ensures
            final(self).wf(),
            folder_data_kept(old(self)@, final(self)@),
            graphic_data_kept(old(self)@, final(self)@),
            palette_data_kept(old(self)@, final(self)@),
            settings_kept(old(self)@, final(self)@),
            allocators_monotone(*old(self), *final(self)),
            !r ==> final(self)@ == old(self)@,
            r && entry is File ==> (entry->File_ext@ == "cipgfx"@ && entry->File_data is Doc)
                || (entry->File_ext@ == "cippal"@ && entry->File_data is Doc) || (
            entry->File_ext@ == "mp3"@ && entry->File_data is Bytes),
            entry is Dir && old(self)@.folders.contains_key(folder_ptr.key) && old(
                self,
            ).folders.next_key_spec() < u64::MAX ==> r,
            entry is File && entry->File_ext@ == "cipgfx"@ && entry->File_data is Doc && old(
                self,
            )@.folders.contains_key(folder_ptr.key) && old(self).graphics.next_key_spec()
                < u64::MAX ==> r,
            entry is File && entry->File_ext@ == "cippal"@ && entry->File_data is Doc && old(
                self,
            )@.folders.contains_key(folder_ptr.key) && old(self).palettes.next_key_spec()
                < u64::MAX ==> r,
            entry is File && entry->File_ext@ == "mp3"@ && entry->File_data is Bytes && old(
                self,
            )@.folders.contains_key(folder_ptr.key) && old(self).audio_files.next_key_spec()
                < u64::MAX && crate::files::rel_path_of(
                dir_path@ + "/"@ + entry->File_stem@ + "."@ + entry->File_ext@,
                base@,
            ) is Some ==> r,
            r && entry is File && entry->File_ext@ == "cipgfx"@ ==> exists|k: u64|
                {
                    &&& #[trigger] final(self)@.graphics.contains_key(k)
                    &&& final(self)@.graphics[k].data.name == entry->File_stem@
                    &&& final(self)@.graphics[k].data.folder == folder_ptr.key
                },
            r && entry is File && entry->File_ext@ == "cippal"@ ==> exists|k: u64|
                {
                    &&& #[trigger] final(self)@.palettes.contains_key(k)
                    &&& final(self)@.palettes[k].data.name == entry->File_stem@
                    &&& final(self)@.palettes[k].data.folder == folder_ptr.key
                },
            r && entry is Dir ==> exists|k: u64|
                {
                    &&& #[trigger] final(self)@.folders.contains_key(k)
                    &&& final(self)@.folders[k].data.name == entry->Dir_name@
                    &&& final(self)@.folders[k].data.folder == folder_ptr.key
                    &&& sub_entries_loaded(*final(self), entry->Dir_entries@, k)
                },
        decreases *entry,
    {
        proof {
            reveal_strlit("cipgfx");
            reveal_strlit("cippal");
            reveal_strlit("mp3");
            assert("cipgfx"@ != "cippal"@) by {
                assert(("cipgfx"@)[3] == 'g');
                assert(("cippal"@)[3] == 'p');
            }
        }
        match entry {
            DirEntry::File { stem, ext, data } => {
                if *ext == String::from_str("cipgfx") {
                    match data {
                        FileData::Doc(v) => {
                            let mut tree = decode_graphic(v);
                            tree.name = stem.clone();
                            match self.insert_graphic_tree(&tree, folder_ptr) {
                                Some(gk) => {
                                    proof {
                                        assert(self@.graphics.contains_key(gk)
                                            && self@.graphics[gk].data.name
                                            == entry->File_stem@ && self@.graphics[
                                            gk
                                        ].data.folder == folder_ptr.key);
                                    }
                                    true
                                },
                                None => false,
                            }
                        },
                        _ => false,
                    }
                } else if *ext == String::from_str("cippal") {
                    match data {
                        FileData::Doc(v) => {
                            let mut tree = decode_palette(v);
                            tree.name = stem.clone();
                            match self.insert_palette_tree(&tree, folder_ptr) {
                                Some(pk) => {
                                    proof {
                                        assert(self@.palettes.contains_key(pk)
                                            && self@.palettes[pk].data.name
                                            == entry->File_stem@ && self@.palettes[
                                            pk
                                        ].data.folder == folder_ptr.key);
                                    }
                                    true
                                },
                                None => false,
                            }
                        },
                        _ => false,
                    }
                } else if *ext == String::from_str("mp3") {
                    match data {
                        FileData::Bytes(bytes) => {
                            if self.audio_files.peek_next_handle().key == u64::MAX {
                                return false;
                            }
                            let mut path = dir_path.clone();
                            path.append("/");
                            path.append(stem.as_str());
                            path.append(".");
                            path.append(ext.as_str());
                            self.get_file_ptr(&path, base, bytes, folder_ptr).is_some()
                        },
                        _ => false,
                    }
                } else {
                    false
                }
            },
            DirEntry::Dir { name, entries } => {
                let key = self.folders.peek_next_handle().key;
                let fdata = FolderData { name: name.clone(), folder: folder_ptr.key };
                if !self.insert_folder_at(key, fdata, usize::MAX) {
                    return false;
                }
                let ghost v0 = self@;
                let ghost p0 = *self;
                proof {
                    assert(folder_data_kept(old(self)@, v0));
                    assert(v0.graphics == old(self)@.graphics);
                    assert(graphic_data_kept(old(self)@, v0));
                    assert(v0.palettes == old(self)@.palettes);
                    assert(palette_data_kept(old(self)@, v0));
                    assert(v0.folders.contains_key(key));
                    assert(v0.folders[key].data.name == entry->Dir_name@);
                    assert(v0.folders[key].data.folder == folder_ptr.key);
                }
                let mut path = dir_path.clone();
                path.append("/");
                path.append(name.as_str());
                let sub: ObjPtr<Folder> = ObjPtr::from_key(key);
                let mut i: usize = 0;
                while i < entries.len()
                    invariant
                        self.wf(),
                        0 <= i <= entries@.len(),
                        *entry == (DirEntry::Dir {
                            name: entry->Dir_name,
                            entries: *entries,
                        }),
                        v0.folders.contains_key(key),
                        sub.key == key,
                        folder_data_kept(v0, self@),
                        graphic_data_kept(v0, self@),
                        palette_data_kept(v0, self@),
                        settings_kept(v0, self@),
                        allocators_monotone(p0, *self),
                        sub_entries_loaded(*self, entries@.take(i as int), key),
                    decreases entries@.len() - i,
                {
                    proof {
                        broadcast use vstd::std_specs::vec::axiom_vec_index_decreases;

                        assert(decreases_to!(*entry => entry->Dir_entries));
                        assert(decreases_to!(entry->Dir_entries => entry->Dir_entries[
                            i as int
                        ]));
                    }
                    let ghost pre = self@;
                    let ghost ppre = *self;
                    let ok = self.load_file(&entries[i], sub, &path, base);
                    proof {
                        lemma_folder_data_kept_trans(v0, pre, self@);
                        lemma_graphic_data_kept_trans(v0, pre, self@);
                        lemma_palette_data_kept_trans(v0, pre, self@);
                        assert(entries@.take(i as int + 1).drop_last() =~= entries@.take(
                            i as int,
                        ));
                        assert forall|j: int| #![trigger entries@.take(i as int + 1)[j]]
                            0 <= j < i + 1 implies entries@.take(i as int + 1)[j] == entries@[
                            j
                        ] by {}
                        reveal_strlit("cipgfx");
                        reveal_strlit("cippal");
                        reveal_strlit("mp3");
                        assert(sub_entries_loaded(*self, entries@.take(i as int + 1), key)) by {
                            assert(v0.folders.contains_key(key));
                            assert(pre.folders.contains_key(key));
                            if entries@[i as int] is Dir {
                                if ppre.folders.next_key_spec() < u64::MAX {
                                    assert(ok);
                                }
                            }
                            if entries@[i as int] is File && entries@[i as int]->File_ext@
                                == "cipgfx"@ && entries@[i as int]->File_data is Doc {
                                if ppre.graphics.next_key_spec() < u64::MAX {
                                    assert(ok);
                                }
                            }
                            if entries@[i as int] is File && entries@[i as int]->File_ext@
                                == "cippal"@ && entries@[i as int]->File_data is Doc {
                                if ppre.palettes.next_key_spec() < u64::MAX {
                                    assert(ok);
                                }
                            }
                        }
                    }
                    i = i + 1;
                }
                proof {
                    lemma_folder_data_kept_trans(old(self)@, v0, self@);
                    assert(self@.folders.contains_key(key));
                    assert(self@.folders[key].data == v0.folders[key].data);
                    assert(entries@.take(entries@.len() as int) =~= entries@);
                    assert(sub_entries_loaded(*self, entry->Dir_entries@, key));
                }
                true
            },
        }
    }

    /// Loads one dropped-in entry into the root folder, the same single-file
    /// path used during a full project load: the dispatch, success and
    /// no-op behaviour of [`Project::load_file`], with the root folder as
    /// the destination and the project base as the containing directory.
    pub fn load_file_to_root_folder(&mut self, entry: &DirEntry, base: &String) -> (r: bool)
        requires
            old(self).wf(),
        ensures
            final(self).wf(),
            folder_data_kept(old(self)@, final(self)@),
            graphic_data_kept(old(self)@, final(self)@),
            palette_data_kept(old(self)@, final(self)@),
            settings_kept(old(self)@, final(self)@),
            allocators_monotone(*old(self), *final(self)),
            !r && entry is File ==> final(self)@ == old(self)@,
            entry is Dir && old(self).folders.next_key_spec() < u64::MAX ==> r,
            entry is File && entry->File_ext@ == "cipgfx"@ && entry->File_data is Doc && old(
                self,
            ).graphics.next_key_spec() < u64::MAX ==> r,
            entry is File && entry->File_ext@ == "cippal"@ && entry->File_data is Doc && old(
                self,
            ).palettes.next_key_spec() < u64::MAX ==> r,
            r && entry is File && entry->File_ext@ == "cipgfx"@ ==> exists|k: u64|
                {
                    &&& #[trigger] final(self)@.graphics.contains_key(k)
                    &&& final(self)@.graphics[k].data.name == entry->File_stem@
                    &&& final(self)@.graphics[k].data.folder == old(self)@.root_folder
                },
            r && entry is File && entry->File_ext@ == "cippal"@ ==> exists|k: u64|
                {
                    &&& #[trigger] final(self)@.palettes.contains_key(k)
                    &&& final(self)@.palettes[k].data.name == entry->File_stem@
                    &&& final(self)@.palettes[k].data.folder == old(self)@.root_folder
                },
            r && entry is Dir ==> exists|k: u64|
                {
                    &&& #[trigger] final(self)@.folders.contains_key(k)
                    &&& final(self)@.folders[k].data.name == entry->Dir_name@
                    &&& final(self)@.folders[k].data.folder == old(self)@.root_folder
                },
    {
        let root = self.root_folder;
        proof {
            assert(old(self)@.folders.contains_key(root.key));
        }
        let base_copy = base.clone();
        self.load_file(entry, root, &base_copy, base)
    }

    /// Loads a whole project: a fresh graph with the given settings, the
    /// root folder named after the project directory, every on-disk entry
    /// walked into the root folder, and the descriptor's external reference
    /// table checked into the load report. An unresolved reference never
    /// aborts the load, and neither does a damaged entry: every recognized
    /// entry lands under the root unless its identifier allocator was
    /// exhausted.
    pub fn load(
        save_path: Vec<String>,
        fps: u32,
        sample_rate: u32,
        dir_name: &String,
        base: &String,
        refs: &Vec<(String, u64)>,
        entries: &Vec<DirEntry>,
    ) -> (r: (Project, LoadingMetadata))
        ensures
            r.0.wf(),
            r.1.unresolved.deep_view() == unresolved_of(r.0@, refs@),
            r.0@.fps == fps,
            r.0@.sample_rate == sample_rate,
            r.0@.save_path == save_path.deep_view(),
            r.0@.folders.contains_key(r.0@.root_folder),
            r.0@.folders[r.0@.root_folder].data.name == dir_name@,
            forall|i: int| #![trigger entries@[i]]
                0 <= i < entries@.len() && entries@[i] is Dir ==> (exists|k: u64|
                    {
                        &&& #[trigger] r.0@.folders.contains_key(k)
                        &&& r.0@.folders[k].data.name == entries@[i]->Dir_name@
                        &&& r.0@.folders[k].data.folder == r.0@.root_folder
                    }) || r.0.folders.next_key_spec() == u64::MAX,
            forall|i: int| #![trigger entries@[i]]
                0 <= i < entries@.len() && entries@[i] is File && entries@[i]->File_ext@
                    == "cipgfx"@ && entries@[i]->File_data is Doc ==> (exists|k: u64|
                    {
                        &&& #[trigger] r.0@.graphics.contains_key(k)
                        &&& r.0@.graphics[k].data.name == entries@[i]->File_stem@
                        &&& r.0@.graphics[k].data.folder == r.0@.root_folder
                    }) || r.0.graphics.next_key_spec() == u64::MAX,
            forall|i: int| #![trigger entries@[i]]
                0 <= i < entries@.len() && entries@[i] is File && entries@[i]->File_ext@
                    == "cippal"@ && entries@[i]->File_data is Doc ==> (exists|k: u64|
                    {
                        &&& #[trigger] r.0@.palettes.contains_key(k)
                        &&& r.0@.palettes[k].data.name == entries@[i]->File_stem@
                        &&& r.0@.palettes[k].data.folder == r.0@.root_folder
                    }) || r.0.palettes.next_key_spec() == u64::MAX,
    {
        let ghost spv = save_path.deep_view();
        let mut project = Project::new(save_path, fps, sample_rate);
        let mut metadata = LoadingMetadata::new();
        let base_copy = base.clone();
        let root = project.root_folder;
        let rename = FolderData { name: dir_name.clone(), folder: 0 };
        let renamed = project.replace_folder_data(root.key, rename);
        proof {
            assert(renamed is Some);
            assert(project@.folders[root.key].data.name == dir_name@);
        }
        let mut i: usize = 0;
        while i < entries.len()
            invariant
                project.wf(),
                0 <= i <= entries@.len(),
                project@.root_folder == root.key,
                project@.fps == fps,
                project@.sample_rate == sample_rate,
                project@.save_path == spv,
                project@.folders.contains_key(root.key),
                project@.folders[root.key].data.name == dir_name@,
                forall|idx: int| #![trigger entries@[idx]]
                    0 <= idx < i && entries@[idx] is Dir ==> (exists|k: u64|
                        {
                            &&& #[trigger] project@.folders.contains_key(k)
                            &&& project@.folders[k].data.name == entries@[idx]->Dir_name@
                            &&& project@.folders[k].data.folder == root.key
                        }) || project.folders.next_key_spec() == u64::MAX,
                forall|idx: int| #![trigger entries@[idx]]
                    0 <= idx < i && entries@[idx] is File && entries@[idx]->File_ext@
                        == "cipgfx"@ && entries@[idx]->File_data is Doc ==> (exists|k: u64|
                        {
                            &&& #[trigger] project@.graphics.contains_key(k)
                            &&& project@.graphics[k].data.name == entries@[idx]->File_stem@
                            &&& project@.graphics[k].data.folder == root.key
                        }) || project.graphics.next_key_spec() == u64::MAX,
                forall|idx: int| #![trigger entries@[idx]]
                    0 <= idx < i && entries@[idx] is File && entries@[idx]->File_ext@
                        == "cippal"@ && entries@[idx]->File_data is Doc ==> (exists|k: u64|
                        {
                            &&& #[trigger] project@.palettes.contains_key(k)
                            &&& project@.palettes[k].data.name == entries@[idx]->File_stem@
                            &&& project@.palettes[k].data.folder == root.key
                        }) || project.palettes.next_key_spec() == u64::MAX,
            decreases entries@.len() - i,
        {
            let ghost pre = project;
            let ok = project.load_file(&entries[i], root, &base_copy, base);
            proof {
                assert forall|idx: int| #![trigger entries@[idx]]
                    0 <= idx < i + 1 && entries@[idx] is Dir implies (exists|k: u64|
                        {
                            &&& #[trigger] project@.folders.contains_key(k)
                            &&& project@.folders[k].data.name == entries@[idx]->Dir_name@
                            &&& project@.folders[k].data.folder == root.key
                        }) || project.folders.next_key_spec() == u64::MAX by {
                    if idx == i {
                        if pre.folders.next_key_spec() < u64::MAX {
                            assert(ok);
                        }
                    }
                }
                assert forall|idx: int| #![trigger entries@[idx]]
                    0 <= idx < i + 1 && entries@[idx] is File && entries@[idx]->File_ext@
                        == "cipgfx"@ && entries@[idx]->File_data is Doc implies (exists|k: u64|
                        {
                            &&& #[trigger] project@.graphics.contains_key(k)
                            &&& project@.graphics[k].data.name == entries@[idx]->File_stem@
                            &&& project@.graphics[k].data.folder == root.key
                        }) || project.graphics.next_key_spec() == u64::MAX by {
                    if idx == i {
                        if pre.graphics.next_key_spec() < u64::MAX {
                            assert(ok);
                        }
                    }
                }
                assert forall|idx: int| #![trigger entries@[idx]]
                    0 <= idx < i + 1 && entries@[idx] is File && entries@[idx]->File_ext@
                        == "cippal"@ && entries@[idx]->File_data is Doc implies (exists|k: u64|
                        {
                            &&& #[trigger] project@.palettes.contains_key(k)
                            &&& project@.palettes[k].data.name == entries@[idx]->File_stem@
                            &&& project@.palettes[k].data.folder == root.key
                        }) || project.palettes.next_key_spec() == u64::MAX by {
                    if idx == i {
                        if pre.palettes.next_key_spec() < u64::MAX {
                            assert(ok);
                        }
                    }
                }
            }
            i = i + 1;
        }
        proof {
            assert(metadata.unresolved.deep_view() =~= Seq::<Seq<char>>::empty());
        }
        project.check_references(refs, &mut metadata);
        proof {
            assert(metadata.unresolved.deep_view() =~= unresolved_of(project@, refs@));
        }
        (project, metadata)
    }
}

/// Whether stroke record `sk`, owned by frame `fk`, carries exactly the
/// observable content of subtree `t`.
pub open spec fn stroke_in_graph(v: ProjV, sk: u64, fk: u64, t: StrokeTree) -> bool {
    &&& v.strokes.contains_key(sk)
    &&& v.strokes[sk].data.frame == fk
    &&& t.key == sk
    &&& v.strokes[sk].data.color == t.color
    &&& v.strokes[sk].data.r == t.r
    &&& v.strokes[sk].data.filled == t.filled
    &&& v.strokes[sk].data.points == t.points@
}

/// Whether frame record `fk`, owned by layer `lk`, carries exactly subtree
/// `t`: its time and, stroke by stroke in list order, the strokes it owns.
pub open spec fn frame_in_graph(v: ProjV, fk: u64, lk: u64, t: FrameTree) -> bool {
    &&& v.frames.contains_key(fk)
    &&& v.frames[fk].data.layer == lk
    &&& t.key == fk
    &&& v.frames[fk].data.time == t.time
    &&& v.frames[fk].strokes.len() == t.strokes@.len()
    &&& forall|i: int|
        0 <= i < t.strokes@.len() ==> stroke_in_graph(
            v,
            #[trigger] v.frames[fk].strokes[i],
            fk,
            t.strokes@[i],
        )
}

/// Whether layer record `lk` under `parent` carries exactly subtree `t`:
/// its field data and, child by child in list order, its frames and
/// sub-layers.
pub open spec fn layer_in_graph(v: ProjV, lk: u64, parent: LayerParent, t: LayerTree) -> bool
    decreases t,
{
    &&& v.layers.contains_key(lk)
    &&& t.key == lk
    &&& v.layers[lk].data.parent == parent
    &&& v.layers[lk].data.name == t.name@
    &&& v.layers[lk].data.show == t.show
    &&& v.layers[lk].data.kind == t.kind
    &&& v.layers[lk].frames.len() == t.frames@.len()
    &&& forall|i: int|
        0 <= i < t.frames@.len() ==> frame_in_graph(
            v,
            #[trigger] v.layers[lk].frames[i],
            lk,
            t.frames@[i],
        )
    &&& v.layers[lk].layers.len() == t.layers@.len()
    &&& forall|i: int|
        0 <= i < t.layers@.len() ==> layer_in_graph(
            v,
            #[trigger] v.layers[lk].layers[i],
            LayerParent::Layer(lk),
            t.layers@[i],
        )
}

/// Whether graphic record `gk` carries exactly the whole tree `t` its asset
/// file stores: its field data and, layer by layer in list order, its owned
/// subtrees.
pub open spec fn graphic_in_graph(v: ProjV, gk: u64, t: GraphicTree) -> bool {
    &&& v.graphics.contains_key(gk)
    &&& t.key == gk
    &&& v.graphics[gk].data.name == t.name@
    &&& v.graphics[gk].data.len == t.len
    &&& v.graphics[gk].data.clip == t.clip
    &&& v.graphics[gk].data.w == t.w
    &&& v.graphics[gk].data.h == t.h
    &&& v.graphics[gk].layers.len() == t.layers@.len()
    &&& forall|i: int|
        0 <= i < t.layers@.len() ==> layer_in_graph(
            v,
            #[trigger] v.graphics[gk].layers[i],
            LayerParent::Graphic(gk),
            t.layers@[i],
        )
}

/// Whether palette record `pk` carries exactly tree `t`.
pub open spec fn palette_in_graph(v: ProjV, pk: u64, t: PaletteTree) -> bool {
    &&& v.palettes.contains_key(pk)
    &&& t.key == pk
    &&& v.palettes[pk].data.name == t.name@
    &&& v.palettes[pk].data.colors == t.colors@
}

/// Whether a layer and everything below it can be read back within `fuel`
/// nesting levels: the layer is live and every sub-layer is within one
/// level less. False only for a stale handle or a corrupted cyclic nesting
/// deeper than the fuel.
pub open spec fn layer_subtree_ok(v: ProjV, lk: u64, fuel: nat) -> bool
    decreases fuel,
{
    &&& v.layers.contains_key(lk)
    &&& fuel > 0
    &&& forall|i: int|
        0 <= i < v.layers[lk].layers.len() ==> layer_subtree_ok(
            v,
            #[trigger] v.layers[lk].layers[i],
            (fuel - 1) as nat,
        )
}

/// Whether a graphic's whole subtree can be read back: the graphic is live
/// and each of its layers nests no deeper than the number of live layers —
/// true of every graph the mutation API builds.
pub open spec fn graphic_subtree_ok(v: ProjV, gk: u64) -> bool {
    &&& v.graphics.contains_key(gk)
    &&& forall|i: int|
        0 <= i < v.graphics[gk].layers.len() ==> layer_subtree_ok(
            v,
            #[trigger] v.graphics[gk].layers[i],
            v.layers.len() + 1,
        )
}

/// Whether one produced on-disk entry truthfully mirrors a live object
/// under the given parent folder: a graphic or palette file carries the
/// name and an encoding of a live asset of that folder, and a directory
/// carries the name of a live sub-folder with recursively sound contents.
pub open spec fn dir_entry_sound(v: ProjV, parent: u64, e: DirEntry) -> bool
    decreases e,
{
    match e {
        DirEntry::File { stem, ext, data } => {
            ||| (ext@ == "cipgfx"@ && data is Doc && exists|k: u64, t: GraphicTree|
                #![trigger v.graphics.contains_key(k), crate::codec::graphic_encoded(data->Doc_0, t)]
                {
                    &&& v.graphics.contains_key(k)
                    &&& v.graphics[k].data.folder == parent
                    &&& v.graphics[k].data.name == stem@
                    &&& crate::codec::graphic_encoded(data->Doc_0, t)
                    &&& graphic_in_graph(v, k, t)
                    &&& t.name@ == stem@
                })
            ||| (ext@ == "cippal"@ && data is Doc && exists|k: u64, t: PaletteTree|
                #![trigger v.palettes.contains_key(k), crate::codec::palette_encoded(data->Doc_0, t)]
                {
                    &&& v.palettes.contains_key(k)
                    &&& v.palettes[k].data.folder == parent
                    &&& v.palettes[k].data.name == stem@
                    &&& crate::codec::palette_encoded(data->Doc_0, t)
                    &&& palette_in_graph(v, k, t)
                    &&& t.name@ == stem@
                })
        },
        DirEntry::Dir { name, entries } => exists|k: u64|
            {
                &&& #[trigger] v.folders.contains_key(k)
                &&& v.folders[k].data.folder == parent
                &&& v.folders[k].data.name == name@
                &&& forall|i: int|
                    0 <= i < entries@.len() ==> dir_entry_sound(v, k, #[trigger] entries@[i])
            },
    }
}

pub open spec fn entries_sound(v: ProjV, parent: u64, es: Seq<DirEntry>) -> bool {
    forall|j: int| 0 <= j < es.len() ==> dir_entry_sound(v, parent, #[trigger] es[j])
}

/// Whether the entries hold a file named `stem` with extension `ext`.
pub open spec fn has_file_entry(es: Seq<DirEntry>, stem: Seq<char>, ext: Seq<char>) -> bool {
    exists|j: int|
        0 <= j < es.len() && (#[trigger] es[j]) is File && es[j]->File_stem@ == stem
            && es[j]->File_ext@ == ext
}

/// Whether the entries hold a directory named `name`.
pub open spec fn has_dir_entry(es: Seq<DirEntry>, name: Seq<char>) -> bool {
    exists|j: int|
        0 <= j < es.len() && (#[trigger] es[j]) is Dir && es[j]->Dir_name@ == name
}

/// The first `upto` graphics of a folder each have their asset file among
/// the entries, whenever their subtree is readable.
pub open spec fn graphics_saved(v: ProjV, fk: u64, es: Seq<DirEntry>, upto: int) -> bool {
    forall|i: int|
        0 <= i < upto && graphic_subtree_ok(v, #[trigger] v.folders[fk].graphics[i])
            && v.layers.len() < usize::MAX ==> has_file_entry(
            es,
            v.graphics[v.folders[fk].graphics[i]].data.name,
            "cipgfx"@,
        )
}

/// The first `upto` palettes of a folder each have their asset file among
/// the entries.
pub open spec fn palettes_saved(v: ProjV, fk: u64, es: Seq<DirEntry>, upto: int) -> bool {
    forall|i: int| #![trigger v.folders[fk].palettes[i]]
        0 <= i < upto ==> has_file_entry(
            es,
            v.palettes[v.folders[fk].palettes[i]].data.name,
            "cippal"@,
        )
}

/// The first `upto` sub-folders of a folder each have their directory among
/// the entries.
pub open spec fn folders_saved(v: ProjV, fk: u64, es: Seq<DirEntry>, upto: int) -> bool {
    forall|i: int| #![trigger v.folders[fk].folders[i]]
        0 <= i < upto ==> has_dir_entry(es, v.folders[v.folders[fk].folders[i]].data.name)
}

/// Appending one entry keeps everything already saved sound and present.
proof fn lemma_saved_push(
    v: ProjV,
    fk: u64,
    es: Seq<DirEntry>,
    x: DirEntry,
    gupto: int,
    pupto: int,
    fupto: int,
)
    requires
        entries_sound(v, fk, es),
        dir_entry_sound(v, fk, x),
        graphics_saved(v, fk, es, gupto),
        palettes_saved(v, fk, es, pupto),
        folders_saved(v, fk, es, fupto),
    ensures
        entries_sound(v, fk, es.push(x)),
        graphics_saved(v, fk, es.push(x), gupto),
        palettes_saved(v, fk, es.push(x), pupto),
        folders_saved(v, fk, es.push(x), fupto),
{
    let es2 = es.push(x);
    assert forall|j: int| 0 <= j < es2.len() implies dir_entry_sound(v, fk, #[trigger] es2[j]) by {
        if j < es.len() {
            assert(es2[j] == es[j]);
        } else {
            assert(es2[j] == x);
        }
    }
    assert forall|st: Seq<char>, ex: Seq<char>| #[trigger]
        has_file_entry(es, st, ex) implies has_file_entry(es2, st, ex) by {
        let j = choose|j: int|
            0 <= j < es.len() && (#[trigger] es[j]) is File && es[j]->File_stem@ == st
                && es[j]->File_ext@ == ex;
        assert(es2[j] == es[j]);
    }
    assert forall|nm: Seq<char>| #[trigger] has_dir_entry(es, nm) implies has_dir_entry(
        es2,
        nm,
    ) by {
        let j = choose|j: int|
            0 <= j < es.len() && (#[trigger] es[j]) is Dir && es[j]->Dir_name@ == nm;
        assert(es2[j] == es[j]);
    }
}

impl Project {
    /// Reads one stroke back out of the graph as a subtree.
    fn stroke_tree_of(&self, key: u64) -> (r: Option<StrokeTree>)
        requires
            self.wf(),
        ensures
            match r {
                Some(t) => stroke_in_graph(self@, key, self@.strokes[key].data.frame, t),
                None => !self@.strokes.contains_key(key),
            },
    {
        match self.strokes.get(ObjPtr::from_key(key)) {
            Some(st) => {
                let t = StrokeTree {
                    key,
                    color: st.data.color,
                    r: st.data.r,
                    filled: st.data.filled,
                    points: st.data.points.clone(),
                };
                proof {
                    assert(t.points@ =~= self@.strokes[key].data.points);
                }
                Some(t)
            },
            None => None,
        }
    }

    /// Reads one frame and its strokes back out of the graph as a subtree.
    fn frame_tree_of(&self, key: u64) -> (r: Option<FrameTree>)
        requires
            self.wf(),
        ensures
            match r {
                Some(t) => frame_in_graph(self@, key, self@.frames[key].data.layer, t),
                None => !self@.frames.contains_key(key),
            },
    {
        let frame = match self.frames.get(ObjPtr::from_key(key)) {
            Some(f) => f,
            None => {
                return None;
            },
        };
        let mut strokes: Vec<StrokeTree> = Vec::new();
        let mut i: usize = 0;
        let n = frame.strokes.len();
        while i < n
            invariant
                self.wf(),
                0 <= i <= n,
                n == frame.strokes@.len(),
                self@.frames.contains_key(key),
                frame@ == self@.frames[key],
                strokes@.len() == i,
                forall|j: int|
                    0 <= j < i ==> stroke_in_graph(
                        self@,
                        #[trigger] self@.frames[key].strokes[j],
                        key,
                        strokes@[j],
                    ),
            decreases n - i,
        {
            proof {
                crate::counts::lemma_count_at_least_one(
                    frame.strokes@,
                    frame.strokes@[i as int],
                    i as int,
                );
                assert(crate::counts::count_of(
                    self@.frames[key].strokes,
                    frame.strokes@[i as int],
                ) == crate::project::stroke_count_expected(
                    self@,
                    key,
                    frame.strokes@[i as int],
                ));
            }
            match self.stroke_tree_of(frame.strokes[i]) {
                Some(st) => {
                    let ghost pre = strokes@;
                    strokes.push(st);
                    proof {
                        assert forall|j: int|
                            0 <= j < i + 1 implies stroke_in_graph(
                            self@,
                            #[trigger] self@.frames[key].strokes[j],
                            key,
                            strokes@[j],
                        ) by {
                            if j < i {
                                assert(strokes@[j] == pre[j]);
                            } else {
                                assert(strokes@[j] == st);
                            }
                        }
                    }
                },
                None => {
                    proof {
                        assert(false);
                    }
                },
            }
            i = i + 1;
        }
        let ghost sv = strokes@;
        let t = FrameTree { key, time: frame.data.time, strokes };
        proof {
            assert(t.strokes@ == sv);
            assert forall|j: int| 0 <= j < t.strokes@.len() implies stroke_in_graph(
                self@,
                #[trigger] self@.frames[key].strokes[j],
                key,
                t.strokes@[j],
            ) by {
                assert(t.strokes@[j] == sv[j]);
            }
            assert(frame_in_graph(self@, key, self@.frames[key].data.layer, t));
        }
        Some(t)
    }

    /// Reads one layer with its frames and sub-layers back out of the graph,
    /// following at most `fuel` nesting levels: a corrupted cyclic nesting
    /// is detected as `None` instead of an endless walk.
    fn layer_tree_of(&self, key: u64, fuel: usize) -> (r: Option<LayerTree>)
        requires
            self.wf(),
        ensures
            match r {
                Some(t) => layer_in_graph(self@, key, self@.layers[key].data.parent, t),
                None => !layer_subtree_ok(self@, key, fuel as nat),
            },
        decreases fuel,
    {
        if fuel == 0 {
            return None;
        }
        let layer = match self.layers.get(ObjPtr::from_key(key)) {
            Some(l) => l,
            None => {
                return None;
            },
        };
        let mut frames: Vec<FrameTree> = Vec::new();
        let mut i: usize = 0;
        let n = layer.frames.len();
        while i < n
            invariant
                self.wf(),
                0 <= i <= n,
                n == layer.frames@.len(),
                self@.layers.contains_key(key),
                layer@ == self@.layers[key],
                frames@.len() == i,
                forall|j: int|
                    0 <= j < i ==> frame_in_graph(
                        self@,
                        #[trigger] self@.layers[key].frames[j],
                        key,
                        frames@[j],
                    ),
            decreases n - i,
        {
            proof {
                crate::counts::lemma_count_at_least_one(
                    layer.frames@,
                    layer.frames@[i as int],
                    i as int,
                );
                assert(crate::counts::count_of(
                    self@.layers[key].frames,
                    layer.frames@[i as int],
                ) == crate::project::frame_count_expected(
                    self@,
                    key,
                    layer.frames@[i as int],
                ));
            }
            match self.frame_tree_of(layer.frames[i]) {
                Some(ft) => {
                    let ghost pre = frames@;
                    frames.push(ft);
                    proof {
                        assert forall|j: int| 0 <= j < i + 1 implies frame_in_graph(
                            self@,
                            #[trigger] self@.layers[key].frames[j],
                            key,
                            frames@[j],
                        ) by {
                            if j < i {
                                assert(frames@[j] == pre[j]);
                            } else {
                                assert(frames@[j] == ft);
                            }
                        }
                    }
                },
                None => {
                    proof {
                        assert(false);
                    }
                },
            }
            i = i + 1;
        }
        let mut layers: Vec<LayerTree> = Vec::new();
        let mut i: usize = 0;
        let n = layer.layers.len();
        while i < n
            invariant
                self.wf(),
                0 <= i <= n,
                n == layer.layers@.len(),
                fuel >= 1,
                self@.layers.contains_key(key),
                layer@ == self@.layers[key],
                layers@.len() == i,
                forall|j: int|
                    0 <= j < i ==> layer_in_graph(
                        self@,
                        #[trigger] self@.layers[key].layers[j],
                        LayerParent::Layer(key),
                        layers@[j],
                    ),
            decreases n - i,
        {
            proof {
                crate::counts::lemma_count_at_least_one(
                    layer.layers@,
                    layer.layers@[i as int],
                    i as int,
                );
                assert(crate::counts::count_of(
                    self@.layers[key].layers,
                    layer.layers@[i as int],
                ) == crate::project::layer_in_layer_expected(
                    self@,
                    key,
                    layer.layers@[i as int],
                ));
            }
            match self.layer_tree_of(layer.layers[i], fuel - 1) {
                Some(lt) => {
                    let ghost pre = layers@;
                    layers.push(lt);
                    proof {
                        assert forall|j: int| 0 <= j < i + 1 implies layer_in_graph(
                            self@,
                            #[trigger] self@.layers[key].layers[j],
                            LayerParent::Layer(key),
                            layers@[j],
                        ) by {
                            if j < i {
                                assert(layers@[j] == pre[j]);
                            } else {
                                assert(layers@[j] == lt);
                            }
                        }
                    }
                },
                None => {
                    proof {
                        assert(self@.layers[key].layers[i as int] == layer.layers@[i as int]);
                        assert(!layer_subtree_ok(self@, key, fuel as nat));
                    }
                    return None;
                },
            }
            i = i + 1;
        }
        let ghost fv = frames@;
        let ghost lv = layers@;
        let t = LayerTree {
            key,
            name: layer.data.name.clone(),
            show: layer.data.show,
            kind: layer.data.kind,
            frames,
            layers,
        };
        proof {
            assert(t.frames@ == fv);
            assert(t.layers@ == lv);
            assert forall|j: int| 0 <= j < t.frames@.len() implies frame_in_graph(
                self@,
                #[trigger] self@.layers[key].frames[j],
                key,
                t.frames@[j],
            ) by {
                assert(t.frames@[j] == fv[j]);
            }
            assert forall|j: int| 0 <= j < t.layers@.len() implies layer_in_graph(
                self@,
                #[trigger] self@.layers[key].layers[j],
                LayerParent::Layer(key),
                t.layers@[j],
            ) by {
                assert(t.layers@[j] == lv[j]);
            }
            assert(layer_in_graph(self@, key, self@.layers[key].data.parent, t));
        }
        Some(t)
    }

    /// Reads a whole graphic back out of the graph as the tree its asset
    /// file stores. `None` on a stale handle or a corrupted cyclic nesting.
    pub fn graphic_tree_of(&self, key: ObjPtr<Graphic>) -> (r: Option<GraphicTree>)
        requires
            self.wf(),
        ensures
            match r {
                Some(t) => graphic_in_graph(self@, key.key, t),
                None => !(graphic_subtree_ok(self@, key.key) && self@.layers.len()
                    < usize::MAX),
            },
    {
        let gobj = match self.graphics.get(key) {
            Some(g) => g,
            None => {
                return None;
            },
        };
        let fuel = self.layers.len();
        let fuel = if fuel < usize::MAX {
            fuel + 1
        } else {
            fuel
        };
        let mut layers: Vec<LayerTree> = Vec::new();
        let mut i: usize = 0;
        let n = gobj.layers.len();
        while i < n
            invariant
                self.wf(),
                0 <= i <= n,
                n == gobj.layers@.len(),
                self@.graphics.contains_key(key.key),
                gobj@ == self@.graphics[key.key],
                self@.layers.len() < usize::MAX ==> fuel as nat == self@.layers.len() + 1,
                layers@.len() == i,
                forall|j: int|
                    0 <= j < i ==> layer_in_graph(
                        self@,
                        #[trigger] self@.graphics[key.key].layers[j],
                        LayerParent::Graphic(key.key),
                        layers@[j],
                    ),
            decreases n - i,
        {
            proof {
                crate::counts::lemma_count_at_least_one(
                    gobj.layers@,
                    gobj.layers@[i as int],
                    i as int,
                );
                assert(crate::counts::count_of(
                    self@.graphics[key.key].layers,
                    gobj.layers@[i as int],
                ) == crate::project::layer_in_graphic_expected(
                    self@,
                    key.key,
                    gobj.layers@[i as int],
                ));
            }
            match self.layer_tree_of(gobj.layers[i], fuel) {
                Some(lt) => {
                    let ghost pre = layers@;
                    layers.push(lt);
                    proof {
                        assert forall|j: int| 0 <= j < i + 1 implies layer_in_graph(
                            self@,
                            #[trigger] self@.graphics[key.key].layers[j],
                            LayerParent::Graphic(key.key),
                            layers@[j],
                        ) by {
                            if j < i {
                                assert(layers@[j] == pre[j]);
                            } else {
                                assert(layers@[j] == lt);
                            }
                        }
                    }
                },
                None => {
                    proof {
                        if graphic_subtree_ok(self@, key.key) && self@.layers.len()
                            < usize::MAX {
                            assert(self@.graphics[key.key].layers[i as int] == gobj.layers@[
                                i as int
                            ]);
                            assert(layer_subtree_ok(
                                self@,
                                gobj.layers@[i as int],
                                self@.layers.len() + 1,
                            ));
                            assert(false);
                        }
                    }
                    return None;
                },
            }
            i = i + 1;
        }
        let ghost lv = layers@;
        let t = GraphicTree {
            key: key.key,
            name: gobj.data.name.clone(),
            len: gobj.data.len,
            clip: gobj.data.clip,
            w: gobj.data.w,
            h: gobj.data.h,
            layers,
        };
        proof {
            assert(t.layers@ == lv);
            assert forall|j: int| 0 <= j < t.layers@.len() implies layer_in_graph(
                self@,
                #[trigger] self@.graphics[key.key].layers[j],
                LayerParent::Graphic(key.key),
                t.layers@[j],
            ) by {
                assert(t.layers@[j] == lv[j]);
            }
            assert(graphic_in_graph(self@, key.key, t));
        }
        Some(t)
    }

    /// Reads a whole palette back out of the graph as the tree its asset
    /// file stores.
    pub fn palette_tree_of(&self, key: ObjPtr<Palette>) -> (r: Option<PaletteTree>)
        requires
            self.wf(),
        ensures
            match r {
                Some(t) => palette_in_graph(self@, key.key, t),
                None => !self@.palettes.contains_key(key.key),
            },
    {
        match self.palettes.get(key) {
            Some(p) => {
                let t = PaletteTree {
                    key: key.key,
                    name: p.data.name.clone(),
                    colors: p.data.colors.clone(),
                };
                proof {
                    assert(t.colors@ =~= self@.palettes[key.key].data.colors);
                }
                Some(t)
            },
            None => None,
        }
    }

    /// Produces the on-disk entries for one folder's contents: one encoded
    /// asset file per graphic and palette, one directory per sub-folder,
    /// descending at most `fuel` levels. Folders themselves have no
    /// standalone file. An asset that cannot be read (a stale child handle)
    /// is skipped, so one damaged object never aborts a whole-tree save.
    pub fn save_folder(&self, folder: ObjPtr<Folder>, fuel: usize) -> (r: Option<Vec<DirEntry>>)
        requires
            self.wf(),
        ensures
            r is None <==> (fuel == 0 || !self@.folders.contains_key(folder.key)),
            r is Some ==> entries_sound(self@, folder.key, r->Some_0@),
            r is Some ==> graphics_saved(
                self@,
                folder.key,
                r->Some_0@,
                self@.folders[folder.key].graphics.len() as int,
            ),
            r is Some ==> palettes_saved(
                self@,
                folder.key,
                r->Some_0@,
                self@.folders[folder.key].palettes.len() as int,
            ),
            r is Some && fuel >= 2 ==> folders_saved(
                self@,
                folder.key,
                r->Some_0@,
                self@.folders[folder.key].folders.len() as int,
            ),
        decreases fuel,
    {
        if fuel == 0 {
            return None;
        }
        let fobj = match self.folders.get(folder) {
            Some(f) => f,
            None => {
                return None;
            },
        };
        let ghost fk = folder.key;
        let mut out: Vec<DirEntry> = Vec::new();
        let mut i: usize = 0;
        let n = fobj.graphics.len();
        while i < n
            invariant
                self.wf(),
                n == fobj.graphics@.len(),
                self@.folders.contains_key(fk),
                fobj@ == self@.folders[fk],
                entries_sound(self@, fk, out@),
                graphics_saved(self@, fk, out@, i as int),
            decreases n - i,
        {
            let gk = fobj.graphics[i];
            proof {
                crate::counts::lemma_count_at_least_one(fobj.graphics@, gk, i as int);
                assert(crate::counts::count_of(self@.folders[fk].graphics, gk)
                    == crate::project::graphic_count_expected(self@, fk, gk));
                assert(self@.graphics.contains_key(gk) && self@.graphics[gk].data.folder == fk);
            }
            match self.graphic_tree_of(ObjPtr::from_key(gk)) {
                Some(t) => {
                    let v = encode_graphic(&t);
                    let entry = DirEntry::File {
                        stem: t.name,
                        ext: String::from_str("cipgfx"),
                        data: FileData::Doc(v),
                    };
                    proof {
                        assert(dir_entry_sound(self@, fk, entry));
                        lemma_saved_push(self@, fk, out@, entry, i as int, 0, 0);
                    }
                    out.push(entry);
                    proof {
                        assert(has_file_entry(out@, self@.graphics[gk].data.name, "cipgfx"@))
                            by {
                            assert(out@[out@.len() - 1] == entry);
                        }
                    }
                },
                None => {},
            }
            i = i + 1;
        }
        let mut i: usize = 0;
        let n = fobj.palettes.len();
        while i < n
            invariant
                self.wf(),
                n == fobj.palettes@.len(),
                self@.folders.contains_key(fk),
                fobj@ == self@.folders[fk],
                entries_sound(self@, fk, out@),
                graphics_saved(self@, fk, out@, self@.folders[fk].graphics.len() as int),
                palettes_saved(self@, fk, out@, i as int),
            decreases n - i,
        {
            let pk = fobj.palettes[i];
            proof {
                crate::counts::lemma_count_at_least_one(fobj.palettes@, pk, i as int);
                assert(crate::counts::count_of(self@.folders[fk].palettes, pk)
                    == crate::project::palette_count_expected(self@, fk, pk));
                assert(self@.palettes.contains_key(pk) && self@.palettes[pk].data.folder == fk);
            }
            match self.palette_tree_of(ObjPtr::from_key(pk)) {
                Some(t) => {
                    let v = encode_palette(&t);
                    let entry = DirEntry::File {
                        stem: t.name,
                        ext: String::from_str("cippal"),
                        data: FileData::Doc(v),
                    };
                    proof {
                        assert(dir_entry_sound(self@, fk, entry));
                        lemma_saved_push(
                            self@,
                            fk,
                            out@,
                            entry,
                            self@.folders[fk].graphics.len() as int,
                            i as int,
                            0,
                        );
                    }
                    out.push(entry);
                    proof {
                        assert(has_file_entry(out@, self@.palettes[pk].data.name, "cippal"@))
                            by {
                            assert(out@[out@.len() - 1] == entry);
                        }
                    }
                },
                None => {
                    proof {
                        assert(false);
                    }
                },
            }
            i = i + 1;
        }
        let mut i: usize = 0;
        let n = fobj.folders.len();
        while i < n
            invariant
                self.wf(),
                n == fobj.folders@.len(),
                fuel >= 1,
                self@.folders.contains_key(fk),
                fobj@ == self@.folders[fk],
                entries_sound(self@, fk, out@),
                graphics_saved(self@, fk, out@, self@.folders[fk].graphics.len() as int),
                palettes_saved(self@, fk, out@, self@.folders[fk].palettes.len() as int),
                fuel >= 2 ==> folders_saved(self@, fk, out@, i as int),
            decreases n - i,
        {
            let sub = fobj.folders[i];
            proof {
                crate::counts::lemma_count_at_least_one(fobj.folders@, sub, i as int);
                assert(crate::counts::count_of(self@.folders[fk].folders, sub)
                    == crate::project::folder_count_expected(self@, fk, sub));
                assert(self@.folders.contains_key(sub) && self@.folders[sub].data.folder == fk);
            }
            let name = match self.folders.get(ObjPtr::from_key(sub)) {
                Some(sf) => sf.data.name.clone(),
                None => {
                    proof {
                        assert(false);
                    }
                    vstd::pervasive::unreached()
                },
            };
            match self.save_folder(ObjPtr::from_key(sub), fuel - 1) {
                Some(entries) => {
                    let entry = DirEntry::Dir { name, entries };
                    proof {
                        assert(dir_entry_sound(self@, fk, entry)) by {
                            assert(self@.folders.contains_key(sub)
                                && self@.folders[sub].data.folder == fk
                                && self@.folders[sub].data.name == entry->Dir_name@
                                && forall|j: int|
                                0 <= j < entry->Dir_entries@.len() ==> dir_entry_sound(
                                    self@,
                                    sub,
                                    #[trigger] entry->Dir_entries@[j],
                                ));
                        }
                        lemma_saved_push(
                            self@,
                            fk,
                            out@,
                            entry,
                            self@.folders[fk].graphics.len() as int,
                            self@.folders[fk].palettes.len() as int,
                            i as int,
                        );
                    }
                    out.push(entry);
                    proof {
                        assert(has_dir_entry(out@, self@.folders[sub].data.name)) by {
                            assert(out@[out@.len() - 1] == entry);
                        }
                    }
                },
                None => {
                    proof {
                        assert(fuel - 1 == 0);
                    }
                },
            }
            i = i + 1;
        }
        Some(out)
    }

    /// Produces the on-disk entries of the whole project: a depth-first walk
    /// of the folder tree from the root, bounded by the number of live
    /// folders.
    pub fn save(&self) -> (r: Option<Vec<DirEntry>>)
        requires
            self.wf(),
        ensures
            r is Some,
            entries_sound(self@, self@.root_folder, r->Some_0@),
            graphics_saved(
                self@,
                self@.root_folder,
                r->Some_0@,
                self@.folders[self@.root_folder].graphics.len() as int,
            ),
            palettes_saved(
                self@,
                self@.root_folder,
                r->Some_0@,
                self@.folders[self@.root_folder].palettes.len() as int,
            ),
            folders_saved(
                self@,
                self@.root_folder,
                r->Some_0@,
                self@.folders[self@.root_folder].folders.len() as int,
            ),
    {
        let fuel = self.folders.len();
        proof {
            self.folders.lemma_identity_uniqueness();
            assert(self.folders.ids_in_order().contains(self@.root_folder));
            assert(self@.folders.len() >= 1);
        }
        let fuel = if fuel < usize::MAX {
            fuel + 1
        } else {
            fuel
        };
        self.save_folder(self.root_folder, fuel)
    }
}

/// The directory path of a folder relative to the project base, following
/// at most `fuel` parent links: the root folder's path is empty, any other
/// folder's is its parent's path with its own name appended.
pub open spec fn folder_path_of(v: ProjV, key: u64, fuel: nat) -> Option<Seq<Seq<char>>>
    decreases fuel,
{
    if !v.folders.contains_key(key) {
        None
    } else if key == v.root_folder {
        Some(Seq::empty())
    } else if fuel == 0 {
        None
    } else {
        match folder_path_of(v, v.folders[key].data.folder, (fuel - 1) as nat) {
            Some(p) => Some(p.push(v.folders[key].data.name)),
            None => None,
        }
    }
}

impl Folder {
    /// The on-disk directory path of this folder, as components relative to
    /// the project base; `None` when the folder is stale or its parent
    /// chain is corrupted into a cycle. `this` is the folder's own handle.
    pub fn file_path(project: &Project, this: ObjPtr<Folder>) -> (r: Option<Vec<String>>)
        requires
            project.wf(),
        ensures
            match r {
                Some(p) => folder_path_of(project@, this.key, project@.folders.len()) == Some(
                    p.deep_view(),
                ),
                None => folder_path_of(project@, this.key, project@.folders.len()) is None,
            },
    {
        let fuel = project.folders.len();
        Self::file_path_fueled(project, this.key, fuel)
    }

    fn file_path_fueled(project: &Project, key: u64, fuel: usize) -> (r: Option<Vec<String>>)
        requires
            project.wf(),
        ensures
            match r {
                Some(p) => folder_path_of(project@, key, fuel as nat) == Some(p.deep_view()),
                None => folder_path_of(project@, key, fuel as nat) is None,
            },
        decreases fuel,
    {
        let fobj = match project.folders.get(ObjPtr::from_key(key)) {
            Some(f) => f,
            None => {
                return None;
            },
        };
        if key == project.root_folder.key {
            let r: Vec<String> = Vec::new();
            proof {
                assert(r.deep_view() =~= Seq::<Seq<char>>::empty());
            }
            return Some(r);
        }
        if fuel == 0 {
            return None;
        }
        match Self::file_path_fueled(project, fobj.data.folder, fuel - 1) {
            Some(mut p) => {
                let ghost pre = p.deep_view();
                p.push(fobj.data.name.clone());
                proof {
                    assert forall|j: int| 0 <= j < p.deep_view().len() - 1 implies p.deep_view()[j]
                        == pre[j] by {
                        assert(p@[j] == p@.drop_last()[j]);
                    }
                    assert(p@.last() == fobj.data.name);
                    assert(p@.last()@ == project@.folders[key].data.name);
                    assert(p.deep_view() =~= pre.push(project@.folders[key].data.name));
                }
                Some(p)
            },
            None => None,
        }
    }
}

} // verus!
