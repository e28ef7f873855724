//! Strokes: vector shapes (bezier chains) owned by a frame.
//!
//! Point coordinates are carried as opaque 32-bit scalar encodings chosen by
//! the renderer; the graph core never interprets them, it only stores,
//! journals and round-trips them.

use vstd::prelude::*;

use crate::counts::{count_of, lemma_count_insert, lemma_count_remove, lemma_count_zero};
use crate::frame::{clamped, Frame, FrameV};
use crate::project::{
    audio_count_expected, audios_owned_ok, folder_count_expected, folders_owned_ok,
    frame_count_expected, frames_owned_ok, graphic_count_expected, graphics_owned_ok,
    layer_in_graphic_expected, layer_in_layer_expected, layers_owned_ok, ownership_ok,
    palette_count_expected, palettes_owned_ok, stroke_count_expected, strokes_owned_ok, ProjV,
    Project,
};
use crate::store::ObjPtr;

verus! {

/// One control point of a bezier chain: the incoming handle `a`, the point
/// `pt`, and the outgoing handle `b`, each a pair of scalar encodings.
#[derive(Clone, Copy, PartialEq, Eq, Structural, Debug)]
pub struct StrokePoint {
    pub ax: u32,
    pub ay: u32,
    pub ptx: u32,
    pub pty: u32,
    pub bx: u32,
    pub by: u32,
}

/// A stroke's color: either an inline RGBA encoding or a reference to an
/// entry of a palette, named by the palette's identifier.
#[derive(Clone, Copy)]
pub enum StrokeColor {
    Inline(u32),
    Palette(u64, u32),
}

/// The journaled field data of a stroke. `frame` is the identifier of the
/// owning parent.
pub struct StrokeData {
    pub frame: u64,
    pub color: StrokeColor,
    pub r: u32,
    pub filled: bool,
    pub points: Vec<StrokePoint>,
}

#[verifier::ext_equal]
pub struct StrokeDataV {
    pub frame: u64,
    pub color: StrokeColor,
    pub r: u32,
    pub filled: bool,
    pub points: Seq<StrokePoint>,
}

impl View for StrokeData {
    type V = StrokeDataV;

    open spec fn view(&self) -> StrokeDataV {
        StrokeDataV {
            frame: self.frame,
            color: self.color,
            r: self.r,
            filled: self.filled,
            points: self.points@,
        }
    }
}

impl Clone for StrokeData {
    fn clone(&self) -> (r: Self)
        ensures
            r@ == self@,
    {
        let r = StrokeData {
            frame: self.frame,
            color: self.color,
            r: self.r,
            filled: self.filled,
            points: self.points.clone(),
        };
        proof {
            assert(r.points@ =~= self.points@);
        }
        r
    }
}

/// A live stroke; it owns no children.
pub struct Stroke {
    pub data: StrokeData,
}

#[verifier::ext_equal]
pub struct StrokeV {
    pub data: StrokeDataV,
}

impl View for Stroke {
    type V = StrokeV;

    open spec fn view(&self) -> StrokeV {
        StrokeV { data: self.data@ }
    }
}

impl Stroke {
    pub fn new(data: StrokeData) -> (r: Self)
        ensures
            r@.data == data@,
    {
        Stroke { data }
    }
}

/// The graph state after inserting a fresh stroke `key` with data `data` at
/// position `at` of its frame's stroke list.
pub open spec fn t_stroke_insert(v: ProjV, key: u64, data: StrokeDataV, at: int) -> ProjV {
    let f = v.frames[data.frame];
    ProjV {
        strokes: v.strokes.insert(key, StrokeV { data }),
        frames: v.frames.insert(data.frame, FrameV { strokes: f.strokes.insert(at, key), ..f }),
        ..v
    }
}

/// The graph state after overwriting the field data of stroke `key`, its
/// parent unchanged.
pub open spec fn t_stroke_set(v: ProjV, key: u64, data: StrokeDataV) -> ProjV {
    ProjV { strokes: v.strokes.insert(key, StrokeV { data }), ..v }
}

/// The graph state after removing the stroke `key`, which sits at position
/// `i` of its frame's stroke list.
pub open spec fn t_stroke_remove(v: ProjV, key: u64, i: int) -> ProjV {
    let fk = v.strokes[key].data.frame;
    let f = v.frames[fk];
    ProjV {
        strokes: v.strokes.remove(key),
        frames: v.frames.insert(fk, FrameV { strokes: f.strokes.remove(i), ..f }),
        ..v
    }
}

proof fn lemma_stroke_clauses_untouched(v: ProjV, w: ProjV)
    requires
        ownership_ok(v),
        w.layers == v.layers,
        w.graphics == v.graphics,
        w.palettes == v.palettes,
        w.audio_files == v.audio_files,
        w.folders == v.folders,
        w.root_folder == v.root_folder,
        w.frames.dom() =~= v.frames.dom(),
        forall|fk: u64| #[trigger] w.frames.contains_key(fk) ==> w.frames[fk].data
            == v.frames[fk].data,
    ensures
        frames_owned_ok(w),
        layers_owned_ok(w),
        graphics_owned_ok(w),
        palettes_owned_ok(w),
        audios_owned_ok(w),
        folders_owned_ok(w),
{
    assert forall|lk: u64, fk: u64| w.layers.contains_key(lk) implies #[trigger] count_of(
        w.layers[lk].frames,
        fk,
    ) == frame_count_expected(w, lk, fk) by {
        assert(count_of(v.layers[lk].frames, fk) == frame_count_expected(v, lk, fk));
    }
    assert forall|gk: u64, lk: u64| w.graphics.contains_key(gk) implies #[trigger] count_of(
        w.graphics[gk].layers,
        lk,
    ) == layer_in_graphic_expected(w, gk, lk) by {
        assert(count_of(v.graphics[gk].layers, lk) == layer_in_graphic_expected(v, gk, lk));
    }
    assert forall|pk: u64, lk: u64| w.layers.contains_key(pk) implies #[trigger] count_of(
        w.layers[pk].layers,
        lk,
    ) == layer_in_layer_expected(w, pk, lk) by {
        assert(count_of(v.layers[pk].layers, lk) == layer_in_layer_expected(v, pk, lk));
    }
    assert forall|fk: u64, gk: u64| w.folders.contains_key(fk) implies #[trigger] count_of(
        w.folders[fk].graphics,
        gk,
    ) == graphic_count_expected(w, fk, gk) by {
        assert(count_of(v.folders[fk].graphics, gk) == graphic_count_expected(v, fk, gk));
    }
    assert forall|fk: u64, pk: u64| w.folders.contains_key(fk) implies #[trigger] count_of(
        w.folders[fk].palettes,
        pk,
    ) == palette_count_expected(w, fk, pk) by {
        assert(count_of(v.folders[fk].palettes, pk) == palette_count_expected(v, fk, pk));
    }
    assert forall|fk: u64, ak: u64| w.folders.contains_key(fk) implies #[trigger] count_of(
        w.folders[fk].audios,
        ak,
    ) == audio_count_expected(w, fk, ak) by {
        assert(count_of(v.folders[fk].audios, ak) == audio_count_expected(v, fk, ak));
    }
    assert forall|pk: u64, ck: u64| w.folders.contains_key(pk) implies #[trigger] count_of(
        w.folders[pk].folders,
        ck,
    ) == folder_count_expected(w, pk, ck) by {
        assert(count_of(v.folders[pk].folders, ck) == folder_count_expected(v, pk, ck));
    }
}

/// Inserting a fresh stroke under a live frame preserves the ownership
/// invariant.
pub proof fn lemma_stroke_insert_ok(v: ProjV, key: u64, data: StrokeDataV, at: int)
    requires
        ownership_ok(v),
        !v.strokes.contains_key(key),
        v.frames.contains_key(data.frame),
        0 <= at <= v.frames[data.frame].strokes.len(),
    ensures
        ownership_ok(t_stroke_insert(v, key, data, at)),
{
    let w = t_stroke_insert(v, key, data, at);
    let ff = data.frame;
    let oldlist = v.frames[ff].strokes;
    assert(w.frames.dom() =~= v.frames.dom());
    lemma_stroke_clauses_untouched(v, w);
    assert forall|sk: u64| #[trigger] w.strokes.contains_key(sk) implies w.frames.contains_key(
        w.strokes[sk].data.frame,
    ) by {}
    assert forall|fk: u64, sk: u64| w.frames.contains_key(fk) implies #[trigger] count_of(
        w.frames[fk].strokes,
        sk,
    ) == stroke_count_expected(w, fk, sk) by {
        if fk == ff {
            lemma_count_insert(oldlist, at, key, sk);
            assert(count_of(oldlist, sk) == stroke_count_expected(v, ff, sk));
        } else {
            assert(w.frames[fk] == v.frames[fk]);
            assert(count_of(v.frames[fk].strokes, sk) == stroke_count_expected(v, fk, sk));
        }
    }
    assert(strokes_owned_ok(w));
}

/// Overwriting a live stroke's field data, parent unchanged, preserves the
/// ownership invariant.
pub proof fn lemma_stroke_set_ok(v: ProjV, key: u64, data: StrokeDataV)
    requires
        ownership_ok(v),
        v.strokes.contains_key(key),
        data.frame == v.strokes[key].data.frame,
    ensures
        ownership_ok(t_stroke_set(v, key, data)),
{
    let w = t_stroke_set(v, key, data);
    assert(w.frames.dom() =~= v.frames.dom());
    assert(w.strokes.dom() =~= v.strokes.dom());
    lemma_stroke_clauses_untouched(v, w);
    assert forall|fk: u64, sk: u64| w.frames.contains_key(fk) implies #[trigger] count_of(
        w.frames[fk].strokes,
        sk,
    ) == stroke_count_expected(w, fk, sk) by {
        assert(w.frames[fk].strokes == v.frames[fk].strokes);
        assert(count_of(v.frames[fk].strokes, sk) == stroke_count_expected(v, fk, sk));
    }
    assert(strokes_owned_ok(w));
}

/// Removing a live stroke preserves the ownership invariant.
pub proof fn lemma_stroke_remove_ok(v: ProjV, key: u64, i: int)
    requires
        ownership_ok(v),
        v.strokes.contains_key(key),
        0 <= i < v.frames[v.strokes[key].data.frame].strokes.len(),
        v.frames[v.strokes[key].data.frame].strokes[i] == key,
    ensures
        ownership_ok(t_stroke_remove(v, key, i)),
{
    let w = t_stroke_remove(v, key, i);
    let ff = v.strokes[key].data.frame;
    let oldlist = v.frames[ff].strokes;
    assert(w.frames.dom() =~= v.frames.dom());
    lemma_stroke_clauses_untouched(v, w);
    assert forall|sk: u64| #[trigger] w.strokes.contains_key(sk) implies w.frames.contains_key(
        w.strokes[sk].data.frame,
    ) by {}
    assert forall|fk: u64, sk: u64| w.frames.contains_key(fk) implies #[trigger] count_of(
        w.frames[fk].strokes,
        sk,
    ) == stroke_count_expected(w, fk, sk) by {
        assert(count_of(v.frames[fk].strokes, sk) == stroke_count_expected(v, fk, sk));
        if fk == ff {
            lemma_count_remove(oldlist, i, sk);
        } else {
            assert(w.frames[fk] == v.frames[fk]);
        }
    }
    assert(strokes_owned_ok(w));
}

impl Project {
    /// Inserts a stroke under a caller-chosen identifier at the given
    /// position of its frame's stroke list (clamped to the list's length). A
    /// claimed identifier or a stale frame handle makes the call a no-op that
    /// reports failure.
    pub fn insert_stroke_at(&mut self, key: u64, data: StrokeData, at: usize) -> (r: bool)
        requires
            old(self).wf(),
        ensures
            final(self).wf(),
            r == (0 < key < u64::MAX && !old(self)@.strokes.contains_key(key)
                && old(self)@.frames.contains_key(data.frame)),
            r ==> final(self)@ == t_stroke_insert(
                old(self)@,
                key,
                data@,
                clamped(at as int, old(self)@.frames[data.frame].strokes.len() as int),
            ),
            !r ==> *final(self) == *old(self),
            final(self).strokes.next_key_spec() == if r && key >= old(
                self,
            ).strokes.next_key_spec() {
                key + 1
            } else {
                old(self).strokes.next_key_spec() as int
            },
            final(self).frames.next_key_spec() == old(self).frames.next_key_spec(),
            final(self).layers.next_key_spec() == old(self).layers.next_key_spec(),
            final(self).folders.next_key_spec() == old(self).folders.next_key_spec(),
            final(self).graphics.next_key_spec() == old(self).graphics.next_key_spec(),
            final(self).palettes.next_key_spec() == old(self).palettes.next_key_spec(),
    {
        if key == 0 || key == u64::MAX {
            return false;
        }
        if self.strokes.contains(ObjPtr::from_key(key)) {
            return false;
        }
        let fptr: ObjPtr<Frame> = ObjPtr::from_key(data.frame);
        let mut frame = match self.frames.remove(fptr) {
            Some(f) => f,
            None => {
                return false;
            },
        };
        proof {
            old(self).frames.lemma_live_key_bounds(data.frame);
        }
        let ghost oldframe = frame@;
        let at2 = if at > frame.strokes.len() {
            frame.strokes.len()
        } else {
            at
        };
        frame.strokes.insert(at2, key);
        proof {
            assert(frame@ =~= (FrameV {
                strokes: oldframe.strokes.insert(at2 as int, key),
                ..oldframe
            }));
        }
        let ghost fk = data.frame;
        self.frames.insert_with_key(data.frame, frame);
        self.strokes.insert_with_key(key, Stroke::new(data));
        proof {
            let t = t_stroke_insert(
                old(self)@,
                key,
                old(self)@.strokes.insert(key, self@.strokes[key]).index(key).data,
                clamped(at as int, old(self)@.frames[fk].strokes.len() as int),
            );
            assert(self@.frames =~= t.frames);
            assert(self@.strokes =~= t.strokes);
            assert(self@ =~~= t);
            lemma_stroke_insert_ok(
                old(self)@,
                key,
                self@.strokes[key].data,
                clamped(at as int, old(self)@.frames[fk].strokes.len() as int),
            );
        }
        true
    }

    /// Overwrites a stroke's field data and returns the prior data. A stale
    /// handle, or data that names another parent frame (parents change only
    /// structurally), makes the call a no-op returning `None`.
    pub fn replace_stroke_data(&mut self, key: u64, data: StrokeData) -> (r: Option<StrokeData>)
        requires
            old(self).wf(),
        ensures
            final(self).wf(),
            match r {
                Some(prior) => {
                    &&& old(self)@.strokes.contains_key(key)
                    &&& prior@ == old(self)@.strokes[key].data
                    &&& data@.frame == prior@.frame
                    &&& final(self)@ == t_stroke_set(old(self)@, key, data@)
                },
                None => {
                    &&& final(self)@ == old(self)@
                    &&& !(old(self)@.strokes.contains_key(key) && data@.frame == old(
                        self,
                    )@.strokes[key].data.frame)
                },
            },
            final(self).strokes.next_key_spec() == old(self).strokes.next_key_spec(),
            final(self).frames.next_key_spec() == old(self).frames.next_key_spec(),
    {
        let sptr: ObjPtr<Stroke> = ObjPtr::from_key(key);
        let stroke = match self.strokes.remove(sptr) {
            Some(st) => st,
            None => {
                return None;
            },
        };
        proof {
            old(self).strokes.lemma_live_key_bounds(key);
        }
        if data.frame != stroke.data.frame {
            self.strokes.insert_with_key(key, stroke);
            proof {
                assert(self@.strokes =~= old(self)@.strokes);
                assert(self@ =~~= old(self)@);
            }
            return None;
        }
        let prior = stroke.data;
        self.strokes.insert_with_key(key, Stroke::new(data));
        proof {
            let ghost d = self@.strokes[key].data;
            assert(self@.strokes =~= t_stroke_set(old(self)@, key, d).strokes);
            assert(self@ =~~= t_stroke_set(old(self)@, key, d));
            lemma_stroke_set_ok(old(self)@, key, d);
        }
        Some(prior)
    }

    /// Removes a stroke, detaching it from its frame's stroke list, and
    /// returns its field data and its position in that list. A stale handle
    /// makes the call a no-op returning `None`.
    pub fn remove_stroke(&mut self, key: u64) -> (r: Option<(StrokeData, usize)>)
        requires
            old(self).wf(),
        ensures
            final(self).wf(),
            match r {
                Some((data, i)) => {
                    &&& old(self)@.strokes.contains_key(key)
                    &&& data@ == old(self)@.strokes[key].data
                    &&& 0 <= i < old(self)@.frames[data@.frame].strokes.len()
                    &&& old(self)@.frames[data@.frame].strokes[i as int] == key
                    &&& final(self)@ == t_stroke_remove(old(self)@, key, i as int)
                },
                None => final(self)@ == old(self)@ && !old(self)@.strokes.contains_key(key)
                    && *final(self) == *old(self),
            },
            final(self).strokes.next_key_spec() == old(self).strokes.next_key_spec(),
            final(self).frames.next_key_spec() == old(self).frames.next_key_spec(),
    {
        let sptr: ObjPtr<Stroke> = ObjPtr::from_key(key);
        let stroke = match self.strokes.remove(sptr) {
            Some(st) => st,
            None => {
                return None;
            },
        };
        proof {
            old(self).strokes.lemma_live_key_bounds(key);
        }
        let ff = stroke.data.frame;
        proof {
            assert(old(self)@.strokes.contains_key(key));
            assert(stroke@ == old(self)@.strokes[key]);
            assert(old(self)@.frames.contains_key(ff));
        }
        let fptr: ObjPtr<Frame> = ObjPtr::from_key(ff);
        let mut frame = match self.frames.remove(fptr) {
            Some(f) => f,
            None => {
                proof {
                    assert(false);
                }
                vstd::pervasive::unreached()
            },
        };
        proof {
            old(self).frames.lemma_live_key_bounds(ff);
            assert(count_of(old(self)@.frames[ff].strokes, key) == 1);
        }
        let ghost oldframe = frame@;
        let mut i: usize = 0;
        let mut found: Option<usize> = None;
        let n = frame.strokes.len();
        while i < n
            invariant
                n == frame.strokes@.len(),
                0 <= i <= n,
                match found {
                    Some(f) => f < n && frame.strokes@[f as int] == key,
                    None => forall|j: int| 0 <= j < i ==> frame.strokes@[j] != key,
                },
            decreases n - i,
        {
            if found.is_none() && frame.strokes[i] == key {
                found = Some(i);
            }
            i = i + 1;
        }
        let i = match found {
            Some(f) => f,
            None => {
                proof {
                    lemma_count_zero(frame.strokes@, key);
                    assert(false);
                }
                vstd::pervasive::unreached()
            },
        };
        let ghost idx = i as int;
        frame.strokes.remove(i);
        proof {
            assert(frame@ =~= (FrameV { strokes: oldframe.strokes.remove(idx), ..oldframe }));
        }
        self.frames.insert_with_key(ff, frame);
        proof {
            let t = t_stroke_remove(old(self)@, key, idx);
            assert(self@.frames =~= t.frames);
            assert(self@.strokes =~= t.strokes);
            assert(self@ =~~= t);
            lemma_stroke_remove_ok(old(self)@, key, idx);
        }
        Some((stroke.data, i))
    }
}

} // verus!
