//! Content-addressed external file references.
//!
//! An audio reference names externally stored media by the pair (path
//! relative to the project root, content hash of the file's bytes). Both a
//! path index and a hash index are maintained, so the same bytes reached via
//! a different path are recognized as the same logical asset, and a moved or
//! renamed file can still be matched by hash.

use sha2::Digest;
use vstd::prelude::*;

use crate::counts::{count_of, lemma_count_insert};
use crate::folder::{Folder, FolderV};
use crate::frame::clamped;
use crate::project::{
    audio_count_expected, audios_owned_ok, folder_count_expected, folders_owned_ok,
    frame_count_expected, frames_owned_ok, graphic_count_expected, graphics_owned_ok,
    layer_in_graphic_expected, layer_in_layer_expected, layers_owned_ok, ownership_ok,
    palette_count_expected, palettes_owned_ok, stroke_count_expected, strokes_owned_ok, ProjV,
    Project,
};
use crate::store::ObjPtr;

verus! {

/// An external audio file reference, owned by the folder whose identifier is
/// in `folder`.
pub struct AudioFile {
    pub rel_path: String,
    pub hash: u64,
    pub folder: u64,
}

#[verifier::ext_equal]
pub struct AudioFileV {
    pub rel_path: Seq<char>,
    pub hash: u64,
    pub folder: u64,
}

impl View for AudioFile {
    type V = AudioFileV;

    open spec fn view(&self) -> AudioFileV {
        AudioFileV { rel_path: self.rel_path@, hash: self.hash, folder: self.folder }
    }
}

impl Clone for AudioFile {
    fn clone(&self) -> (r: Self)
        ensures
            r@ == self@,
    {
        AudioFile { rel_path: self.rel_path.clone(), hash: self.hash, folder: self.folder }
    }
}

/// The mapping a sequence of (relative path, identifier) pairs denotes.
pub closed spec fn path_assoc(s: Seq<(String, u64)>) -> Map<Seq<char>, u64>
    decreases s.len(),
{
    if s.len() == 0 {
        Map::empty()
    } else {
        path_assoc(s.drop_last()).insert(s.last().0@, s.last().1)
    }
}

proof fn lemma_path_assoc_contains(s: Seq<(String, u64)>, k: Seq<char>)
    ensures
        path_assoc(s).contains_key(k) <==> exists|i: int|
            0 <= i < s.len() && (#[trigger] s[i]).0@ == k,
    decreases s.len(),
{
    if s.len() > 0 {
        lemma_path_assoc_contains(s.drop_last(), k);
        if s.last().0@ == k {
            assert(s[s.len() - 1].0@ == k);
        } else if path_assoc(s).contains_key(k) {
            let i = choose|i: int|
                0 <= i < s.drop_last().len() && (#[trigger] s.drop_last()[i]).0@ == k;
            assert(s[i].0@ == k);
        } else {
            assert forall|i: int| 0 <= i < s.len() implies (#[trigger] s[i]).0@ != k by {
                if i < s.len() - 1 {
                    assert(s.drop_last()[i] == s[i]);
                }
            }
        }
    }
}

proof fn lemma_path_assoc_index(s: Seq<(String, u64)>, i: int)
    requires
        forall|p: int, q: int|
            0 <= p < q < s.len() ==> (#[trigger] s[p]).0@ != (#[trigger] s[q]).0@,
        0 <= i < s.len(),
    ensures
        path_assoc(s).contains_key(s[i].0@),
        path_assoc(s)[s[i].0@] == s[i].1,
    decreases s.len(),
{
    if i == s.len() - 1 {
        lemma_path_assoc_contains(s, s[i].0@);
    } else {
        assert forall|p: int, q: int|
            0 <= p < q < s.drop_last().len() implies (#[trigger] s.drop_last()[p]).0@
            != (#[trigger] s.drop_last()[q]).0@ by {
            assert(s.drop_last()[p] == s[p]);
            assert(s.drop_last()[q] == s[q]);
        }
        assert(s.drop_last()[i] == s[i]);
        lemma_path_assoc_index(s.drop_last(), i);
        assert(s[i].0@ != s.last().0@);
    }
}

proof fn lemma_path_assoc_remove(s: Seq<(String, u64)>, i: int)
    requires
        forall|p: int, q: int|
            0 <= p < q < s.len() ==> (#[trigger] s[p]).0@ != (#[trigger] s[q]).0@,
        0 <= i < s.len(),
    ensures
        path_assoc(s.remove(i)) =~= path_assoc(s).remove(s[i].0@),
    decreases s.len(),
{
    let k = s[i].0@;
    if i == s.len() - 1 {
        assert(s.remove(i) =~= s.drop_last());
        lemma_path_assoc_contains(s.drop_last(), k);
        assert forall|j: int| 0 <= j < s.drop_last().len() implies (
        #[trigger] s.drop_last()[j]).0@ != k by {
            assert(s.drop_last()[j] == s[j]);
        }
        assert(!path_assoc(s.drop_last()).contains_key(k));
        assert(path_assoc(s) == path_assoc(s.drop_last()).insert(k, s.last().1));
        assert(path_assoc(s).remove(k) =~= path_assoc(s.drop_last()));
    } else {
        let d = s.drop_last();
        assert forall|p: int, q: int|
            0 <= p < q < d.len() implies (#[trigger] d[p]).0@ != (#[trigger] d[q]).0@ by {
            assert(d[p] == s[p]);
            assert(d[q] == s[q]);
        }
        assert(d[i] == s[i]);
        lemma_path_assoc_remove(d, i);
        assert(s.remove(i).drop_last() =~= d.remove(i));
        assert(s.remove(i).last() == s.last());
        assert(path_assoc(s.remove(i)) == path_assoc(d.remove(i)).insert(
            s.last().0@,
            s.last().1,
        ));
        assert(s[i].0@ != s.last().0@);
        assert(path_assoc(s.remove(i)) =~= path_assoc(s).remove(k));
    }
}

/// The path index: relative path of an external file to the identifier of
/// its reference record.
pub struct PathIndex {
    entries: Vec<(String, u64)>,
}

impl View for PathIndex {
    type V = Map<Seq<char>, u64>;

    closed spec fn view(&self) -> Map<Seq<char>, u64> {
        path_assoc(self.entries@)
    }
}

impl PathIndex {
    pub closed spec fn wf(self) -> bool {
        forall|p: int, q: int|
            0 <= p < q < self.entries@.len() ==> (#[trigger] self.entries@[p]).0@ != (
            #[trigger] self.entries@[q]).0@
    }

    pub fn new() -> (r: Self)
        ensures
            r.wf(),
            r@ =~= Map::<Seq<char>, u64>::empty(),
    {
        PathIndex { entries: Vec::new() }
    }

    pub fn get(&self, path: &String) -> (r: Option<u64>)
        requires
            self.wf(),
        ensures
            match r {
                Some(v) => self@.contains_key(path@) && self@[path@] == v,
                None => !self@.contains_key(path@),
            },
    {
        let mut i: usize = 0;
        while i < self.entries.len()
            invariant
                self.wf(),
                0 <= i <= self.entries@.len(),
                forall|j: int| 0 <= j < i ==> (#[trigger] self.entries@[j]).0@ != path@,
            decreases self.entries@.len() - i,
        {
            if self.entries[i].0 == *path {
                proof {
                    lemma_path_assoc_index(self.entries@, i as int);
                }
                return Some(self.entries[i].1);
            }
            i = i + 1;
        }
        proof {
            lemma_path_assoc_contains(self.entries@, path@);
        }
        None
    }

    /// Inserts or overwrites the binding for a path.
    pub fn insert(&mut self, path: String, v: u64)
        requires
            old(self).wf(),
        ensures
            final(self).wf(),
            final(self)@ =~= old(self)@.insert(path@, v),
    {
        let mut i: usize = 0;
        let mut found: Option<usize> = None;
        while i < self.entries.len()
            invariant
                self.wf(),
                0 <= i <= self.entries@.len(),
                match found {
                    Some(f) => f < i && self.entries@[f as int].0@ == path@,
                    None => forall|j: int| 0 <= j < i ==> (#[trigger] self.entries@[j]).0@ != path@,
                },
            decreases self.entries@.len() - i,
        {
            if found.is_none() && self.entries[i].0 == path {
                found = Some(i);
            }
            i = i + 1;
        }
        match found {
            Some(f) => {
                let ghost pre = self.entries@;
                proof {
                    lemma_path_assoc_remove(pre, f as int);
                }
                self.entries.remove(f);
                proof {
                    assert(self@ =~= old(self)@.remove(path@));
                    assert forall|p: int, q: int|
                        0 <= p < q < self.entries@.len() implies (#[trigger] self.entries@[p]).0@
                        != (#[trigger] self.entries@[q]).0@ by {
                        let pp: int = if p < f { p } else { p + 1 };
                        let qq: int = if q < f { q } else { q + 1 };
                        assert(self.entries@[p] == pre[pp]);
                        assert(self.entries@[q] == pre[qq]);
                    }
                    assert forall|j: int|
                        0 <= j < self.entries@.len() implies (#[trigger] self.entries@[j]).0@
                        != path@ by {
                        let jj: int = if j < f { j } else { j + 1 };
                        assert(self.entries@[j] == pre[jj]);
                        assert(pre[f as int].0@ == path@);
                    }
                }
            },
            None => {
            },
        }
        assert(forall|j: int|
            0 <= j < self.entries@.len() ==> (#[trigger] self.entries@[j]).0@ != path@);
        assert(forall|p: int, q: int|
            0 <= p < q < self.entries@.len() ==> (#[trigger] self.entries@[p]).0@ != (
        #[trigger] self.entries@[q]).0@);
        let ghost pre2 = self.entries@;
        let ghost viewpre = self@;
        self.entries.push((path, v));
        proof {
            assert(self.entries@.drop_last() =~= pre2);
            assert(self@ =~= viewpre.insert(path@, v));
            assert forall|p: int, q: int|
                0 <= p < q < self.entries@.len() implies (#[trigger] self.entries@[p]).0@ != (
            #[trigger] self.entries@[q]).0@ by {
                assert(self.entries@[p] == pre2[p]);
                if q < self.entries@.len() - 1 {
                    assert(self.entries@[q] == pre2[q]);
                }
            }
        }
    }
}

/// The hash index: content hash of an external file to the identifier of its
/// reference record.
pub struct HashIndex {
    entries: Vec<(u64, u64)>,
}

pub closed spec fn hash_assoc(s: Seq<(u64, u64)>) -> Map<u64, u64>
    decreases s.len(),
{
    if s.len() == 0 {
        Map::empty()
    } else {
        hash_assoc(s.drop_last()).insert(s.last().0, s.last().1)
    }
}

proof fn lemma_hash_assoc_contains(s: Seq<(u64, u64)>, k: u64)
    ensures
        hash_assoc(s).contains_key(k) <==> exists|i: int|
            0 <= i < s.len() && (#[trigger] s[i]).0 == k,
    decreases s.len(),
{
    if s.len() > 0 {
        lemma_hash_assoc_contains(s.drop_last(), k);
        if s.last().0 == k {
            assert(s[s.len() - 1].0 == k);
        } else if hash_assoc(s).contains_key(k) {
            let i = choose|i: int|
                0 <= i < s.drop_last().len() && (#[trigger] s.drop_last()[i]).0 == k;
            assert(s[i].0 == k);
        } else {
            assert forall|i: int| 0 <= i < s.len() implies (#[trigger] s[i]).0 != k by {
                if i < s.len() - 1 {
                    assert(s.drop_last()[i] == s[i]);
                }
            }
        }
    }
}

proof fn lemma_hash_assoc_index(s: Seq<(u64, u64)>, i: int)
    requires
        forall|p: int, q: int|
            0 <= p < q < s.len() ==> (#[trigger] s[p]).0 != (#[trigger] s[q]).0,
        0 <= i < s.len(),
    ensures
        hash_assoc(s).contains_key(s[i].0),
        hash_assoc(s)[s[i].0] == s[i].1,
    decreases s.len(),
{
    if i == s.len() - 1 {
        lemma_hash_assoc_contains(s, s[i].0);
    } else {
        assert forall|p: int, q: int|
            0 <= p < q < s.drop_last().len() implies (#[trigger] s.drop_last()[p]).0
            != (#[trigger] s.drop_last()[q]).0 by {
            assert(s.drop_last()[p] == s[p]);
            assert(s.drop_last()[q] == s[q]);
        }
        assert(s.drop_last()[i] == s[i]);
        lemma_hash_assoc_index(s.drop_last(), i);
        assert(s[i].0 != s.last().0);
    }
}

proof fn lemma_hash_assoc_remove(s: Seq<(u64, u64)>, i: int)
    requires
        forall|p: int, q: int|
            0 <= p < q < s.len() ==> (#[trigger] s[p]).0 != (#[trigger] s[q]).0,
        0 <= i < s.len(),
    ensures
        hash_assoc(s.remove(i)) =~= hash_assoc(s).remove(s[i].0),
    decreases s.len(),
{
    let k = s[i].0;
    if i == s.len() - 1 {
        assert(s.remove(i) =~= s.drop_last());
        lemma_hash_assoc_contains(s.drop_last(), k);
        assert forall|j: int| 0 <= j < s.drop_last().len() implies (#[trigger] s.drop_last()[j]).0
            != k by {
            assert(s.drop_last()[j] == s[j]);
        }
        assert(!hash_assoc(s.drop_last()).contains_key(k));
        assert(hash_assoc(s) == hash_assoc(s.drop_last()).insert(k, s.last().1));
        assert(hash_assoc(s).remove(k) =~= hash_assoc(s.drop_last()));
    } else {
        let d = s.drop_last();
        assert forall|p: int, q: int|
            0 <= p < q < d.len() implies (#[trigger] d[p]).0 != (#[trigger] d[q]).0 by {
            assert(d[p] == s[p]);
            assert(d[q] == s[q]);
        }
        assert(d[i] == s[i]);
        lemma_hash_assoc_remove(d, i);
        assert(s.remove(i).drop_last() =~= d.remove(i));
        assert(s.remove(i).last() == s.last());
        assert(hash_assoc(s.remove(i)) == hash_assoc(d.remove(i)).insert(
            s.last().0,
            s.last().1,
        ));
        assert(s[i].0 != s.last().0);
        assert(hash_assoc(s.remove(i)) =~= hash_assoc(s).remove(k));
    }
}

impl View for HashIndex {
    type V = Map<u64, u64>;

    closed spec fn view(&self) -> Map<u64, u64> {
        hash_assoc(self.entries@)
    }
}

impl HashIndex {
    pub closed spec fn wf(self) -> bool {
        forall|p: int, q: int|
            0 <= p < q < self.entries@.len() ==> (#[trigger] self.entries@[p]).0 != (
            #[trigger] self.entries@[q]).0
    }

    pub fn new() -> (r: Self)
        ensures
            r.wf(),
            r@ =~= Map::<u64, u64>::empty(),
    {
        HashIndex { entries: Vec::new() }
    }

    pub fn get(&self, hash: u64) -> (r: Option<u64>)
        requires
            self.wf(),
        ensures
            match r {
                Some(v) => self@.contains_key(hash) && self@[hash] == v,
                None => !self@.contains_key(hash),
            },
    {
        let mut i: usize = 0;
        while i < self.entries.len()
            invariant
                self.wf(),
                0 <= i <= self.entries@.len(),
                forall|j: int| 0 <= j < i ==> (#[trigger] self.entries@[j]).0 != hash,
            decreases self.entries@.len() - i,
        {
            if self.entries[i].0 == hash {
                proof {
                    lemma_hash_assoc_index(self.entries@, i as int);
                }
                return Some(self.entries[i].1);
            }
            i = i + 1;
        }
        proof {
            lemma_hash_assoc_contains(self.entries@, hash);
        }
        None
    }

    /// Inserts or overwrites the binding for a hash.
    pub fn insert(&mut self, hash: u64, v: u64)
        requires
            old(self).wf(),
        ensures
            final(self).wf(),
            final(self)@ =~= old(self)@.insert(hash, v),
    {
        let mut i: usize = 0;
        let mut found: Option<usize> = None;
        while i < self.entries.len()
            invariant
                self.wf(),
                0 <= i <= self.entries@.len(),
                match found {
                    Some(f) => f < i && self.entries@[f as int].0 == hash,
                    None => forall|j: int| 0 <= j < i ==> (#[trigger] self.entries@[j]).0 != hash,
                },
            decreases self.entries@.len() - i,
        {
            if found.is_none() && self.entries[i].0 == hash {
                found = Some(i);
            }
            i = i + 1;
        }
        match found {
            Some(f) => {
                let ghost pre = self.entries@;
                proof {
                    lemma_hash_assoc_remove(pre, f as int);
                }
                self.entries.remove(f);
                proof {
                    assert(self@ =~= old(self)@.remove(hash));
                    assert forall|p: int, q: int|
                        0 <= p < q < self.entries@.len() implies (#[trigger] self.entries@[p]).0
                        != (#[trigger] self.entries@[q]).0 by {
                        let pp: int = if p < f { p } else { p + 1 };
                        let qq: int = if q < f { q } else { q + 1 };
                        assert(self.entries@[p] == pre[pp]);
                        assert(self.entries@[q] == pre[qq]);
                    }
                    assert forall|j: int|
                        0 <= j < self.entries@.len() implies (#[trigger] self.entries@[j]).0
                        != hash by {
                        let jj: int = if j < f { j } else { j + 1 };
                        assert(self.entries@[j] == pre[jj]);
                        assert(pre[f as int].0 == hash);
                    }
                }
            },
            None => {
            },
        }
        assert(forall|j: int|
            0 <= j < self.entries@.len() ==> (#[trigger] self.entries@[j]).0 != hash);
        assert(forall|p: int, q: int|
            0 <= p < q < self.entries@.len() ==> (#[trigger] self.entries@[p]).0 != (
        #[trigger] self.entries@[q]).0);
        let ghost pre2 = self.entries@;
        let ghost viewpre = self@;
        self.entries.push((hash, v));
        proof {
            assert(self.entries@.drop_last() =~= pre2);
            assert(self@ =~= viewpre.insert(hash, v));
            assert forall|p: int, q: int|
                0 <= p < q < self.entries@.len() implies (#[trigger] self.entries@[p]).0 != (
            #[trigger] self.entries@[q]).0 by {
                assert(self.entries@[p] == pre2[p]);
                if q < self.entries@.len() - 1 {
                    assert(self.entries@[q] == pre2[q]);
                }
            }
        }
    }
}

/// The graph state after inserting a fresh audio reference `key` at position
/// `at` of its folder's audio list.
pub open spec fn t_audio_insert(v: ProjV, key: u64, data: AudioFileV, at: int) -> ProjV {
    let f = v.folders[data.folder];
    ProjV {
        audio_files: v.audio_files.insert(key, data),
        folders: v.folders.insert(data.folder, FolderV { audios: f.audios.insert(at, key), ..f }),
        ..v
    }
}

/// Inserting a fresh audio reference under a live folder preserves the
/// ownership invariant.
pub proof fn lemma_audio_insert_ok(v: ProjV, key: u64, data: AudioFileV, at: int)
    requires
        ownership_ok(v),
        !v.audio_files.contains_key(key),
        v.folders.contains_key(data.folder),
        0 <= at <= v.folders[data.folder].audios.len(),
    ensures
        ownership_ok(t_audio_insert(v, key, data, at)),
{
    let w = t_audio_insert(v, key, data, at);
    let ff = data.folder;
    let oldlist = v.folders[ff].audios;
    assert(w.folders.dom() =~= v.folders.dom());
    assert forall|lk: u64, fk: u64| w.layers.contains_key(lk) implies #[trigger] count_of(
        w.layers[lk].frames,
        fk,
    ) == frame_count_expected(w, lk, fk) by {
        assert(count_of(v.layers[lk].frames, fk) == frame_count_expected(v, lk, fk));
    }
    assert forall|fk: u64, sk: u64| w.frames.contains_key(fk) implies #[trigger] count_of(
        w.frames[fk].strokes,
        sk,
    ) == stroke_count_expected(w, fk, sk) by {
        assert(count_of(v.frames[fk].strokes, sk) == stroke_count_expected(v, fk, sk));
    }
    assert forall|gk: u64, lk: u64| w.graphics.contains_key(gk) implies #[trigger] count_of(
        w.graphics[gk].layers,
        lk,
    ) == layer_in_graphic_expected(w, gk, lk) by {
        assert(count_of(v.graphics[gk].layers, lk) == layer_in_graphic_expected(v, gk, lk));
    }
    assert forall|pk: u64, lk: u64| w.layers.contains_key(pk) implies #[trigger] count_of(
        w.layers[pk].layers,
        lk,
    ) == layer_in_layer_expected(w, pk, lk) by {
        assert(count_of(v.layers[pk].layers, lk) == layer_in_layer_expected(v, pk, lk));
    }
    assert forall|fk: u64, gk: u64| w.folders.contains_key(fk) implies #[trigger] count_of(
        w.folders[fk].graphics,
        gk,
    ) == graphic_count_expected(w, fk, gk) by {
        assert(count_of(v.folders[fk].graphics, gk) == graphic_count_expected(v, fk, gk));
    }
    assert forall|fk: u64, pk: u64| w.folders.contains_key(fk) implies #[trigger] count_of(
        w.folders[fk].palettes,
        pk,
    ) == palette_count_expected(w, fk, pk) by {
        assert(count_of(v.folders[fk].palettes, pk) == palette_count_expected(v, fk, pk));
    }
    assert forall|pk: u64, ck: u64| w.folders.contains_key(pk) implies #[trigger] count_of(
        w.folders[pk].folders,
        ck,
    ) == folder_count_expected(w, pk, ck) by {
        assert(count_of(v.folders[pk].folders, ck) == folder_count_expected(v, pk, ck));
    }
    assert forall|ak: u64| #[trigger] w.audio_files.contains_key(ak) implies w.folders.contains_key(
        w.audio_files[ak].folder,
    ) by {}
    assert forall|fk: u64, ak: u64| w.folders.contains_key(fk) implies #[trigger] count_of(
        w.folders[fk].audios,
        ak,
    ) == audio_count_expected(w, fk, ak) by {
        if fk == ff {
            lemma_count_insert(oldlist, at, key, ak);
            assert(count_of(oldlist, ak) == audio_count_expected(v, ff, ak));
        } else {
            assert(w.folders[fk] == v.folders[fk]);
            assert(count_of(v.folders[fk].audios, ak) == audio_count_expected(v, fk, ak));
        }
    }
    assert(audios_owned_ok(w));
}

impl Project {
    /// Inserts an audio file reference under a caller-chosen identifier at
    /// the given position of its folder's audio list (clamped). A claimed
    /// identifier or a stale folder makes the call a no-op that reports
    /// failure. The content-address indices are maintained separately by
    /// [`Project::get_file_ptr`].
    pub fn insert_audio_at(&mut self, key: u64, data: AudioFile, at: usize) -> (r: bool)
        requires
            old(self).wf(),
        ensures
            final(self).wf(),
            r == (0 < key < u64::MAX && !old(self)@.audio_files.contains_key(key)
                && old(self)@.folders.contains_key(data@.folder)),
            r ==> final(self)@ == t_audio_insert(
                old(self)@,
                key,
                data@,
                clamped(at as int, old(self)@.folders[data@.folder].audios.len() as int),
            ),
            !r ==> *final(self) == *old(self),
            final(self).audio_files.next_key_spec() == if r && key >= old(
                self,
            ).audio_files.next_key_spec() {
                key + 1
            } else {
                old(self).audio_files.next_key_spec() as int
            },
            final(self).layers.next_key_spec() == old(self).layers.next_key_spec(),
            final(self).frames.next_key_spec() == old(self).frames.next_key_spec(),
            final(self).strokes.next_key_spec() == old(self).strokes.next_key_spec(),
            final(self).folders.next_key_spec() == old(self).folders.next_key_spec(),
            final(self).graphics.next_key_spec() == old(self).graphics.next_key_spec(),
            final(self).palettes.next_key_spec() == old(self).palettes.next_key_spec(),
    {
        if key == 0 || key == u64::MAX {
            return false;
        }
        if self.audio_files.contains(ObjPtr::from_key(key)) {
            return false;
        }
        let fptr: ObjPtr<Folder> = ObjPtr::from_key(data.folder);
        let mut folder = match self.folders.remove(fptr) {
            Some(f) => f,
            None => {
                return false;
            },
        };
        proof {
            old(self).folders.lemma_live_key_bounds(data.folder);
        }
        let ghost oldfolder = folder@;
        let at2 = if at > folder.audios.len() {
            folder.audios.len()
        } else {
            at
        };
        folder.audios.insert(at2, key);
        proof {
            assert(folder@ =~= (FolderV {
                audios: oldfolder.audios.insert(at2 as int, key),
                ..oldfolder
            }));
        }
        let ghost fk = data.folder;
        let ghost dv = data@;
        self.folders.insert_with_key(data.folder, folder);
        self.audio_files.insert_with_key(key, data);
        proof {
            let t = t_audio_insert(
                old(self)@,
                key,
                dv,
                clamped(at as int, old(self)@.folders[fk].audios.len() as int),
            );
            assert(self@.folders =~= t.folders);
            assert(self@.audio_files =~= t.audio_files);
            assert(self@ =~~= t);
            lemma_audio_insert_ok(
                old(self)@,
                key,
                dv,
                clamped(at as int, old(self)@.folders[fk].audios.len() as int),
            );
        }
        true
    }
}

/// The SHA-256 digest of a byte string: a function of the bytes alone, the
/// same in every process and on every machine.
pub uninterp spec fn sha256_of(bytes: Seq<u8>) -> Seq<u8>;

/// Relies on sha2::Sha256: the digest depends on the input bytes alone and
/// is 32 bytes long.
#[verifier::external_body]
fn sha256_digest(bytes: &Vec<u8>) -> (r: Vec<u8>)
    ensures
        r@ == sha256_of(bytes@),
        r@.len() == 32,
{
    let mut hasher = sha2::Sha256::new();
    hasher.update(bytes.as_slice());
    hasher.finalize().to_vec()
}

/// The first `n` bytes of a digest folded big-endian into one word.
pub open spec fn folded_prefix(d: Seq<u8>, n: int) -> u64
    decreases n,
{
    if n <= 0 {
        0u64
    } else {
        (folded_prefix(d, n - 1) << 8) | (d[n - 1] as u64)
    }
}

/// The content hash of a byte string: the first eight digest bytes folded
/// into one word, as stored in audio references.
pub open spec fn content_hash(bytes: Seq<u8>) -> u64 {
    folded_prefix(sha256_of(bytes), 8)
}

/// Computes the content hash of a file's bytes.
pub fn hash_of_bytes(bytes: &Vec<u8>) -> (r: u64)
    ensures
        r == content_hash(bytes@),
{
    let digest = sha256_digest(bytes);
    let mut h: u64 = 0;
    let mut i: usize = 0;
    while i < 8
        invariant
            0 <= i <= 8,
            digest@.len() == 32,
            digest@ == sha256_of(bytes@),
            h == folded_prefix(digest@, i as int),
        decreases 8 - i,
    {
        h = (h << 8) | (digest[i] as u64);
        i = i + 1;
    }
    h
}

/// The relative path from `base` to `path`: a function of the two paths
/// alone.
pub uninterp spec fn rel_path_of(path: Seq<char>, base: Seq<char>) -> Option<Seq<char>>;

/// Relies on pathdiff::diff_paths: computes the path of `path` relative to
/// `base`, a pure function of the two paths; `None` exactly when no
/// relative path exists. The result is always valid text, since its
/// components are drawn from the two inputs.
#[verifier::external_body]
fn diff_paths_str(path: &String, base: &String) -> (r: Option<String>)
    ensures
        match r {
            Some(s) => rel_path_of(path@, base@) == Some(s@),
            None => rel_path_of(path@, base@) is None,
        },
{
    pathdiff::diff_paths(path.as_str(), base.as_str())
        .and_then(|p| p.to_str().map(|s| s.to_string()))
}

/// The outcome of resolving an external file reference by path and content
/// hash.
pub open spec fn resolution_of(v: crate::project::ProjV, path: Seq<char>, hash: u64) -> Option<
    u64,
> {
    if v.path_index.contains_key(path) && v.audio_files.contains_key(v.path_index[path])
        && v.audio_files[v.path_index[path]].hash == hash {
        Some(v.path_index[path])
    } else if v.hash_index.contains_key(hash) && v.audio_files.contains_key(v.hash_index[hash]) {
        Some(v.hash_index[hash])
    } else {
        None
    }
}

impl Project {
    /// Resolves an external file reference: an exact path-and-hash match
    /// wins; a file whose path moved but whose bytes are unchanged is still
    /// matched through the hash index; a file whose bytes changed under an
    /// unmoved path does not resolve through the path alone.
    pub fn resolve_file_ptr(&self, rel_path: &String, hash: u64) -> (r: Option<
        ObjPtr<AudioFile>,
    >)
        requires
            self.wf(),
        ensures
            match r {
                Some(p) => resolution_of(self@, rel_path@, hash) == Some(p.key),
                None => resolution_of(self@, rel_path@, hash) is None,
            },
    {
        match self.path_file_ptr.get(rel_path) {
            Some(k) => {
                match self.audio_files.get(ObjPtr::from_key(k)) {
                    Some(rec) => {
                        if rec.hash == hash {
                            return Some(ObjPtr::from_key(k));
                        }
                    },
                    None => {},
                }
            },
            None => {},
        }
        match self.hash_file_ptr.get(hash) {
            Some(k) => {
                match self.audio_files.get(ObjPtr::from_key(k)) {
                    Some(_) => Some(ObjPtr::from_key(k)),
                    None => None,
                }
            },
            None => None,
        }
    }

    /// Obtains the content-addressed reference for an external file: the
    /// path is made relative to the project base with pathdiff, the bytes
    /// are hashed, an existing exact match is reused, and otherwise a fresh
    /// reference record is created under `folder` and both indices are
    /// updated to point at it. Returns `None` when no relative path exists
    /// or the folder is stale.
    pub fn get_file_ptr(
        &mut self,
        path: &String,
        base: &String,
        bytes: &Vec<u8>,
        folder: ObjPtr<crate::folder::Folder>,
    ) -> (r: Option<ObjPtr<AudioFile>>)
        requires
            old(self).wf(),
            old(self).audio_files.next_key_spec() < u64::MAX,
        ensures
            final(self).wf(),
            match r {
                Some(p) => {
                    &&& final(self)@.audio_files.contains_key(p.key)
                    &&& final(self)@.audio_files[p.key].hash == content_hash(bytes@)
                    &&& rel_path_of(path@, base@) == Some(
                        final(self)@.audio_files[p.key].rel_path,
                    )
                    &&& final(self)@.path_index[final(self)@.audio_files[p.key].rel_path]
                        == p.key
                    &&& final(self)@.hash_index[content_hash(bytes@)] == p.key
                    &&& final(self)@.path_index.contains_key(
                        final(self)@.audio_files[p.key].rel_path,
                    )
                    &&& final(self)@.hash_index.contains_key(content_hash(bytes@))
                },
                None => final(self)@ == old(self)@ && (rel_path_of(path@, base@) is None || !old(
                    self,
                )@.folders.contains_key(folder.key)),
            },
            rel_path_of(path@, base@) is Some && old(self)@.folders.contains_key(folder.key)
                ==> r is Some,
            crate::saveload::graphic_data_kept(old(self)@, final(self)@),
            crate::saveload::palette_data_kept(old(self)@, final(self)@),
            crate::saveload::folder_data_kept(old(self)@, final(self)@),
            crate::saveload::settings_kept(old(self)@, final(self)@),
            crate::saveload::allocators_monotone(*old(self), *final(self)),
    {
        let rel_path = match diff_paths_str(path, base) {
            Some(p) => p,
            None => {
                return None;
            },
        };
        let hash = hash_of_bytes(bytes);
        match self.resolve_file_ptr(&rel_path, hash) {
            Some(p) => {
                let matches_exactly = match self.audio_files.get(p) {
                    Some(rec) => rec.hash == hash && rec.rel_path == rel_path,
                    None => false,
                };
                if matches_exactly {
                    self.path_file_ptr.insert(rel_path.clone(), p.key);
                    self.hash_file_ptr.insert(hash, p.key);
                    proof {
                        assert(self@ =~~= (crate::project::ProjV {
                            path_index: old(self)@.path_index.insert(rel_path@, p.key),
                            hash_index: old(self)@.hash_index.insert(hash, p.key),
                            ..old(self)@
                        }));
                        lemma_indices_ok(old(self)@, self@);
                    }
                    return Some(p);
                }
            },
            None => {},
        }
        let key = self.audio_files.peek_next_handle().key;
        let rec = AudioFile { rel_path: rel_path.clone(), hash, folder: folder.key };
        if !self.insert_audio_at(key, rec, usize::MAX) {
            proof {
                assert(self@ =~~= old(self)@);
            }
            return None;
        }
        let ghost mid = self@;
        self.path_file_ptr.insert(rel_path, key);
        self.hash_file_ptr.insert(hash, key);
        proof {
            lemma_indices_ok(mid, self@);
        }
        Some(ObjPtr::from_key(key))
    }
}

/// The ownership clauses ignore the content-address indices: a state that
/// differs only in them keeps them all.
proof fn lemma_indices_ok(v: crate::project::ProjV, w: crate::project::ProjV)
    requires
        ownership_ok(v),
        w.folders == v.folders,
        w.graphics == v.graphics,
        w.layers == v.layers,
        w.frames == v.frames,
        w.strokes == v.strokes,
        w.palettes == v.palettes,
        w.audio_files == v.audio_files,
        w.root_folder == v.root_folder,
    ensures
        ownership_ok(w),
{
    assert forall|lk: u64, fk: u64| w.layers.contains_key(lk) implies #[trigger] count_of(
        w.layers[lk].frames,
        fk,
    ) == frame_count_expected(w, lk, fk) by {
        assert(count_of(v.layers[lk].frames, fk) == frame_count_expected(v, lk, fk));
    }
    assert forall|fk: u64, sk: u64| w.frames.contains_key(fk) implies #[trigger] count_of(
        w.frames[fk].strokes,
        sk,
    ) == stroke_count_expected(w, fk, sk) by {
        assert(count_of(v.frames[fk].strokes, sk) == stroke_count_expected(v, fk, sk));
    }
    assert forall|gk: u64, lk: u64| w.graphics.contains_key(gk) implies #[trigger] count_of(
        w.graphics[gk].layers,
        lk,
    ) == layer_in_graphic_expected(w, gk, lk) by {
        assert(count_of(v.graphics[gk].layers, lk) == layer_in_graphic_expected(v, gk, lk));
    }
    assert forall|pk: u64, lk: u64| w.layers.contains_key(pk) implies #[trigger] count_of(
        w.layers[pk].layers,
        lk,
    ) == layer_in_layer_expected(w, pk, lk) by {
        assert(count_of(v.layers[pk].layers, lk) == layer_in_layer_expected(v, pk, lk));
    }
    assert forall|fk: u64, gk: u64| w.folders.contains_key(fk) implies #[trigger] count_of(
        w.folders[fk].graphics,
        gk,
    ) == graphic_count_expected(w, fk, gk) by {
        assert(count_of(v.folders[fk].graphics, gk) == graphic_count_expected(v, fk, gk));
    }
    assert forall|fk: u64, pk: u64| w.folders.contains_key(fk) implies #[trigger] count_of(
        w.folders[fk].palettes,
        pk,
    ) == palette_count_expected(w, fk, pk) by {
        assert(count_of(v.folders[fk].palettes, pk) == palette_count_expected(v, fk, pk));
    }
    assert forall|fk: u64, ak: u64| w.folders.contains_key(fk) implies #[trigger] count_of(
        w.folders[fk].audios,
        ak,
    ) == audio_count_expected(w, fk, ak) by {
        assert(count_of(v.folders[fk].audios, ak) == audio_count_expected(v, fk, ak));
    }
    assert forall|pk: u64, ck: u64| w.folders.contains_key(pk) implies #[trigger] count_of(
        w.folders[pk].folders,
        ck,
    ) == folder_count_expected(w, pk, ck) by {
        assert(count_of(v.folders[pk].folders, ck) == folder_count_expected(v, pk, ck));
    }
}

/// Whether every entry of a reference table is the path and hash of a live
/// audio reference.
pub open spec fn table_entries_live(v: crate::project::ProjV, r: Seq<(String, u64)>) -> bool {
    forall|j: int| #![trigger r[j]]
        0 <= j < r.len() ==> exists|k: u64|
            {
                &&& #[trigger] v.audio_files.contains_key(k)
                &&& r[j].0@ == v.audio_files[k].rel_path
                &&& r[j].1 == v.audio_files[k].hash
            }
}

impl Project {
    /// The descriptor's external reference table: the relative path and
    /// content hash of every live audio reference.
    pub fn audio_reference_table(&self) -> (r: Vec<(String, u64)>)
        requires
            self.wf(),
        ensures
            table_entries_live(self@, r@),
            forall|k: u64| #[trigger]
                self@.audio_files.contains_key(k) ==> exists|j: int|
                    0 <= j < r@.len() && (#[trigger] r@[j]).0@ == self@.audio_files[k].rel_path
                        && r@[j].1 == self@.audio_files[k].hash,
    {
        let keys = self.audio_files.keys();
        let mut r: Vec<(String, u64)> = Vec::new();
        let mut i: usize = 0;
        while i < keys.len()
            invariant
                self.wf(),
                0 <= i <= keys@.len(),
                table_entries_live(self@, r@),
                forall|j: int| 0 <= j < keys@.len() ==> self@.audio_files.contains_key(
                    #[trigger] keys@[j],
                ),
                r@.len() == i,
                forall|idx: int| #![trigger keys@[idx]]
                    0 <= idx < i ==> r@[idx].0@ == self@.audio_files[keys@[idx]].rel_path
                        && r@[idx].1 == self@.audio_files[keys@[idx]].hash,
            decreases keys@.len() - i,
        {
            match self.audio_files.get(ObjPtr::from_key(keys[i])) {
                Some(rec) => {
                    let ghost k0 = keys@[i as int];
                    let ghost rpre = r@;
                    r.push((rec.rel_path.clone(), rec.hash));
                    proof {
                        assert(r@.last().0@ == self@.audio_files[k0].rel_path);
                        assert forall|j: int| #![trigger r@[j]] 0 <= j < r@.len() implies exists|
                            k: u64,
                        |
                            {
                                &&& #[trigger] self@.audio_files.contains_key(k)
                                &&& r@[j].0@ == self@.audio_files[k].rel_path
                                &&& r@[j].1 == self@.audio_files[k].hash
                            } by {
                            if j == r@.len() - 1 {
                                assert(self@.audio_files.contains_key(k0)
                                    && r@[j].0@ == self@.audio_files[k0].rel_path && r@[j].1
                                    == self@.audio_files[k0].hash);
                            } else {
                                assert(r@[j] == r@.drop_last()[j]);
                            }
                        }
                        assert(table_entries_live(self@, r@));
                    }
                },
                None => {},
            }
            i = i + 1;
        }
        proof {
            self.audio_files.lemma_identity_uniqueness();
            assert forall|k: u64| #[trigger] self@.audio_files.contains_key(k) implies exists|
                j: int,
            |
                0 <= j < r@.len() && (#[trigger] r@[j]).0@ == self@.audio_files[k].rel_path
                    && r@[j].1 == self@.audio_files[k].hash by {
                assert(self.audio_files.ids_in_order().contains(k));
                let idx = choose|idx: int|
                    0 <= idx < self.audio_files.ids_in_order().len()
                        && self.audio_files.ids_in_order()[idx] == k;
                assert(keys@[idx] == k);
                assert(0 <= idx < r@.len() && r@[idx].0@ == self@.audio_files[k].rel_path
                    && r@[idx].1 == self@.audio_files[k].hash);
            }
        }
        r
    }
}

} // verus!
