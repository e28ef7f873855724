//! Typed handles and per-type object stores.
//!
//! An [`ObjPtr`] identifies one object of a specific type inside that type's
//! [`ObjList`]. Identifiers are unsigned integers, monotonically allocated and
//! never reused while the referenced object is alive; the key `0` is the null
//! handle and never names a live object. Lookups on a stale handle return
//! "not found" rather than failing, since handles can outlive their referent
//! after undo/redo or a partial load.

use vstd::prelude::*;

verus! {

/// A typed handle: a per-type identifier plus a phantom type tag.
#[verifier::reject_recursive_types(T)]
pub struct ObjPtr<T> {
    pub key: u64,
    pub marker: core::marker::PhantomData<T>,
}

impl<T> Clone for ObjPtr<T> {
    fn clone(&self) -> (r: Self)
        ensures
            r == *self,
    {
        ObjPtr { key: self.key, marker: core::marker::PhantomData }
    }
}

impl<T> Copy for ObjPtr<T> {}

impl<T> PartialEq for ObjPtr<T> {
    fn eq(&self, other: &Self) -> (r: bool) {
        self.key == other.key
    }
}

impl<T> vstd::std_specs::cmp::PartialEqSpecImpl for ObjPtr<T> {
    open spec fn obeys_eq_spec() -> bool {
        true
    }

    open spec fn eq_spec(&self, other: &Self) -> bool {
        self.key == other.key
    }
}

impl<T> ObjPtr<T> {
    /// The null handle: denotes "no object".
    pub fn null() -> (r: Self)
        ensures
            r.key == 0,
    {
        ObjPtr { key: 0, marker: core::marker::PhantomData }
    }

    pub fn from_key(key: u64) -> (r: Self)
        ensures
            r.key == key,
    {
        ObjPtr { key, marker: core::marker::PhantomData }
    }

    pub fn is_null(&self) -> (r: bool)
        ensures
            r == (self.key == 0),
    {
        self.key == 0
    }
}

/// The store for one entity type: a mapping from identifier to object value
/// plus an identifier allocator that hands out ever-increasing, type-scoped
/// identifiers.
pub struct ObjList<T> {
    objs: Vec<(u64, T)>,
    next: u64,
}

/// The mapping that a sequence of (identifier, object) pairs denotes.
pub closed spec fn assoc_map<T: View>(s: Seq<(u64, T)>) -> Map<u64, T::V>
    decreases s.len(),
{
    if s.len() == 0 {
        Map::empty()
    } else {
        assoc_map(s.drop_last()).insert(s.last().0, s.last().1@)
    }
}

proof fn lemma_assoc_map_contains<T: View>(s: Seq<(u64, T)>, k: u64)
    ensures
        assoc_map(s).contains_key(k) <==> exists|i: int| 0 <= i < s.len() && (#[trigger] s[i]).0 == k,
    decreases s.len(),
{
    if s.len() > 0 {
        lemma_assoc_map_contains(s.drop_last(), k);
        if s.last().0 == k {
            assert(s[s.len() - 1].0 == k);
        } else if assoc_map(s).contains_key(k) {
            let i = choose|i: int| 0 <= i < s.drop_last().len() && (#[trigger] s.drop_last()[i]).0 == k;
            assert(s[i].0 == k);
        } else {
            assert forall|i: int| 0 <= i < s.len() implies (#[trigger] s[i]).0 != k by {
                if i < s.len() - 1 {
                    assert(s.drop_last()[i] == s[i]);
                }
            }
        }
    }
}

proof fn lemma_assoc_map_index<T: View>(s: Seq<(u64, T)>, i: int)
    requires
        forall|p: int, q: int|
            0 <= p < q < s.len() ==> (#[trigger] s[p]).0 != (#[trigger] s[q]).0,
        0 <= i < s.len(),
    ensures
        assoc_map(s).contains_key(s[i].0),
        assoc_map(s)[s[i].0] == s[i].1@,
    decreases s.len(),
{
    if i == s.len() - 1 {
        lemma_assoc_map_contains(s, s[i].0);
    } else {
        assert forall|p: int, q: int|
            0 <= p < q < s.drop_last().len() implies (#[trigger] s.drop_last()[p]).0
            != (#[trigger] s.drop_last()[q]).0 by {
            assert(s.drop_last()[p] == s[p]);
            assert(s.drop_last()[q] == s[q]);
        }
        assert(s.drop_last()[i] == s[i]);
        lemma_assoc_map_index(s.drop_last(), i);
        assert(s[i].0 != s.last().0);
    }
}

proof fn lemma_assoc_map_len<T: View>(s: Seq<(u64, T)>)
    requires
        forall|p: int, q: int|
            0 <= p < q < s.len() ==> (#[trigger] s[p]).0 != (#[trigger] s[q]).0,
    ensures
        assoc_map(s).dom().finite(),
        assoc_map(s).len() == s.len(),
    decreases s.len(),
{
    if s.len() > 0 {
        let d = s.drop_last();
        assert forall|p: int, q: int|
            0 <= p < q < d.len() implies (#[trigger] d[p]).0 != (#[trigger] d[q]).0 by {
            assert(d[p] == s[p]);
            assert(d[q] == s[q]);
        }
        lemma_assoc_map_len(d);
        lemma_assoc_map_contains(d, s.last().0);
        assert forall|i: int| 0 <= i < d.len() implies (#[trigger] d[i]).0 != s.last().0 by {
            assert(d[i] == s[i]);
            assert(s.last() == s[s.len() - 1]);
        }
        assert(!assoc_map(d).contains_key(s.last().0));
        assert(assoc_map(s).dom() =~= assoc_map(d).dom().insert(s.last().0));
        vstd::set::axiom_set_insert_finite(assoc_map(d).dom(), s.last().0);
        vstd::set::axiom_set_insert_len(assoc_map(d).dom(), s.last().0);
    }
}

proof fn lemma_assoc_map_remove<T: View>(s: Seq<(u64, T)>, i: int)
    requires
        forall|p: int, q: int|
            0 <= p < q < s.len() ==> (#[trigger] s[p]).0 != (#[trigger] s[q]).0,
        0 <= i < s.len(),
    ensures
        assoc_map(s.remove(i)) =~= assoc_map(s).remove(s[i].0),
    decreases s.len(),
{
    let k = s[i].0;
    if i == s.len() - 1 {
        assert(s.remove(i) =~= s.drop_last());
        lemma_assoc_map_contains(s.drop_last(), k);
        assert forall|j: int| 0 <= j < s.drop_last().len() implies (#[trigger] s.drop_last()[j]).0
            != k by {
            assert(s.drop_last()[j] == s[j]);
        }
        assert(!assoc_map(s.drop_last()).contains_key(k));
        assert(assoc_map(s) == assoc_map(s.drop_last()).insert(k, s.last().1@));
        assert(assoc_map(s).remove(k) =~= assoc_map(s.drop_last()));
    } else {
        let d = s.drop_last();
        assert forall|p: int, q: int|
            0 <= p < q < d.len() implies (#[trigger] d[p]).0 != (#[trigger] d[q]).0 by {
            assert(d[p] == s[p]);
            assert(d[q] == s[q]);
        }
        assert(d[i] == s[i]);
        lemma_assoc_map_remove(d, i);
        assert(s.remove(i).drop_last() =~= d.remove(i));
        assert(s.remove(i).last() == s.last());
        assert(assoc_map(s.remove(i)) == assoc_map(d.remove(i)).insert(s.last().0, s.last().1@));
        assert(s[i].0 != s.last().0);
        assert(assoc_map(s.remove(i)) =~= assoc_map(s).remove(k));
    }
}

impl<T: View> View for ObjList<T> {
    type V = Map<u64, T::V>;

    closed spec fn view(&self) -> Map<u64, T::V> {
        assoc_map(self.objs@)
    }
}

impl<T: View> ObjList<T> {
    /// The identifier the allocator would hand out next.
    pub closed spec fn next_key_spec(self) -> u64 {
        self.next
    }

    /// The identifiers of the stored objects, in storage order.
    pub closed spec fn ids_in_order(self) -> Seq<u64> {
        self.objs@.map_values(|p: (u64, T)| p.0)
    }

    /// Well-formedness: identifiers are pairwise distinct, non-null, and below
    /// the allocator's next identifier.
    pub closed spec fn wf(self) -> bool {
        &&& 1 <= self.next
        &&& forall|i: int, j: int|
            0 <= i < j < self.objs@.len() ==> (#[trigger] self.objs@[i]).0 != (
            #[trigger] self.objs@[j]).0
        &&& forall|i: int| 0 <= i < self.objs@.len() ==> 0 < (#[trigger] self.objs@[i]).0 < self.next
    }

    /// Identity uniqueness: in a well-formed store, no two live objects hold
    /// the same identifier, and the live identifiers are exactly the store's
    /// domain. Every store operation preserves well-formedness, so this holds
    /// after any sequence of additions and removals.
    pub proof fn lemma_identity_uniqueness(self)
        requires
            self.wf(),
        ensures
            self.ids_in_order().no_duplicates(),
            forall|k: u64| self.ids_in_order().contains(k) <==> #[trigger] self@.contains_key(k),
            self@.dom().finite(),
            self@.len() == self.ids_in_order().len(),
    {
        let ids = self.ids_in_order();
        assert forall|i: int, j: int| 0 <= i < ids.len() && 0 <= j < ids.len() && i != j implies ids[i]
            != ids[j] by {
            assert(ids[i] == self.objs@[i].0);
            assert(ids[j] == self.objs@[j].0);
        }
        lemma_assoc_map_len(self.objs@);
        assert forall|k: u64| ids.contains(k) <==> #[trigger] self@.contains_key(k) by {
            lemma_assoc_map_contains(self.objs@, k);
            if self@.contains_key(k) {
                let i = choose|i: int| 0 <= i < self.objs@.len() && (#[trigger] self.objs@[i]).0 == k;
                assert(ids[i] == k);
            }
            if ids.contains(k) {
                let i = choose|i: int| 0 <= i < ids.len() && ids[i] == k;
                assert(self.objs@[i].0 == k);
            }
        }
    }

    /// The null key never names a live object, and neither does any key at or
    /// above the allocator's next identifier.
    pub proof fn lemma_key_bounds(self, k: u64)
        requires
            self.wf(),
            k == 0 || k >= self.next_key_spec(),
        ensures
            !self@.contains_key(k),
    {
        lemma_assoc_map_contains(self.objs@, k);
    }

    /// A live key is non-null and below the allocator's next identifier.
    pub proof fn lemma_live_key_bounds(self, k: u64)
        requires
            self.wf(),
            self@.contains_key(k),
        ensures
            0 < k < self.next_key_spec(),
            k < u64::MAX,
    {
        lemma_assoc_map_contains(self.objs@, k);
        let i = choose|i: int| 0 <= i < self.objs@.len() && (#[trigger] self.objs@[i]).0 == k;
        assert(0 < self.objs@[i].0 < self.next);
    }

    pub fn new() -> (r: Self)
        ensures
            r.wf(),
            r@ =~= Map::<u64, T::V>::empty(),
            r.next_key_spec() == 1,
    {
        ObjList { objs: Vec::new(), next: 1 }
    }

    /// How many objects are live.
    pub fn len(&self) -> (r: usize)
        requires
            self.wf(),
        ensures
            r == self@.len(),
    {
        proof {
            lemma_assoc_map_len(self.objs@);
        }
        self.objs.len()
    }

    /// The identifier that would be allocated next; needed so the persistence
    /// layer can reserve identifiers before the objects exist.
    pub fn peek_next_handle(&self) -> (r: ObjPtr<T>)
        ensures
            r.key == self.next_key_spec(),
            self.wf() ==> 1 <= r.key && !self@.contains_key(r.key),
    {
        proof {
            if self.wf() {
                lemma_assoc_map_contains(self.objs@, self.next);
            }
        }
        ObjPtr::from_key(self.next)
    }

    /// Allocates a fresh identifier: returns the current next identifier and
    /// advances the allocator.
    pub fn next_key(&mut self) -> (r: u64)
        requires
            old(self).wf(),
            old(self).next_key_spec() < u64::MAX,
        ensures
            final(self).wf(),
            r == old(self).next_key_spec(),
            1 <= r,
            final(self).next_key_spec() == old(self).next_key_spec() + 1,
            final(self)@ == old(self)@,
            !final(self)@.contains_key(r),
    {
        let r = self.next;
        self.next = self.next + 1;
        proof {
            lemma_assoc_map_contains(self.objs@, r);
        }
        r
    }

    pub fn contains(&self, ptr: ObjPtr<T>) -> (r: bool)
        ensures
            r == self@.contains_key(ptr.key),
    {
        let mut i: usize = 0;
        while i < self.objs.len()
            invariant
                0 <= i <= self.objs@.len(),
                forall|j: int| 0 <= j < i ==> (#[trigger] self.objs@[j]).0 != ptr.key,
            decreases self.objs@.len() - i,
        {
            if self.objs[i].0 == ptr.key {
                proof {
                    lemma_assoc_map_contains(self.objs@, ptr.key);
                }
                return true;
            }
            i = i + 1;
        }
        proof {
            lemma_assoc_map_contains(self.objs@, ptr.key);
        }
        false
    }

    /// Looks an object up by handle. A stale or null handle returns `None`.
    pub fn get(&self, ptr: ObjPtr<T>) -> (r: Option<&T>)
        requires
            self.wf(),
        ensures
            match r {
                Some(t) => self@.contains_key(ptr.key) && t@ == self@[ptr.key],
                None => !self@.contains_key(ptr.key),
            },
    {
        let mut i: usize = 0;
        while i < self.objs.len()
            invariant
                self.wf(),
                0 <= i <= self.objs@.len(),
                forall|j: int| 0 <= j < i ==> (#[trigger] self.objs@[j]).0 != ptr.key,
            decreases self.objs@.len() - i,
        {
            if self.objs[i].0 == ptr.key {
                proof {
                    lemma_assoc_map_index(self.objs@, i as int);
                }
                return Some(&self.objs[i].1);
            }
            i = i + 1;
        }
        proof {
            lemma_assoc_map_contains(self.objs@, ptr.key);
        }
        None
    }

    /// Inserts an object under a caller-chosen identifier, bumping the
    /// allocator past it. Used by the loader to preserve on-disk identities.
    pub fn insert_with_key(&mut self, key: u64, value: T)
        requires
            old(self).wf(),
            0 < key < u64::MAX,
            !old(self)@.contains_key(key),
        ensures
            final(self).wf(),
            final(self)@ =~= old(self)@.insert(key, value@),
            final(self).next_key_spec() == if key >= old(self).next_key_spec() {
                key + 1
            } else {
                old(self).next_key_spec() as int
            },
    {
        proof {
            lemma_assoc_map_contains(self.objs@, key);
        }
        self.objs.push((key, value));
        if key >= self.next {
            self.next = key + 1;
        }
        proof {
            assert(self.objs@.drop_last() =~= old(self).objs@);
        }
    }

    /// Adds an object under a freshly allocated identifier and returns its
    /// handle. The identifier differs from that of every object that is live
    /// or was ever live in this store.
    pub fn add(&mut self, value: T) -> (r: ObjPtr<T>)
        requires
            old(self).wf(),
            old(self).next_key_spec() < u64::MAX,
        ensures
            final(self).wf(),
            r.key == old(self).next_key_spec(),
            1 <= r.key,
            !old(self)@.contains_key(r.key),
            final(self)@ =~= old(self)@.insert(r.key, value@),
            final(self).next_key_spec() == old(self).next_key_spec() + 1,
    {
        let key = self.next_key();
        self.insert_with_key(key, value);
        ObjPtr::from_key(key)
    }

    /// The identifiers of all live objects, in storage order.
    pub fn keys(&self) -> (r: Vec<u64>)
        ensures
            r@ == self.ids_in_order(),
            forall|j: int| 0 <= j < r@.len() ==> self@.contains_key(#[trigger] r@[j]),
    {
        let mut r: Vec<u64> = Vec::new();
        let mut i: usize = 0;
        while i < self.objs.len()
            invariant
                0 <= i <= self.objs@.len(),
                r@.len() == i,
                forall|j: int| 0 <= j < i ==> r@[j] == (#[trigger] self.objs@[j]).0,
            decreases self.objs@.len() - i,
        {
            r.push(self.objs[i].0);
            i = i + 1;
        }
        proof {
            assert(r@ =~= self.ids_in_order());
            assert forall|j: int| 0 <= j < r@.len() implies self@.contains_key(
                #[trigger] r@[j],
            ) by {
                lemma_assoc_map_contains(self.objs@, r@[j]);
                assert(self.objs@[j].0 == r@[j]);
            }
        }
        r
    }

    /// Removes an object by handle, returning it. A stale or null handle
    /// leaves the store unchanged and returns `None`.
    pub fn remove(&mut self, ptr: ObjPtr<T>) -> (r: Option<T>)
        requires
            old(self).wf(),
        ensures
            final(self).wf(),
            final(self).next_key_spec() == old(self).next_key_spec(),
            match r {
                Some(t) => {
                    &&& old(self)@.contains_key(ptr.key)
                    &&& t@ == old(self)@[ptr.key]
                    &&& final(self)@ =~= old(self)@.remove(ptr.key)
                },
                None => !old(self)@.contains_key(ptr.key) && final(self)@ == old(self)@
                    && *final(self) == *old(self),
            },
    {
        let mut i: usize = 0;
        while i < self.objs.len()
            invariant
                self.wf(),
                0 <= i <= self.objs@.len(),
                forall|j: int| 0 <= j < i ==> (#[trigger] self.objs@[j]).0 != ptr.key,
                *self == *old(self),
            decreases self.objs@.len() - i,
        {
            if self.objs[i].0 == ptr.key {
                proof {
                    lemma_assoc_map_index(self.objs@, i as int);
                    lemma_assoc_map_remove(self.objs@, i as int);
                }
                let (_, t) = self.objs.remove(i);
                return Some(t);
            }
            i = i + 1;
        }
        proof {
            lemma_assoc_map_contains(self.objs@, ptr.key);
        }
        None
    }
}

} // verus!
