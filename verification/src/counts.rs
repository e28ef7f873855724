//! Occurrence counts in identifier sequences, used to state that each owning
//! handle is held by exactly one child collection.

use vstd::prelude::*;

verus! {

/// How many times `k` occurs in `s`.
pub open spec fn count_of(s: Seq<u64>, k: u64) -> nat
    decreases s.len(),
{
    if s.len() == 0 {
        0nat
    } else {
        count_of(s.drop_last(), k) + if s.last() == k {
            1nat
        } else {
            0nat
        }
    }
}

pub proof fn lemma_count_push(s: Seq<u64>, x: u64, k: u64)
    ensures
        count_of(s.push(x), k) == count_of(s, k) + if x == k {
            1nat
        } else {
            0nat
        },
{
    assert(s.push(x).drop_last() =~= s);
    assert(s.push(x).last() == x);
}

pub proof fn lemma_count_remove(s: Seq<u64>, i: int, k: u64)
    requires
        0 <= i < s.len(),
    ensures
        count_of(s.remove(i), k) + if s[i] == k {
            1nat
        } else {
            0nat
        } == count_of(s, k),
    decreases s.len(),
{
    if i == s.len() - 1 {
        assert(s.remove(i) =~= s.drop_last());
    } else {
        let d = s.drop_last();
        lemma_count_remove(d, i, k);
        assert(s.remove(i).drop_last() =~= d.remove(i));
        assert(s.remove(i).last() == s.last());
        assert(d[i] == s[i]);
    }
}

pub proof fn lemma_count_insert(s: Seq<u64>, i: int, x: u64, k: u64)
    requires
        0 <= i <= s.len(),
    ensures
        count_of(s.insert(i, x), k) == count_of(s, k) + if x == k {
            1nat
        } else {
            0nat
        },
    decreases s.len(),
{
    if i == s.len() {
        assert(s.insert(i, x) =~= s.push(x));
        lemma_count_push(s, x, k);
    } else {
        let d = s.drop_last();
        lemma_count_insert(d, i, x, k);
        assert(s.insert(i, x).drop_last() =~= d.insert(i, x));
        assert(s.insert(i, x).last() == s.last());
    }
}

pub proof fn lemma_count_zero(s: Seq<u64>, k: u64)
    ensures
        (count_of(s, k) == 0) <==> (forall|j: int| 0 <= j < s.len() ==> s[j] != k),
    decreases s.len(),
{
    if s.len() > 0 {
        let d = s.drop_last();
        lemma_count_zero(d, k);
        if count_of(s, k) == 0 {
            assert forall|j: int| 0 <= j < s.len() implies s[j] != k by {
                if j < s.len() - 1 {
                    assert(d[j] == s[j]);
                } else {
                    assert(s[j] == s.last());
                }
            }
        } else {
            if s.last() != k {
                let j = choose|j: int| 0 <= j < d.len() && d[j] == k;
                assert(s[j] == k);
            }
        }
    }
}

/// In a sequence where `k` occurs exactly once, two positions holding `k`
/// coincide.
pub proof fn lemma_count_one_unique(s: Seq<u64>, k: u64, i: int, j: int)
    requires
        count_of(s, k) == 1,
        0 <= i < s.len(),
        0 <= j < s.len(),
        s[i] == k,
        s[j] == k,
    ensures
        i == j,
{
    if i != j {
        lemma_count_remove(s, i, k);
        let t = s.remove(i);
        assert(count_of(t, k) == 0);
        lemma_count_zero(t, k);
        if j < i {
            assert(t[j] == s[j]);
        } else {
            assert(t[j - 1] == s[j]);
        }
    }
}

/// A position holding `k` forces a positive count.
pub proof fn lemma_count_at_least_one(s: Seq<u64>, k: u64, i: int)
    requires
        0 <= i < s.len(),
        s[i] == k,
    ensures
        count_of(s, k) >= 1,
{
    lemma_count_zero(s, k);
}

/// The position of `k` in `s`: meaningful when `k` occurs in `s`, and
/// unique when it occurs exactly once.
pub open spec fn key_index(s: Seq<u64>, k: u64) -> int {
    choose|i: int| 0 <= i < s.len() && s[i] == k
}

/// When `k` occurs exactly once, `key_index` is the one position holding it.
pub proof fn lemma_key_index(s: Seq<u64>, k: u64, i: int)
    requires
        count_of(s, k) == 1,
        0 <= i < s.len(),
        s[i] == k,
    ensures
        key_index(s, k) == i,
{
    lemma_count_zero(s, k);
    let j = key_index(s, k);
    assert(0 <= j < s.len() && s[j] == k);
    lemma_count_one_unique(s, k, i, j);
}

/// A positive count exhibits a position holding `k`.
pub proof fn lemma_count_position(s: Seq<u64>, k: u64) -> (i: int)
    requires
        count_of(s, k) >= 1,
    ensures
        0 <= i < s.len(),
        s[i] == k,
{
    lemma_count_zero(s, k);
    choose|i: int| 0 <= i < s.len() && s[i] == k
}

/// Inserting then removing at the same position restores a sequence.
pub proof fn lemma_insert_remove<A>(s: Seq<A>, i: int, x: A)
    requires
        0 <= i <= s.len(),
    ensures
        s.insert(i, x).remove(i) =~= s,
{
    s.insert_ensures(i, x);
    s.insert(i, x).remove_ensures(i);
    assert forall|j: int| 0 <= j < s.len() implies s.insert(i, x).remove(i)[j] == s[j] by {
        if j < i {
            assert(s.insert(i, x).remove(i)[j] == s.insert(i, x)[j]);
        } else {
            assert(s.insert(i, x).remove(i)[j] == s.insert(i, x)[j + 1]);
        }
    }
}

/// Removing then re-inserting the removed element restores a sequence.
pub proof fn lemma_remove_insert<A>(s: Seq<A>, i: int)
    requires
        0 <= i < s.len(),
    ensures
        s.remove(i).insert(i, s[i]) =~= s,
{
    s.remove_ensures(i);
    s.remove(i).insert_ensures(i, s[i]);
    assert forall|j: int| 0 <= j < s.len() implies s.remove(i).insert(i, s[i])[j] == s[j] by {
        if j < i {
            assert(s.remove(i).insert(i, s[i])[j] == s.remove(i)[j]);
        } else if j == i {
        } else {
            assert(s.remove(i).insert(i, s[i])[j] == s.remove(i)[j - 1]);
        }
    }
}

} // verus!
