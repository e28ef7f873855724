//! Collision-safe display names.
//!
//! Sibling assets must not share a display name (names double as file names
//! on disk). A colliding name is resolved by appending " (n)" with the
//! smallest non-colliding n, for any set of sibling names.

use vstd::prelude::*;

verus! {

/// The decimal digit character for a value below ten.
pub open spec fn dec_digit(n: nat) -> char {
    if n == 0 {
        '0'
    } else if n == 1 {
        '1'
    } else if n == 2 {
        '2'
    } else if n == 3 {
        '3'
    } else if n == 4 {
        '4'
    } else if n == 5 {
        '5'
    } else if n == 6 {
        '6'
    } else if n == 7 {
        '7'
    } else if n == 8 {
        '8'
    } else {
        '9'
    }
}

/// The decimal representation of a number, most significant digit first.
pub open spec fn dec_of(n: nat) -> Seq<char>
    decreases n,
{
    if n < 10 {
        seq![dec_digit(n)]
    } else {
        dec_of(n / 10).push(dec_digit(n % 10))
    }
}

proof fn lemma_dec_len(n: nat)
    ensures
        dec_of(n).len() >= 1,
    decreases n,
{
    if n >= 10 {
        lemma_dec_len(n / 10);
    }
}

/// Distinct numbers have distinct decimal representations.
pub proof fn lemma_dec_injective(a: nat, b: nat)
    requires
        dec_of(a) == dec_of(b),
    ensures
        a == b,
    decreases a,
{
    if a < 10 && b < 10 {
        assert(dec_of(a)[0] == dec_digit(a));
        assert(dec_of(b)[0] == dec_digit(b));
    } else if a < 10 {
        lemma_dec_len(b / 10);
        assert(dec_of(b).len() >= 2);
        assert(dec_of(a).len() == 1);
    } else if b < 10 {
        lemma_dec_len(a / 10);
        assert(dec_of(a).len() >= 2);
        assert(dec_of(b).len() == 1);
    } else {
        assert(dec_of(a).last() == dec_digit(a % 10));
        assert(dec_of(b).last() == dec_digit(b % 10));
        assert(a % 10 == b % 10);
        assert(dec_of(a).drop_last() =~= dec_of(a / 10));
        assert(dec_of(b).drop_last() =~= dec_of(b / 10));
        lemma_dec_injective(a / 10, b / 10);
    }
}

/// The name with the collision suffix " (i)" appended.
pub open spec fn suffixed(name: Seq<char>, i: nat) -> Seq<char> {
    name + " ("@ + dec_of(i) + ")"@
}

/// Distinct suffix numbers yield distinct suffixed names.
pub proof fn lemma_suffixed_injective(name: Seq<char>, i: nat, j: nat)
    requires
        suffixed(name, i) == suffixed(name, j),
    ensures
        i == j,
{
    let a = suffixed(name, i);
    let b = suffixed(name, j);
    let pre = (name + " ("@).len() as int;
    assert(a.len() == pre + dec_of(i).len() + ")"@.len());
    assert(b.len() == pre + dec_of(j).len() + ")"@.len());
    assert(dec_of(i).len() == dec_of(j).len());
    assert(a.subrange(pre, pre + dec_of(i).len() as int) =~= dec_of(i));
    assert(b.subrange(pre, pre + dec_of(j).len() as int) =~= dec_of(j));
    assert(dec_of(i) == dec_of(j));
    lemma_dec_injective(i, j);
}

/// Whether a name occurs in the sibling name list.
pub open spec fn name_taken(names: Seq<Seq<char>>, n: Seq<char>) -> bool {
    exists|k: int| 0 <= k < names.len() && names[k] == n
}

fn digit_str(d: u64) -> (r: &'static str)
    requires
        d < 10,
    ensures
        r@ == seq![dec_digit(d as nat)],
{
    proof {
        reveal_strlit("0");
        reveal_strlit("1");
        reveal_strlit("2");
        reveal_strlit("3");
        reveal_strlit("4");
        reveal_strlit("5");
        reveal_strlit("6");
        reveal_strlit("7");
        reveal_strlit("8");
        reveal_strlit("9");
    }
    if d == 0 {
        "0"
    } else if d == 1 {
        "1"
    } else if d == 2 {
        "2"
    } else if d == 3 {
        "3"
    } else if d == 4 {
        "4"
    } else if d == 5 {
        "5"
    } else if d == 6 {
        "6"
    } else if d == 7 {
        "7"
    } else if d == 8 {
        "8"
    } else {
        "9"
    }
}

/// The decimal rendering of a number.
pub fn format_number(n: u64) -> (r: String)
    ensures
        r@ == dec_of(n as nat),
    decreases n,
{
    if n < 10 {
        String::from_str(digit_str(n))
    } else {
        let mut s = format_number(n / 10);
        s.append(digit_str(n % 10));
        proof {
            assert(s@ =~= dec_of(n as nat));
        }
        s
    }
}

/// The name with the collision suffix " (i)" appended.
pub fn suffixed_name(name: &String, i: u64) -> (r: String)
    ensures
        r@ == suffixed(name@, i as nat),
{
    let mut s = name.clone();
    s.append(" (");
    s.append(format_number(i).as_str());
    s.append(")");
    proof {
        assert(s@ =~= suffixed(name@, i as nat));
    }
    s
}

fn contains_name(names: &Vec<String>, n: &String) -> (r: bool)
    ensures
        r == name_taken(names.deep_view(), n@),
{
    let mut k: usize = 0;
    while k < names.len()
        invariant
            0 <= k <= names@.len(),
            forall|j: int| 0 <= j < k ==> names.deep_view()[j] != n@,
        decreases names@.len() - k,
    {
        if names[k] == *n {
            proof {
                assert(names.deep_view()[k as int] == n@);
            }
            return true;
        }
        k = k + 1;
    }
    false
}

/// The first non-colliding variant of a display name against a list of
/// sibling names: the name itself if it is free, else the name with " (n)"
/// appended for the smallest n of one or more that is free. Such an n always
/// exists among the first `names.len() + 1` candidates, since distinct
/// candidates cannot all collide with fewer names.
pub fn next_unique_name(name: &String, names: &Vec<String>) -> (r: String)
    requires
        names@.len() < usize::MAX - 1,
    ensures
        !name_taken(names.deep_view(), r@),
        !name_taken(names.deep_view(), name@) ==> r@ == name@,
        name_taken(names.deep_view(), name@) ==> exists|i: nat|
            {
                &&& r@ == #[trigger] suffixed(name@, i)
                &&& 1 <= i
                &&& forall|j: nat| 1 <= j < i ==> name_taken(names.deep_view(), suffixed(name@, j))
            },
{
    if !contains_name(names, name) {
        return name.clone();
    }
    let bound: u64 = (names.len() as u64) + 1;
    let mut i: u64 = 1;
    while i <= bound
        invariant
            1 <= i <= bound + 1,
            bound == names@.len() + 1,
            bound < u64::MAX,
            name_taken(names.deep_view(), name@),
            forall|j: nat| 1 <= j < i ==> name_taken(names.deep_view(), suffixed(name@, j)),
        decreases bound + 1 - i,
    {
        let cand = suffixed_name(name, i);
        if !contains_name(names, &cand) {
            proof {
                assert(cand@ == suffixed(name@, i as nat) && 1 <= i as nat && forall|j: nat|
                    1 <= j < i as nat ==> name_taken(names.deep_view(), suffixed(name@, j)));
            }
            return cand;
        }
        i = i + 1;
    }
    proof {
        let nv = names.deep_view();
        let cands = Seq::new(bound as nat, |k: int| suffixed(name@, (k + 1) as nat));
        assert(cands.no_duplicates()) by {
            assert forall|p: int, q: int|
                0 <= p < cands.len() && 0 <= q < cands.len() && p != q implies cands[p]
                != cands[q] by {
                if cands[p] == cands[q] {
                    lemma_suffixed_injective(name@, (p + 1) as nat, (q + 1) as nat);
                }
            }
        }
        assert forall|k: int| 0 <= k < cands.len() implies nv.to_set().contains(
            #[trigger] cands[k],
        ) by {
            assert(cands[k] == suffixed(name@, (k + 1) as nat));
            assert(1 <= (k + 1) as nat);
            assert(((k + 1) as nat) < (i as nat));
            assert(name_taken(nv, suffixed(name@, (k + 1) as nat)));
            let w = choose|w: int|
                0 <= w < nv.len() && #[trigger] nv[w] == suffixed(name@, (k + 1) as nat);
            assert(nv.to_set().contains(nv[w]));
        }
        assert(cands.to_set().subset_of(nv.to_set()));
        cands.unique_seq_to_set();
        nv.lemma_cardinality_of_set();
        vstd::seq_lib::seq_to_set_is_finite(nv);
        vstd::seq_lib::seq_to_set_is_finite(cands);
        vstd::set_lib::lemma_len_subset(cands.to_set(), nv.to_set());
        assert(cands.len() <= nv.len());
        assert(false);
    }
    vstd::pervasive::unreached()
}

} // verus!
