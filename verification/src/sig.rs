//! Signatures: sorted, deduplicated sequences of component-type ids.
//!
//! A signature names the exact set of component types an archetype holds.
//! Keeping every signature strictly sorted makes it a canonical key: two
//! signatures describe the same set of types exactly when they are equal as
//! sequences ([`lemma_sorted_equal`]).

use vstd::prelude::*;

verus! {

/// A sequence is strictly ascending: no duplicates, canonical order.
pub open spec fn sorted(s: Seq<usize>) -> bool {
    forall|i: int, j: int| 0 <= i < j < s.len() ==> s[i] < s[j]
}

/// `ext` holds exactly the values of `base` plus `t`.
pub open spec fn sig_plus(base: Seq<usize>, ext: Seq<usize>, t: usize) -> bool {
    forall|x: usize| ext.contains(x) <==> base.contains(x) || x == t
}

/// `red` holds exactly the values of `base` except `t`.
pub open spec fn sig_minus(base: Seq<usize>, red: Seq<usize>, t: usize) -> bool {
    forall|x: usize| red.contains(x) <==> base.contains(x) && x != t
}

/// The position of `id` within a signature (meaningful when present: a
/// strictly sorted sequence holds each value at most once).
pub closed spec fn sig_index(s: Seq<usize>, id: usize) -> int {
    choose|k: int| 0 <= k < s.len() && s[k] == id
}

/// In a sorted signature, `sig_index` recovers the position of any element.
pub proof fn lemma_sig_index(s: Seq<usize>, k: int)
    requires
        sorted(s),
        0 <= k < s.len(),
    ensures
        sig_index(s, s[k]) == k,
{
    assert(0 <= k < s.len() && s[k] == s[k]);
    let j = choose|j: int| 0 <= j < s.len() && s[j] == s[k];
    lemma_sorted_index_unique(s, j, k);
}

/// `sig_index` of a present value is a valid position holding that value.
pub proof fn lemma_sig_index_of(s: Seq<usize>, id: usize)
    requires
        sorted(s),
        s.contains(id),
    ensures
        0 <= sig_index(s, id) < s.len(),
        s[sig_index(s, id)] == id,
{
    let k = choose|k: int| 0 <= k < s.len() && s[k] == id;
    lemma_sig_index(s, k);
}

/// In a strictly sorted sequence each value occurs at most once.
pub proof fn lemma_sorted_index_unique(s: Seq<usize>, i: int, j: int)
    requires
        sorted(s),
        0 <= i < s.len(),
        0 <= j < s.len(),
        s[i] == s[j],
    ensures
        i == j,
{
}

/// Two strictly sorted sequences holding the same values are equal.
pub proof fn lemma_sorted_equal(s1: Seq<usize>, s2: Seq<usize>)
    requires
        sorted(s1),
        sorted(s2),
        forall|x: usize| s1.contains(x) <==> s2.contains(x),
    ensures
        s1 == s2,
    decreases s1.len(),
{
    if s1.len() == 0 {
        if s2.len() > 0 {
            assert(s2.contains(s2[0]));
            assert(s1.contains(s2[0]));
            assert(false);
        }
        assert(s1 =~= s2);
    } else {
        assert(s1.contains(s1.last()));
        assert(s2.contains(s1.last()));
        if s2.len() == 0 {
            assert(false);
        }
        assert(s2.contains(s2.last()));
        assert(s1.contains(s2.last()));
        // Each last element is the maximum of its sequence, and both
        // sequences hold the same values, so the last elements are equal.
        let i2 = choose|i: int| 0 <= i < s2.len() && s2[i] == s1.last();
        assert(s2[i2] <= s2.last());
        let i1 = choose|i: int| 0 <= i < s1.len() && s1[i] == s2.last();
        assert(s1[i1] <= s1.last());
        assert(s1.last() == s2.last());
        // The prefixes hold the same values: everything but the shared maximum.
        assert forall|x: usize| s1.drop_last().contains(x) implies s2.drop_last().contains(x) by {
            let i = choose|i: int| 0 <= i < s1.drop_last().len() && s1.drop_last()[i] == x;
            assert(s1[i] == x);
            assert(x < s1.last());
            assert(s2.contains(x));
            let j = choose|j: int| 0 <= j < s2.len() && s2[j] == x;
            assert(j < s2.len() - 1);
            assert(s2.drop_last()[j] == x);
        }
        assert forall|x: usize| s2.drop_last().contains(x) implies s1.drop_last().contains(x) by {
            let i = choose|i: int| 0 <= i < s2.drop_last().len() && s2.drop_last()[i] == x;
            assert(s2[i] == x);
            assert(x < s2.last());
            assert(s1.contains(x));
            let j = choose|j: int| 0 <= j < s1.len() && s1[j] == x;
            assert(j < s1.len() - 1);
            assert(s1.drop_last()[j] == x);
        }
        lemma_sorted_equal(s1.drop_last(), s2.drop_last());
        assert(s1.len() == s2.len());
        assert forall|i: int| 0 <= i < s1.len() implies s1[i] == s2[i] by {
            if i < s1.len() - 1 {
                assert(s1.drop_last()[i] == s2.drop_last()[i]);
            }
        }
        assert(s1 =~= s2);
    }
}

/// Inserting a value at its sorted position keeps the sequence sorted and
/// adds exactly that value to the membership.
pub proof fn lemma_sorted_insert(s: Seq<usize>, p: int, t: usize)
    requires
        sorted(s),
        0 <= p <= s.len(),
        forall|i: int| 0 <= i < p ==> s[i] < t,
        forall|i: int| p <= i < s.len() ==> s[i] > t,
    ensures
        sorted(s.insert(p, t)),
        s.insert(p, t)[p] == t,
        forall|x: usize| s.insert(p, t).contains(x) <==> s.contains(x) || x == t,
        !s.contains(t),
{
    let r = s.insert(p, t);
    assert forall|i: int, j: int| 0 <= i < j < r.len() implies r[i] < r[j] by {
        if i < p && j < p {
            assert(r[i] == s[i] && r[j] == s[j]);
        } else if i < p && j == p {
            assert(r[i] == s[i] && r[j] == t);
        } else if i < p && j > p {
            assert(r[i] == s[i] && r[j] == s[j - 1]);
        } else if i == p && j > p {
            assert(r[i] == t && r[j] == s[j - 1]);
        } else {
            assert(r[i] == s[i - 1] && r[j] == s[j - 1]);
        }
    }
    assert forall|x: usize| r.contains(x) implies s.contains(x) || x == t by {
        let i = choose|i: int| 0 <= i < r.len() && r[i] == x;
        if i < p {
            assert(s[i] == x);
        } else if i > p {
            assert(s[i - 1] == x);
        }
    }
    assert forall|x: usize| s.contains(x) implies r.contains(x) by {
        let i = choose|i: int| 0 <= i < s.len() && s[i] == x;
        if i < p {
            assert(r[i] == x);
        } else {
            assert(r[i + 1] == x);
        }
    }
    assert(r[p] == t);
    assert(r.contains(t));
    if s.contains(t) {
        let i = choose|i: int| 0 <= i < s.len() && s[i] == t;
        assert(false);
    }
}

/// Removing one position keeps the sequence sorted and removes exactly that
/// value from the membership.
pub proof fn lemma_sorted_remove(s: Seq<usize>, p: int)
    requires
        sorted(s),
        0 <= p < s.len(),
    ensures
        sorted(s.remove(p)),
        forall|x: usize| s.remove(p).contains(x) <==> s.contains(x) && x != s[p],
    decreases s.len(),
{
    let r = s.remove(p);
    assert forall|i: int, j: int| 0 <= i < j < r.len() implies r[i] < r[j] by {
        let si = if i < p { i } else { i + 1 };
        let sj = if j < p { j } else { j + 1 };
        assert(r[i] == s[si] && r[j] == s[sj]);
    }
    assert forall|x: usize| r.contains(x) implies s.contains(x) && x != s[p] by {
        let i = choose|i: int| 0 <= i < r.len() && r[i] == x;
        let si = if i < p { i } else { i + 1 };
        assert(s[si] == x);
        assert(si != p);
        lemma_sorted_index_unique(s, si, si);
        if x == s[p] {
            lemma_sorted_index_unique(s, si, p);
        }
    }
    assert forall|x: usize| s.contains(x) && x != s[p] implies r.contains(x) by {
        let i = choose|i: int| 0 <= i < s.len() && s[i] == x;
        assert(i != p);
        if i < p {
            assert(r[i] == x);
        } else {
            assert(r[i - 1] == x);
        }
    }
}

/// Appending a value above everything present keeps the sequence sorted and
/// adds exactly that value to the membership.
pub proof fn lemma_sorted_push(s: Seq<usize>, t: usize)
    requires
        sorted(s),
        forall|x: usize| s.contains(x) ==> x < t,
    ensures
        sorted(s.push(t)),
        sig_plus(s, s.push(t), t),
        !s.contains(t),
{
    let r = s.push(t);
    assert forall|i: int, j: int| 0 <= i < j < r.len() implies r[i] < r[j] by {
        if j == r.len() - 1 {
            assert(s.contains(s[i]));
            assert(r[i] == s[i] && r[j] == t);
        } else {
            assert(r[i] == s[i] && r[j] == s[j]);
        }
    }
    assert forall|x: usize| r.contains(x) implies s.contains(x) || x == t by {
        let i = choose|i: int| 0 <= i < r.len() && r[i] == x;
        if i < r.len() - 1 {
            assert(s[i] == x);
        }
    }
    assert forall|x: usize| s.contains(x) || x == t implies r.contains(x) by {
        if s.contains(x) {
            let i = choose|i: int| 0 <= i < s.len() && s[i] == x;
            assert(r[i] == x);
        } else {
            assert(r[r.len() - 1] == x);
        }
    }
    if s.contains(t) {
        assert(t < t);
    }
}

/// The number of positions, scanning left to right, whose value is below `t`:
/// the sorted insertion point for `t`.
pub fn sig_position(sig: &Vec<usize>, t: usize) -> (p: usize)
    requires
        sorted(sig@),
    ensures
        p <= sig@.len(),
        forall|i: int| 0 <= i < p ==> sig@[i] < t,
        forall|i: int| p <= i < sig@.len() ==> sig@[i] >= t,
{
    let mut p: usize = 0;
    while p < sig.len() && sig[p] < t
        invariant
            p <= sig@.len(),
            sorted(sig@),
            forall|i: int| 0 <= i < p ==> sig@[i] < t,
        decreases sig@.len() - p,
    {
        p = p + 1;
    }
    p
}

/// Where `t` sits in the signature, if it is present.
pub fn sig_find(sig: &Vec<usize>, t: usize) -> (r: Option<usize>)
    requires
        sorted(sig@),
    ensures
        match r {
            Some(k) => k < sig@.len() && sig@[k as int] == t,
            None => !sig@.contains(t),
        },
{
    let p = sig_position(sig, t);
    if p < sig.len() && sig[p] == t {
        Some(p)
    } else {
        proof {
            if sig@.contains(t) {
                let i = choose|i: int| 0 <= i < sig@.len() && sig@[i] == t;
                assert(i >= p);
                assert(sig@[i] >= t);
                if i > p {
                    assert(sig@[p as int] < sig@[i]);
                }
                assert(false);
            }
        }
        None
    }
}

/// Whether the signature holds the id `t`.
pub fn sig_contains(sig: &Vec<usize>, t: usize) -> (r: bool)
    requires
        sorted(sig@),
    ensures
        r == sig@.contains(t),
{
    match sig_find(sig, t) {
        Some(_) => true,
        None => false,
    }
}

/// Whether every id in `required` occurs in the signature. Duplicates and
/// order in `required` do not matter.
pub fn sig_superset(sig: &Vec<usize>, required: &Vec<usize>) -> (r: bool)
    requires
        sorted(sig@),
    ensures
        r == forall|x: usize| required@.contains(x) ==> sig@.contains(x),
{
    let mut k: usize = 0;
    while k < required.len()
        invariant
            k <= required@.len(),
            sorted(sig@),
            forall|i: int| 0 <= i < k ==> sig@.contains(required@[i]),
        decreases required@.len() - k,
    {
        if !sig_contains(sig, required[k]) {
            proof {
                assert(required@.contains(required@[k as int]));
            }
            return false;
        }
        k = k + 1;
    }
    proof {
        assert forall|x: usize| required@.contains(x) implies sig@.contains(x) by {
            let i = choose|i: int| 0 <= i < required@.len() && required@[i] == x;
        }
    }
    true
}

} // verus!
