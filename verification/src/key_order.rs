//! Listing the entries of a `BTreeMap` with `u64` keys in increasing key
//! order, which is the order in which the map hands them out.
use std::collections::BTreeMap;
use vstd::prelude::*;
use vstd::std_specs::cmp::OrdSpec;
use vstd::std_specs::iter::IteratorSpec;

verus! {

broadcast use vstd::std_specs::btree::group_btree_axioms;

/// `s` lists the entries of `m`, each once, in strictly increasing key order.
pub open spec fn lists_in_key_order<V>(m: Map<u64, V>, s: Seq<(u64, V)>) -> bool {
    &&& forall|i: int, j: int| 0 <= i < j < s.len() ==> #[trigger] s[i].0 < #[trigger] s[j].0
    &&& forall|i: int|
        0 <= i < s.len() ==> m.contains_key(#[trigger] s[i].0) && m[s[i].0] == s[i].1
    &&& forall|k: u64| #[trigger]
        m.contains_key(k) ==> exists|i: int| 0 <= i < s.len() && #[trigger] s[i].0 == k
}

/// The entries of a map listed in increasing key order (there is exactly one
/// such listing of a finite map).
pub open spec fn key_order<V>(m: Map<u64, V>) -> Seq<(u64, V)> {
    choose|s: Seq<(u64, V)>| lists_in_key_order(m, s)
}

/// Two listings of the same map in increasing key order are the same.
pub proof fn lemma_key_order_unique<V>(m: Map<u64, V>, s1: Seq<(u64, V)>, s2: Seq<(u64, V)>)
    requires
        lists_in_key_order(m, s1),
        lists_in_key_order(m, s2),
    ensures
        s1 == s2,
    decreases s1.len(),
{
    if s1.len() == 0 {
        if s2.len() > 0 {
            assert(m.contains_key(s2[0].0));
        }
        assert(s1 =~= s2);
    } else {
        assert(m.contains_key(s1[0].0));
        assert(s2.len() > 0);
        let k1 = s1[0].0;
        let k2 = s2[0].0;
        assert(m.contains_key(k2));
        let j = choose|j: int| 0 <= j < s2.len() && #[trigger] s2[j].0 == k1;
        let i = choose|i: int| 0 <= i < s1.len() && #[trigger] s1[i].0 == k2;
        if i > 0 {
            assert(s1[0].0 < s1[i].0);
        }
        if j > 0 {
            assert(s2[0].0 < s2[j].0);
        }
        assert(k1 == k2);
        let m2 = m.remove(k1);
        let t1 = s1.drop_first();
        let t2 = s2.drop_first();
        assert forall|k: u64| #[trigger] m2.contains_key(k) implies exists|i: int|
            0 <= i < t1.len() && #[trigger] t1[i].0 == k by {
            let a = choose|a: int| 0 <= a < s1.len() && #[trigger] s1[a].0 == k;
            assert(a != 0);
            assert(t1[a - 1].0 == k);
        }
        assert forall|k: u64| #[trigger] m2.contains_key(k) implies exists|i: int|
            0 <= i < t2.len() && #[trigger] t2[i].0 == k by {
            let a = choose|a: int| 0 <= a < s2.len() && #[trigger] s2[a].0 == k;
            assert(a != 0);
            assert(t2[a - 1].0 == k);
        }
        assert forall|a: int| 0 <= a < t1.len() implies m2.contains_key(#[trigger] t1[a].0)
            && m2[t1[a].0] == t1[a].1 by {
            assert(s1[0].0 < s1[a + 1].0);
        }
        assert forall|a: int| 0 <= a < t2.len() implies m2.contains_key(#[trigger] t2[a].0)
            && m2[t2[a].0] == t2[a].1 by {
            assert(s2[0].0 < s2[a + 1].0);
        }
        assert forall|a: int, b: int| 0 <= a < b < t1.len() implies #[trigger] t1[a].0
            < #[trigger] t1[b].0 by {
            assert(s1[a + 1].0 < s1[b + 1].0);
        }
        assert forall|a: int, b: int| 0 <= a < b < t2.len() implies #[trigger] t2[a].0
            < #[trigger] t2[b].0 by {
            assert(s2[a + 1].0 < s2[b + 1].0);
        }
        lemma_key_order_unique(m2, t1, t2);
        assert(s1 =~= s2) by {
            assert(s1 == seq![s1[0]] + t1);
            assert(s2 == seq![s2[0]] + t2);
        }
    }
}

/// The entries of `m` whose keys are below `n`, in increasing key order.
spec fn listing_below<V>(m: Map<u64, V>, n: nat) -> Seq<(u64, V)>
    decreases n,
{
    if n == 0 {
        Seq::empty()
    } else {
        let k = (n - 1) as u64;
        let rest = listing_below(m, (n - 1) as nat);
        if m.contains_key(k) {
            rest.push((k, m[k]))
        } else {
            rest
        }
    }
}

/// `listing_below(m, n)` lists, in increasing order, exactly the entries of
/// `m` with keys below `n`.
proof fn lemma_listing_below<V>(m: Map<u64, V>, n: nat)
    requires
        n <= 0x1_0000_0000_0000_0000,
    ensures
        forall|i: int|
            0 <= i < listing_below(m, n).len() ==> (#[trigger] listing_below(m, n)[i]).0 < n,
        forall|i: int, j: int|
            0 <= i < j < listing_below(m, n).len() ==> #[trigger] listing_below(m, n)[i].0
                < #[trigger] listing_below(m, n)[j].0,
        forall|i: int|
            0 <= i < listing_below(m, n).len() ==> m.contains_key(
                #[trigger] listing_below(m, n)[i].0,
            ) && m[listing_below(m, n)[i].0] == listing_below(m, n)[i].1,
        forall|k: u64| #[trigger]
            m.contains_key(k) && k < n ==> exists|i: int|
                0 <= i < listing_below(m, n).len() && #[trigger] listing_below(m, n)[i].0 == k,
    decreases n,
{
    if n > 0 {
        let k = (n - 1) as u64;
        let rest = listing_below(m, (n - 1) as nat);
        lemma_listing_below(m, (n - 1) as nat);
        assert(k == n - 1);
        let s = listing_below(m, n);
        if m.contains_key(k) {
            assert(s == rest.push((k, m[k])));
            assert forall|j: u64| #[trigger] m.contains_key(j) && j < n implies exists|i: int|
                0 <= i < s.len() && #[trigger] s[i].0 == j by {
                if j == k {
                    assert(s[rest.len() as int].0 == j);
                } else {
                    let i = choose|i: int| 0 <= i < rest.len() && #[trigger] rest[i].0 == j;
                    assert(s[i].0 == j);
                }
            }
        } else {
            assert(s == rest);
        }
    }
}

/// Every map with `u64` keys has its listing in increasing key order.
pub proof fn lemma_key_order_listed<V>(m: Map<u64, V>)
    ensures
        lists_in_key_order(m, key_order(m)),
{
    let n: nat = 0x1_0000_0000_0000_0000;
    lemma_listing_below(m, n);
    let s = listing_below(m, n);
    assert forall|k: u64| #[trigger] m.contains_key(k) implies exists|i: int|
        0 <= i < s.len() && #[trigger] s[i].0 == k by {
        assert(m.contains_key(k) && k < n);
    }
    assert(lists_in_key_order(m, s));
}

/// A listing has as many entries as the map.
pub proof fn lemma_listing_len<V>(m: Map<u64, V>, s: Seq<(u64, V)>)
    requires
        m.dom().finite(),
        lists_in_key_order(m, s),
    ensures
        s.len() == m.len(),
{
    let ks = s.map_values(|e: (u64, V)| e.0);
    assert forall|i: int, j: int| 0 <= i < ks.len() && 0 <= j < ks.len() && i != j implies ks[i]
        != ks[j] by {
        if i < j {
            assert(s[i].0 < s[j].0);
        } else {
            assert(s[j].0 < s[i].0);
        }
    }
    assert(ks.no_duplicates());
    ks.unique_seq_to_set();
    assert forall|k: u64| #[trigger] m.dom().contains(k) <==> ks.to_set().contains(k) by {
        if m.dom().contains(k) {
            let i = choose|i: int| 0 <= i < s.len() && #[trigger] s[i].0 == k;
            assert(ks[i] == k);
        }
        if ks.to_set().contains(k) {
            let i = choose|i: int| 0 <= i < ks.len() && ks[i] == k;
            assert(m.contains_key(s[i].0));
        }
    }
    assert(m.dom() =~= ks.to_set());
}

/// The entries of the map in increasing key order.
pub fn entries_in_key_order<V: Copy>(m: &BTreeMap<u64, V>) -> (r: Vec<(u64, V)>)
    ensures
        lists_in_key_order(m@, r@),
        r@ == key_order(m@),
{
    let mut r: Vec<(u64, V)> = Vec::new();
    let iter0 = m.iter();
    let ghost ks = iter0.remaining().map_values(|kv: (&u64, &V)| *kv.0);
    proof {
        assert(vstd::laws_cmp::obeys_cmp::<u64>());
        assert(vstd::std_specs::btree::increasing_seq(ks));
        vstd::std_specs::btree::axiom_increasing_seq_meaning(ks);
        assert forall|i: int, j: int| 0 <= i < j < ks.len() implies ks[i] < ks[j] by {
            assert(ks[i].cmp_spec(&ks[j]) is Less);
        }
    }
    for kv in it: iter0
        invariant
            r.len() == it.index(),
            it.seq() == iter0.remaining(),
            forall|i: int|
                0 <= i < r.len() ==> r[i].0 == *it.seq()[i].0 && r[i].1 == *it.seq()[i].1,
            ks == iter0.remaining().map_values(|kv: (&u64, &V)| *kv.0),
            forall|i: int, j: int| 0 <= i < j < ks.len() ==> ks[i] < ks[j],
    {
        let (k, v) = kv;
        r.push((*k, *v));
    }
    proof {
        let v = iter0.remaining();
        assert forall|i: int, j: int| 0 <= i < j < r.len() implies #[trigger] r@[i].0
            < #[trigger] r@[j].0 by {
            assert(ks[i] < ks[j]);
        }
        assert forall|i: int| 0 <= i < r.len() implies m@.contains_key(#[trigger] r@[i].0)
            && m@[r@[i].0] == r@[i].1 by {
            assert(m@.contains_key(*v[i].0));
        }
        assert forall|k: u64| #[trigger] m@.contains_key(k) implies exists|i: int|
            0 <= i < r.len() && #[trigger] r@[i].0 == k by {
            assert(v.contains((&k, &m@[k])));
            let i = choose|i: int| 0 <= i < v.len() && v[i] == (&k, &m@[k]);
            assert(r@[i].0 == k);
        }
        assert(lists_in_key_order(m@, r@));
        lemma_key_order_unique(m@, r@, key_order(m@));
    }
    r
}

} // verus!
