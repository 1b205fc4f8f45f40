//! Facts about sequences seen as multisets.
use vstd::prelude::*;
use vstd::multiset::*;
use vstd::seq_lib::*;

verus! {

/// Keeping the items that satisfy `p` commutes with forgetting the order.
pub proof fn lemma_filter_multiset<A>(s: Seq<A>, p: spec_fn(A) -> bool)
    ensures
        s.filter(p).to_multiset() =~= s.to_multiset().filter(p),
    decreases s.len(),
{
    broadcast use group_multiset_axioms;
    broadcast use group_to_multiset_ensures;

    if s.len() == 0 {
        reveal(Seq::filter);
        assert(s.filter(p) =~= s);
        assert(s.to_multiset().len() == 0);
        assert forall|v: A| s.to_multiset().filter(p).count(v) == 0 by {
            assert(!s.contains(v));
        }
        assert forall|v: A| s.filter(p).to_multiset().count(v) == 0 by {
            assert(!s.filter(p).contains(v));
        }
    } else {
        let t = s.drop_last();
        let a = s.last();
        lemma_filter_multiset(t, p);
        assert(s =~= t.push(a));
        t.lemma_filter_push(a, p);
        to_multiset_build(t, a);
        if p(a) {
            to_multiset_build(t.filter(p), a);
        }
        assert forall|v: A|
            s.filter(p).to_multiset().count(v) == s.to_multiset().filter(p).count(v) by {
            assert(t.filter(p).to_multiset().count(v) == t.to_multiset().filter(p).count(v));
        }
    }
}

/// Two sequences with the same items still have the same items after every
/// item has been mapped through `f`.
pub proof fn lemma_map_multiset<A, B>(s: Seq<A>, t: Seq<A>, f: spec_fn(A) -> B)
    requires
        s.to_multiset() == t.to_multiset(),
    ensures
        s.map_values(f).to_multiset() == t.map_values(f).to_multiset(),
    decreases s.len(),
{
    broadcast use group_multiset_axioms;
    broadcast use group_to_multiset_ensures;

    if s.len() == 0 {
        assert(t.to_multiset().len() == 0);
        assert(t.len() == 0);
        assert(s.map_values(f) =~= t.map_values(f));
    } else {
        let a = s.last();
        assert(s[s.len() - 1] == a);
        assert(s.contains(a));
        assert(t.to_multiset().count(a) > 0);
        assert(t.contains(a));
        let k = choose|k: int| 0 <= k < t.len() && t[k] == a;
        let s1 = s.drop_last();
        let t1 = t.remove(k);
        assert(s1 =~= s.remove(s.len() - 1));
        to_multiset_remove(s, s.len() - 1);
        to_multiset_remove(t, k);
        lemma_map_multiset(s1, t1, f);
        assert(s.map_values(f) =~= s1.map_values(f).push(f(a)));
        assert(t.map_values(f) =~= t1.map_values(f).insert(k, f(a)));
        to_multiset_insert(t1.map_values(f), k, f(a));
        to_multiset_build(s1.map_values(f), f(a));
    }
}

/// Every item of a sequence occurs in any sequence with the same items.
pub proof fn lemma_same_items_index<A>(s: Seq<A>, t: Seq<A>, i: int) -> (j: int)
    requires
        s.to_multiset() == t.to_multiset(),
        0 <= i < s.len(),
    ensures
        0 <= j < t.len(),
        t[j] == s[i],
{
    broadcast use group_to_multiset_ensures;

    assert(s.contains(s[i]));
    assert(t.to_multiset().count(s[i]) > 0);
    assert(t.contains(s[i]));
    choose|j: int| 0 <= j < t.len() && t[j] == s[i]
}

} // verus!
