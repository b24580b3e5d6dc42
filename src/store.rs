//! Maps filled from a sequence of keyed entries, a later entry replacing an
//! earlier one with the same key.
use vstd::prelude::*;

verus! {

/// The map `m` after inserting the entries of `s` in order.
pub open spec fn store_of<V>(m: Map<u64, V>, s: Seq<(u64, V)>) -> Map<u64, V>
    decreases s.len(),
{
    if s.len() == 0 {
        m
    } else {
        store_of(m, s.drop_last()).insert(s.last().0, s.last().1)
    }
}

/// No two entries share a key.
pub open spec fn distinct_keys<V>(s: Seq<(u64, V)>) -> bool {
    forall|i: int, j: int| 0 <= i < s.len() && 0 <= j < s.len() && i != j ==> s[i].0 != s[j].0
}

pub proof fn lemma_store_concat<V>(m: Map<u64, V>, a: Seq<(u64, V)>, b: Seq<(u64, V)>)
    ensures
        store_of(m, a + b) == store_of(store_of(m, a), b),
    decreases b.len(),
{
    if b.len() == 0 {
        assert(a + b =~= a);
    } else {
        lemma_store_concat(m, a, b.drop_last());
        assert((a + b).drop_last() =~= a + b.drop_last());
        assert((a + b).last() == b.last());
    }
}

/// A key is stored when it was there or an entry has it; its value is the
/// old one when no entry has it, and otherwise that of an entry with it.
pub proof fn lemma_store_entries<V>(m: Map<u64, V>, s: Seq<(u64, V)>)
    ensures
        forall|id: u64|
            #[trigger] store_of(m, s).contains_key(id) <==> m.contains_key(id) || exists|k: int|
                0 <= k < s.len() && s[k].0 == id,
        forall|id: u64|
            #[trigger] store_of(m, s).contains_key(id) ==> (m.contains_key(id) && store_of(m, s)[id]
                == m[id] && forall|k: int| 0 <= k < s.len() ==> s[k].0 != id) || exists|k: int|
                0 <= k < s.len() && s[k] == (id, store_of(m, s)[id]),
    decreases s.len(),
{
    if s.len() > 0 {
        let s0 = s.drop_last();
        lemma_store_entries(m, s0);
        let last = s.last();
        assert(s0.len() == s.len() - 1);
        assert(store_of(m, s) == store_of(m, s0).insert(last.0, last.1));
        assert forall|id: u64|
            #[trigger] store_of(m, s).contains_key(id) <==> m.contains_key(id) || exists|k: int|
                0 <= k < s.len() && s[k].0 == id by {
            if id == last.0 {
                assert(s[s.len() - 1].0 == id);
            }
            if exists|k: int| 0 <= k < s0.len() && s0[k].0 == id {
                let k = choose|k: int| 0 <= k < s0.len() && s0[k].0 == id;
                assert(s[k] == s0[k]);
            }
            if exists|k: int| 0 <= k < s.len() && s[k].0 == id {
                let k = choose|k: int| 0 <= k < s.len() && s[k].0 == id;
                if k < s0.len() {
                    assert(s0[k] == s[k]);
                }
            }
        }
        assert forall|id: u64| #[trigger] store_of(m, s).contains_key(id) implies (m.contains_key(id)
            && store_of(m, s)[id] == m[id] && forall|k: int| 0 <= k < s.len() ==> s[k].0 != id)
            || exists|k: int| 0 <= k < s.len() && s[k] == (id, store_of(m, s)[id]) by {
            if id == last.0 {
                assert(s[s.len() - 1] == (id, store_of(m, s)[id]));
            } else {
                assert(store_of(m, s)[id] == store_of(m, s0)[id]);
                if exists|k: int| 0 <= k < s0.len() && s0[k] == (id, store_of(m, s0)[id]) {
                    let k = choose|k: int| 0 <= k < s0.len() && s0[k] == (id, store_of(m, s0)[id]);
                    assert(s[k] == s0[k]);
                } else {
                    assert forall|k: int| 0 <= k < s.len() implies s[k].0 != id by {
                        if k < s0.len() {
                            assert(s[k] == s0[k]);
                        }
                    }
                }
            }
        }
    }
}

/// Entries with distinct keys fill the same map in any order.
pub proof fn store_order_free<V>(s1: Seq<(u64, V)>, s2: Seq<(u64, V)>)
    requires
        s1.to_multiset() == s2.to_multiset(),
        distinct_keys(s1),
    ensures
        store_of(Map::empty(), s1) == store_of(Map::empty(), s2),
{
    broadcast use vstd::seq_lib::group_to_multiset_ensures;

    let e = Map::<u64, V>::empty();
    lemma_store_entries(e, s1);
    lemma_store_entries(e, s2);
    let m1 = store_of(e, s1);
    let m2 = store_of(e, s2);
    assert forall|id: u64| m1.contains_key(id) <==> m2.contains_key(id) by {
        if m1.contains_key(id) {
            let k = choose|k: int| 0 <= k < s1.len() && s1[k].0 == id;
            assert(s1.contains(s1[k]));
            assert(s1.to_multiset().count(s1[k]) > 0);
            assert(s2.contains(s1[k]));
            let j = choose|j: int| 0 <= j < s2.len() && s2[j] == s1[k];
            assert(s2[j].0 == id);
        }
        if m2.contains_key(id) {
            let k = choose|k: int| 0 <= k < s2.len() && s2[k].0 == id;
            assert(s2.contains(s2[k]));
            assert(s2.to_multiset().count(s2[k]) > 0);
            assert(s1.contains(s2[k]));
            let j = choose|j: int| 0 <= j < s1.len() && s1[j] == s2[k];
            assert(s1[j].0 == id);
        }
    }
    assert forall|id: u64| m1.contains_key(id) implies m1[id] == m2[id] by {
        let k1 = choose|k: int| 0 <= k < s1.len() && s1[k] == (id, m1[id]);
        let k2 = choose|k: int| 0 <= k < s2.len() && s2[k] == (id, m2[id]);
        assert(s2.contains(s2[k2]));
        assert(s2.to_multiset().count(s2[k2]) > 0);
        assert(s1.contains(s2[k2]));
        let j = choose|j: int| 0 <= j < s1.len() && s1[j] == s2[k2];
        assert(j == k1);
    }
    assert(m1 =~= m2);
}

} // verus!
