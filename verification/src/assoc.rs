//! Association lists as finite maps: the mathematical reading of a
//! key-value sequence, and how it changes under update, push and removal.

use vstd::prelude::*;

verus! {

/// The map an association list denotes; a later binding wins.
pub open spec fn assoc_map<K, V>(s: Seq<(K, V)>) -> Map<K, V>
    decreases s.len(),
{
    if s.len() == 0 {
        Map::empty()
    } else {
        assoc_map(s.drop_last()).insert(s.last().0, s.last().1)
    }
}

/// No key occurs twice.
pub open spec fn keys_unique<K, V>(s: Seq<(K, V)>) -> bool {
    forall|i: int, j: int| 0 <= i < j < s.len() ==> (#[trigger] s[i]).0 != (#[trigger] s[j]).0
}

pub proof fn lemma_assoc_contains<K, V>(s: Seq<(K, V)>, k: K)
    ensures
        assoc_map(s).contains_key(k) <==> exists|i: int| 0 <= i < s.len() && (#[trigger] s[i]).0
            == k,
    decreases s.len(),
{
    if s.len() == 0 {
    } else {
        let p = s.drop_last();
        lemma_assoc_contains(p, k);
        if s.last().0 == k {
            assert(s[s.len() - 1].0 == k);
        } else {
            if assoc_map(s).contains_key(k) {
                let i = choose|i: int| 0 <= i < p.len() && (#[trigger] p[i]).0 == k;
                assert(s[i].0 == k);
            }
            if exists|i: int| 0 <= i < s.len() && (#[trigger] s[i]).0 == k {
                let i = choose|i: int| 0 <= i < s.len() && (#[trigger] s[i]).0 == k;
                assert(i < s.len() - 1);
                assert(p[i].0 == k);
            }
        }
    }
}

pub proof fn lemma_assoc_at<K, V>(s: Seq<(K, V)>, j: int)
    requires
        keys_unique(s),
        0 <= j < s.len(),
    ensures
        assoc_map(s).contains_key(s[j].0),
        assoc_map(s)[s[j].0] == s[j].1,
    decreases s.len(),
{
    if j == s.len() - 1 {
    } else {
        let p = s.drop_last();
        assert(p[j] == s[j]);
        lemma_assoc_at(p, j);
        assert(s[j].0 != s[s.len() - 1].0);
    }
}

pub proof fn lemma_assoc_push<K, V>(s: Seq<(K, V)>, p: (K, V))
    ensures
        assoc_map(s.push(p)) == assoc_map(s).insert(p.0, p.1),
{
    assert(s.push(p).drop_last() =~= s);
    assert(s.push(p).last() == p);
}

pub proof fn lemma_assoc_update<K, V>(s: Seq<(K, V)>, j: int, v: V)
    requires
        keys_unique(s),
        0 <= j < s.len(),
    ensures
        assoc_map(s.update(j, (s[j].0, v))) == assoc_map(s).insert(s[j].0, v),
    decreases s.len(),
{
    let k = s[j].0;
    let u = s.update(j, (k, v));
    if j == s.len() - 1 {
        assert(u.drop_last() =~= s.drop_last());
        assert(u.last() == (k, v));
        assert(assoc_map(s.drop_last()).insert(k, v) =~= assoc_map(s.drop_last()).insert(
            s.last().0,
            s.last().1,
        ).insert(k, v));
    } else {
        let p = s.drop_last();
        assert(p[j] == s[j]);
        lemma_assoc_update(p, j, v);
        assert(u.drop_last() =~= p.update(j, (k, v)));
        assert(u.last() == s.last());
        assert(k != s.last().0);
        assert(assoc_map(p).insert(k, v).insert(s.last().0, s.last().1) =~= assoc_map(p).insert(
            s.last().0,
            s.last().1,
        ).insert(k, v));
    }
}

pub proof fn lemma_assoc_remove<K, V>(s: Seq<(K, V)>, j: int)
    requires
        keys_unique(s),
        0 <= j < s.len(),
    ensures
        assoc_map(s.remove(j)) == assoc_map(s).remove(s[j].0),
    decreases s.len(),
{
    let k = s[j].0;
    if j == s.len() - 1 {
        assert(s.remove(j) =~= s.drop_last());
        lemma_assoc_contains(s.drop_last(), k);
        assert(forall|i: int| 0 <= i < s.len() - 1 ==> (#[trigger] s.drop_last()[i]).0 != k);
        assert(!assoc_map(s.drop_last()).contains_key(k));
        assert(assoc_map(s.drop_last()) =~= assoc_map(s.drop_last()).insert(
            s.last().0,
            s.last().1,
        ).remove(k));
    } else {
        let p = s.drop_last();
        assert(p[j] == s[j]);
        lemma_assoc_remove(p, j);
        assert(s.remove(j).drop_last() =~= p.remove(j));
        assert(s.remove(j).last() == s.last());
        assert(k != s.last().0);
        assert(assoc_map(p).remove(k).insert(s.last().0, s.last().1) =~= assoc_map(p).insert(
            s.last().0,
            s.last().1,
        ).remove(k));
    }
}

} // verus!
