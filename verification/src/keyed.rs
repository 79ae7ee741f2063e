//! A list of entries with distinct keys, read as a map.

use vstd::prelude::*;

verus! {

/// No two entries have the same key.
pub open spec fn distinct<K, V>(s: Seq<(K, V)>) -> bool {
    forall|i: int, j: int| 0 <= i < s.len() && 0 <= j < s.len() && s[i].0 == s[j].0 ==> i == j
}

/// Whether an entry with key `k` is in the list.
pub open spec fn holds<K, V>(s: Seq<(K, V)>, k: K) -> bool {
    exists|i: int| 0 <= i < s.len() && (#[trigger] s[i]).0 == k
}

/// The place of the entry with key `k`.
pub open spec fn slot<K, V>(s: Seq<(K, V)>, k: K) -> int {
    choose|i: int| 0 <= i < s.len() && (#[trigger] s[i]).0 == k
}

/// The entries as a map from their keys.
pub open spec fn model<K, V>(s: Seq<(K, V)>) -> Map<K, V> {
    Map::new(|k: K| holds(s, k), |k: K| s[slot(s, k)].1)
}

/// Each entry is in the map.
pub proof fn lemma_at<K, V>(s: Seq<(K, V)>, i: int)
    requires
        distinct(s),
        0 <= i < s.len(),
    ensures
        model(s).contains_key(s[i].0),
        model(s)[s[i].0] == s[i].1,
{
}

/// An entry with a new key is one more pair of the map.
pub proof fn lemma_push<K, V>(s: Seq<(K, V)>, e: (K, V))
    requires
        distinct(s),
        !model(s).contains_key(e.0),
    ensures
        distinct(s.push(e)),
        model(s.push(e)) == model(s).insert(e.0, e.1),
{
    let s2 = s.push(e);
    assert forall|i: int, j: int|
        0 <= i < s2.len() && 0 <= j < s2.len() && s2[i].0 == s2[j].0 implies i == j by {}
    assert forall|k: K| holds(s2, k) <==> (holds(s, k) || k == e.0) by {
        if holds(s, k) {
            let i = slot(s, k);
            assert(s2[i].0 == k);
        }
        if k == e.0 {
            assert(s2[s.len() as int].0 == k);
        }
    }
    assert forall|k: K| holds(s2, k) implies #[trigger] model(s2)[k] == model(s).insert(
        e.0,
        e.1,
    )[k] by {}
}

/// Replacing the value of an entry replaces the value in the map.
pub proof fn lemma_update<K, V>(s: Seq<(K, V)>, i: int, e: (K, V))
    requires
        distinct(s),
        0 <= i < s.len(),
        e.0 == s[i].0,
    ensures
        distinct(s.update(i, e)),
        model(s.update(i, e)) == model(s).insert(e.0, e.1),
{
    let s2 = s.update(i, e);
    assert forall|a: int, b: int|
        0 <= a < s2.len() && 0 <= b < s2.len() && s2[a].0 == s2[b].0 implies a == b by {}
    assert forall|k: K| holds(s2, k) <==> holds(s, k) by {
        if holds(s, k) {
            let a = slot(s, k);
            assert(s2[a].0 == k);
        }
    }
    assert forall|k: K| holds(s2, k) implies #[trigger] model(s2)[k] == model(s).insert(
        e.0,
        e.1,
    )[k] by {}
}

/// Taking an entry out takes its key out of the map.
pub proof fn lemma_remove<K, V>(s: Seq<(K, V)>, i: int)
    requires
        distinct(s),
        0 <= i < s.len(),
    ensures
        distinct(s.remove(i)),
        model(s.remove(i)) == model(s).remove(s[i].0),
{
    let s2 = s.remove(i);
    let gone = s[i].0;
    assert forall|a: int| 0 <= a < s2.len() implies #[trigger] s2[a] == s[if a < i {
        a
    } else {
        a + 1
    }] by {}
    assert forall|a: int, b: int|
        0 <= a < s2.len() && 0 <= b < s2.len() && s2[a].0 == s2[b].0 implies a == b by {}
    assert forall|k: K| holds(s2, k) <==> (holds(s, k) && k != gone) by {
        if holds(s, k) && k != gone {
            let a = slot(s, k);
            let a2 = if a < i {
                a
            } else {
                a - 1
            };
            assert(s2[a2] == s[a]);
        }
    }
    assert forall|k: K| holds(s2, k) implies #[trigger] model(s2)[k] == model(s).remove(gone)[k] by {}
}

/// The map has as many keys as the list has entries.
pub proof fn lemma_len<K, V>(s: Seq<(K, V)>)
    requires
        distinct(s),
    ensures
        model(s).dom().finite(),
        model(s).dom().len() == s.len(),
    decreases s.len(),
{
    if s.len() == 0 {
        assert(model(s).dom() =~= Set::<K>::empty());
    } else {
        let p = s.drop_last();
        let e = s.last();
        assert(s =~= p.push(e));
        assert(distinct(p)) by {
            assert forall|i: int, j: int|
                0 <= i < p.len() && 0 <= j < p.len() && p[i].0 == p[j].0 implies i == j by {}
        }
        lemma_len(p);
        lemma_push(p, e);
    }
}

} // verus!
