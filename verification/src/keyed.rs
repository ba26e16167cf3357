//! Lists of entries keyed by player id, read as maps: with distinct keys,
//! pushing, replacing and removing an entry is inserting into and removing
//! from the map.

use vstd::prelude::*;
use crate::roster::PlayerId;

verus! {

/// The map a list of keyed entries stands for; with distinct keys, each
/// key maps to its one entry.
pub open spec fn keyed<V>(s: Seq<(PlayerId, V)>) -> Map<PlayerId, V> {
    Map::new(
        |id: PlayerId| exists|i: int| 0 <= i < s.len() && (#[trigger] s[i]).0 == id,
        |id: PlayerId| s[choose|i: int| 0 <= i < s.len() && (#[trigger] s[i]).0 == id].1,
    )
}

/// No key occurs twice.
pub open spec fn distinct_keys<V>(s: Seq<(PlayerId, V)>) -> bool {
    forall|i: int, j: int| 0 <= i < j < s.len() ==> (#[trigger] s[i]).0 != (#[trigger] s[j]).0
}

/// The entry at `i` is the one `keyed` maps its key to.
pub(crate) proof fn lemma_keyed_at<V>(s: Seq<(PlayerId, V)>, i: int)
    requires
        distinct_keys(s),
        0 <= i < s.len(),
    ensures
        keyed(s).dom().contains(s[i].0),
        keyed(s)[s[i].0] == s[i].1,
{
    let id = s[i].0;
    assert(exists|k: int| 0 <= k < s.len() && (#[trigger] s[k]).0 == id);
    let k = choose|k: int| 0 <= k < s.len() && (#[trigger] s[k]).0 == id;
    if k != i {
        if k < i {
            assert(s[k].0 != s[i].0);
        } else {
            assert(s[i].0 != s[k].0);
        }
    }
}

/// Appending an entry under a new key inserts it.
pub(crate) proof fn lemma_keyed_push<V>(s: Seq<(PlayerId, V)>, id: PlayerId, v: V)
    requires
        distinct_keys(s),
        !keyed(s).dom().contains(id),
    ensures
        distinct_keys(s.push((id, v))),
        keyed(s.push((id, v))) == keyed(s).insert(id, v),
{
    let t = s.push((id, v));
    assert forall|i: int, j: int| 0 <= i < j < t.len() implies (#[trigger] t[i]).0 != (#[trigger] t[j]).0 by {
        if j == s.len() {
            if t[i].0 == id {
                assert(s[i].0 == id);
            }
        } else {
            assert(s[i].0 != s[j].0);
        }
    }
    assert forall|k: PlayerId| #[trigger] keyed(t).dom().contains(k) == keyed(s).insert(id, v).dom().contains(k) by {
        if keyed(s).dom().contains(k) {
            let i = choose|i: int| 0 <= i < s.len() && (#[trigger] s[i]).0 == k;
            assert(t[i].0 == k);
        }
        if keyed(t).dom().contains(k) && k != id {
            let i = choose|i: int| 0 <= i < t.len() && (#[trigger] t[i]).0 == k;
            assert(s[i].0 == k);
        }
        if k == id {
            assert(t[s.len() as int].0 == id);
        }
    }
    assert forall|k: PlayerId| #[trigger] keyed(t).dom().contains(k) implies keyed(t)[k] == keyed(s).insert(
        id,
        v,
    )[k] by {
        if k == id {
            lemma_keyed_at(t, s.len() as int);
        } else {
            let i = choose|i: int| 0 <= i < t.len() && (#[trigger] t[i]).0 == k;
            lemma_keyed_at(t, i);
            lemma_keyed_at(s, i);
        }
    }
    assert(keyed(t) =~= keyed(s).insert(id, v));
}

/// Replacing the value at `i`, key kept, inserts it under that key.
pub(crate) proof fn lemma_keyed_update<V>(s: Seq<(PlayerId, V)>, i: int, v: V)
    requires
        distinct_keys(s),
        0 <= i < s.len(),
    ensures
        distinct_keys(s.update(i, (s[i].0, v))),
        keyed(s.update(i, (s[i].0, v))) == keyed(s).insert(s[i].0, v),
{
    let id = s[i].0;
    let t = s.update(i, (id, v));
    assert forall|a: int, b: int| 0 <= a < b < t.len() implies (#[trigger] t[a]).0 != (#[trigger] t[b]).0 by {
        assert(s[a].0 != s[b].0);
    }
    assert forall|k: PlayerId| #[trigger] keyed(t).dom().contains(k) == keyed(s).insert(id, v).dom().contains(k) by {
        if keyed(s).dom().contains(k) {
            let j = choose|j: int| 0 <= j < s.len() && (#[trigger] s[j]).0 == k;
            assert(t[j].0 == k);
        }
        if keyed(t).dom().contains(k) {
            let j = choose|j: int| 0 <= j < t.len() && (#[trigger] t[j]).0 == k;
            assert(s[j].0 == k);
        }
        lemma_keyed_at(s, i);
    }
    assert forall|k: PlayerId| #[trigger] keyed(t).dom().contains(k) implies keyed(t)[k] == keyed(s).insert(
        id,
        v,
    )[k] by {
        let j = choose|j: int| 0 <= j < t.len() && (#[trigger] t[j]).0 == k;
        lemma_keyed_at(t, j);
        if j != i {
            lemma_keyed_at(s, j);
        }
    }
    assert(keyed(t) =~= keyed(s).insert(id, v));
}

/// Removing the entry at `i` removes its key.
pub(crate) proof fn lemma_keyed_remove<V>(s: Seq<(PlayerId, V)>, i: int)
    requires
        distinct_keys(s),
        0 <= i < s.len(),
    ensures
        distinct_keys(s.remove(i)),
        keyed(s.remove(i)) == keyed(s).remove(s[i].0),
{
    let id = s[i].0;
    let t = s.remove(i);
    assert forall|a: int, b: int| 0 <= a < b < t.len() implies (#[trigger] t[a]).0 != (#[trigger] t[b]).0 by {
        let a0 = if a < i { a } else { a + 1 };
        let b0 = if b < i { b } else { b + 1 };
        assert(s[a0].0 != s[b0].0);
    }
    assert forall|k: PlayerId| #[trigger] keyed(t).dom().contains(k) == keyed(s).remove(id).dom().contains(k) by {
        if keyed(s).dom().contains(k) && k != id {
            let j = choose|j: int| 0 <= j < s.len() && (#[trigger] s[j]).0 == k;
            if j < i {
                assert(t[j].0 == k);
            } else {
                assert(j != i);
                assert(t[j - 1].0 == k);
            }
        }
        if keyed(t).dom().contains(k) {
            let j = choose|j: int| 0 <= j < t.len() && (#[trigger] t[j]).0 == k;
            let j0 = if j < i { j } else { j + 1 };
            assert(s[j0].0 == k);
            if k == id {
                assert(s[j0].0 != s[i].0);
            }
        }
    }
    assert forall|k: PlayerId| #[trigger] keyed(t).dom().contains(k) implies keyed(t)[k] == keyed(s).remove(
        id,
    )[k] by {
        let j = choose|j: int| 0 <= j < t.len() && (#[trigger] t[j]).0 == k;
        let j0 = if j < i { j } else { j + 1 };
        lemma_keyed_at(t, j);
        lemma_keyed_at(s, j0);
    }
    assert(keyed(t) =~= keyed(s).remove(id));
}

/// The empty list stands for the empty map.
pub(crate) proof fn lemma_keyed_empty<V>()
    ensures
        keyed(Seq::<(PlayerId, V)>::empty()) == Map::<PlayerId, V>::empty(),
{
    assert(keyed(Seq::<(PlayerId, V)>::empty()) =~= Map::<PlayerId, V>::empty());
}

/// No entry of `s` has key `id`: `keyed(s)` lacks it.
pub(crate) proof fn lemma_keyed_absent<V>(s: Seq<(PlayerId, V)>, id: PlayerId)
    requires
        forall|j: int| 0 <= j < s.len() ==> (#[trigger] s[j]).0 != id,
    ensures
        !keyed(s).dom().contains(id),
{
}

} // verus!
