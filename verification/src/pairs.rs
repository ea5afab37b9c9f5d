//! Lists of key-value pairs as maps.

use vstd::prelude::*;

verus! {

/// The entries of a list of pairs as a map.
pub open spec fn pairs_map<K, V>(pairs: Seq<(K, V)>) -> Map<K, V> {
    Map::new(
        |k: K| exists|i: int| 0 <= i < pairs.len() && (#[trigger] pairs[i]).0 == k,
        |k: K| pairs[pair_index(pairs, k)].1,
    )
}

/// Where the pair with key `k` stands.
pub open spec fn pair_index<K, V>(pairs: Seq<(K, V)>, k: K) -> int {
    choose|i: int| 0 <= i < pairs.len() && (#[trigger] pairs[i]).0 == k
}

/// No key occurs twice.
pub open spec fn unique_keys<K, V>(pairs: Seq<(K, V)>) -> bool {
    forall|i: int, j: int|
        0 <= i < pairs.len() && 0 <= j < pairs.len() && (#[trigger] pairs[i]).0 == (#[trigger] pairs[j]).0
            ==> i == j
}

/// Replacing the value of the pair at `at` updates the map.
pub proof fn lemma_pairs_update<K, V>(pairs: Seq<(K, V)>, at: int, v: V)
    requires
        unique_keys(pairs),
        0 <= at < pairs.len(),
    ensures
        unique_keys(pairs.update(at, (pairs[at].0, v))),
        pairs_map(pairs.update(at, (pairs[at].0, v))) == pairs_map(pairs).insert(pairs[at].0, v),
{
    let key = pairs[at].0;
    let after = pairs.update(at, (key, v));
    assert forall|i: int, j: int|
        0 <= i < after.len() && 0 <= j < after.len() && (#[trigger] after[i]).0 == (#[trigger] after[j]).0 implies i
        == j by {
        assert(pairs[i].0 == pairs[j].0);
    }
    let m = pairs_map(after);
    let n = pairs_map(pairs).insert(key, v);
    assert forall|k: K| #[trigger] m.contains_key(k) <==> n.contains_key(k) by {
        if m.contains_key(k) {
            let i = pair_index(after, k);
            assert(after[i].0 == k);
            assert(pairs[i].0 == k);
        }
        if pairs_map(pairs).contains_key(k) {
            let i = pair_index(pairs, k);
            assert(pairs[i].0 == k);
            assert(after[i].0 == k);
        }
        assert(after[at].0 == key);
    }
    assert forall|k: K| #[trigger] m.contains_key(k) implies m[k] == n[k] by {
        let i = pair_index(after, k);
        assert(after[i].0 == k);
        assert(pairs[i].0 == k);
        if k != key {
            let j = pair_index(pairs, k);
            assert(pairs[j].0 == pairs[i].0);
        } else {
            assert(pairs[i].0 == pairs[at].0);
        }
    }
    assert(m =~= n);
}

/// Adding a pair with a new key at the end adds it to the map.
pub proof fn lemma_pairs_push<K, V>(pairs: Seq<(K, V)>, key: K, v: V)
    requires
        unique_keys(pairs),
        forall|i: int| 0 <= i < pairs.len() ==> (#[trigger] pairs[i]).0 != key,
    ensures
        unique_keys(pairs.push((key, v))),
        pairs_map(pairs.push((key, v))) == pairs_map(pairs).insert(key, v),
{
    let after = pairs.push((key, v));
    let last = pairs.len() as int;
    assert forall|i: int, j: int|
        0 <= i < after.len() && 0 <= j < after.len() && (#[trigger] after[i]).0 == (#[trigger] after[j]).0 implies i
        == j by {
        if i < last && j < last {
            assert(pairs[i].0 == pairs[j].0);
        } else if i < last {
            assert(pairs[i].0 != key);
        } else if j < last {
            assert(pairs[j].0 != key);
        }
    }
    let m = pairs_map(after);
    let n = pairs_map(pairs).insert(key, v);
    assert forall|k: K| #[trigger] m.contains_key(k) <==> n.contains_key(k) by {
        if m.contains_key(k) {
            let i = pair_index(after, k);
            assert(after[i].0 == k);
            if i < last {
                assert(pairs[i].0 == k);
            }
        }
        if pairs_map(pairs).contains_key(k) {
            let i = pair_index(pairs, k);
            assert(pairs[i].0 == k);
            assert(after[i].0 == k);
        }
        assert(after[last].0 == key);
    }
    assert forall|k: K| #[trigger] m.contains_key(k) implies m[k] == n[k] by {
        let i = pair_index(after, k);
        assert(after[i].0 == k);
        if i < last {
            assert(pairs[i].0 == k);
            let j = pair_index(pairs, k);
            assert(pairs[j].0 == pairs[i].0);
        }
    }
    assert(m =~= n);
}

/// Taking the pair at `at` out of the list takes its key out of the map.
pub proof fn lemma_pairs_remove<K, V>(pairs: Seq<(K, V)>, at: int)
    requires
        unique_keys(pairs),
        0 <= at < pairs.len(),
    ensures
        unique_keys(pairs.remove(at)),
        pairs_map(pairs.remove(at)) == pairs_map(pairs).remove(pairs[at].0),
{
    let key = pairs[at].0;
    let after = pairs.remove(at);
    assert forall|i: int| 0 <= i < after.len() implies #[trigger] after[i] == pairs[if i < at { i } else { i + 1 }] by {}
    assert forall|i: int, j: int|
        0 <= i < after.len() && 0 <= j < after.len() && (#[trigger] after[i]).0 == (#[trigger] after[j]).0 implies i
        == j by {
        let i0 = if i < at { i } else { i + 1 };
        let j0 = if j < at { j } else { j + 1 };
        assert(pairs[i0].0 == pairs[j0].0);
    }
    let m = pairs_map(after);
    let n = pairs_map(pairs).remove(key);
    assert forall|k: K| #[trigger] m.contains_key(k) <==> n.contains_key(k) by {
        if m.contains_key(k) {
            let i = pair_index(after, k);
            assert(after[i].0 == k);
            let i0 = if i < at { i } else { i + 1 };
            assert(pairs[i0].0 == k);
            if k == key {
                assert(pairs[i0].0 == pairs[at].0);
            }
        }
        if n.contains_key(k) {
            let i0 = pair_index(pairs, k);
            assert(pairs[i0].0 == k);
            let i = if i0 < at { i0 } else { i0 - 1 };
            assert(after[i].0 == k);
        }
    }
    assert forall|k: K| #[trigger] m.contains_key(k) implies m[k] == n[k] by {
        let i = pair_index(after, k);
        assert(after[i].0 == k);
        let i0 = if i < at { i } else { i + 1 };
        assert(pairs[i0].0 == k);
        let j0 = pair_index(pairs, k);
        assert(pairs[j0].0 == pairs[i0].0);
    }
    assert(m =~= n);
}

/// The pair at `i` is in the map.
pub proof fn lemma_pair_at<K, V>(pairs: Seq<(K, V)>, i: int)
    requires
        unique_keys(pairs),
        0 <= i < pairs.len(),
    ensures
        pairs_map(pairs).contains_key(pairs[i].0),
        pairs_map(pairs)[pairs[i].0] == pairs[i].1,
{
    let j = pair_index(pairs, pairs[i].0);
    assert(pairs[j].0 == pairs[i].0);
}

/// The map has as many keys as the list has pairs.
pub proof fn lemma_pairs_len<K, V>(pairs: Seq<(K, V)>)
    requires
        unique_keys(pairs),
    ensures
        pairs_map(pairs).dom().finite(),
        pairs_map(pairs).dom().len() == pairs.len(),
    decreases pairs.len(),
{
    if pairs.len() == 0 {
        assert(pairs_map(pairs).dom() =~= Set::<K>::empty());
    } else {
        let last = pairs.len() - 1;
        let init = pairs.remove(last);
        lemma_pairs_remove(pairs, last);
        lemma_pairs_len(init);
        lemma_pair_at(pairs, last);
        let key = pairs[last].0;
        assert(pairs_map(pairs).dom() =~= pairs_map(init).dom().insert(key));
        assert(!pairs_map(init).dom().contains(key));
    }
}

} // verus!
