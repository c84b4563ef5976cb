//! Association lists read as maps: later pairs override earlier ones.

use vstd::prelude::*;

verus! {

/// The map described by a list of key/value pairs, where the last pair
/// with a given key wins.
pub open spec fn assoc<V>(pairs: Seq<(Seq<char>, V)>) -> Map<Seq<char>, V>
    decreases pairs.len(),
{
    if pairs.len() == 0 {
        Map::empty()
    } else {
        assoc(pairs.drop_last()).insert(pairs.last().0, pairs.last().1)
    }
}

/// No key occurs at two positions of the list.
pub open spec fn distinct_keys<V>(pairs: Seq<(Seq<char>, V)>) -> bool {
    forall|i: int, j: int|
        0 <= i < j < pairs.len() ==> (#[trigger] pairs[i]).0 != (#[trigger] pairs[j]).0
}

/// The key occurs nowhere in the list.
pub open spec fn absent<V>(pairs: Seq<(Seq<char>, V)>, key: Seq<char>) -> bool {
    forall|i: int| 0 <= i < pairs.len() ==> (#[trigger] pairs[i]).0 != key
}

/// A pair added at the end of the list is an insertion into the map.
pub proof fn lemma_assoc_push<V>(pairs: Seq<(Seq<char>, V)>, key: Seq<char>, value: V)
    ensures
        assoc(pairs.push((key, value))) == assoc(pairs).insert(key, value),
{
    assert(pairs.push((key, value)).drop_last() =~= pairs);
}

/// The map of a list has finitely many keys.
pub proof fn lemma_assoc_finite<V>(pairs: Seq<(Seq<char>, V)>)
    ensures
        assoc(pairs).dom().finite(),
    decreases pairs.len(),
{
    if pairs.len() > 0 {
        lemma_assoc_finite(pairs.drop_last());
    }
}

/// A key is in the map exactly when it occurs in the list.
pub proof fn lemma_assoc_dom<V>(pairs: Seq<(Seq<char>, V)>, key: Seq<char>)
    ensures
        assoc(pairs).contains_key(key) <==> !absent(pairs, key),
    decreases pairs.len(),
{
    if pairs.len() > 0 {
        let init = pairs.drop_last();
        lemma_assoc_dom(init, key);
        if pairs.last().0 == key {
            assert(pairs[pairs.len() - 1].0 == key);
        } else if assoc(init).contains_key(key) {
            let i = choose|i: int| 0 <= i < init.len() && (#[trigger] init[i]).0 == key;
            assert(pairs[i].0 == key);
        } else {
            assert forall|i: int| 0 <= i < pairs.len() implies (#[trigger] pairs[i]).0 != key by {
                if i < init.len() {
                    assert(init[i].0 != key);
                }
            }
        }
    }
}

/// The value under a key is that of the last pair with the key.
pub proof fn lemma_assoc_last<V>(pairs: Seq<(Seq<char>, V)>, i: int)
    requires
        0 <= i < pairs.len(),
        forall|j: int| i < j < pairs.len() ==> (#[trigger] pairs[j]).0 != pairs[i].0,
    ensures
        assoc(pairs).contains_key(pairs[i].0),
        assoc(pairs)[pairs[i].0] == pairs[i].1,
    decreases pairs.len(),
{
    let init = pairs.drop_last();
    if i < pairs.len() - 1 {
        assert forall|j: int| i < j < init.len() implies (#[trigger] init[j]).0 != init[i].0 by {
            assert(pairs[j].0 != pairs[i].0);
        }
        lemma_assoc_last(init, i);
        assert(pairs[pairs.len() - 1].0 != pairs[i].0);
    }
}

/// Where keys are distinct, each pair of the list is an entry of the map.
pub proof fn lemma_assoc_index<V>(pairs: Seq<(Seq<char>, V)>, i: int)
    requires
        distinct_keys(pairs),
        0 <= i < pairs.len(),
    ensures
        assoc(pairs).contains_key(pairs[i].0),
        assoc(pairs)[pairs[i].0] == pairs[i].1,
{
    assert forall|j: int| i < j < pairs.len() implies (#[trigger] pairs[j]).0 != pairs[i].0 by {
        assert(pairs[i].0 != pairs[j].0);
    }
    lemma_assoc_last(pairs, i);
}

/// Where keys are distinct, replacing the value at the position of a key
/// is an insertion into the map.
pub proof fn lemma_assoc_update<V>(pairs: Seq<(Seq<char>, V)>, i: int, value: V)
    requires
        distinct_keys(pairs),
        0 <= i < pairs.len(),
    ensures
        assoc(pairs.update(i, (pairs[i].0, value))) == assoc(pairs).insert(pairs[i].0, value),
        distinct_keys(pairs.update(i, (pairs[i].0, value))),
    decreases pairs.len(),
{
    let key = pairs[i].0;
    let next = pairs.update(i, (key, value));
    let init = pairs.drop_last();
    assert(distinct_keys(next)) by {
        assert forall|a: int, b: int| 0 <= a < b < next.len() implies (#[trigger] next[a]).0 != (
        #[trigger] next[b]).0 by {
            assert(pairs[a].0 != pairs[b].0);
        }
    }
    if i == pairs.len() - 1 {
        assert(next.drop_last() =~= init);
        assert(assoc(init).insert(key, pairs.last().1).insert(key, value) =~= assoc(init).insert(
            key,
            value,
        ));
    } else {
        assert(distinct_keys(init)) by {
            assert forall|a: int, b: int| 0 <= a < b < init.len() implies (#[trigger] init[a]).0
                != (#[trigger] init[b]).0 by {
                assert(pairs[a].0 != pairs[b].0);
            }
        }
        lemma_assoc_update(init, i, value);
        assert(next.drop_last() =~= init.update(i, (init[i].0, value)));
        assert(pairs[i].0 != pairs[pairs.len() - 1].0);
        let last = pairs.last();
        assert(next.last() == last);
        assert(assoc(init).insert(key, value).insert(last.0, last.1) =~= assoc(init).insert(
            last.0,
            last.1,
        ).insert(key, value));
    }
}

/// Where keys are distinct, the map has as many entries as the list has pairs.
pub proof fn lemma_assoc_len<V>(pairs: Seq<(Seq<char>, V)>)
    requires
        distinct_keys(pairs),
    ensures
        assoc(pairs).dom().finite(),
        assoc(pairs).dom().len() == pairs.len(),
    decreases pairs.len(),
{
    lemma_assoc_finite(pairs);
    if pairs.len() > 0 {
        let init = pairs.drop_last();
        assert(distinct_keys(init)) by {
            assert forall|a: int, b: int| 0 <= a < b < init.len() implies (#[trigger] init[a]).0
                != (#[trigger] init[b]).0 by {
                assert(pairs[a].0 != pairs[b].0);
            }
        }
        lemma_assoc_len(init);
        lemma_assoc_dom(init, pairs.last().0);
        assert(absent(init, pairs.last().0)) by {
            assert forall|i: int| 0 <= i < init.len() implies (#[trigger] init[i]).0
                != pairs.last().0 by {
                assert(pairs[i].0 != pairs[pairs.len() - 1].0);
            }
        }
        lemma_assoc_finite(init);
    }
}

} // verus!
