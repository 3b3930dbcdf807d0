//! The ascending order of the keys of an ordered map.

use vstd::prelude::*;
use vstd::std_specs::btree::increasing_seq;
use vstd::std_specs::cmp::OrdSpec;

verus! {

/// The numbers from `lo` up to, but not including, `hi` that a set holds, in
/// ascending order.
pub open spec fn keys_between(keys: Set<i32>, lo: int, hi: int) -> Seq<i32>
    decreases hi - lo,
{
    if lo >= hi {
        Seq::empty()
    } else if keys.contains((hi - 1) as i32) {
        keys_between(keys, lo, hi - 1).push((hi - 1) as i32)
    } else {
        keys_between(keys, lo, hi - 1)
    }
}

/// The numbers that a set holds, in ascending order.
pub open spec fn ascending_keys(keys: Set<i32>) -> Seq<i32> {
    keys_between(keys, -0x8000_0000, 0x8000_0000)
}

/// A sequence holds the numbers of a set, each once, in ascending order.
pub open spec fn is_ascending_of(ordered: Seq<i32>, keys: Set<i32>) -> bool {
    &&& forall|i: int, j: int| 0 <= i < j < ordered.len() ==> ordered[i] < ordered[j]
    &&& forall|i: int| 0 <= i < ordered.len() ==> keys.contains(#[trigger] ordered[i])
    &&& forall|key: i32| keys.contains(key) ==> exists|i: int| 0 <= i < ordered.len() && ordered[i] == key
}

/// The numbers of a set between two bounds, in ascending order, are the
/// numbers that the set holds between the bounds.
proof fn lemma_keys_between(keys: Set<i32>, lo: int, hi: int)
    requires
        -0x8000_0000 <= lo <= hi <= 0x8000_0000,
    ensures
        ({
            let ordered = keys_between(keys, lo, hi);
            &&& forall|i: int, j: int| 0 <= i < j < ordered.len() ==> ordered[i] < ordered[j]
            &&& forall|i: int|
                0 <= i < ordered.len() ==> keys.contains(#[trigger] ordered[i]) && lo
                    <= ordered[i] < hi
            &&& forall|key: i32|
                keys.contains(key) && lo <= key < hi ==> exists|i: int|
                    0 <= i < ordered.len() && ordered[i] == key
        }),
    decreases hi - lo,
{
    if lo < hi {
        lemma_keys_between(keys, lo, hi - 1);
        let before = keys_between(keys, lo, hi - 1);
        let ordered = keys_between(keys, lo, hi);
        assert forall|key: i32| keys.contains(key) && lo <= key < hi implies exists|i: int|
            0 <= i < ordered.len() && ordered[i] == key by {
            if key < hi - 1 {
                let i = choose|i: int| 0 <= i < before.len() && before[i] == key;
                assert(ordered[i] == key);
            } else {
                assert(ordered[ordered.len() - 1] == key);
            }
        }
    }
}

/// The ascending order of a set holds what the set holds.
pub proof fn lemma_ascending_keys(keys: Set<i32>)
    ensures
        is_ascending_of(ascending_keys(keys), keys),
{
    lemma_keys_between(keys, -0x8000_0000, 0x8000_0000);
}

/// A set has one ascending order only.
pub proof fn lemma_ascending_unique(a: Seq<i32>, b: Seq<i32>, keys: Set<i32>)
    requires
        is_ascending_of(a, keys),
        is_ascending_of(b, keys),
    ensures
        a == b,
    decreases a.len(),
{
    if a.len() == 0 {
        if b.len() > 0 {
            assert(keys.contains(b[0]));
        }
        assert(a =~= b);
    } else {
        let top = a[a.len() - 1];
        assert(keys.contains(top));
        let at = choose|i: int| 0 <= i < b.len() && b[i] == top;
        if at < b.len() - 1 {
            let above = b[b.len() - 1];
            assert(keys.contains(above));
            let back = choose|i: int| 0 <= i < a.len() && a[i] == above;
            assert(false);
        }
        let rest = keys.remove(top);
        let a0 = a.drop_last();
        let b0 = b.drop_last();
        assert(is_ascending_of(a0, rest)) by {
            assert forall|key: i32| rest.contains(key) implies exists|i: int|
                0 <= i < a0.len() && a0[i] == key by {
                let i = choose|i: int| 0 <= i < a.len() && a[i] == key;
                assert(a0[i] == key);
            }
        }
        assert(is_ascending_of(b0, rest)) by {
            assert forall|key: i32| rest.contains(key) implies exists|i: int|
                0 <= i < b0.len() && b0[i] == key by {
                let i = choose|i: int| 0 <= i < b.len() && b[i] == key;
                assert(b0[i] == key);
            }
        }
        lemma_ascending_unique(a0, b0, rest);
        assert(a =~= a0.push(top));
        assert(b =~= b0.push(top));
    }
}

/// A sequence that the ordered map says is increasing is ascending.
proof fn lemma_increasing(keys: Seq<i32>)
    requires
        increasing_seq(keys),
    ensures
        forall|i: int, j: int| 0 <= i < j < keys.len() ==> keys[i] < keys[j],
{
    broadcast use vstd::std_specs::btree::group_btree_axioms;
    broadcast use vstd::laws_cmp::group_laws_cmp;

    assert forall|i: int, j: int| 0 <= i < j < keys.len() implies keys[i] < keys[j] by {
        assert(keys[i].cmp_spec(&keys[j]) is Less);
    }
}

/// The keys that an ordered map hands out one after the other are the
/// ascending order of its keys.
pub(crate) proof fn lemma_iterated<V>(map: Map<i32, V>, full: Seq<(&i32, &V)>, keys: Seq<i32>)
    requires
        increasing_seq(full.map_values(|kv: (&i32, &V)| *kv.0)),
        forall|i: int| 0 <= i < full.len() ==> map.contains_key(*(#[trigger] full[i]).0),
        forall|key: i32| #[trigger] map.contains_key(key) ==> full.contains((&key, &map[key])),
        keys.len() == full.len(),
        forall|i: int| 0 <= i < keys.len() ==> keys[i] == *full[i].0,
    ensures
        keys == ascending_keys(map.dom()),
{
    let handed = full.map_values(|kv: (&i32, &V)| *kv.0);
    lemma_increasing(handed);
    assert(keys =~= handed);
    assert(is_ascending_of(keys, map.dom())) by {
        assert forall|key: i32| map.dom().contains(key) implies exists|i: int|
            0 <= i < keys.len() && keys[i] == key by {
            assert(map.contains_key(key));
            let i = choose|i: int| 0 <= i < full.len() && full[i] == (&key, &map[key]);
            assert(keys[i] == key);
        }
    }
    lemma_ascending_keys(map.dom());
    lemma_ascending_unique(keys, ascending_keys(map.dom()), map.dom());
}

/// The order that an ordered map with numbers as keys goes by is the order
/// of the numbers.
pub open spec fn keys_ordered() -> bool {
    &&& vstd::std_specs::btree::key_obeys_cmp_spec::<i32>()
    &&& vstd::laws_cmp::obeys_cmp::<i32>()
}

/// The keys of an ordered map are ordered as numbers are.
pub(crate) proof fn lemma_keys_ordered()
    ensures
        keys_ordered(),
{
    broadcast use vstd::std_specs::btree::group_btree_axioms;
    broadcast use vstd::laws_cmp::group_laws_cmp;

}

/// The ascending order of a set is empty where the set is, and nowhere else.
pub proof fn lemma_ascending_len(keys: Set<i32>)
    requires
        keys.finite(),
    ensures
        (ascending_keys(keys).len() == 0) == (keys.len() == 0),
{
    lemma_ascending_keys(keys);
    let ordered = ascending_keys(keys);
    if keys.len() == 0 {
        if ordered.len() > 0 {
            assert(keys.contains(ordered[0]));
        }
    } else {
        let key = keys.choose();
        assert(keys.contains(key));
    }
}

} // verus!
