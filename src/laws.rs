//! What holds of the tree's operations taken together.

use vstd::prelude::*;
use crate::node::{Keyed, NodeKV, key_of};
use crate::kv::{kv_inserted, value_of};
use crate::collection::{IndexedCollection, InsertableCollection};
use crate::bst::{BST, BSTError, lemma_sorted_insert, lemma_sorted_update, lemma_key_unique};
use crate::tree::{sorted, has_key, inserted, deleted};

verus! {

/// In a consistent tree, each slot of the container holds a smaller key than
/// the slot after it.
pub proof fn lemma_neighbours_increase<C>(t: BST<C>)
    where C: InsertableCollection, C::Output: Keyed,
    requires
        t.wf(),
    ensures
        forall|i: int|
            1 <= i && i + 1 < t.inner.items().len() ==> key_of(#[trigger] t.inner.items()[i]) < key_of(
                t.inner.items()[i + 1],
            ),
{
    let s = t.inner.items();
    assert forall|i: int| 1 <= i && i + 1 < s.len() implies key_of(#[trigger] s[i]) < key_of(s[i + 1]) by {
        assert(key_of(s[i]) < key_of(s[i + 1]));
    }
}

/// An insert into sorted elements, successful or not, leaves them sorted.
pub proof fn lemma_insert_keeps_sorted<T: Keyed>(
    s: Seq<T>,
    node: T,
    room: bool,
    t: Seq<T>,
    r: Result<Option<T>, BSTError>,
)
    requires
        sorted(s),
        node.key() is Some,
        inserted(s, node, room, t, r),
    ensures
        sorted(t),
{
    let k = key_of(node);
    if has_key(s, k) {
        let i = choose|i: int|
            0 <= i < s.len() && key_of(#[trigger] s[i]) == k && r == Ok::<Option<T>, BSTError>(Some(s[i]))
                && t == s.update(i, node);
        lemma_sorted_update(s, i, node);
    } else if room {
        let o = choose|o: int| crate::tree::slot_for(s, k, o) && t == #[trigger] s.insert(o, node);
        lemma_sorted_insert(s, o, node);
    }
}

/// After a successful insert of `node`, `node` is the one element under its
/// key, so a lookup of that key finds it.
pub proof fn lemma_insert_then_find<T: Keyed>(
    s: Seq<T>,
    node: T,
    room: bool,
    t: Seq<T>,
    r: Result<Option<T>, BSTError>,
)
    requires
        sorted(s),
        node.key() is Some,
        inserted(s, node, room, t, r),
        r is Ok,
    ensures
        sorted(t),
        has_key(t, key_of(node)),
        forall|i: int| 0 <= i < t.len() && key_of(#[trigger] t[i]) == key_of(node) ==> t[i] == node,
{
    let k = key_of(node);
    lemma_insert_keeps_sorted(s, node, room, t, r);
    let p: int = if has_key(s, k) {
        let i = choose|i: int|
            0 <= i < s.len() && key_of(#[trigger] s[i]) == k && r == Ok::<Option<T>, BSTError>(Some(s[i]))
                && t == s.update(i, node);
        i
    } else {
        let o = choose|o: int| crate::tree::slot_for(s, k, o) && t == #[trigger] s.insert(o, node);
        o
    };
    assert(t[p] == node);
    assert forall|i: int| 0 <= i < t.len() && key_of(#[trigger] t[i]) == key_of(node) implies t[i] == node by {
        lemma_key_unique(t, i, p);
    }
}

/// Insert `node`, then delete its key twice: the first delete hands `node`
/// back and leaves the key absent; the second fails with `KeyNotFound`, or
/// with `Empty` where no element is left, and changes nothing.
pub proof fn lemma_round_trip<T: Keyed>(
    s0: Seq<T>,
    node: T,
    room: bool,
    s1: Seq<T>,
    r1: Result<Option<T>, BSTError>,
    s2: Seq<T>,
    r2: Result<T, BSTError>,
    s3: Seq<T>,
    r3: Result<T, BSTError>,
)
    requires
        sorted(s0),
        node.key() is Some,
        inserted(s0, node, room, s1, r1),
        r1 is Ok,
        deleted(s1, key_of(node), s2, r2),
        deleted(s2, key_of(node), s3, r3),
    ensures
        has_key(s1, key_of(node)),
        r2 == Ok::<T, BSTError>(node),
        !has_key(s2, key_of(node)),
        s2.len() > 0 ==> r3 == Err::<T, BSTError>(BSTError::KeyNotFound),
        s2.len() == 0 ==> r3 == Err::<T, BSTError>(BSTError::Inner(crate::index::FenwickTreeError::Empty)),
        s3 == s2,
{
    let k = key_of(node);
    lemma_insert_then_find(s0, node, room, s1, r1);
    let i = choose|i: int|
        0 <= i < s1.len() && key_of(#[trigger] s1[i]) == k && r2 == Ok::<T, BSTError>(s1[i]) && s2 == s1.remove(i);
    if has_key(s2, k) {
        let j = choose|j: int| 0 <= j < s2.len() && key_of(#[trigger] s2[j]) == k;
        let j1 = if j < i { j } else { j + 1 };
        assert(s2[j] == s1[j1]);
        lemma_key_unique(s1, i, j1);
    }
}

/// Inserting two elements with the same key, one after the other: the second
/// insert hands back the first element and the count of elements stays.
pub proof fn lemma_overwrite<T: Keyed>(
    s0: Seq<T>,
    a: T,
    room0: bool,
    s1: Seq<T>,
    r1: Result<Option<T>, BSTError>,
    b: T,
    room1: bool,
    s2: Seq<T>,
    r2: Result<Option<T>, BSTError>,
)
    requires
        sorted(s0),
        a.key() is Some,
        b.key() is Some,
        key_of(a) == key_of(b),
        inserted(s0, a, room0, s1, r1),
        r1 is Ok,
        inserted(s1, b, room1, s2, r2),
    ensures
        r2 == Ok::<Option<T>, BSTError>(Some(a)),
        s2.len() == s1.len(),
        sorted(s2),
{
    lemma_insert_then_find(s0, a, room0, s1, r1);
    lemma_insert_keeps_sorted(s1, b, room1, s2, r2);
}

/// Putting two values under the same key, one after the other: the second
/// put hands back the first value and the count of entries stays.
pub proof fn lemma_overwrite_value<K: Keyed, V>(
    s0: Seq<NodeKV<K, V>>,
    key: K,
    first: V,
    room0: bool,
    s1: Seq<NodeKV<K, V>>,
    r1: Result<Option<V>, BSTError>,
    second: V,
    room1: bool,
    s2: Seq<NodeKV<K, V>>,
    r2: Result<Option<V>, BSTError>,
)
    requires
        sorted(s0),
        key.key() is Some,
        kv_inserted(s0, key, first, room0, s1, r1),
        r1 is Ok,
        kv_inserted(s1, key, second, room1, s2, r2),
    ensures
        r2 == Ok::<Option<V>, BSTError>(Some(first)),
        s2.len() == s1.len(),
{
    let k = key_of(key);
    let node = NodeKV::<K, V>::Occupied(key, first);
    let p: int = if has_key(s0, k) {
        let i = choose|i: int|
            0 <= i < s0.len() && key_of(#[trigger] s0[i]) == k && r1 == Ok::<Option<V>, BSTError>(
                Some(value_of(s0[i])),
            ) && s1 == s0.update(i, node);
        lemma_sorted_update(s0, i, node);
        i
    } else {
        let o = choose|o: int| crate::tree::slot_for(s0, k, o) && s1 == #[trigger] s0.insert(o, node);
        lemma_sorted_insert(s0, o, node);
        o
    };
    assert(s1[p] == node);
    assert(has_key(s1, k));
    let j = choose|j: int|
        0 <= j < s1.len() && key_of(#[trigger] s1[j]) == k && r2 == Ok::<Option<V>, BSTError>(
            Some(value_of(s1[j])),
        ) && s2 == s1.update(j, NodeKV::Occupied(key, second));
    lemma_key_unique(s1, j, p);
}

} // verus!
