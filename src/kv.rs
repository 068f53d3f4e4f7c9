//! A tree of key/value entries, used as a map: searched by key alone.

use vstd::prelude::*;
use crate::index::FenwickTreeError;
use crate::node::{Keyed, NodeKV, key_of};
use crate::collection::InsertableCollection;
use crate::bst::{BST, BSTError, BSTWalkerResult, lemma_slot_update};
use crate::collection::IndexedCollectionMut;
use crate::tree::{has_key, slot_for, root_position, TreeRead, TreeReadMut, TreeWrite};

verus! {

/// Every element is an occupied entry.
pub open spec fn all_occupied<K, V>(s: Seq<NodeKV<K, V>>) -> bool {
    forall|i: int| 0 <= i < s.len() ==> (#[trigger] s[i]) is Occupied
}

/// The value of an entry.
pub open spec fn value_of<K, V>(n: NodeKV<K, V>) -> V {
    n->Occupied_1
}

/// `t` and `r` are what putting `value` under `key` into the sorted entries
/// `s` gives: the value already under `key` is replaced and handed back; else
/// the entry is added at its slot where there is room; else the put fails
/// with `Full` and nothing changes.
pub open spec fn kv_inserted<K: Keyed, V>(
    s: Seq<NodeKV<K, V>>,
    key: K,
    value: V,
    room: bool,
    t: Seq<NodeKV<K, V>>,
    r: Result<Option<V>, BSTError>,
) -> bool {
    let k = key_of(key);
    if has_key(s, k) {
        exists|i: int|
            0 <= i < s.len() && key_of(#[trigger] s[i]) == k && r == Ok::<Option<V>, BSTError>(
                Some(value_of(s[i])),
            ) && t == s.update(i, NodeKV::Occupied(key, value))
    } else if room {
        r == Ok::<Option<V>, BSTError>(None) && exists|o: int|
            slot_for(s, k, o) && t == #[trigger] s.insert(o, NodeKV::Occupied(key, value))
    } else {
        r == Err::<Option<V>, BSTError>(BSTError::Inner(FenwickTreeError::Full)) && t == s
    }
}

/// Reading a map.
pub trait TreeReadKV<K: Keyed, V>: Sized {
    /// The entries, in key order.
    spec fn entries(&self) -> Seq<NodeKV<K, V>>;

    /// The map is consistent: entries sorted by key, all of them occupied.
    spec fn kv_wf(&self) -> bool;

    /// What the container holds besides the entries: its reserved slot 0.
    /// No operation changes it.
    spec fn reserved_entry(&self) -> Seq<NodeKV<K, V>>;

    /// The value under `key`.
    fn get(&self, key: &K) -> (r: Result<&V, BSTError>)
        requires
            self.kv_wf(),
            key.key() is Some,
        ensures
            r is Ok <==> has_key(self.entries(), key_of(*key)),
            r matches Ok(v) ==> exists|i: int|
                0 <= i < self.entries().len() && key_of(#[trigger] self.entries()[i]) == key_of(*key)
                    && value_of(self.entries()[i]) == *v,
            r is Err ==> r == Err::<&V, BSTError>(BSTError::KeyNotFound),
    ;

    /// The value under the smallest key.
    fn first(&self) -> (r: Result<&V, BSTError>)
        requires
            self.kv_wf(),
        ensures
            self.entries().len() == 0 ==> r == Err::<&V, BSTError>(BSTError::Inner(FenwickTreeError::Empty)),
            self.entries().len() > 0 ==> r == Ok::<&V, BSTError>(&value_of(self.entries()[0])),
    ;

    /// The value under the largest key.
    fn last(&self) -> (r: Result<&V, BSTError>)
        requires
            self.kv_wf(),
        ensures
            self.entries().len() == 0 ==> r == Err::<&V, BSTError>(BSTError::Inner(FenwickTreeError::Empty)),
            self.entries().len() > 0 ==> r == Ok::<&V, BSTError>(
                &value_of(self.entries()[self.entries().len() - 1]),
            ),
    ;

    /// The value of the topmost entry of the implicit tree.
    fn root(&self) -> (r: Result<&V, BSTError>)
        requires
            self.kv_wf(),
        ensures
            self.entries().len() == 0 ==> r == Err::<&V, BSTError>(BSTError::Inner(FenwickTreeError::Empty)),
            self.entries().len() > 0 ==> 0 <= root_position(self.entries().len()) < self.entries().len()
                && r == Ok::<&V, BSTError>(&value_of(self.entries()[root_position(self.entries().len())])),
    ;

    /// Whether an entry has `key`.
    fn contains(&self, key: &K) -> (r: Result<bool, BSTError>)
        requires
            self.kv_wf(),
            key.key() is Some,
        ensures
            r == Ok::<bool, BSTError>(has_key(self.entries(), key_of(*key))),
    ;
}

/// Changing the values of a map in place.
pub trait TreeReadKVMut<K: Keyed, V>: TreeReadKV<K, V> {
    /// A mutable reference to the value under `key`.
    fn get_mut(&mut self, key: &K) -> (r: Result<&mut V, BSTError>)
        requires
            old(self).kv_wf(),
            key.key() is Some,
        ensures
            final(self).reserved_entry() == old(self).reserved_entry(),
            r is Ok <==> has_key(old(self).entries(), key_of(*key)),
            r matches Ok(v) ==> exists|i: int|
                0 <= i < old(self).entries().len() && key_of(#[trigger] old(self).entries()[i]) == key_of(*key)
                    && value_of(old(self).entries()[i]) == *v && final(self).entries()
                    == old(self).entries().update(
                    i,
                    NodeKV::Occupied(old(self).entries()[i]->Occupied_0, *final(v)),
                ),
            r is Err ==> r == Err::<&mut V, BSTError>(BSTError::KeyNotFound) && final(self).entries()
                == old(self).entries(),
    ;
    /// A mutable reference to the value under the smallest key.
    fn first_mut(&mut self) -> (r: Result<&mut V, BSTError>)
        requires
            old(self).kv_wf(),
        ensures
            final(self).reserved_entry() == old(self).reserved_entry(),
            old(self).entries().len() == 0 ==> r == Err::<&mut V, BSTError>(BSTError::Inner(FenwickTreeError::Empty))
                && final(self).entries() == old(self).entries(),
            old(self).entries().len() > 0 ==> (r matches Ok(v) && *v == value_of(old(self).entries()[0])
                && final(self).entries() == old(self).entries().update(
                0,
                NodeKV::Occupied(old(self).entries()[0]->Occupied_0, *final(v)),
            )),
    ;

    /// A mutable reference to the value under the largest key.
    fn last_mut(&mut self) -> (r: Result<&mut V, BSTError>)
        requires
            old(self).kv_wf(),
        ensures
            final(self).reserved_entry() == old(self).reserved_entry(),
            old(self).entries().len() == 0 ==> r == Err::<&mut V, BSTError>(BSTError::Inner(FenwickTreeError::Empty))
                && final(self).entries() == old(self).entries(),
            old(self).entries().len() > 0 ==> (r matches Ok(v) && *v == value_of(
                old(self).entries()[old(self).entries().len() - 1],
            ) && final(self).entries() == old(self).entries().update(
                old(self).entries().len() - 1,
                NodeKV::Occupied(old(self).entries()[old(self).entries().len() - 1]->Occupied_0, *final(v)),
            )),
    ;

    /// A mutable reference to the value of the topmost entry of the implicit
    /// tree.
    fn root_mut(&mut self) -> (r: Result<&mut V, BSTError>)
        requires
            old(self).kv_wf(),
        ensures
            final(self).reserved_entry() == old(self).reserved_entry(),
            old(self).entries().len() == 0 ==> r == Err::<&mut V, BSTError>(BSTError::Inner(FenwickTreeError::Empty))
                && final(self).entries() == old(self).entries(),
            old(self).entries().len() > 0 ==> 0 <= root_position(old(self).entries().len())
                < old(self).entries().len() && (r matches Ok(v) && *v == value_of(
                old(self).entries()[root_position(old(self).entries().len())],
            ) && final(self).entries() == old(self).entries().update(
                root_position(old(self).entries().len()),
                NodeKV::Occupied(
                    old(self).entries()[root_position(old(self).entries().len())]->Occupied_0,
                    *final(v),
                ),
            )),
    ;
}

/// Writing a map.
pub trait TreeWriteKV<K: Keyed, V>: TreeReadKVMut<K, V> {
    /// There is room for one more entry.
    spec fn has_room(&self) -> bool;

    /// Puts `value` under `key`: replaces the value already there and hands
    /// it back, or adds the entry in key order where there is room.
    fn insert(&mut self, key: K, value: V) -> (r: Result<Option<V>, BSTError>)
        requires
            old(self).kv_wf(),
            key.key() is Some,
        ensures
            final(self).reserved_entry() == old(self).reserved_entry(),
            final(self).kv_wf(),
            kv_inserted(old(self).entries(), key, value, old(self).has_room(), final(self).entries(), r),
    ;

    /// Removes the entry under `key` and hands back its value.
    fn delete(&mut self, key: &K) -> (r: Result<V, BSTError>)
        requires
            old(self).kv_wf(),
            key.key() is Some,
        ensures
            final(self).reserved_entry() == old(self).reserved_entry(),
            final(self).kv_wf(),
            old(self).entries().len() == 0 ==> r == Err::<V, BSTError>(BSTError::Inner(FenwickTreeError::Empty))
                && final(self).entries() == old(self).entries(),
            has_key(old(self).entries(), key_of(*key)) ==> exists|i: int|
                0 <= i < old(self).entries().len() && key_of(#[trigger] old(self).entries()[i]) == key_of(*key)
                && r == Ok::<V, BSTError>(value_of(old(self).entries()[i]))
                && final(self).entries() == old(self).entries().remove(i),
            old(self).entries().len() > 0 && !has_key(old(self).entries(), key_of(*key)) ==> r == Err::<
                V,
                BSTError,
            >(BSTError::KeyNotFound) && final(self).entries() == old(self).entries(),
    ;

    /// Removes and hands back the entry with the largest key.
    fn pop(&mut self) -> (r: Result<NodeKV<K, V>, BSTError>)
        requires
            old(self).kv_wf(),
        ensures
            final(self).reserved_entry() == old(self).reserved_entry(),
            final(self).kv_wf(),
            old(self).entries().len() == 0 ==> r == Err::<NodeKV<K, V>, BSTError>(BSTError::Inner(
                FenwickTreeError::Empty,
            )) && final(self).entries() == old(self).entries(),
            old(self).entries().len() > 0 ==> r == Ok::<NodeKV<K, V>, BSTError>(old(self).entries().last())
                && final(self).entries() == old(self).entries().drop_last(),
    ;
}

impl<K, V, C> TreeReadKV<K, V> for BST<C> where
    K: Keyed + Copy + 'static,
    V: 'static,
    C: InsertableCollection<Output = NodeKV<K, V>>,
 {
    open spec fn entries(&self) -> Seq<NodeKV<K, V>> {
        self@
    }

    open spec fn kv_wf(&self) -> bool {
        self.wf() && all_occupied(self@)
    }

    open spec fn reserved_entry(&self) -> Seq<NodeKV<K, V>> {
        self.inner.items().subrange(0, 1)
    }

    fn get(&self, key: &K) -> (r: Result<&V, BSTError>) {
        let probe: NodeKV<K, V> = NodeKV::Search(*key);
        match TreeRead::get(self, &probe) {
            Ok(n) => {
                proof {
                    let i = choose|i: int| 0 <= i < self.nodes().len() && #[trigger] self.nodes()[i] == *n;
                    assert(self.entries()[i] == *n);
                }
                Ok(n.inner())
            },
            Err(e) => Err(e),
        }
    }

    fn first(&self) -> (r: Result<&V, BSTError>) {
        match TreeRead::first(self) {
            Ok(n) => Ok(n.inner()),
            Err(e) => Err(e),
        }
    }

    fn last(&self) -> (r: Result<&V, BSTError>) {
        match TreeRead::last(self) {
            Ok(n) => Ok(n.inner()),
            Err(e) => Err(e),
        }
    }

    fn root(&self) -> (r: Result<&V, BSTError>) {
        match TreeRead::root(self) {
            Ok(n) => Ok(n.inner()),
            Err(e) => Err(e),
        }
    }

    fn contains(&self, key: &K) -> (r: Result<bool, BSTError>) {
        let probe: NodeKV<K, V> = NodeKV::Search(*key);
        TreeRead::contains(self, &probe)
    }
}

impl<K, V, C> TreeReadKVMut<K, V> for BST<C> where
    K: Keyed + Copy + 'static,
    V: 'static,
    C: InsertableCollection<Output = NodeKV<K, V>>,
 {
    fn get_mut(&mut self, key: &K) -> (r: Result<&mut V, BSTError>) {
        let probe: NodeKV<K, V> = NodeKV::Search(*key);
        let res = self.locate(&probe);
        proof {
            self.lemma_located(key_of(probe), res);
        }
        match res {
            BSTWalkerResult::Existing(i) => {
                let ghost e0 = self.entries();
                let ghost s0 = self.inner.items();
                proof {
                    assert(e0[i - 1] == s0[i as int]);
                    lemma_slot_update(s0, i as int);
                }
                let n = self.inner.at_mut(i);
                let ghost n0 = *n;
                let v = n.inner_mut();
                proof {
                    assert(e0[i - 1] == n0);
                }
                Ok(v)
            },
            BSTWalkerResult::New(_, _) => Err(BSTError::KeyNotFound),
        }
    }
    fn first_mut(&mut self) -> (r: Result<&mut V, BSTError>) {
        match TreeReadMut::first_mut(self) {
            Ok(n) => Ok(n.inner_mut()),
            Err(e) => Err(e),
        }
    }

    fn last_mut(&mut self) -> (r: Result<&mut V, BSTError>) {
        match TreeReadMut::last_mut(self) {
            Ok(n) => Ok(n.inner_mut()),
            Err(e) => Err(e),
        }
    }

    fn root_mut(&mut self) -> (r: Result<&mut V, BSTError>) {
        match TreeReadMut::root_mut(self) {
            Ok(n) => Ok(n.inner_mut()),
            Err(e) => Err(e),
        }
    }
}

impl<K, V, C> TreeWriteKV<K, V> for BST<C> where
    K: Keyed + Copy + 'static,
    V: 'static,
    C: InsertableCollection<Output = NodeKV<K, V>>,
 {
    open spec fn has_room(&self) -> bool {
        TreeWrite::has_room(self)
    }

    fn insert(&mut self, key: K, value: V) -> (r: Result<Option<V>, BSTError>) {
        let ghost e0 = self.entries();
        let node: NodeKV<K, V> = NodeKV::Occupied(key, value);
        let res = TreeWrite::insert(self, node);
        proof {
            assert forall|i: int| 0 <= i < self.entries().len() implies (#[trigger] self.entries()[i]) is Occupied by {
                if has_key(e0, key_of(node)) {
                    let j = choose|j: int| 0 <= j < e0.len() && key_of(#[trigger] e0[j]) == key_of(node)
                        && self.nodes() == e0.update(j, node);
                    assert(self.entries()[i] == e0.update(j, node)[i]);
                } else if TreeWrite::has_room(self) {
                } else {
                }
                if !has_key(e0, key_of(node)) && TreeWrite::has_room(&*old(self)) {
                    let o = choose|o: int| slot_for(e0, key_of(node), o) && self.nodes() == #[trigger] e0.insert(o, node);
                    if i > o {
                        assert(self.entries()[i] == e0[i - 1]);
                    } else if i < o {
                        assert(self.entries()[i] == e0[i]);
                    }
                }
            }
        }
        match res {
            Ok(Some(prev)) => Ok(Some(prev.unwrap())),
            Ok(None) => Ok(None),
            Err(e) => Err(e),
        }
    }

    fn delete(&mut self, key: &K) -> (r: Result<V, BSTError>) {
        let ghost e0 = self.entries();
        let probe: NodeKV<K, V> = NodeKV::Search(*key);
        let res = TreeWrite::delete(self, &probe);
        proof {
            assert forall|i: int| 0 <= i < self.entries().len() implies (#[trigger] self.entries()[i]) is Occupied by {
                if has_key(e0, key_of(probe)) {
                    let j = choose|j: int| 0 <= j < e0.len() && key_of(#[trigger] e0[j]) == key_of(probe)
                        && res == Ok::<NodeKV<K, V>, BSTError>(e0[j]) && self.nodes() == e0.remove(j);
                    if i >= j {
                        assert(self.entries()[i] == e0[i + 1]);
                    } else {
                        assert(self.entries()[i] == e0[i]);
                    }
                }
            }
        }
        match res {
            Ok(n) => Ok(n.unwrap()),
            Err(e) => Err(e),
        }
    }

    fn pop(&mut self) -> (r: Result<NodeKV<K, V>, BSTError>) {
        let ghost e0 = self.entries();
        let res = TreeWrite::pop(self);
        proof {
            assert forall|i: int| 0 <= i < self.entries().len() implies (#[trigger] self.entries()[i]) is Occupied by {
                assert(self.entries()[i] == e0[i]);
            }
        }
        res
    }
}

} // verus!
