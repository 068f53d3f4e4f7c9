//! The operations of an ordered tree, stated over its elements in key order.

use vstd::prelude::*;
use vstd::arithmetic::power2::pow2;
use crate::index::ceil_log2;
use crate::node::{Keyed, key_of};
use crate::bst::BSTError;

verus! {

/// Every element has a key, and the keys strictly increase.
pub open spec fn sorted<T: Keyed>(s: Seq<T>) -> bool {
    &&& forall|i: int| 0 <= i < s.len() ==> (#[trigger] s[i]).key() is Some
    &&& forall|i: int, j: int| 0 <= i < j < s.len() ==> key_of(#[trigger] s[i]) < key_of(#[trigger] s[j])
}

/// Some element of `s` has key `k`.
pub open spec fn has_key<T: Keyed>(s: Seq<T>, k: int) -> bool {
    exists|i: int| 0 <= i < s.len() && key_of(#[trigger] s[i]) == k
}

/// `o` is the position at which key `k` keeps `s` sorted: every key before it
/// is smaller than `k`, every key from it on is greater.
pub open spec fn slot_for<T: Keyed>(s: Seq<T>, k: int, o: int) -> bool {
    &&& 0 <= o <= s.len()
    &&& forall|j: int| 0 <= j < o ==> key_of(#[trigger] s[j]) < k
    &&& forall|j: int| o <= j < s.len() ==> key_of(#[trigger] s[j]) > k
}

/// `t` and `r` are what inserting `node` into the sorted elements `s` gives:
/// the element with `node`'s key is replaced and handed back; else `node` is
/// added at its slot where there is room; else the insert fails with `Full`
/// and nothing changes.
pub open spec fn inserted<T: Keyed>(
    s: Seq<T>,
    node: T,
    room: bool,
    t: Seq<T>,
    r: Result<Option<T>, BSTError>,
) -> bool {
    let k = key_of(node);
    if has_key(s, k) {
        exists|i: int|
            0 <= i < s.len() && key_of(#[trigger] s[i]) == k && r == Ok::<Option<T>, BSTError>(Some(s[i]))
                && t == s.update(i, node)
    } else if room {
        r == Ok::<Option<T>, BSTError>(None) && exists|o: int| slot_for(s, k, o) && t == #[trigger] s.insert(o, node)
    } else {
        r == Err::<Option<T>, BSTError>(BSTError::Inner(crate::index::FenwickTreeError::Full)) && t == s
    }
}

/// `t` and `r` are what deleting key `k` from the sorted elements `s` gives:
/// with no elements, the delete fails with `Empty`; else the element with key
/// `k` is removed and handed back, or the delete fails with `KeyNotFound`.
/// A failed delete changes nothing.
pub open spec fn deleted<T: Keyed>(s: Seq<T>, k: int, t: Seq<T>, r: Result<T, BSTError>) -> bool {
    if s.len() == 0 {
        r == Err::<T, BSTError>(BSTError::Inner(crate::index::FenwickTreeError::Empty)) && t == s
    } else if has_key(s, k) {
        exists|i: int|
            0 <= i < s.len() && key_of(#[trigger] s[i]) == k && r == Ok::<T, BSTError>(s[i]) && t == s.remove(i)
    } else {
        r == Err::<T, BSTError>(BSTError::KeyNotFound) && t == s
    }
}

/// The position, among `n` elements, of the topmost element of the implicit
/// tree: slot `2^(height - 1)` of a container of `n + 1` slots.
pub open spec fn root_position(n: nat) -> int {
    pow2((ceil_log2(n + 1) - 1) as nat) - 1
}

/// Reading an ordered tree.
pub trait TreeRead: Sized {
    type Node: Keyed;

    /// The elements, in key order.
    spec fn nodes(&self) -> Seq<Self::Node>;

    /// The tree is consistent: its elements are sorted by key.
    spec fn tree_wf(&self) -> bool;

    /// What the container holds besides the elements: its reserved slot 0.
    /// No operation changes it.
    spec fn reserved(&self) -> Seq<Self::Node>;

    /// The element with the key of `node`.
    fn get(&self, node: &Self::Node) -> (r: Result<&Self::Node, BSTError>)
        requires
            self.tree_wf(),
            node.key() is Some,
        ensures
            r is Ok <==> has_key(self.nodes(), key_of(*node)),
            r matches Ok(x) ==> exists|i: int|
                0 <= i < self.nodes().len() && #[trigger] self.nodes()[i] == *x && key_of(*x) == key_of(*node),
            r is Err ==> r == Err::<&Self::Node, BSTError>(BSTError::KeyNotFound),
    ;

    /// The element with the smallest key.
    fn first(&self) -> (r: Result<&Self::Node, BSTError>)
        requires
            self.tree_wf(),
        ensures
            self.nodes().len() == 0 ==> r == Err::<&Self::Node, BSTError>(BSTError::Inner(
                crate::index::FenwickTreeError::Empty,
            )),
            self.nodes().len() > 0 ==> r == Ok::<&Self::Node, BSTError>(&self.nodes()[0]),
    ;

    /// The element with the largest key.
    fn last(&self) -> (r: Result<&Self::Node, BSTError>)
        requires
            self.tree_wf(),
        ensures
            self.nodes().len() == 0 ==> r == Err::<&Self::Node, BSTError>(BSTError::Inner(
                crate::index::FenwickTreeError::Empty,
            )),
            self.nodes().len() > 0 ==> r == Ok::<&Self::Node, BSTError>(
                &self.nodes()[self.nodes().len() - 1],
            ),
    ;

    /// The topmost element of the implicit tree, the first one a search
    /// compares with.
    fn root(&self) -> (r: Result<&Self::Node, BSTError>)
        requires
            self.tree_wf(),
        ensures
            self.nodes().len() == 0 ==> r == Err::<&Self::Node, BSTError>(BSTError::Inner(
                crate::index::FenwickTreeError::Empty,
            )),
            self.nodes().len() > 0 ==> 0 <= root_position(self.nodes().len()) < self.nodes().len()
                && r == Ok::<&Self::Node, BSTError>(&self.nodes()[root_position(self.nodes().len())]),
    ;

    /// Whether an element has the key of `node`.
    fn contains(&self, node: &Self::Node) -> (r: Result<bool, BSTError>)
        requires
            self.tree_wf(),
            node.key() is Some,
        ensures
            r == Ok::<bool, BSTError>(has_key(self.nodes(), key_of(*node))),
    ;
}

/// Reading an ordered tree through mutable references.
pub trait TreeReadMut: TreeRead {
    /// A mutable reference to the element with the key of `node`.
    fn get_mut(&mut self, node: &Self::Node) -> (r: Result<&mut Self::Node, BSTError>)
        requires
            old(self).tree_wf(),
            node.key() is Some,
        ensures
            final(self).reserved() == old(self).reserved(),
            r is Ok <==> has_key(old(self).nodes(), key_of(*node)),
            r matches Ok(x) ==> exists|i: int|
                0 <= i < old(self).nodes().len() && #[trigger] old(self).nodes()[i] == *x && key_of(*x)
                    == key_of(*node) && final(self).nodes() == old(self).nodes().update(i, *final(x)),
            r is Err ==> r == Err::<&mut Self::Node, BSTError>(BSTError::KeyNotFound) && final(self).nodes()
                == old(self).nodes(),
    ;

    /// A mutable reference to the element with the smallest key.
    fn first_mut(&mut self) -> (r: Result<&mut Self::Node, BSTError>)
        requires
            old(self).tree_wf(),
        ensures
            final(self).reserved() == old(self).reserved(),
            old(self).nodes().len() == 0 ==> r == Err::<&mut Self::Node, BSTError>(BSTError::Inner(
                crate::index::FenwickTreeError::Empty,
            )) && final(self).nodes() == old(self).nodes(),
            old(self).nodes().len() > 0 ==> (r matches Ok(x) && *x == old(self).nodes()[0]
                && final(self).nodes() == old(self).nodes().update(0, *final(x))),
    ;

    /// A mutable reference to the element with the largest key.
    fn last_mut(&mut self) -> (r: Result<&mut Self::Node, BSTError>)
        requires
            old(self).tree_wf(),
        ensures
            final(self).reserved() == old(self).reserved(),
            old(self).nodes().len() == 0 ==> r == Err::<&mut Self::Node, BSTError>(BSTError::Inner(
                crate::index::FenwickTreeError::Empty,
            )) && final(self).nodes() == old(self).nodes(),
            old(self).nodes().len() > 0 ==> (r matches Ok(x) && *x == old(self).nodes()[old(self).nodes().len()
                - 1] && final(self).nodes() == old(self).nodes().update(
                old(self).nodes().len() - 1,
                *final(x),
            )),
    ;

    /// A mutable reference to the topmost element of the implicit tree.
    fn root_mut(&mut self) -> (r: Result<&mut Self::Node, BSTError>)
        requires
            old(self).tree_wf(),
        ensures
            final(self).reserved() == old(self).reserved(),
            old(self).nodes().len() == 0 ==> r == Err::<&mut Self::Node, BSTError>(BSTError::Inner(
                crate::index::FenwickTreeError::Empty,
            )) && final(self).nodes() == old(self).nodes(),
            old(self).nodes().len() > 0 ==> 0 <= root_position(old(self).nodes().len()) < old(self).nodes().len()
                && (r matches Ok(x) && *x == old(self).nodes()[root_position(old(self).nodes().len())]
                && final(self).nodes() == old(self).nodes().update(
                root_position(old(self).nodes().len()),
                *final(x),
            )),
    ;
}

/// Writing an ordered tree.
pub trait TreeWrite: TreeReadMut {
    /// There is room for one more element.
    spec fn has_room(&self) -> bool;

    /// Inserts `node`: replaces the element with its key and hands that back,
    /// or adds it in key order where there is room.
    fn insert(&mut self, node: Self::Node) -> (r: Result<Option<Self::Node>, BSTError>)
        requires
            old(self).tree_wf(),
            node.key() is Some,
        ensures
            final(self).reserved() == old(self).reserved(),
            final(self).tree_wf(),
            inserted(old(self).nodes(), node, old(self).has_room(), final(self).nodes(), r),
    ;

    /// Removes and hands back the element with the key of `node`.
    fn delete(&mut self, node: &Self::Node) -> (r: Result<Self::Node, BSTError>)
        requires
            old(self).tree_wf(),
            node.key() is Some,
        ensures
            final(self).reserved() == old(self).reserved(),
            final(self).tree_wf(),
            deleted(old(self).nodes(), key_of(*node), final(self).nodes(), r),
    ;

    /// Removes and hands back the element with the largest key.
    fn pop(&mut self) -> (r: Result<Self::Node, BSTError>)
        requires
            old(self).tree_wf(),
        ensures
            final(self).reserved() == old(self).reserved(),
            final(self).tree_wf(),
            old(self).nodes().len() == 0 ==> r == Err::<Self::Node, BSTError>(BSTError::Inner(
                crate::index::FenwickTreeError::Empty,
            )) && final(self).nodes() == old(self).nodes(),
            old(self).nodes().len() > 0 ==> r == Ok::<Self::Node, BSTError>(old(self).nodes().last())
                && final(self).nodes() == old(self).nodes().drop_last(),
    ;
}

} // verus!
