//! The indexed containers that hold a tree's elements.

use vstd::prelude::*;
use crate::index::{ceil_log2, height};

verus! {

/// Something with a length.
pub trait Length {
    spec fn spec_length(&self) -> nat;

    fn length(&self) -> (r: usize)
        ensures
            r == self.spec_length(),
    ;
}

/// The depth of the implicit tree laid over something with a length.
pub trait Height: Length {
    fn height(&self) -> (r: usize)
        ensures
            r == ceil_log2(self.spec_length()),
    ;
}

/// A container whose elements are read by index.
pub trait IndexedCollection: Length {
    type Output;

    /// The elements, in index order.
    spec fn items(&self) -> Seq<Self::Output>;

    proof fn lemma_items_length(&self)
        ensures
            self.items().len() == self.spec_length(),
    ;

    fn at(&self, index: usize) -> (r: &Self::Output)
        requires
            index < self.items().len(),
        ensures
            *r == self.items()[index as int],
    ;
}

/// A container whose elements are replaced by index.
pub trait IndexedCollectionMut: IndexedCollection {
    /// A mutable reference to the element at `index`.
    fn at_mut(&mut self, index: usize) -> (r: &mut Self::Output)
        requires
            index < old(self).items().len(),
        ensures
            *r == old(self).items()[index as int],
            final(self).items() == old(self).items().update(index as int, *final(r)),
    ;

    /// Puts `item` at `index` and hands back what was there.
    fn replace(&mut self, index: usize, item: Self::Output) -> (r: Self::Output)
        requires
            index < old(self).items().len(),
        ensures
            r == old(self).items()[index as int],
            final(self).items() == old(self).items().update(index as int, item),
    ;
}

/// A container that grows and shrinks by inserting and removing at an index.
pub trait InsertableCollection: IndexedCollectionMut + Sized {
    /// There is room for one more element.
    spec fn spec_has_capacity(&self) -> bool;

    /// A new container has room for at least one element.
    spec fn spec_startable() -> bool;

    fn new() -> (r: Self)
        requires
            Self::spec_startable(),
        ensures
            r.items().len() == 0,
            r.spec_has_capacity(),
    ;

    /// Inserts `item` at `index`, shifting the later elements right.
    fn insert(&mut self, index: usize, item: Self::Output)
        requires
            index <= old(self).items().len(),
            old(self).spec_has_capacity(),
        ensures
            final(self).items() == old(self).items().insert(index as int, item),
    ;

    /// Removes the element at `index`, shifting the later elements left.
    fn remove(&mut self, index: usize) -> (r: Self::Output)
        requires
            index < old(self).items().len(),
        ensures
            r == old(self).items()[index as int],
            final(self).items() == old(self).items().remove(index as int),
    ;

    /// Whether one more element fits; never past `isize::MAX` elements.
    fn has_capacity(&self) -> (r: bool)
        ensures
            r == self.spec_has_capacity(),
            r ==> self.items().len() < isize::MAX,
    ;
}

impl<C: Length> Height for C {
    fn height(&self) -> (r: usize) {
        height(self.length())
    }
}

impl<T> Length for Vec<T> {
    open spec fn spec_length(&self) -> nat {
        self@.len()
    }

    fn length(&self) -> (r: usize) {
        self.len()
    }
}

impl<T> IndexedCollection for Vec<T> {
    type Output = T;

    open spec fn items(&self) -> Seq<T> {
        self@
    }

    proof fn lemma_items_length(&self) {
    }

    fn at(&self, index: usize) -> (r: &T) {
        &self[index]
    }
}

impl<T> IndexedCollectionMut for Vec<T> {
    fn at_mut(&mut self, index: usize) -> (r: &mut T) {
        &mut self[index]
    }

    fn replace(&mut self, index: usize, item: T) -> (r: T) {
        let mut item = item;
        std::mem::swap(&mut self[index], &mut item);
        item
    }
}

impl<T> InsertableCollection for Vec<T> {
    /// A growable vector has room while it is shorter than `isize::MAX`.
    open spec fn spec_has_capacity(&self) -> bool {
        self@.len() < isize::MAX
    }

    open spec fn spec_startable() -> bool {
        true
    }

    fn new() -> (r: Vec<T>) {
        Vec::with_capacity(1)
    }

    fn insert(&mut self, index: usize, item: T) {
        Vec::insert(self, index, item)
    }

    fn remove(&mut self, index: usize) -> (r: T) {
        Vec::remove(self, index)
    }

    fn has_capacity(&self) -> (r: bool) {
        self.len() < isize::MAX as usize
    }
}

/// A container that holds at most `N` elements.
#[derive(Debug, Clone)]
pub struct FixedVec<T, const N: usize> {
    slots: Vec<T>,
}

impl<T, const N: usize> FixedVec<T, N> {
    /// The most elements the container holds.
    pub fn capacity(&self) -> (r: usize)
        ensures
            r == N,
    {
        N
    }
}

impl<T, const N: usize> FixedVec<T, N> {
    /// A new container has room for an element exactly when `N > 0`.
    pub proof fn lemma_fixed_startable()
        ensures
            <FixedVec<T, N> as InsertableCollection>::spec_startable() == (N > 0),
    {
    }

    /// There is room while fewer than `N` (and fewer than `isize::MAX`)
    /// elements are held.
    pub proof fn lemma_fixed_room(&self)
        ensures
            self.spec_has_capacity() == (self.items().len() < N && self.items().len() < isize::MAX),
            <FixedVec<T, N> as InsertableCollection>::spec_startable() == (N > 0),
            self.spec_length() == self.items().len(),
    {
    }
}

impl<T, const N: usize> Length for FixedVec<T, N> {
    closed spec fn spec_length(&self) -> nat {
        self.slots@.len()
    }

    fn length(&self) -> (r: usize) {
        self.slots.len()
    }
}

impl<T, const N: usize> IndexedCollection for FixedVec<T, N> {
    type Output = T;

    closed spec fn items(&self) -> Seq<T> {
        self.slots@
    }

    proof fn lemma_items_length(&self) {
    }

    fn at(&self, index: usize) -> (r: &T) {
        &self.slots[index]
    }
}

impl<T, const N: usize> IndexedCollectionMut for FixedVec<T, N> {
    fn at_mut(&mut self, index: usize) -> (r: &mut T) {
        &mut self.slots[index]
    }

    fn replace(&mut self, index: usize, item: T) -> (r: T) {
        self.slots.replace(index, item)
    }
}

impl<T, const N: usize> InsertableCollection for FixedVec<T, N> {
    /// Room is left while fewer than `N` elements are held.
    closed spec fn spec_has_capacity(&self) -> bool {
        self.slots@.len() < N && self.slots@.len() < isize::MAX
    }

    closed spec fn spec_startable() -> bool {
        N > 0
    }

    fn new() -> (r: FixedVec<T, N>) {
        FixedVec { slots: Vec::with_capacity(N) }
    }

    fn insert(&mut self, index: usize, item: T) {
        self.slots.insert(index, item)
    }

    fn remove(&mut self, index: usize) -> (r: T) {
        self.slots.remove(index)
    }

    fn has_capacity(&self) -> (r: bool) {
        self.slots.len() < N && self.slots.len() < isize::MAX as usize
    }
}

} // verus!
