//! Elements of the tree, and the order the tree keeps them in.

use vstd::prelude::*;
use core::cmp::Ordering;

verus! {

/// How two optional keys compare; `None` where either key is missing.
pub open spec fn compare_keys(a: Option<int>, b: Option<int>) -> Option<Ordering> {
    match (a, b) {
        (Some(x), Some(y)) => Some(
            if x < y {
                Ordering::Less
            } else if x == y {
                Ordering::Equal
            } else {
                Ordering::Greater
            },
        ),
        _ => None,
    }
}

/// An element that the tree orders by an integer key.
pub trait Keyed: Sized {
    /// The key the element is ordered by; `None` for an element without one.
    spec fn key(&self) -> Option<int>;

    /// Compares the keys of two elements.
    fn compare(&self, other: &Self) -> (r: Option<Ordering>)
        ensures
            r == compare_keys(self.key(), other.key()),
    ;

    /// The filler kept in the reserved slot 0 of a container.
    fn vacant() -> Self;
}

/// The key of an element that has one.
pub open spec fn key_of<T: Keyed>(t: T) -> int {
    t.key().unwrap()
}

impl Keyed for usize {
    open spec fn key(&self) -> Option<int> {
        Some(*self as int)
    }

    fn compare(&self, other: &usize) -> (r: Option<Ordering>) {
        if *self < *other {
            Some(Ordering::Less)
        } else if *self == *other {
            Some(Ordering::Equal)
        } else {
            Some(Ordering::Greater)
        }
    }

    fn vacant() -> usize {
        0
    }
}

/// A key/value element for a map: ordered and compared by its key alone.
#[derive(Debug, Clone)]
pub enum NodeKV<K, V> {
    /// A stored entry.
    Occupied(K, V),
    /// A key alone, to search with.
    Search(K),
    /// No entry.
    Empty,
}

impl<K: Keyed, V> Keyed for NodeKV<K, V> {
    open spec fn key(&self) -> Option<int> {
        match self {
            NodeKV::Occupied(k, _) => k.key(),
            NodeKV::Search(k) => k.key(),
            NodeKV::Empty => None,
        }
    }

    fn compare(&self, other: &NodeKV<K, V>) -> (r: Option<Ordering>) {
        let a: &K = match self {
            NodeKV::Occupied(k, _) => k,
            NodeKV::Search(k) => k,
            NodeKV::Empty => {
                return None;
            },
        };
        let b: &K = match other {
            NodeKV::Occupied(k, _) => k,
            NodeKV::Search(k) => k,
            NodeKV::Empty => {
                return None;
            },
        };
        a.compare(b)
    }

    fn vacant() -> NodeKV<K, V> {
        NodeKV::Empty
    }
}

impl<K: Keyed, V> PartialEq for NodeKV<K, V> {
    /// Entries are equal when their keys are: values do not count.
    fn eq(&self, other: &NodeKV<K, V>) -> (r: bool) {
        match self.compare(other) {
            Some(Ordering::Equal) => true,
            _ => false,
        }
    }
}

impl<K: Keyed, V> vstd::std_specs::cmp::PartialEqSpecImpl for NodeKV<K, V> {
    open spec fn obeys_eq_spec() -> bool {
        true
    }

    open spec fn eq_spec(&self, other: &NodeKV<K, V>) -> bool {
        compare_keys(self.key(), other.key()) == Some(Ordering::Equal)
    }
}

impl<K, V> Default for NodeKV<K, V> {
    fn default() -> (r: NodeKV<K, V>)
        ensures
            r is Empty,
    {
        NodeKV::Empty
    }
}

impl<K, V> NodeKV<K, V> {
    /// The value of an occupied entry.
    pub fn unwrap(self) -> (r: V)
        requires
            self is Occupied,
        ensures
            self == NodeKV::<K, V>::Occupied(self->Occupied_0, r),
    {
        match self {
            NodeKV::Occupied(_, v) => v,
            _ => unreached(),
        }
    }

    /// A reference to the value of an occupied entry.
    pub fn inner(&self) -> (r: &V)
        requires
            self is Occupied,
        ensures
            *r == self->Occupied_1,
    {
        match self {
            NodeKV::Occupied(_, v) => v,
            _ => unreached(),
        }
    }

    /// A mutable reference to the value of an occupied entry.
    pub fn inner_mut(&mut self) -> (r: &mut V)
        requires
            *old(self) is Occupied,
        ensures
            *r == (*old(self))->Occupied_1,
            *final(self) == NodeKV::<K, V>::Occupied((*old(self))->Occupied_0, *final(r)),
    {
        match self {
            NodeKV::Occupied(_, v) => v,
            _ => unreached(),
        }
    }
}

} // verus!
