//! Search over the implicit tree of a sorted container, and the tree itself.

use vstd::prelude::*;
use vstd::arithmetic::power2::{pow2, lemma_pow2_unfold, lemma_pow2_pos, lemma_pow2_strictly_increases, lemma2_to64};
use core::cmp::Ordering;
use crate::index::{
    low_bit, ceil_log2, lemma_ceil_log2_bounds, lemma_low_bit_of, Direction, NodeSide, FenwickTreeError,
};
use crate::node::{Keyed, NodeKV, key_of};
use crate::collection::{Length, IndexedCollection, IndexedCollectionMut, InsertableCollection, FixedVec};
use crate::walker::{StatefulTreeView, TreeWalker};
use crate::tree::{sorted, has_key, slot_for, TreeRead, TreeReadMut, TreeWrite};

verus! {

/// Slots `1..` of `s` hold elements with keys, in strictly increasing key order.
pub open spec fn sorted_slots<T: Keyed>(s: Seq<T>) -> bool {
    &&& forall|i: int| 1 <= i < s.len() ==> (#[trigger] s[i]).key() is Some
    &&& forall|i: int, j: int| 1 <= i < j < s.len() ==> key_of(#[trigger] s[i]) < key_of(#[trigger] s[j])
}

/// Where a search for a key ended.
#[derive(Debug, Clone, Copy, PartialEq, Eq, Structural)]
pub enum BSTWalkerResult {
    /// The key is absent; it belongs just before (`Left`) or just after
    /// (`Right`) the element at the index.
    New(usize, NodeSide),
    /// The key is at the index.
    Existing(usize),
}

/// `r` is the outcome of searching slots `1..` of `s` for key `k`: the slot
/// holding `k`, or the offset at which `k` keeps the slots sorted.
pub open spec fn allocated<T: Keyed>(s: Seq<T>, k: int, r: BSTWalkerResult) -> bool {
    match r {
        BSTWalkerResult::Existing(i) => 1 <= i < s.len() && key_of(s[i as int]) == k,
        BSTWalkerResult::New(i, side) => {
            let o = i + side.spec_bias();
            &&& 1 <= i
            &&& 1 <= o <= s.len()
            &&& side == NodeSide::Right ==> i < s.len()
            &&& forall|j: int| 1 <= j < o ==> key_of(#[trigger] s[j]) < k
            &&& forall|j: int| o <= j < s.len() ==> key_of(#[trigger] s[j]) > k
        },
    }
}

impl BSTWalkerResult {
    /// The offset the result names: the index found, or the index at which a
    /// new element is to be inserted.
    pub open spec fn spec_offset(&self) -> int {
        match self {
            BSTWalkerResult::Existing(i) => *i as int,
            BSTWalkerResult::New(i, side) => *i + side.spec_bias(),
        }
    }

    pub fn offset(&self) -> (r: usize)
        requires
            self.spec_offset() <= usize::MAX,
        ensures
            r == self.spec_offset(),
    {
        match self {
            BSTWalkerResult::Existing(i) => *i,
            BSTWalkerResult::New(i, side) => *i + side.bias(),
        }
    }
}

/// Failures of the tree's operations.
#[derive(Debug, Clone, PartialEq, Eq, Structural)]
pub enum BSTError {
    /// No element has the key searched for.
    KeyNotFound,
    /// A failure of the index arithmetic or of the container.
    Inner(FenwickTreeError),
}

impl From<FenwickTreeError> for BSTError {
    fn from(err: FenwickTreeError) -> (r: BSTError) {
        BSTError::Inner(err)
    }
}

impl vstd::std_specs::convert::FromSpecImpl<FenwickTreeError> for BSTError {
    open spec fn obeys_from_spec() -> bool {
        true
    }

    open spec fn from_spec(err: FenwickTreeError) -> BSTError {
        BSTError::Inner(err)
    }
}

/// The word size: `2^(BITS - 1)` is `isize::MAX + 1` and `2^BITS` is
/// `usize::MAX + 1`.
pub proof fn lemma_word()
    ensures
        usize::BITS >= 1,
        pow2((usize::BITS - 1) as nat) == isize::MAX + 1,
        pow2(usize::BITS as nat) == usize::MAX + 1,
{
    lemma2_to64();
    vstd::arithmetic::power2::lemma2_to64_rest();
    assert(isize::MAX == usize::MAX / 2);
    if usize::BITS == 32 {
        assert(pow2(31) == 0x8000_0000);
    } else {
        assert(pow2(63) == 0x8000_0000_0000_0000);
    }
}

/// A container of at most `isize::MAX` slots has a tree whose root fits in a
/// `usize`.
pub proof fn lemma_height_fits(n: nat)
    requires
        n <= isize::MAX,
    ensures
        ceil_log2(n) < usize::BITS,
        2 * pow2(ceil_log2(n)) <= usize::MAX + 1,
{
    lemma_word();
    lemma_ceil_log2_bounds(n);
    let h = ceil_log2(n);
    let w = (usize::BITS - 1) as nat;
    // 2^(h - 1) < n <= 2^w, so h - 1 < w
    if h > w + 1 {
        lemma_pow2_strictly_increases(w, (h - 1) as nat);
    }
    if h < w {
        lemma_pow2_strictly_increases(h, w);
    }
    lemma_pow2_unfold(usize::BITS as nat);
}

/// One step down from the odd multiple `m * 2^e` of `2^e`.
proof fn lemma_descend(m: nat, e: nat)
    requires
        m % 2 == 1,
        e > 0,
    ensures
        pow2(e) == 2 * pow2((e - 1) as nat),
        m * pow2(e) + pow2((e - 1) as nat) == (2 * m + 1) * pow2((e - 1) as nat),
        m * pow2(e) - pow2((e - 1) as nat) == (2 * m - 1) * pow2((e - 1) as nat),
        low_bit((2 * m + 1) * pow2((e - 1) as nat)) == pow2((e - 1) as nat),
        low_bit(((2 * m - 1) as nat) * pow2((e - 1) as nat)) == pow2((e - 1) as nat),
{
    lemma_pow2_unfold(e);
    let q = pow2((e - 1) as nat);
    assert(m * pow2(e) == 2 * m * q) by (nonlinear_arith)
        requires pow2(e) == 2 * q;
    assert(m * pow2(e) + q == (2 * m + 1) * q) by (nonlinear_arith)
        requires m * pow2(e) == 2 * m * q;
    assert(m * pow2(e) - q == (2 * m - 1) * q) by (nonlinear_arith)
        requires m * pow2(e) == 2 * m * q;
    lemma_low_bit_of(2 * m + 1, (e - 1) as nat);
    lemma_low_bit_of((2 * m - 1) as nat, (e - 1) as nat);
}

/// A search over the implicit tree of a borrowed container.
#[derive(Debug)]
pub struct BSTWalker<'w, C> {
    pub view: StatefulTreeView<'w, C>,
}

impl<'w, C> BSTWalker<'w, C> where C: IndexedCollection, C::Output: Keyed {
    /// The walker stands at the implicit root of its container.
    pub open spec fn at_root(&self) -> bool {
        &&& self.view.wf()
        &&& ceil_log2(self.view.items().len()) < usize::BITS
        &&& self.view.curr.index == pow2(ceil_log2(self.view.items().len()))
    }

    /// A walker at the implicit root of `inner`, `2^height(length)`.
    pub fn new(inner: &'w C) -> (r: Result<BSTWalker<'w, C>, BSTError>)
        requires
            ceil_log2(inner.items().len()) < usize::BITS,
        ensures
            r matches Ok(w) && w.at_root() && w.view.collection == inner,
    {
        proof {
            inner.lemma_items_length();
            lemma_pow2_pos(ceil_log2(inner.items().len()));
        }
        let start: usize = crate::index::root(crate::index::height(inner.length()));
        match StatefulTreeView::new(inner, start) {
            Ok(view) => Ok(BSTWalker { view }),
            Err(e) => Err(BSTError::Inner(e)),
        }
    }

    /// Goes back to the implicit root.
    pub fn reset(&mut self)
        requires
            ceil_log2(old(self).view.items().len()) < usize::BITS,
        ensures
            final(self).at_root(),
            final(self).view.collection == old(self).view.collection,
    {
        self.view.reset();
    }

    /// Descends from the root to the slot holding `key`'s key, or to the
    /// offset at which it belongs.
    pub fn allocate(&mut self, key: &C::Output) -> (r: BSTWalkerResult)
        requires
            old(self).at_root(),
            old(self).view.items().len() >= 1,
            sorted_slots(old(self).view.items()),
            key.key() is Some,
        ensures
            final(self).view.wf(),
            final(self).view.collection == old(self).view.collection,
            allocated(old(self).view.items(), key_of(*key), r),
    {
        let ghost s = self.view.items();
        let ghost len = s.len();
        let ghost k = key_of(*key);
        let ghost h = ceil_log2(len);
        let ghost top = pow2(h);
        let ghost c0 = self.view.collection;
        let ghost mut e: nat = h;
        let ghost mut m: nat = 1;
        proof {
            lemma_ceil_log2_bounds(len);
            lemma_word();
            if h < usize::BITS - 1 {
                lemma_pow2_strictly_increases(h, (usize::BITS - 1) as nat);
            }
            lemma_pow2_unfold(usize::BITS as nat);
            lemma_pow2_pos(h);
            lemma_low_bit_of(1, h);
        }
        while self.view.lsb() > 1
            invariant
                self.view.wf(),
                self.view.collection == c0,
                c0 == old(self).view.collection,
                s == self.view.items(),
                s == old(self).view.items(),
                len == s.len(),
                len >= 1,
                k == key_of(*key),
                key.key() is Some,
                sorted_slots(s),
                self.view.curr.lsb == pow2(e),
                self.view.curr.index == m * pow2(e),
                m % 2 == 1,
                self.view.curr.index - self.view.curr.lsb < len,
                self.view.curr.index + self.view.curr.lsb <= usize::MAX + 1,
                forall|j: int| 1 <= j <= self.view.curr.index - self.view.curr.lsb && j < len
                    ==> key_of(#[trigger] s[j]) < k,
                forall|j: int| self.view.curr.index + self.view.curr.lsb <= j < len
                    ==> key_of(#[trigger] s[j]) > k,
            decreases self.view.curr.lsb,
        {
            let ghost i = self.view.curr.index as int;
            let ghost b = self.view.curr.lsb as int;
            proof {
                if e == 0 {
                    lemma2_to64();
                }
                lemma_descend(m, e);
            }
            let go_right: bool = match self.view.current() {
                Ok(node) => match key.compare(node) {
                    Some(Ordering::Greater) => true,
                    Some(Ordering::Less) => false,
                    Some(Ordering::Equal) => {
                        return BSTWalkerResult::Existing(self.view.index());
                    },
                    None => {
                        proof {
                            assert(false);
                        }
                        false
                    },
                },
                Err(_) => false,
            };
            if go_right {
                proof {
                    assert forall|j: int| 1 <= j <= i && j < len implies key_of(#[trigger] s[j]) < k by {
                        if j < i {
                            assert(key_of(s[j]) < key_of(s[i]));
                        }
                    }
                }
                let _ = self.view.traverse(Direction::Down(NodeSide::Right));
                proof {
                    m = 2 * m + 1;
                }
            } else {
                proof {
                    assert forall|j: int| i <= j < len implies key_of(#[trigger] s[j]) > k by {
                        if j > i {
                            assert(key_of(s[i]) < key_of(s[j]));
                        }
                    }
                }
                let _ = self.view.traverse(Direction::Down(NodeSide::Left));
                proof {
                    m = (2 * m - 1) as nat;
                }
            }
            proof {
                e = (e - 1) as nat;
            }
        }
        let ghost i = self.view.curr.index as int;
        proof {
            if e > 0 {
                lemma_pow2_unfold(e);
                lemma_pow2_pos((e - 1) as nat);
            }
            assert(pow2(0) == 1) by { lemma2_to64(); }
        }
        match self.view.current() {
            Ok(node) => match key.compare(node) {
                Some(Ordering::Greater) => {
                    proof {
                        assert forall|j: int| 1 <= j < i + 1 implies key_of(#[trigger] s[j]) < k by {
                            if j < i {
                                assert(key_of(s[j]) < key_of(s[i]));
                            }
                        }
                    }
                    BSTWalkerResult::New(self.view.index(), NodeSide::Right)
                },
                Some(Ordering::Less) => {
                    proof {
                        assert forall|j: int| i <= j < len implies key_of(#[trigger] s[j]) > k by {
                            if j > i {
                                assert(key_of(s[i]) < key_of(s[j]));
                            }
                        }
                    }
                    BSTWalkerResult::New(self.view.index(), NodeSide::Left)
                },
                Some(Ordering::Equal) => BSTWalkerResult::Existing(self.view.index()),
                None => {
                    proof {
                        assert(false);
                    }
                    BSTWalkerResult::Existing(self.view.index())
                },
            },
            Err(_) => BSTWalkerResult::New(self.view.index(), NodeSide::Left),
        }
    }

    /// The slot holding `key`'s key, or `KeyNotFound`.
    pub fn find(&mut self, key: &C::Output) -> (r: Result<usize, BSTError>)
        requires
            old(self).at_root(),
            old(self).view.items().len() >= 1,
            sorted_slots(old(self).view.items()),
            key.key() is Some,
        ensures
            final(self).view.wf(),
            final(self).view.collection == old(self).view.collection,
            r matches Ok(i) ==> 1 <= i < old(self).view.items().len() && key_of(old(self).view.items()[i as int])
                == key_of(*key),
            r is Err <==> !(exists|j: int| 1 <= j < old(self).view.items().len()
                && key_of(#[trigger] old(self).view.items()[j]) == key_of(*key)),
            r is Err ==> r == Err::<usize, BSTError>(BSTError::KeyNotFound),
    {
        let ghost s = self.view.items();
        let res = self.allocate(key);
        match res {
            BSTWalkerResult::Existing(i) => Ok(i),
            BSTWalkerResult::New(_, _) => {
                proof {
                    assert forall|j: int| 1 <= j < s.len() implies key_of(#[trigger] s[j]) != key_of(*key) by {
                        let o = res.spec_offset();
                        if j < o {
                        } else {
                        }
                    }
                }
                Err(BSTError::KeyNotFound)
            },
        }
    }
}


/// Slots `1..` of a container of at least one slot are sorted exactly when the
/// elements they hold are.
pub proof fn lemma_slots_sorted<T: Keyed>(s: Seq<T>)
    requires
        s.len() >= 1,
    ensures
        sorted_slots(s) <==> sorted(s.subrange(1, s.len() as int)),
{
    let t = s.subrange(1, s.len() as int);
    if sorted_slots(s) {
        assert forall|i: int, j: int| 0 <= i < j < t.len() implies key_of(#[trigger] t[i]) < key_of(
            #[trigger] t[j],
        ) by {
            assert(t[i] == s[i + 1] && t[j] == s[j + 1]);
        }
        assert forall|i: int| 0 <= i < t.len() implies (#[trigger] t[i]).key() is Some by {
            assert(t[i] == s[i + 1]);
        }
    }
    if sorted(t) {
        assert forall|i: int, j: int| 1 <= i < j < s.len() implies key_of(#[trigger] s[i]) < key_of(
            #[trigger] s[j],
        ) by {
            assert(t[i - 1] == s[i] && t[j - 1] == s[j]);
        }
        assert forall|i: int| 1 <= i < s.len() implies (#[trigger] s[i]).key() is Some by {
            assert(t[i - 1] == s[i]);
        }
    }
}

/// Inserting an element at its slot keeps a sorted sequence sorted.
pub proof fn lemma_sorted_insert<T: Keyed>(s: Seq<T>, o: int, x: T)
    requires
        sorted(s),
        x.key() is Some,
        slot_for(s, key_of(x), o),
    ensures
        sorted(s.insert(o, x)),
{
    let t = s.insert(o, x);
    assert forall|i: int| 0 <= i < t.len() implies (#[trigger] t[i]).key() is Some by {
        if i > o {
            assert(t[i] == s[i - 1]);
        }
    }
    assert forall|i: int, j: int| 0 <= i < j < t.len() implies key_of(#[trigger] t[i]) < key_of(#[trigger] t[j]) by {
        if i < o && j < o {
        } else if i < o && j == o {
        } else if i < o {
            assert(t[j] == s[j - 1]);
        } else if i == o {
            assert(t[j] == s[j - 1]);
        } else {
            assert(t[i] == s[i - 1] && t[j] == s[j - 1]);
        }
    }
}

/// Replacing an element by one with the same key keeps a sorted sequence
/// sorted.
pub proof fn lemma_sorted_update<T: Keyed>(s: Seq<T>, i: int, x: T)
    requires
        sorted(s),
        0 <= i < s.len(),
        x.key() is Some,
        key_of(x) == key_of(s[i]),
    ensures
        sorted(s.update(i, x)),
{
    let t = s.update(i, x);
    assert forall|a: int, b: int| 0 <= a < b < t.len() implies key_of(#[trigger] t[a]) < key_of(#[trigger] t[b]) by {
        assert(key_of(s[a]) < key_of(s[b]));
    }
    assert forall|a: int| 0 <= a < t.len() implies (#[trigger] t[a]).key() is Some by {
        assert(s[a].key() is Some);
    }
}

/// Removing an element keeps a sorted sequence sorted.
pub proof fn lemma_sorted_remove<T: Keyed>(s: Seq<T>, i: int)
    requires
        sorted(s),
        0 <= i < s.len(),
    ensures
        sorted(s.remove(i)),
{
    let t = s.remove(i);
    assert forall|a: int, b: int| 0 <= a < b < t.len() implies key_of(#[trigger] t[a]) < key_of(#[trigger] t[b]) by {
        let a0 = if a < i { a } else { a + 1 };
        let b0 = if b < i { b } else { b + 1 };
        assert(t[a] == s[a0] && t[b] == s[b0]);
    }
    assert forall|a: int| 0 <= a < t.len() implies (#[trigger] t[a]).key() is Some by {
        let a0 = if a < i { a } else { a + 1 };
        assert(t[a] == s[a0]);
    }
}

/// In a sorted sequence at most one element has a given key.
pub proof fn lemma_key_unique<T: Keyed>(s: Seq<T>, i: int, j: int)
    requires
        sorted(s),
        0 <= i < s.len(),
        0 <= j < s.len(),
        key_of(s[i]) == key_of(s[j]),
    ensures
        i == j,
{
    if i < j {
        assert(key_of(s[i]) < key_of(s[j]));
    } else if j < i {
        assert(key_of(s[j]) < key_of(s[i]));
    }
}

/// Updating slot `i` of a container updates element `i - 1` of the tree.
pub(crate) proof fn lemma_slot_update<T>(s: Seq<T>, i: int)
    requires
        1 <= i < s.len(),
    ensures
        forall|y: T| #[trigger] s.update(i, y).subrange(1, s.len() as int) == s.subrange(1, s.len() as int).update(i - 1, y),
        forall|y: T| #[trigger] s.update(i, y).subrange(0, 1) == s.subrange(0, 1),
{
    assert forall|y: T| #[trigger] s.update(i, y).subrange(1, s.len() as int) == s.subrange(1, s.len() as int).update(i - 1, y) by {
        assert(s.update(i, y).subrange(1, s.len() as int) =~= s.subrange(1, s.len() as int).update(i - 1, y));
    }
    assert forall|y: T| #[trigger] s.update(i, y).subrange(0, 1) == s.subrange(0, 1) by {
        assert(s.update(i, y).subrange(0, 1) =~= s.subrange(0, 1));
    }
}

/// A binary search tree kept in the slots `1..` of a container, in key order;
/// slot 0 is reserved.
#[derive(Debug, Clone)]
pub struct BST<C> {
    pub inner: C,
}

/// A set kept in a growable vector.
pub type BSTSet<T> = BST<Vec<T>>;

/// A map kept in a growable vector.
pub type BSTMap<K, V> = BST<Vec<NodeKV<K, V>>>;

/// A set kept in a container of `N` slots, the reserved one included.
pub type BSTSetConst<T, const N: usize> = BST<FixedVec<T, N>>;

/// A map kept in a container of `N` slots, the reserved one included.
pub type BSTMapConst<K, V, const N: usize> = BST<FixedVec<NodeKV<K, V>, N>>;

impl<C: IndexedCollection> View for BST<C> {
    type V = Seq<C::Output>;

    /// The elements, in key order.
    open spec fn view(&self) -> Seq<C::Output> {
        if self.inner.items().len() == 0 {
            Seq::empty()
        } else {
            self.inner.items().subrange(1, self.inner.items().len() as int)
        }
    }
}

impl<C: IndexedCollection> Length for BST<C> {
    /// The number of elements; the reserved slot does not count.
    open spec fn spec_length(&self) -> nat {
        self@.len()
    }

    fn length(&self) -> (r: usize) {
        proof {
            self.inner.lemma_items_length();
        }
        let n: usize = self.inner.length();
        if n == 0 {
            0
        } else {
            n - 1
        }
    }
}

impl<C> BST<C> where C: InsertableCollection, C::Output: Keyed {
    /// The container holds the reserved slot and at most `isize::MAX` slots,
    /// and the elements are sorted by key.
    pub open spec fn wf(&self) -> bool {
        &&& 1 <= self.inner.items().len() <= isize::MAX
        &&& sorted_slots(self.inner.items())
    }

    /// The container of a consistent tree is its reserved slot followed by
    /// the elements.
    pub proof fn lemma_container(&self)
        requires
            self.wf(),
        ensures
            self.inner.items() == self.reserved() + self@,
    {
        assert(self.inner.items() =~= self.reserved() + self@);
    }

    /// An empty tree: a container holding only the reserved slot.
    pub fn new() -> (r: BST<C>)
        requires
            C::spec_startable(),
        ensures
            r.wf(),
            r@ == Seq::<C::Output>::empty(),
    {
        let mut inner: C = C::new();
        inner.insert(0, <C::Output as Keyed>::vacant());
        let r = BST { inner };
        proof {
            assert(r@ =~= Seq::<C::Output>::empty());
        }
        r
    }

    pub fn inner(&self) -> (r: &C)
        ensures
            *r == self.inner,
    {
        &self.inner
    }

    pub fn inner_mut(&mut self) -> (r: &mut C)
        ensures
            *r == old(self).inner,
            final(self).inner == *final(r),
    {
        &mut self.inner
    }

    /// Where the key of `node` is, or where it belongs.
    pub(crate) fn locate(&self, node: &C::Output) -> (r: BSTWalkerResult)
        requires
            self.wf(),
            node.key() is Some,
        ensures
            allocated(self.inner.items(), key_of(*node), r),
    {
        proof {
            lemma_height_fits(self.inner.items().len());
        }
        match BSTWalker::new(&self.inner) {
            Ok(mut walker) => walker.allocate(node),
            Err(_) => {
                proof {
                    assert(false);
                }
                BSTWalkerResult::Existing(0)
            },
        }
    }

    /// The view of a search result: where `k` is among the elements, or the
    /// slot at which it belongs.
    pub(crate) proof fn lemma_located(&self, k: int, r: BSTWalkerResult)
        requires
            self.wf(),
            allocated(self.inner.items(), k, r),
        ensures
            sorted(self@),
            r is Existing ==> has_key(self@, k) && key_of(self@[r->Existing_0 - 1]) == k,
            r is New ==> !has_key(self@, k) && slot_for(self@, k, r.spec_offset() - 1),
    {
        let s = self.inner.items();
        let v = self@;
        lemma_slots_sorted(s);
        match r {
            BSTWalkerResult::Existing(i) => {
                assert(v[i - 1] == s[i as int]);
            },
            BSTWalkerResult::New(i, side) => {
                let o = r.spec_offset();
                assert forall|j: int| 0 <= j < o - 1 implies key_of(#[trigger] v[j]) < k by {
                    assert(v[j] == s[j + 1]);
                }
                assert forall|j: int| o - 1 <= j < v.len() implies key_of(#[trigger] v[j]) > k by {
                    assert(v[j] == s[j + 1]);
                }
                if has_key(v, k) {
                    let j = choose|j: int| 0 <= j < v.len() && key_of(#[trigger] v[j]) == k;
                    if j < o - 1 {
                    } else {
                    }
                }
            },
        }
    }
}

impl<C> TreeRead for BST<C> where C: InsertableCollection, C::Output: Keyed {
    type Node = C::Output;

    open spec fn nodes(&self) -> Seq<C::Output> {
        self@
    }

    open spec fn tree_wf(&self) -> bool {
        self.wf()
    }

    open spec fn reserved(&self) -> Seq<C::Output> {
        self.inner.items().subrange(0, 1)
    }

    fn get(&self, node: &C::Output) -> (r: Result<&C::Output, BSTError>) {
        let res = self.locate(node);
        proof {
            self.lemma_located(key_of(*node), res);
        }
        match res {
            BSTWalkerResult::Existing(i) => {
                let x = self.inner.at(i);
                proof {
                    assert(self@[i - 1] == self.inner.items()[i as int]);
                    assert(self.nodes()[i - 1] == *x);
                }
                Ok(x)
            },
            BSTWalkerResult::New(_, _) => Err(BSTError::KeyNotFound),
        }
    }

    fn first(&self) -> (r: Result<&C::Output, BSTError>) {
        proof {
            self.inner.lemma_items_length();
        }
        if self.inner.length() <= 1 {
            return Err(BSTError::Inner(FenwickTreeError::Empty));
        }
        Ok(self.inner.at(1))
    }

    fn last(&self) -> (r: Result<&C::Output, BSTError>) {
        proof {
            self.inner.lemma_items_length();
        }
        let n: usize = self.inner.length();
        if n <= 1 {
            return Err(BSTError::Inner(FenwickTreeError::Empty));
        }
        Ok(self.inner.at(n - 1))
    }

    fn root(&self) -> (r: Result<&C::Output, BSTError>) {
        proof {
            self.inner.lemma_items_length();
            lemma_height_fits(self.inner.items().len());
            lemma_ceil_log2_bounds(self.inner.items().len());
        }
        let n: usize = self.inner.length();
        if n <= 1 {
            return Err(BSTError::Inner(FenwickTreeError::Empty));
        }
        let h: usize = crate::index::height(n);
        let i: usize = crate::index::root(h - 1);
        proof {
            lemma_pow2_pos((h - 1) as nat);
        }
        Ok(self.inner.at(i))
    }

    fn contains(&self, node: &C::Output) -> (r: Result<bool, BSTError>) {
        let res = self.locate(node);
        proof {
            self.lemma_located(key_of(*node), res);
        }
        match res {
            BSTWalkerResult::Existing(_) => Ok(true),
            BSTWalkerResult::New(_, _) => Ok(false),
        }
    }
}

impl<C> TreeReadMut for BST<C> where C: InsertableCollection, C::Output: Keyed {
    fn get_mut(&mut self, node: &C::Output) -> (r: Result<&mut C::Output, BSTError>) {
        let res = self.locate(node);
        proof {
            self.lemma_located(key_of(*node), res);
        }
        match res {
            BSTWalkerResult::Existing(i) => {
                let ghost v0 = self.nodes();
                let ghost s0 = self.inner.items();
                proof {
                    assert(v0[i - 1] == s0[i as int]);
                }
                proof {
                    lemma_slot_update(s0, i as int);
                }
                let x = self.inner.at_mut(i);
                proof {
                    assert(v0[i - 1] == *x);
                }
                Ok(x)
            },
            BSTWalkerResult::New(_, _) => Err(BSTError::KeyNotFound),
        }
    }

    fn first_mut(&mut self) -> (r: Result<&mut C::Output, BSTError>) {
        proof {
            self.inner.lemma_items_length();
        }
        if self.inner.length() <= 1 {
            return Err(BSTError::Inner(FenwickTreeError::Empty));
        }
        proof {
            lemma_slot_update(self.inner.items(), 1);
        }
        let x = self.inner.at_mut(1);
        Ok(x)
    }

    fn last_mut(&mut self) -> (r: Result<&mut C::Output, BSTError>) {
        proof {
            self.inner.lemma_items_length();
        }
        let n: usize = self.inner.length();
        if n <= 1 {
            return Err(BSTError::Inner(FenwickTreeError::Empty));
        }
        proof {
            lemma_slot_update(self.inner.items(), n - 1);
        }
        let x = self.inner.at_mut(n - 1);
        Ok(x)
    }

    fn root_mut(&mut self) -> (r: Result<&mut C::Output, BSTError>) {
        proof {
            self.inner.lemma_items_length();
            lemma_height_fits(self.inner.items().len());
            lemma_ceil_log2_bounds(self.inner.items().len());
        }
        let n: usize = self.inner.length();
        if n <= 1 {
            return Err(BSTError::Inner(FenwickTreeError::Empty));
        }
        let h: usize = crate::index::height(n);
        let i: usize = crate::index::root(h - 1);
        proof {
            lemma_pow2_pos((h - 1) as nat);
        }
        proof {
            lemma_slot_update(self.inner.items(), i as int);
        }
        let x = self.inner.at_mut(i);
        Ok(x)
    }
}

impl<C> TreeWrite for BST<C> where C: InsertableCollection, C::Output: Keyed {
    open spec fn has_room(&self) -> bool {
        self.inner.spec_has_capacity()
    }

    fn insert(&mut self, node: C::Output) -> (r: Result<Option<C::Output>, BSTError>) {
        let res = self.locate(&node);
        let ghost k = key_of(node);
        let ghost v0 = self@;
        let ghost s0 = self.inner.items();
        proof {
            self.lemma_located(k, res);
        }
        match res {
            BSTWalkerResult::Existing(i) => {
                let prev = self.inner.replace(i, node);
                proof {
                    lemma_sorted_update(v0, i - 1, node);
                    assert(self@ =~= v0.update(i - 1, node));
                    assert(self.inner.items().subrange(0, 1) =~= s0.subrange(0, 1));
                    lemma_slots_sorted(self.inner.items());
                    assert(key_of(v0[i - 1]) == k && prev == v0[i - 1]);
                }
                Ok(Some(prev))
            },
            BSTWalkerResult::New(i, side) => {
                if !self.inner.has_capacity() {
                    return Err(BSTError::Inner(FenwickTreeError::Full));
                }
                let o: usize = i + side.bias();
                self.inner.insert(o, node);
                proof {
                    lemma_sorted_insert(v0, o - 1, node);
                    assert(self@ =~= v0.insert(o - 1, node));
                    assert(self.inner.items().subrange(0, 1) =~= s0.subrange(0, 1));
                    lemma_slots_sorted(self.inner.items());
                    assert(slot_for(v0, k, o - 1) && self@ == v0.insert(o - 1, node));
                }
                Ok(None)
            },
        }
    }

    fn delete(&mut self, node: &C::Output) -> (r: Result<C::Output, BSTError>) {
        proof {
            self.inner.lemma_items_length();
        }
        if self.inner.length() <= 1 {
            return Err(BSTError::Inner(FenwickTreeError::Empty));
        }
        let ghost s0 = self.inner.items();
        let res = self.locate(node);
        let ghost k = key_of(*node);
        let ghost v0 = self@;
        proof {
            self.lemma_located(k, res);
        }
        match res {
            BSTWalkerResult::Existing(i) => {
                let x = self.inner.remove(i);
                proof {
                    lemma_sorted_remove(v0, i - 1);
                    assert(self@ =~= v0.remove(i - 1));
                    assert(self.inner.items().subrange(0, 1) =~= s0.subrange(0, 1));
                    lemma_slots_sorted(self.inner.items());
                    assert(key_of(v0[i - 1]) == k && x == v0[i - 1]);
                }
                Ok(x)
            },
            BSTWalkerResult::New(_, _) => Err(BSTError::KeyNotFound),
        }
    }

    fn pop(&mut self) -> (r: Result<C::Output, BSTError>) {
        proof {
            self.inner.lemma_items_length();
        }
        let ghost v0 = self@;
        let ghost s0 = self.inner.items();
        let n: usize = self.inner.length();
        if n <= 1 {
            return Err(BSTError::Inner(FenwickTreeError::Empty));
        }
        let x = self.inner.remove(n - 1);
        proof {
            assert(self.inner.items().subrange(0, 1) =~= s0.subrange(0, 1));
            lemma_slots_sorted(self.inner.items().push(x));
            lemma_sorted_remove(v0, v0.len() - 1);
            assert(self@ =~= v0.remove(v0.len() - 1));
            assert(v0.remove(v0.len() - 1) =~= v0.drop_last());
            lemma_slots_sorted(self.inner.items());
        }
        Ok(x)
    }
}

} // verus!
