//! Walkers: cursors that move over the implicit tree of a container.

use vstd::prelude::*;
use vstd::arithmetic::power2::{pow2, lemma_pow2_unfold, lemma_pow2_pos};
use crate::index::{
    low_bit, side_of, type_of, ceil_log2, height, root, lemma_low_bit_shape,
    Direction, NodeSide, NodeType, IndexView, FenwickTreeError,
};
use crate::collection::{Length, IndexedCollection, IndexedCollectionMut};

verus! {

/// Where a move from index `i` lands in a tree over `length` slots; `None`
/// where the move is not allowed or the target does not fit in a `usize`.
pub open spec fn moved(i: nat, dir: Direction, length: nat) -> Option<nat> {
    let b = low_bit(i);
    let target: Option<int> = match dir {
        Direction::Up => {
            let p: int = if side_of(i) == NodeSide::Left { (i + b) as int } else { i - b };
            if p > length { None } else { Some(p) }
        },
        Direction::Down(side) => {
            if b <= 1 {
                None
            } else if side == NodeSide::Left {
                Some(i - b / 2)
            } else {
                Some((i + b / 2) as int)
            }
        },
        Direction::Left => if i <= 2 * b { None } else { Some(i - 2 * b) },
        Direction::Right => if i + b >= length { None } else { Some((i + 2 * b) as int) },
    };
    match target {
        Some(t) => if 0 <= t <= usize::MAX { Some(t as nat) } else { None },
        None => None,
    }
}

/// The other child of the parent of `i`.
pub open spec fn sibling_of(i: nat) -> int {
    if side_of(i) == NodeSide::Left {
        (i + 2 * low_bit(i)) as int
    } else {
        i - 2 * low_bit(i)
    }
}

/// An index that holds an element of a container of `length` slots.
pub open spec fn in_bounds(i: int, length: nat) -> bool {
    1 <= i < length
}

/// The lowest set bit of an index is at most the index.
pub proof fn lemma_low_bit_le(i: nat)
    ensures
        low_bit(i) <= i,
    decreases i,
{
    if i > 0 && i % 2 == 0 {
        lemma_low_bit_le(i / 2);
    }
}

/// The target of a move from the position `v`, computed without overflow.
pub fn step(v: &IndexView, dir: Direction, length: usize) -> (r: Option<usize>)
    requires
        v.wf(),
    ensures
        r == (match moved(v.index as nat, dir, length as nat) {
            Some(t) => Some(t as usize),
            None => None::<usize>,
        }),
{
    let i: usize = v.index;
    let b: usize = v.lsb;
    proof {
        lemma_low_bit_le(i as nat);
    }
    match dir {
        Direction::Up => {
            if NodeSide::from(i) == NodeSide::Left {
                if i > length || b > length - i {
                    None
                } else {
                    Some(i + b)
                }
            } else {
                if i - b > length {
                    None
                } else {
                    Some(i - b)
                }
            }
        },
        Direction::Down(side) => {
            if b <= 1 {
                None
            } else {
                match side {
                    NodeSide::Left => Some(i - b / 2),
                    NodeSide::Right => {
                        if b / 2 > usize::MAX - i {
                            None
                        } else {
                            Some(i + b / 2)
                        }
                    },
                }
            }
        },
        Direction::Left => {
            if i - b <= b {
                None
            } else {
                Some(i - b - b)
            }
        },
        Direction::Right => {
            if b >= length || i >= length - b {
                None
            } else if b > usize::MAX - i || b > usize::MAX - i - b {
                None
            } else {
                Some(i + b + b)
            }
        },
    }
}

/// The sibling of the position `v`, where it fits in a `usize`.
fn sibling_index(v: &IndexView) -> (r: Option<usize>)
    requires
        v.wf(),
    ensures
        r == (if 0 <= sibling_of(v.index as nat) <= usize::MAX {
            Some(sibling_of(v.index as nat) as usize)
        } else {
            None::<usize>
        }),
{
    let i: usize = v.index;
    let b: usize = v.lsb;
    proof {
        lemma_low_bit_le(i as nat);
    }
    if NodeSide::from(i) == NodeSide::Left {
        if b > usize::MAX - i || b > usize::MAX - i - b {
            None
        } else {
            Some(i + b + b)
        }
    } else {
        if b > i - b {
            None
        } else {
            Some(i - b - b)
        }
    }
}

/// A cursor over the implicit tree of a number of slots: it moves by index
/// arithmetic, and reads what lies at an index.
pub trait TreeWalker: Sized {
    /// What a read hands out.
    type Output;

    /// The current position.
    spec fn spec_position(&self) -> IndexView;

    /// The number of slots walked over, the reserved slot 0 included.
    spec fn spec_slots(&self) -> nat;

    /// What a read of the in-bounds index `i` hands out.
    spec fn spec_read(&self, i: int) -> Self::Output;

    /// What lies one move away, where the move is allowed.
    fn peek(&self, direction: Direction) -> (r: Result<Self::Output, FenwickTreeError>)
        requires
            self.spec_position().wf() && self.spec_position().index > 0,
        ensures
            r == (match moved(self.spec_position().index as nat, direction, self.spec_slots()) {
                Some(t) => (if in_bounds(t as int, self.spec_slots()) {
                    Ok(self.spec_read(t as int))
                } else {
                    Err(FenwickTreeError::OutOfBounds { index: (t as int) as usize, length: self.spec_slots() as usize })
                }),
                None => Err(FenwickTreeError::OutOfBounds {
                    index: self.spec_position().index,
                    length: self.spec_slots() as usize,
                }),
            }),
    ;

    /// What lies at `path`.
    fn probe(&self, path: usize) -> (r: Result<Self::Output, FenwickTreeError>)
        ensures
            r == (if in_bounds(path as int, self.spec_slots()) {
                    Ok(self.spec_read(path as int))
                } else {
                    Err(FenwickTreeError::OutOfBounds { index: (path as int) as usize, length: self.spec_slots() as usize })
                }),
    ;

    /// What lies at the current index.
    fn current(&self) -> (r: Result<Self::Output, FenwickTreeError>)
        ensures
            r == (if in_bounds(self.spec_position().index as int, self.spec_slots()) {
                    Ok(self.spec_read(self.spec_position().index as int))
                } else {
                    Err(FenwickTreeError::OutOfBounds { index: (self.spec_position().index as int) as usize, length: self.spec_slots() as usize })
                }),
    ;

    /// What lies at the sibling of the current index.
    fn sibling(&self) -> (r: Result<Self::Output, FenwickTreeError>)
        requires
            self.spec_position().wf() && self.spec_position().index > 0,
        ensures
            r == (if 0 <= sibling_of(self.spec_position().index as nat) <= usize::MAX {
                (if in_bounds(sibling_of(self.spec_position().index as nat), self.spec_slots()) {
                    Ok(self.spec_read(sibling_of(self.spec_position().index as nat)))
                } else {
                    Err(FenwickTreeError::OutOfBounds { index: (sibling_of(self.spec_position().index as nat)) as usize, length: self.spec_slots() as usize })
                })
            } else {
                Err(FenwickTreeError::OutOfBounds {
                    index: self.spec_position().index,
                    length: self.spec_slots() as usize,
                })
            }),
    ;

    /// Makes one move; where it is not allowed, stays put and fails.
    fn traverse(&mut self, direction: Direction) -> (r: Result<(), FenwickTreeError>)
        requires
            old(self).spec_position().wf() && old(self).spec_position().index > 0,
        ensures
            final(self).spec_position().wf() && final(self).spec_position().index > 0,
            final(self).spec_slots() == old(self).spec_slots(),
            match moved(old(self).spec_position().index as nat, direction, old(self).spec_slots()) {
                Some(t) => r is Ok && final(self).spec_position().index == t,
                None => r == Err::<(), FenwickTreeError>(FenwickTreeError::OutOfBounds {
                    index: old(self).spec_position().index,
                    length: old(self).spec_slots() as usize,
                }) && final(self).spec_position() == old(self).spec_position(),
            },
    ;

    /// Jumps to `path`, where it is in bounds.
    fn seek(&mut self, path: usize) -> (r: Result<(), FenwickTreeError>)
        requires
            old(self).spec_position().wf() && old(self).spec_position().index > 0,
        ensures
            final(self).spec_position().wf() && final(self).spec_position().index > 0,
            final(self).spec_slots() == old(self).spec_slots(),
            in_bounds(path as int, old(self).spec_slots()) ==> r is Ok && final(self).spec_position().index
                == path,
            !in_bounds(path as int, old(self).spec_slots()) ==> r == Err::<(), FenwickTreeError>(
                FenwickTreeError::OutOfBounds { index: path, length: old(self).spec_slots() as usize },
            ) && final(self).spec_position() == old(self).spec_position(),
    ;

    /// Goes back to the implicit root, `2^height(slots)`.
    fn reset(&mut self)
        requires
            ceil_log2(old(self).spec_slots()) < usize::BITS,
        ensures
            final(self).spec_position().wf() && final(self).spec_position().index > 0,
            final(self).spec_slots() == old(self).spec_slots(),
            final(self).spec_position().index == pow2(ceil_log2(old(self).spec_slots())),
    ;

    /// Whether the current index is a leaf or an inner node.
    fn node_type(&self) -> (r: NodeType)
        ensures
            r == type_of(self.spec_position().index as nat),
    ;

    /// The side of its parent on which the current index hangs.
    fn node_side(&self) -> (r: NodeSide)
        ensures
            r == side_of(self.spec_position().index as nat),
    ;
}

/// A walker over a length alone: it moves over indices and hands them out.
#[derive(Debug, Clone)]
pub struct VirtualTreeView {
    pub length: usize,
    pub curr: IndexView,
}

/// A walker over a borrowed container: it hands out the elements it reaches.
#[derive(Debug)]
pub struct StatefulTreeView<'a, C> {
    pub collection: &'a C,
    pub curr: IndexView,
}

impl VirtualTreeView {
    /// The position is consistent and not the reserved index 0.
    pub open spec fn wf(&self) -> bool {
        self.curr.wf() && self.curr.index > 0
    }

    /// A walker at `index` over `collection`'s length; index 0 is refused.
    pub fn new<L: Length>(collection: &L, index: usize) -> (r: Result<VirtualTreeView, FenwickTreeError>)
        ensures
            index == 0 ==> r == Err::<VirtualTreeView, FenwickTreeError>(
                FenwickTreeError::OutOfBounds { index: 0, length: collection.spec_length() as usize },
            ),
            index > 0 ==> (r matches Ok(w) && w.wf() && w.curr.index == index && w.length
                == collection.spec_length()),
    {
        let length: usize = collection.length();
        if index == 0 {
            return Err(FenwickTreeError::OutOfBounds { index: 0, length });
        }
        Ok(VirtualTreeView { length, curr: IndexView::new(index) })
    }

    pub fn index(&self) -> (r: usize)
        ensures
            r == self.curr.index,
    {
        self.curr.index
    }

    pub fn lsb(&self) -> (r: usize)
        ensures
            r == self.curr.lsb,
    {
        self.curr.lsb
    }

    fn checked(&self, index: usize) -> (r: Result<usize, FenwickTreeError>)
        ensures
            r == (if in_bounds(index as int, self.length as nat) {
                Ok::<usize, FenwickTreeError>(index)
            } else {
                Err(FenwickTreeError::OutOfBounds { index, length: self.length })
            }),
    {
        if index > 0 && index < self.length {
            Ok(index)
        } else {
            Err(FenwickTreeError::OutOfBounds { index, length: self.length })
        }
    }
}

impl TreeWalker for VirtualTreeView {
    /// An index.
    type Output = usize;

    open spec fn spec_position(&self) -> IndexView {
        self.curr
    }

    open spec fn spec_slots(&self) -> nat {
        self.length as nat
    }

    open spec fn spec_read(&self, i: int) -> usize {
        i as usize
    }

    fn peek(&self, direction: Direction) -> (r: Result<usize, FenwickTreeError>) {
        match step(&self.curr, direction, self.length) {
            Some(t) => self.checked(t),
            None => Err(FenwickTreeError::OutOfBounds { index: self.curr.index, length: self.length }),
        }
    }

    fn probe(&self, path: usize) -> (r: Result<usize, FenwickTreeError>) {
        self.checked(path)
    }

    fn current(&self) -> (r: Result<usize, FenwickTreeError>) {
        self.checked(self.curr.index)
    }

    fn sibling(&self) -> (r: Result<usize, FenwickTreeError>) {
        match sibling_index(&self.curr) {
            Some(t) => self.checked(t),
            None => Err(FenwickTreeError::OutOfBounds { index: self.curr.index, length: self.length }),
        }
    }

    fn traverse(&mut self, direction: Direction) -> (r: Result<(), FenwickTreeError>) {
        match step(&self.curr, direction, self.length) {
            Some(t) => {
                proof {
                    lemma_move_positive(self.curr.index as nat, direction, self.length as nat);
                }
                self.curr.update(t);
                Ok(())
            },
            None => Err(FenwickTreeError::OutOfBounds { index: self.curr.index, length: self.length }),
        }
    }

    fn seek(&mut self, path: usize) -> (r: Result<(), FenwickTreeError>) {
        if path > 0 && path < self.length {
            self.curr.update(path);
            Ok(())
        } else {
            Err(FenwickTreeError::OutOfBounds { index: path, length: self.length })
        }
    }

    fn reset(&mut self) {
        let r: usize = root(height(self.length));
        proof {
            lemma_pow2_pos(ceil_log2(self.length as nat));
        }
        self.curr.update(r);
    }

    fn node_type(&self) -> (r: NodeType) {
        NodeType::from(self.curr.index)
    }

    fn node_side(&self) -> (r: NodeSide) {
        NodeSide::from(self.curr.index)
    }
}

impl Length for VirtualTreeView {
    open spec fn spec_length(&self) -> nat {
        self.length as nat
    }

    fn length(&self) -> (r: usize) {
        self.length
    }
}

impl<'a, C: IndexedCollection> StatefulTreeView<'a, C> {
    /// The position is consistent and not the reserved index 0.
    pub open spec fn wf(&self) -> bool {
        self.curr.wf() && self.curr.index > 0
    }

    /// The elements of the container walked over.
    pub open spec fn items(&self) -> Seq<C::Output> {
        self.collection.items()
    }

    /// A walker at `index` over `collection`; index 0 is refused.
    pub fn new(collection: &'a C, index: usize) -> (r: Result<StatefulTreeView<'a, C>, FenwickTreeError>)
        ensures
            index == 0 ==> r == Err::<StatefulTreeView<'a, C>, FenwickTreeError>(
                FenwickTreeError::OutOfBounds { index: 0, length: collection.items().len() as usize },
            ),
            index > 0 ==> (r matches Ok(w) && w.wf() && w.curr.index == index && w.collection
                == collection),
    {
        if index == 0 {
            proof {
                collection.lemma_items_length();
            }
            return Err(FenwickTreeError::OutOfBounds { index: 0, length: collection.length() });
        }
        Ok(StatefulTreeView { collection, curr: IndexView::new(index) })
    }

    pub fn index(&self) -> (r: usize)
        ensures
            r == self.curr.index,
    {
        self.curr.index
    }

    pub fn lsb(&self) -> (r: usize)
        ensures
            r == self.curr.lsb,
    {
        self.curr.lsb
    }

    fn element(&self, index: usize) -> (r: Result<&'a C::Output, FenwickTreeError>)
        ensures
            r == (if in_bounds(index as int, self.items().len()) {
                Ok::<&C::Output, FenwickTreeError>(&self.items()[index as int])
            } else {
                Err(FenwickTreeError::OutOfBounds { index, length: self.items().len() as usize })
            }),
    {
        proof {
            self.collection.lemma_items_length();
        }
        let length: usize = self.collection.length();
        if index > 0 && index < length {
            Ok(self.collection.at(index))
        } else {
            Err(FenwickTreeError::OutOfBounds { index, length })
        }
    }
}

impl<'a, C: IndexedCollection> TreeWalker for StatefulTreeView<'a, C> {
    /// A reference to an element of the container.
    type Output = &'a C::Output;

    open spec fn spec_position(&self) -> IndexView {
        self.curr
    }

    open spec fn spec_slots(&self) -> nat {
        self.collection.items().len()
    }

    open spec fn spec_read(&self, i: int) -> &'a C::Output {
        &self.collection.items()[i]
    }

    fn peek(&self, direction: Direction) -> (r: Result<&'a C::Output, FenwickTreeError>) {
        proof {
            self.collection.lemma_items_length();
        }
        match step(&self.curr, direction, self.collection.length()) {
            Some(t) => self.element(t),
            None => Err(FenwickTreeError::OutOfBounds { index: self.curr.index, length: self.collection.length() }),
        }
    }

    fn probe(&self, path: usize) -> (r: Result<&'a C::Output, FenwickTreeError>) {
        self.element(path)
    }

    fn current(&self) -> (r: Result<&'a C::Output, FenwickTreeError>) {
        self.element(self.curr.index)
    }

    fn sibling(&self) -> (r: Result<&'a C::Output, FenwickTreeError>) {
        proof {
            self.collection.lemma_items_length();
        }
        match sibling_index(&self.curr) {
            Some(t) => self.element(t),
            None => Err(FenwickTreeError::OutOfBounds { index: self.curr.index, length: self.collection.length() }),
        }
    }

    fn traverse(&mut self, direction: Direction) -> (r: Result<(), FenwickTreeError>)
        ensures
            final(self).collection == old(self).collection,
    {
        proof {
            self.collection.lemma_items_length();
        }
        match step(&self.curr, direction, self.collection.length()) {
            Some(t) => {
                proof {
                    lemma_move_positive(self.curr.index as nat, direction, self.items().len());
                }
                self.curr.update(t);
                Ok(())
            },
            None => Err(FenwickTreeError::OutOfBounds { index: self.curr.index, length: self.collection.length() }),
        }
    }

    fn seek(&mut self, path: usize) -> (r: Result<(), FenwickTreeError>)
        ensures
            final(self).collection == old(self).collection,
    {
        proof {
            self.collection.lemma_items_length();
        }
        if path > 0 && path < self.collection.length() {
            self.curr.update(path);
            Ok(())
        } else {
            Err(FenwickTreeError::OutOfBounds { index: path, length: self.collection.length() })
        }
    }

    fn reset(&mut self)
        ensures
            final(self).collection == old(self).collection,
    {
        proof {
            self.collection.lemma_items_length();
            lemma_pow2_pos(ceil_log2(self.items().len()));
        }
        let r: usize = root(height(self.collection.length()));
        self.curr.update(r);
    }

    fn node_type(&self) -> (r: NodeType) {
        NodeType::from(self.curr.index)
    }

    fn node_side(&self) -> (r: NodeSide) {
        NodeSide::from(self.curr.index)
    }
}

impl<'a, C: IndexedCollection> Length for StatefulTreeView<'a, C> {
    open spec fn spec_length(&self) -> nat {
        self.collection.spec_length()
    }

    fn length(&self) -> (r: usize) {
        self.collection.length()
    }
}

/// What lies at index `i` of a walk over `length` slots: the index itself
/// where it is in bounds, else `OutOfBounds`.
pub open spec fn index_at(length: nat, i: int) -> Result<usize, FenwickTreeError> {
    if in_bounds(i, length) {
        Ok(i as usize)
    } else {
        Err(FenwickTreeError::OutOfBounds { index: i as usize, length: length as usize })
    }
}

/// What lies one move away from `pos` in a walk over `length` slots.
pub open spec fn index_moved(pos: IndexView, direction: Direction, length: nat) -> Result<usize, FenwickTreeError> {
    match moved(pos.index as nat, direction, length) {
        Some(t) => index_at(length, t as int),
        None => Err(FenwickTreeError::OutOfBounds { index: pos.index, length: length as usize }),
    }
}

/// What lies at the sibling of `pos` in a walk over `length` slots.
pub open spec fn index_of_sibling(pos: IndexView, length: nat) -> Result<usize, FenwickTreeError> {
    if 0 <= sibling_of(pos.index as nat) <= usize::MAX {
        index_at(length, sibling_of(pos.index as nat))
    } else {
        Err(FenwickTreeError::OutOfBounds { index: pos.index, length: length as usize })
    }
}

/// A walker over a mutably borrowed container: it hands out mutable
/// references to the elements it reaches. It moves by its `view`, a walker
/// over the container's length.
#[derive(Debug)]
pub struct StatefulTreeViewMut<'a, C> {
    pub collection: &'a mut C,
    pub view: VirtualTreeView,
}

impl<'a, C: IndexedCollectionMut> StatefulTreeViewMut<'a, C> {
    /// The position is consistent and walks over the container's length.
    pub open spec fn wf(&self) -> bool {
        self.view.wf() && self.view.length == self.collection.items().len()
    }

    /// The elements of the container walked over.
    pub open spec fn items(&self) -> Seq<C::Output> {
        self.collection.items()
    }

    /// A walker at `index` over `collection`; index 0 is refused.
    pub fn new(collection: &'a mut C, index: usize) -> (r: Result<StatefulTreeViewMut<'a, C>, FenwickTreeError>)
        ensures
            index == 0 ==> r == Err::<StatefulTreeViewMut<'a, C>, FenwickTreeError>(
                FenwickTreeError::OutOfBounds { index: 0, length: old(collection).items().len() as usize },
            ),
            index > 0 ==> (r matches Ok(w) && w.wf() && w.view.curr.index == index && *w.collection
                == *old(collection) && *final(w.collection) == *final(collection)),
    {
        proof {
            collection.lemma_items_length();
        }
        let length: usize = collection.length();
        if index == 0 {
            return Err(FenwickTreeError::OutOfBounds { index: 0, length });
        }
        Ok(StatefulTreeViewMut { collection, view: VirtualTreeView { length, curr: IndexView::new(index) } })
    }

    pub fn index(&self) -> (r: usize)
        ensures
            r == self.view.curr.index,
    {
        self.view.curr.index
    }

    pub fn lsb(&self) -> (r: usize)
        ensures
            r == self.view.curr.lsb,
    {
        self.view.curr.lsb
    }

    fn reach(&mut self, at: Result<usize, FenwickTreeError>) -> (r: Result<&mut C::Output, FenwickTreeError>)
        requires
            old(self).wf(),
            at matches Ok(i) ==> in_bounds(i as int, old(self).items().len()),
        ensures
            final(self).view == old(self).view,
            *final(final(self).collection) == *final(old(self).collection),
            match at {
                Ok(i) => r matches Ok(x) && *x == old(self).items()[i as int] && final(self).items()
                    == old(self).items().update(i as int, *final(x)),
                Err(e) => r == Err::<&mut C::Output, FenwickTreeError>(e) && final(self).items()
                    == old(self).items(),
            },
    {
        match at {
            Ok(i) => Ok(self.collection.at_mut(i)),
            Err(e) => Err(e),
        }
    }

    /// A mutable reference to the element at the current index, where it is
    /// in bounds.
    pub fn current_mut(&mut self) -> (r: Result<&mut C::Output, FenwickTreeError>)
        requires
            old(self).wf(),
        ensures
            final(self).view == old(self).view,
            *final(final(self).collection) == *final(old(self).collection),
            match index_at(old(self).view.length as nat, old(self).view.curr.index as int) {
                Ok(i) => r matches Ok(x) && *x == old(self).items()[i as int] && final(self).items()
                    == old(self).items().update(i as int, *final(x)),
                Err(e) => r == Err::<&mut C::Output, FenwickTreeError>(e) && final(self).items()
                    == old(self).items(),
            },
    {
        let at = self.view.current();
        self.reach(at)
    }

    /// A mutable reference to the element at `path`, where it is in bounds.
    pub fn probe_mut(&mut self, path: usize) -> (r: Result<&mut C::Output, FenwickTreeError>)
        requires
            old(self).wf(),
        ensures
            final(self).view == old(self).view,
            *final(final(self).collection) == *final(old(self).collection),
            match index_at(old(self).view.length as nat, path as int) {
                Ok(i) => r matches Ok(x) && *x == old(self).items()[i as int] && final(self).items()
                    == old(self).items().update(i as int, *final(x)),
                Err(e) => r == Err::<&mut C::Output, FenwickTreeError>(e) && final(self).items()
                    == old(self).items(),
            },
    {
        let at = self.view.probe(path);
        self.reach(at)
    }

    /// A mutable reference to the element one move away, where the move is
    /// allowed and lands in bounds.
    pub fn peek_mut(&mut self, direction: Direction) -> (r: Result<&mut C::Output, FenwickTreeError>)
        requires
            old(self).wf(),
        ensures
            final(self).view == old(self).view,
            *final(final(self).collection) == *final(old(self).collection),
            match index_moved(old(self).view.curr, direction, old(self).view.length as nat) {
                Ok(i) => r matches Ok(x) && *x == old(self).items()[i as int] && final(self).items()
                    == old(self).items().update(i as int, *final(x)),
                Err(e) => r == Err::<&mut C::Output, FenwickTreeError>(e) && final(self).items()
                    == old(self).items(),
            },
    {
        let at = self.view.peek(direction);
        self.reach(at)
    }

    /// A mutable reference to the element at the sibling, where it is in
    /// bounds.
    pub fn sibling_mut(&mut self) -> (r: Result<&mut C::Output, FenwickTreeError>)
        requires
            old(self).wf(),
        ensures
            final(self).view == old(self).view,
            *final(final(self).collection) == *final(old(self).collection),
            match index_of_sibling(old(self).view.curr, old(self).view.length as nat) {
                Ok(i) => r matches Ok(x) && *x == old(self).items()[i as int] && final(self).items()
                    == old(self).items().update(i as int, *final(x)),
                Err(e) => r == Err::<&mut C::Output, FenwickTreeError>(e) && final(self).items()
                    == old(self).items(),
            },
    {
        let at = self.view.sibling();
        self.reach(at)
    }
}

/// A move that is allowed from a positive index lands on a positive index.
pub proof fn lemma_move_positive(i: nat, dir: Direction, length: nat)
    requires
        i > 0,
    ensures
        moved(i, dir, length) matches Some(t) ==> t > 0,
{
    let k = lemma_low_bit_shape(i);
    let m = i / pow2(k);
    let b = low_bit(i);
    lemma_pow2_pos(k);
    lemma_low_bit_le(i);
    if k > 0 {
        lemma_pow2_unfold(k);
    }
    match dir {
        Direction::Up => {
            if side_of(i) == NodeSide::Right {
                // i is at least three times its lowest bit
                assert(m >= 3) by {
                    assert(i / (2 * b) == m / 2) by {
                        vstd::arithmetic::div_mod::lemma_div_denominator(i as int, b as int, 2);
                    }
                }
                assert(i >= 3 * b) by (nonlinear_arith)
                    requires i == m * b, m >= 3, b > 0;
            }
        },
        Direction::Down(side) => {
            if b > 1 {
                assert(b / 2 < b);
            }
        },
        _ => {},
    }
}

} // verus!
