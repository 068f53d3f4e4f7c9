use arborist::{
    BSTError, BSTSet, BSTSetConst, BSTWalker, BSTWalkerResult, FenwickTreeError, Height, IndexedCollection,
    InsertableCollection, Length, TreeRead, TreeReadMut, TreeWrite,
};

const BST_SIZE: usize = 16;

/// A reproducible stream of pseudo-random keys.
struct ArgGen {
    seed: u64,
    state: u64,
    arg: usize,
}

impl ArgGen {
    fn new(seed: u64) -> Self {
        Self { seed, state: seed, arg: 0 }
    }

    fn gen(&mut self) {
        self.state = self.state.wrapping_add(0x9E37_79B9_7F4A_7C15);
        let mut z: u64 = self.state;
        z = (z ^ (z >> 30)).wrapping_mul(0xBF58_476D_1CE4_E5B9);
        z = (z ^ (z >> 27)).wrapping_mul(0x94D0_49BB_1331_11EB);
        self.arg = (z ^ (z >> 31)) as usize;
    }

    fn reset(&mut self) {
        self.state = self.seed;
        self.arg = 0;
    }

    fn arg(&self) -> usize {
        self.arg
    }
}

fn construct(gen: &mut ArgGen) -> BSTSet<usize> {
    let mut bst: BSTSet<usize> = BSTSet::new();
    for _ in 1..BST_SIZE {
        gen.gen();
        assert_eq!(bst.insert(gen.arg()), Ok(None));
    }
    bst
}

fn construct_const(gen: &mut ArgGen) -> BSTSetConst<usize, BST_SIZE> {
    let mut bst: BSTSetConst<usize, BST_SIZE> = BSTSetConst::new();
    for _ in 1..BST_SIZE {
        gen.gen();
        assert_eq!(bst.insert(gen.arg()), Ok(None));
    }
    bst
}

#[test]
fn bst_bstwalker_new() {
    {
        let empty_collection: Vec<usize> = vec![0; 0];
        let walker: BSTWalker<Vec<usize>> = BSTWalker::new(&empty_collection).unwrap();
        assert_eq!(walker.view.index(), 1);
    }
    {
        let collection: Vec<usize> = vec![0; 9];
        let walker: BSTWalker<Vec<usize>> = BSTWalker::new(&collection).unwrap();
        assert_eq!(walker.view.index(), 16);
    }
    {
        let collection: Vec<usize> = vec![0; 16];
        let walker: BSTWalker<Vec<usize>> = BSTWalker::new(&collection).unwrap();
        assert_eq!(walker.view.index(), 16);
    }
}

#[test]
fn bstwalker_starts_at_one_on_empty_tree() {
    let collection: Vec<usize> = vec![0; 1];
    let walker: BSTWalker<Vec<usize>> = BSTWalker::new(&collection).unwrap();
    assert_eq!(walker.view.index(), 1);
}

#[test]
fn bst_bstwalker_allocate() {
    // Powers of two, starting from 4
    let collection: Vec<usize> = (0..BST_SIZE).map(|i: usize| 1usize << (i + 2)).collect();
    let mut walker: BSTWalker<Vec<usize>> = BSTWalker::new(&collection).unwrap();

    let mut index: usize = 1;
    // Slot 0 is reserved
    for element in &collection[1..collection.len()] {
        assert_eq!(walker.allocate(element), BSTWalkerResult::Existing(index));
        walker.reset();

        // Smaller keys go in at the current index
        match walker.allocate(&(element - 1)) {
            BSTWalkerResult::New(allocated, side) => assert_eq!(allocated + side as usize, index),
            _ => panic!("Unexpected enum result"),
        }
        walker.reset();

        // Larger keys go in one after it
        match walker.allocate(&(element + 1)) {
            BSTWalkerResult::New(allocated, side) => assert_eq!(allocated + side as usize, index + 1),
            _ => panic!("Unexpected enum result"),
        }
        walker.reset();

        index += 1;
    }
}

#[test]
fn bstwalker_result_offset() {
    let collection: Vec<usize> = vec![0, 10, 20, 30];
    let mut walker: BSTWalker<Vec<usize>> = BSTWalker::new(&collection).unwrap();
    assert_eq!(walker.allocate(&25).offset(), 3);
    walker.reset();
    assert_eq!(walker.allocate(&35).offset(), 4);
    walker.reset();
    assert_eq!(walker.allocate(&5).offset(), 1);
    walker.reset();
    assert_eq!(walker.allocate(&20), BSTWalkerResult::Existing(2));
    assert_eq!(BSTWalkerResult::Existing(2).offset(), 2);
}

#[test]
fn bst_bstwalker_find() {
    let collection: Vec<usize> = (0..BST_SIZE).collect();
    let mut walker: BSTWalker<Vec<usize>> = BSTWalker::new(&collection).unwrap();

    let mut index: usize = 1;
    for element in &collection[1..collection.len()] {
        assert_eq!(walker.find(element), Ok(index));
        walker.reset();
        index += 1;
    }

    assert_eq!(walker.find(&0), Err(BSTError::KeyNotFound));
    walker.reset();
    assert_eq!(walker.find(&(collection.last().unwrap() + 1)), Err(BSTError::KeyNotFound));
}

#[test]
fn find_on_empty_tree_fails() {
    let collection: Vec<usize> = vec![0; 1];
    let mut walker: BSTWalker<Vec<usize>> = BSTWalker::new(&collection).unwrap();
    assert_eq!(walker.find(&0), Err(BSTError::KeyNotFound));
    walker.reset();
    assert_eq!(walker.find(&12345), Err(BSTError::KeyNotFound));
    let bst: BSTSet<usize> = BSTSet::new();
    assert_eq!(bst.get(&7), Err(BSTError::KeyNotFound));
    assert_eq!(bst.contains(&7), Ok(false));
}

#[test]
fn bst_insert() {
    for round in 0..5u64 {
        let mut gen: ArgGen = ArgGen::new(round + 1);
        let mut bst: BSTSet<usize> = BSTSet::new();

        for _ in 1..BST_SIZE {
            gen.gen();
            assert_eq!(bst.insert(gen.arg()), Ok(None));
            assert_eq!(bst.insert(gen.arg()), Ok(Some(gen.arg())));
        }

        assert_eq!(bst.length(), BST_SIZE - 1);
        assert_eq!(bst.height(), 4);

        let inner = bst.inner();
        for i in 1..inner.length() - 1 {
            assert!(inner[i] < inner[i + 1]);
        }
    }
}

#[test]
fn bst_insert_const() {
    for round in 0..5u64 {
        let mut gen: ArgGen = ArgGen::new(round + 11);
        let mut bst: BSTSetConst<usize, BST_SIZE> = BSTSetConst::new();

        for _ in 1..BST_SIZE {
            gen.gen();
            assert_eq!(bst.insert(gen.arg()), Ok(None));
            assert_eq!(bst.insert(gen.arg()), Ok(Some(gen.arg())));
        }

        assert_eq!(bst.length(), BST_SIZE - 1);
        assert_eq!(bst.height(), 4);

        let inner = bst.inner();
        for i in 1..inner.length() - 1 {
            assert!(inner.at(i) < inner.at(i + 1));
        }

        gen.gen();
        assert_eq!(bst.insert(gen.arg()), Err(BSTError::Inner(FenwickTreeError::Full)));
    }
}

#[test]
fn full_container_is_left_unchanged() {
    let mut bst: BSTSetConst<usize, 4> = BSTSetConst::new();
    assert_eq!(bst.insert(20), Ok(None));
    assert_eq!(bst.insert(10), Ok(None));
    assert_eq!(bst.insert(30), Ok(None));
    let before: Vec<usize> = (1..bst.inner().length()).map(|i: usize| *bst.inner().at(i)).collect();
    assert_eq!(bst.insert(25), Err(BSTError::Inner(FenwickTreeError::Full)));
    let after: Vec<usize> = (1..bst.inner().length()).map(|i: usize| *bst.inner().at(i)).collect();
    assert_eq!(before, vec![10, 20, 30]);
    assert_eq!(after, before);
    assert_eq!(bst.length(), 3);
    // A key already present is still replaced
    assert_eq!(bst.insert(20), Ok(Some(20)));
    assert_eq!(bst.inner().capacity(), 4);
}

#[test]
fn bst_delete() {
    let mut gen: ArgGen = ArgGen::new(21);
    let mut bst: BSTSet<usize> = construct(&mut gen);

    gen.reset();
    for _ in 1..BST_SIZE {
        gen.gen();
        assert_eq!(bst.delete(&gen.arg()), Ok(gen.arg()));
    }

    assert_eq!(bst.delete(&0), Err(BSTError::Inner(FenwickTreeError::Empty)));
    assert_eq!(bst.length(), 0);
    assert_eq!(bst.height(), 0);
}

#[test]
fn bst_delete_const() {
    let mut gen: ArgGen = ArgGen::new(22);
    let mut bst: BSTSetConst<usize, BST_SIZE> = construct_const(&mut gen);

    gen.reset();
    for _ in 1..BST_SIZE {
        gen.gen();
        assert_eq!(bst.delete(&gen.arg()), Ok(gen.arg()));
    }

    assert_eq!(bst.delete(&0), Err(BSTError::Inner(FenwickTreeError::Empty)));
    assert_eq!(bst.length(), 0);
    assert_eq!(bst.height(), 0);
}

#[test]
fn bst_get() {
    let mut gen: ArgGen = ArgGen::new(31);
    let bst: BSTSet<usize> = construct(&mut gen);

    gen.reset();
    for _ in 1..BST_SIZE {
        gen.gen();
        assert_eq!(bst.get(&gen.arg()), Ok(&gen.arg()));
    }

    assert_eq!(bst.get(&0), Err(BSTError::KeyNotFound));
    gen.gen();
    assert_eq!(bst.get(&gen.arg()), Err(BSTError::KeyNotFound));
}

#[test]
fn bst_get_const() {
    let mut gen: ArgGen = ArgGen::new(32);
    let bst: BSTSetConst<usize, BST_SIZE> = construct_const(&mut gen);

    gen.reset();
    for _ in 1..BST_SIZE {
        gen.gen();
        assert_eq!(bst.get(&gen.arg()), Ok(&gen.arg()));
    }

    assert_eq!(bst.get(&0), Err(BSTError::KeyNotFound));
    gen.gen();
    assert_eq!(bst.get(&gen.arg()), Err(BSTError::KeyNotFound));
}

#[test]
fn bst_get_mut() {
    let mut gen: ArgGen = ArgGen::new(41);
    let mut bst: BSTSet<usize> = construct(&mut gen);

    gen.reset();
    for _ in 1..BST_SIZE {
        gen.gen();
        let mut expected: usize = gen.arg();
        assert_eq!(bst.get_mut(&gen.arg()), Ok(&mut expected));
    }

    assert_eq!(bst.get_mut(&0), Err(BSTError::KeyNotFound));
    gen.gen();
    assert_eq!(bst.get_mut(&gen.arg()), Err(BSTError::KeyNotFound));
}

#[test]
fn bst_contains() {
    let mut gen: ArgGen = ArgGen::new(51);
    let bst: BSTSet<usize> = construct(&mut gen);

    gen.reset();
    for _ in 1..BST_SIZE {
        gen.gen();
        assert_eq!(bst.contains(&gen.arg()), Ok(true));
    }

    assert_eq!(bst.contains(&0), Ok(false));
    gen.gen();
    assert_eq!(bst.contains(&gen.arg()), Ok(false));
}

#[test]
fn bst_pop() {
    let mut gen: ArgGen = ArgGen::new(61);
    let mut bst: BSTSetConst<usize, BST_SIZE> = construct_const(&mut gen);
    let mut inner = bst.inner_mut().clone();

    for _ in 1..BST_SIZE {
        let last: usize = inner.length() - 1;
        assert_eq!(bst.pop(), Ok(inner.remove(last)));
    }

    assert_eq!(bst.pop(), Err(BSTError::Inner(FenwickTreeError::Empty)));
}

#[test]
fn bst_pop_growable() {
    let mut gen: ArgGen = ArgGen::new(62);
    let mut bst: BSTSet<usize> = construct(&mut gen);
    let mut inner: Vec<usize> = bst.inner_mut().clone();

    for _ in 1..BST_SIZE {
        assert_eq!(bst.pop(), Ok(inner.pop().unwrap()));
    }

    assert_eq!(bst.pop(), Err(BSTError::Inner(FenwickTreeError::Empty)));
    assert_eq!(bst.length(), 0);
}

#[test]
fn end_to_end_fifteen_keys() {
    let mut bst: BSTSet<usize> = BSTSet::new();
    for key in [8usize, 4, 12, 2, 6, 10, 14, 1, 3, 5, 7, 9, 11, 13, 15] {
        assert_eq!(bst.insert(key), Ok(None));
    }
    assert_eq!(bst.length(), 15);
    assert_eq!(bst.height(), 4);
    let inner: &Vec<usize> = bst.inner();
    let values: Vec<usize> = (1..=15).map(|i: usize| inner[i]).collect();
    assert_eq!(values, (1..=15).collect::<Vec<usize>>());
    assert_eq!(bst.get(&8), Ok(&8));
    assert_eq!(bst.get(&16), Err(BSTError::KeyNotFound));
    assert_eq!(bst.first(), Ok(&1));
    assert_eq!(bst.last(), Ok(&15));
    assert_eq!(bst.root(), Ok(&8));
}

#[test]
fn empty_tree_boundaries() {
    let mut bst: BSTSet<usize> = BSTSet::new();
    assert_eq!(bst.length(), 0);
    assert_eq!(bst.height(), 0);
    assert_eq!(bst.inner().length(), 1);
    assert_eq!(bst.pop(), Err(BSTError::Inner(FenwickTreeError::Empty)));
    assert_eq!(bst.delete(&3), Err(BSTError::Inner(FenwickTreeError::Empty)));
    assert_eq!(bst.first(), Err(BSTError::Inner(FenwickTreeError::Empty)));
    assert_eq!(bst.last(), Err(BSTError::Inner(FenwickTreeError::Empty)));
    assert_eq!(bst.root(), Err(BSTError::Inner(FenwickTreeError::Empty)));
    assert_eq!(bst.first_mut(), Err(BSTError::Inner(FenwickTreeError::Empty)));
}

#[test]
fn round_trip_insert_get_delete() {
    let mut bst: BSTSet<usize> = BSTSet::new();
    for key in [50usize, 20, 80, 10] {
        assert_eq!(bst.insert(key), Ok(None));
    }
    assert_eq!(bst.insert(35), Ok(None));
    assert_eq!(bst.get(&35), Ok(&35));
    assert_eq!(bst.contains(&35), Ok(true));
    assert_eq!(bst.delete(&35), Ok(35));
    assert_eq!(bst.contains(&35), Ok(false));
    assert_eq!(bst.delete(&35), Err(BSTError::KeyNotFound));
    assert_eq!(bst.length(), 4);
}

#[test]
fn sorted_after_every_insert() {
    let mut gen: ArgGen = ArgGen::new(71);
    let mut bst: BSTSet<usize> = BSTSet::new();
    for _ in 0..200 {
        gen.gen();
        let _ = bst.insert(gen.arg() % 1000);
        let inner: &Vec<usize> = bst.inner();
        for i in 1..inner.len().saturating_sub(1) {
            assert!(inner[i] < inner[i + 1]);
        }
    }
}

#[test]
fn root_and_mutable_ends() {
    let mut bst: BSTSet<usize> = BSTSet::new();
    for key in [3usize, 1, 2] {
        assert_eq!(bst.insert(key), Ok(None));
    }
    // Four slots: the root of the implicit tree is slot 4, outside; the
    // topmost element is slot 2.
    assert_eq!(bst.root(), Ok(&2));
    assert_eq!(bst.root_mut(), Ok(&mut 2));
    assert_eq!(bst.first_mut(), Ok(&mut 1));
    assert_eq!(bst.last_mut(), Ok(&mut 3));
    *bst.last_mut().unwrap() = 7;
    assert_eq!(bst.get(&7), Ok(&7));
}

#[test]
fn delete_last_element_then_empty() {
    let mut bst: BSTSet<usize> = BSTSet::new();
    assert_eq!(bst.insert(4), Ok(None));
    assert_eq!(bst.delete(&9), Err(BSTError::KeyNotFound));
    assert_eq!(bst.delete(&4), Ok(4));
    assert_eq!(bst.delete(&4), Err(BSTError::Inner(FenwickTreeError::Empty)));
    assert_eq!(bst.inner().len(), 1);
}

#[test]
fn reserved_slot_is_kept() {
    let mut bst: BSTSetConst<usize, 4> = BSTSetConst::new();
    let reserved: usize = *bst.inner().at(0);
    assert_eq!(bst.insert(2), Ok(None));
    assert_eq!(bst.insert(1), Ok(None));
    assert_eq!(bst.insert(2), Ok(Some(2)));
    assert_eq!(bst.delete(&1), Ok(1));
    assert_eq!(bst.pop(), Ok(2));
    assert_eq!(bst.inner().length(), 1);
    assert_eq!(*bst.inner().at(0), reserved);
}
