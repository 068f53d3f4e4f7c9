use arborist::{height, Direction, FenwickTreeError, NodeSide, NodeType, StatefulTreeView, StatefulTreeViewMut, TreeWalker, VirtualTreeView};

#[test]
fn lsb() {
    assert_eq!(arborist::lsb(0), 0);
    assert_eq!(arborist::lsb(1), 1);
    assert_eq!(arborist::lsb(2), 2);
    assert_eq!(arborist::lsb(3), 1);
    assert_eq!(arborist::lsb(4), 4);
}

#[test]
fn lsb_larger_values() {
    assert_eq!(arborist::lsb(12), 4);
    assert_eq!(arborist::lsb(40), 8);
    assert_eq!(arborist::lsb(1 << 40), 1 << 40);
    assert_eq!(arborist::lsb(usize::MAX), 1);
    assert_eq!(arborist::lsb(1usize << (usize::BITS - 1)), 1usize << (usize::BITS - 1));
}

#[test]
fn height_named_values() {
    assert_eq!(height(16), 4);
    assert_eq!(height(9), 4);
    assert_eq!(height(1), 0);
    assert_eq!(height(0), 0);
}

#[test]
fn height_powers_of_two_and_neighbours() {
    for e in 1..(usize::BITS as usize) {
        let p: usize = 1 << e;
        assert_eq!(height(p), e, "at 2^{}", e);
        assert_eq!(height(p + 1), e + 1, "at 2^{} + 1", e);
        if p > 2 {
            assert_eq!(height(p - 1), e, "at 2^{} - 1", e);
        }
    }
    assert_eq!(height(2), 1);
    assert_eq!(height(3), 2);
    assert_eq!(height(usize::MAX), usize::BITS as usize);
}

#[test]
fn height_agrees_with_doubling() {
    let mut n: usize = 1;
    while n < 5000 {
        let mut h: usize = 0;
        while (1usize << h) < n {
            h += 1;
        }
        assert_eq!(height(n), h, "at {}", n);
        n += 1;
    }
}

#[test]
fn root_is_power_of_two() {
    assert_eq!(arborist::root(0), 1);
    assert_eq!(arborist::root(4), 16);
    assert_eq!(arborist::root(height(9)), 16);
    for h in 0..(usize::BITS as usize) {
        assert_eq!(arborist::root(h), 2usize.pow(h as u32));
    }
}

#[test]
fn node_side_and_type() {
    assert_eq!(NodeSide::from(4), NodeSide::Left);
    assert_eq!(NodeSide::from(12), NodeSide::Right);
    assert_eq!(NodeSide::from(1), NodeSide::Left);
    assert_eq!(NodeSide::from(3), NodeSide::Right);
    assert_eq!(NodeSide::from(10), NodeSide::Left);
    assert_eq!(NodeSide::from(6), NodeSide::Right);
    assert_eq!(NodeSide::from(0), NodeSide::Left);
    assert_eq!(NodeType::from(7), NodeType::Leaf);
    assert_eq!(NodeType::from(8), NodeType::Node);
    assert_eq!(NodeSide::Left.bias(), 0);
    assert_eq!(NodeSide::Right.bias(), 1);
}

#[test]
fn virtual_view_moves() {
    let collection: Vec<usize> = vec![0; 16];
    assert_eq!(
        VirtualTreeView::new(&collection, 0).unwrap_err(),
        FenwickTreeError::OutOfBounds { index: 0, length: 16 }
    );
    let mut view = VirtualTreeView::new(&collection, 8).unwrap();
    assert_eq!(view.index(), 8);
    assert_eq!(view.lsb(), 8);
    assert_eq!(view.peek(Direction::Down(NodeSide::Left)), Ok(4));
    assert_eq!(view.peek(Direction::Down(NodeSide::Right)), Ok(12));
    assert_eq!(view.peek(Direction::Up), Err(FenwickTreeError::OutOfBounds { index: 16, length: 16 }));
    assert_eq!(view.sibling(), Err(FenwickTreeError::OutOfBounds { index: 24, length: 16 }));
    assert_eq!(view.traverse(Direction::Down(NodeSide::Right)), Ok(()));
    assert_eq!(view.index(), 12);
    assert_eq!(view.lsb(), 4);
    assert_eq!(view.node_side(), NodeSide::Right);
    assert_eq!(view.node_type(), NodeType::Node);
    assert_eq!(view.sibling(), Ok(4));
    assert_eq!(view.traverse(Direction::Left), Ok(()));
    assert_eq!(view.index(), 4);
    assert_eq!(view.traverse(Direction::Left), Err(FenwickTreeError::OutOfBounds { index: 4, length: 16 }));
    assert_eq!(view.index(), 4);
    assert_eq!(view.traverse(Direction::Right), Ok(()));
    assert_eq!(view.index(), 12);
    assert_eq!(view.traverse(Direction::Right), Err(FenwickTreeError::OutOfBounds { index: 12, length: 16 }));
    assert_eq!(view.traverse(Direction::Up), Ok(()));
    assert_eq!(view.index(), 8);
    assert_eq!(view.traverse(Direction::Up), Ok(()));
    assert_eq!(view.index(), 16);
    assert_eq!(view.current(), Err(FenwickTreeError::OutOfBounds { index: 16, length: 16 }));
    assert_eq!(view.traverse(Direction::Up), Err(FenwickTreeError::OutOfBounds { index: 16, length: 16 }));
    assert_eq!(view.seek(3), Ok(()));
    assert_eq!(view.index(), 3);
    assert_eq!(view.lsb(), 1);
    assert_eq!(view.traverse(Direction::Down(NodeSide::Left)), Err(FenwickTreeError::OutOfBounds { index: 3, length: 16 }));
    assert_eq!(view.seek(16), Err(FenwickTreeError::OutOfBounds { index: 16, length: 16 }));
    assert_eq!(view.index(), 3);
    view.reset();
    assert_eq!(view.index(), 16);
}

#[test]
fn stateful_view_reads_elements() {
    let collection: Vec<usize> = (0..10).map(|i: usize| i * 10).collect();
    assert_eq!(
        StatefulTreeView::new(&collection, 0).unwrap_err(),
        FenwickTreeError::OutOfBounds { index: 0, length: 10 }
    );
    let mut view = StatefulTreeView::new(&collection, 4).unwrap();
    assert_eq!(view.current(), Ok(&40));
    assert_eq!(view.peek(Direction::Down(NodeSide::Left)), Ok(&20));
    assert_eq!(view.peek(Direction::Down(NodeSide::Right)), Ok(&60));
    assert_eq!(view.peek(Direction::Up), Ok(&80));
    assert_eq!(view.sibling(), Err(FenwickTreeError::OutOfBounds { index: 12, length: 10 }));
    assert_eq!(view.probe(9), Ok(&90));
    assert_eq!(view.probe(10), Err(FenwickTreeError::OutOfBounds { index: 10, length: 10 }));
    assert_eq!(view.traverse(Direction::Down(NodeSide::Right)), Ok(()));
    assert_eq!(view.current(), Ok(&60));
    assert_eq!(view.traverse(Direction::Down(NodeSide::Left)), Ok(()));
    assert_eq!(view.current(), Ok(&50));
    assert_eq!(view.node_type(), NodeType::Leaf);
    assert_eq!(view.traverse(Direction::Down(NodeSide::Left)), Err(FenwickTreeError::OutOfBounds { index: 5, length: 10 }));
    view.reset();
    assert_eq!(view.index(), 16);
    assert_eq!(view.current(), Err(FenwickTreeError::OutOfBounds { index: 16, length: 10 }));
}

const ITERATIONS: usize = 128;

/// A reproducible stream of pseudo-random values.
fn values(seed: u64) -> Vec<usize> {
    let mut state: u64 = seed;
    let mut out: Vec<usize> = Vec::new();
    for _ in 0..ITERATIONS {
        state = state.wrapping_add(0x9E37_79B9_7F4A_7C15);
        let mut z: u64 = state;
        z = (z ^ (z >> 30)).wrapping_mul(0xBF58_476D_1CE4_E5B9);
        z = (z ^ (z >> 27)).wrapping_mul(0x94D0_49BB_1331_11EB);
        z = z ^ (z >> 31);
        // Spread over all magnitudes, below 2^48 so that a float holds them exactly
        let bits: u64 = z % 48;
        out.push(((z >> 16) >> (48 - bits)) as usize);
    }
    out
}

#[test]
fn height_default() {
    for (i, val) in values(7).into_iter().enumerate() {
        let expected: usize = if val <= 1 { 0 } else { (val as f64).log2().ceil() as usize };
        assert_eq!(height(val), expected, "Failed at iteration {} with value: {}", i, val);
    }
}

#[test]
fn height_compat() {
    for (i, val) in values(8).into_iter().enumerate() {
        let mut h: usize = 0;
        while h < 64 && (1u128 << h) < val as u128 {
            h += 1;
        }
        assert_eq!(height(val), h, "Failed at iteration {} with value: {}", i, val);
    }
}

#[test]
fn root() {
    for (i, val) in values(9).into_iter().enumerate() {
        let h: usize = height(val);
        assert_eq!(arborist::root(h), 2usize.pow(h as u32), "Failed at iteration {} with value: {}", i, val);
    }
}

#[test]
fn mutable_view_writes_through() {
    let mut collection: Vec<usize> = (0..10).map(|i: usize| i * 10).collect();
    {
        let mut view = StatefulTreeViewMut::new(&mut collection, 4).unwrap();
        assert_eq!(view.index(), 4);
        assert_eq!(view.lsb(), 4);
        *view.current_mut().unwrap() = 41;
        *view.peek_mut(Direction::Down(NodeSide::Left)).unwrap() = 21;
        *view.probe_mut(9).unwrap() = 91;
        assert_eq!(view.sibling_mut(), Err(FenwickTreeError::OutOfBounds { index: 12, length: 10 }));
        assert_eq!(view.view.traverse(Direction::Down(NodeSide::Right)), Ok(()));
        *view.current_mut().unwrap() = 61;
        *view.sibling_mut().unwrap() = 22;
        assert_eq!(view.probe_mut(0), Err(FenwickTreeError::OutOfBounds { index: 0, length: 10 }));
    }
    assert_eq!(collection, vec![0, 10, 22, 30, 41, 50, 61, 70, 80, 91]);
    assert!(StatefulTreeViewMut::new(&mut collection, 0).is_err());
}
