use tree_calculus::fast_tree::{Tree, TreeFunc, Trees};

#[test]
fn new_store_holds_the_constant_trees() {
    let mut trees = Trees::new(16, 16);
    assert_eq!(trees.total_trees_stored(), 5);
    assert_eq!(trees.total_free(), 0);
    assert_eq!(Trees::LEAF().idx(), 0);
    assert_eq!(Trees::STEM_LEAF().idx(), 1);
    assert_eq!(Trees::FORK_LEAF_LEAF().idx(), 2);
    assert_eq!(Trees::IDENTITY().idx(), 3);
    assert_eq!(Trees::BIT1().idx(), 4);
    assert_eq!(trees.insert(Tree::Leaf), Trees::LEAF());
    assert_eq!(trees.insert(Tree::Stem(Trees::LEAF())), Trees::STEM_LEAF());
    assert_eq!(trees.insert(Tree::Fork(Trees::LEAF(), Trees::LEAF())), Trees::FORK_LEAF_LEAF());
    assert_eq!(trees.insert(Tree::Fork(Trees::FORK_LEAF_LEAF(), Trees::LEAF())), Trees::IDENTITY());
    assert_eq!(trees.insert(Tree::Fork(Trees::LEAF(), Trees::IDENTITY())), Trees::BIT1());
    assert_eq!(trees.total_trees_stored(), 5);
}

#[test]
fn inserting_twice_gives_one_index() {
    let mut trees = Trees::new(16, 16);
    let a = trees.insert(Tree::Stem(Trees::IDENTITY()));
    let b = trees.insert(Tree::Stem(Trees::IDENTITY()));
    assert_eq!(a, b);
    assert_eq!(a.idx(), 5);
    assert_eq!(a.get(), 5);
    assert_eq!(trees.total_trees_stored(), 6);
    assert_eq!(trees.index(a), Tree::Stem(Trees::IDENTITY()));
}

#[test]
fn reads_trees_as_functions() {
    let mut trees = Trees::new(16, 16);
    assert_eq!(trees.index_func(Trees::LEAF()), TreeFunc::Leaf);
    assert_eq!(trees.index_func(Trees::STEM_LEAF()), TreeFunc::Stem(Trees::LEAF()));
    assert_eq!(trees.index_func(Trees::BIT1()), TreeFunc::IgnoreThen(Trees::IDENTITY()));
    assert_eq!(
        trees.index_func(Trees::IDENTITY()),
        TreeFunc::Match(Trees::LEAF(), Trees::LEAF(), Trees::LEAF())
    );
    let d = trees.insert_func(TreeFunc::DoubleChain(Trees::BIT1(), Trees::LEAF()));
    assert_eq!(trees.index_func(d), TreeFunc::DoubleChain(Trees::BIT1(), Trees::LEAF()));
    let stem = trees.insert(Tree::Stem(Trees::BIT1()));
    assert_eq!(trees.index(d), Tree::Fork(stem, Trees::LEAF()));
    let k = trees.ignore_then(Trees::STEM_LEAF());
    assert_eq!(trees.index(k), Tree::Fork(Trees::LEAF(), Trees::STEM_LEAF()));
    assert_eq!(trees.insert_func(TreeFunc::Leaf), Trees::LEAF());
    let m = trees.insert_func(TreeFunc::Match(Trees::LEAF(), Trees::LEAF(), Trees::LEAF()));
    assert_eq!(m, Trees::IDENTITY());
}

#[test]
fn children_of_nodes() {
    let leaf: Vec<_> = Tree::Leaf.iter_children();
    assert!(leaf.is_empty());
    assert_eq!(Tree::Stem(Trees::BIT1()).iter_children(), vec![Trees::BIT1()]);
    assert_eq!(
        Tree::Fork(Trees::IDENTITY(), Trees::LEAF()).iter_children(),
        vec![Trees::IDENTITY(), Trees::LEAF()]
    );
}

#[test]
fn writes_stored_trees() {
    let trees = Trees::new(16, 16);
    assert_eq!(trees.as_ref(trees.index(Trees::LEAF())).to_string(), "△");
    assert_eq!(trees.as_ref(trees.index(Trees::STEM_LEAF())).to_string(), "△ △");
    assert_eq!(trees.as_ref(trees.index(Trees::IDENTITY())).to_string(), "△ (△ △ △) △");
    assert_eq!(trees.as_ref(trees.index(Trees::BIT1())).to_string(), "△ △ (△ (△ △ △) △)");
}

#[test]
fn counts_nodes_with_repeats() {
    let mut trees = Trees::new(16, 16);
    assert_eq!(trees.count_nodes(Trees::LEAF()), 1);
    assert_eq!(trees.count_nodes(Trees::IDENTITY()), 5);
    assert_eq!(trees.count_nodes(Trees::BIT1()), 7);
    let s = trees.insert(Tree::Stem(Trees::BIT1()));
    assert_eq!(trees.count_nodes(s), 8);
}

#[test]
fn reads_numbers() {
    let mut trees = Trees::new(16, 16);
    let two = trees.insert(Tree::Stem(Trees::STEM_LEAF()));
    assert_eq!(trees.parse_stem_nat(two), Ok(2));
    assert_eq!(trees.parse_stem_nat(Trees::LEAF()), Ok(0));
    assert_eq!(trees.parse_stem_nat(Trees::FORK_LEAF_LEAF()), Err(Trees::FORK_LEAF_LEAF()));
    let bad = trees.insert(Tree::Stem(Trees::FORK_LEAF_LEAF()));
    assert_eq!(trees.parse_stem_nat(bad), Err(bad));

    assert_eq!(trees.parse_fork_nat(Trees::FORK_LEAF_LEAF()), Ok(1));
    let f2 = trees.insert(Tree::Fork(Trees::LEAF(), Trees::FORK_LEAF_LEAF()));
    assert_eq!(trees.parse_fork_nat(f2), Ok(2));
    assert_eq!(trees.parse_fork_nat(Trees::BIT1()), Err(Trees::BIT1()));
    assert_eq!(trees.parse_fork_nat(Trees::STEM_LEAF()), Err(Trees::STEM_LEAF()));
}

#[test]
fn reads_bits_bytes_and_lists() {
    let mut trees = Trees::new(16, 16);
    assert_eq!(trees.parse_bit(Trees::STEM_LEAF()), Ok(false));
    assert_eq!(trees.parse_bit(Trees::BIT1()), Ok(true));
    assert_eq!(trees.parse_bit(Trees::LEAF()), Err(Trees::LEAF()));

    let tail1 = trees.insert(Tree::Fork(Trees::STEM_LEAF(), Trees::LEAF()));
    let one = trees.insert(Tree::Fork(Trees::BIT1(), tail1));
    assert_eq!(trees.parse_byte(one), Ok(1));
    let tail2 = trees.insert(Tree::Fork(Trees::BIT1(), Trees::LEAF()));
    let two = trees.insert(Tree::Fork(Trees::STEM_LEAF(), tail2));
    assert_eq!(trees.parse_byte(two), Ok(2));
    assert_eq!(trees.parse_byte(Trees::LEAF()), Ok(0));
    assert_eq!(trees.parse_byte(Trees::STEM_LEAF()), Err(Trees::STEM_LEAF()));
    assert_eq!(trees.parse_byte(Trees::IDENTITY()), Err(Trees::FORK_LEAF_LEAF()));

    let mut nine_bits = Trees::LEAF();
    for _ in 0..9 {
        nine_bits = trees.insert(Tree::Fork(Trees::BIT1(), nine_bits));
    }
    assert_eq!(trees.parse_byte(nine_bits), Err(nine_bits));
    let mut eight_bits = Trees::LEAF();
    for _ in 0..8 {
        eight_bits = trees.insert(Tree::Fork(Trees::BIT1(), eight_bits));
    }
    assert_eq!(trees.parse_byte(eight_bits), Ok(255));

    let rest = trees.insert(Tree::Fork(two, Trees::LEAF()));
    let list = trees.insert(Tree::Fork(one, rest));
    assert_eq!(trees.parse_bytes(list), Ok(vec![1u8, 2u8]));
    assert_eq!(trees.parse_bytes(Trees::LEAF()), Ok(vec![]));
    let bad_list = trees.insert(Tree::Fork(Trees::IDENTITY(), Trees::LEAF()));
    assert_eq!(trees.parse_bytes(bad_list), Err(bad_list));
    assert_eq!(trees.parse_bytes(Trees::STEM_LEAF()), Err(Trees::STEM_LEAF()));
}
