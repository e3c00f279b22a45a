use tree_calculus::compiler::{compile_tree_expr, CompiledTree, TreeNamespace};
use tree_calculus::fast_tree::{Tree, TreeFunc, Trees};
use tree_calculus::lexer::Lexer;
use tree_calculus::optimizations::try_simplify_tree;
use tree_calculus::parser::parse_declarations;

#[test]
fn applies_by_the_five_rules() {
    let mut trees = Trees::new(64, 64);
    // △ x = △ x
    let r = trees.tree_apply(Trees::LEAF(), Trees::LEAF());
    assert_eq!(r, Trees::STEM_LEAF());
    // △ a x = △ a x
    let r = trees.tree_apply(Trees::STEM_LEAF(), Trees::LEAF());
    assert_eq!(r, Trees::FORK_LEAF_LEAF());
    // △ △ a b = a
    let r = trees.tree_apply(Trees::BIT1(), Trees::STEM_LEAF());
    assert_eq!(r, Trees::IDENTITY());
    // △ (△ x) y z = x z (y z)
    let s = trees.insert(Tree::Fork(Trees::STEM_LEAF(), Trees::LEAF()));
    let r = trees.tree_apply(s, Trees::LEAF());
    assert_eq!(trees.index(r), Tree::Fork(Trees::LEAF(), Trees::STEM_LEAF()));
    // the identity matches on its argument and gives it back
    let r = trees.tree_apply(Trees::IDENTITY(), Trees::BIT1());
    assert_eq!(r, Trees::BIT1());
    let r = trees.tree_apply(Trees::IDENTITY(), Trees::STEM_LEAF());
    assert_eq!(r, Trees::STEM_LEAF());
    let r = trees.tree_apply(Trees::IDENTITY(), Trees::LEAF());
    assert_eq!(r, Trees::LEAF());
}

#[test]
fn applies_within_limits() {
    let mut trees = Trees::new(64, 64);
    let k_id = trees.ignore_then(Trees::IDENTITY());
    let r = trees.try_tree_apply(k_id, Trees::BIT1());
    assert_eq!(r, Some(Trees::IDENTITY()));
    let r = trees.try_tree_apply(Trees::STEM_LEAF(), Trees::STEM_LEAF());
    let kk = r.unwrap();
    assert_eq!(trees.index(kk), Tree::Fork(Trees::LEAF(), Trees::STEM_LEAF()));
    assert!(trees.has_room_for(1));
}

#[test]
fn collects_unreachable_trees() {
    let mut trees = Trees::new(64, 64);
    let t1 = trees.insert(Tree::Stem(Trees::IDENTITY()));
    let t2 = trees.insert(Tree::Stem(Trees::BIT1()));
    let t3 = trees.insert(Tree::Fork(t1, t2));
    assert_eq!((t1.idx(), t2.idx(), t3.idx()), (5, 6, 7));

    let mut dead = trees.get_dead(&[t1]);
    assert_eq!(dead.next(), Some(6));
    assert_eq!(dead.next(), Some(7));
    assert_eq!(dead.next(), None);
    let mut none_dead = trees.get_dead(&[t3]);
    assert_eq!(none_dead.next(), None);

    let report = trees.report_garbage(&[t1]);
    assert_eq!(report.unused, 2);
    assert_eq!(report.uncollected, 2);
    assert_eq!(report.total_trees, 8);

    trees.collect_garbage(&[t1]);
    assert_eq!(trees.total_free(), 2);
    assert_eq!(trees.total_trees_stored(), 8);
    assert_eq!(trees.index(t1), Tree::Stem(Trees::IDENTITY()));
    let report = trees.report_garbage(&[t1]);
    assert_eq!(report.unused, 2);
    assert_eq!(report.uncollected, 0);

    // freed slots are used again, lowest first
    let n1 = trees.insert(Tree::Stem(Trees::STEM_LEAF()));
    assert_eq!(n1.idx(), 6);
    assert_eq!(trees.total_free(), 1);
    let n2 = trees.insert(Tree::Stem(Trees::FORK_LEAF_LEAF()));
    assert_eq!(n2.idx(), 7);
    let n3 = trees.insert(Tree::Stem(n2));
    assert_eq!(n3.idx(), 8);
    assert_eq!(trees.total_free(), 0);
    // a tree freed before is stored anew
    let again = trees.insert(Tree::Stem(Trees::BIT1()));
    assert_eq!(again.idx(), 9);
}

#[test]
fn collection_waits_while_many_slots_are_free() {
    let mut trees = Trees::new(64, 64);
    let t1 = trees.insert(Tree::Stem(Trees::IDENTITY()));
    let t2 = trees.insert(Tree::Stem(Trees::BIT1()));
    let _t3 = trees.insert(Tree::Stem(t1));
    trees.collect_garbage(&[]);
    assert_eq!(trees.total_free(), 3);
    // three free slots of eight is more than a fifth: nothing more happens
    let t4 = trees.insert(Tree::Stem(Trees::LEAF()));
    assert_eq!(t4, Trees::STEM_LEAF());
    let t5 = trees.insert(Tree::Stem(Trees::STEM_LEAF()));
    assert_eq!(t5.idx(), 5);
    trees.collect_garbage(&[]);
    assert_eq!(trees.total_free(), 2);
    // above the threshold the roots are not read: a freed index may stand among them
    trees.collect_garbage(&[t2]);
    assert_eq!(trees.total_free(), 2);
}

#[test]
fn reports_usage() {
    let trees = Trees::new(64, 64);
    let usage = trees.report_final_usage();
    assert_eq!(usage.trees_len, 5);
    assert_eq!(usage.total_free, 0);
    assert_eq!(usage.indexed_trees_len, 5);
    assert!(usage.trees_capacity >= 5);
}

fn declare_all(source: &str) -> (Trees, Vec<(String, Result<usize, (String, std::ops::Range<usize>)>)>) {
    let mut lexer = Lexer::new(source);
    let decls = parse_declarations(&mut lexer).unwrap();
    let mut trees = Trees::new(256, 256);
    let mut namespace = TreeNamespace::new();
    let mut results = Vec::new();
    for decl in decls.iter() {
        let compiled = compile_tree_expr(&mut trees, &decl.expr);
        let r = namespace.define_new_tree(&mut trees, decl.name, decl.span.clone(), &compiled);
        results.push((decl.name.to_string(), r.map(|t| t.idx())));
    }
    (trees, results)
}

#[test]
fn compiles_the_identity() {
    let mut lexer = Lexer::new("id = fn x -> x");
    let decls = parse_declarations(&mut lexer).unwrap();
    let mut trees = Trees::new(64, 64);
    let compiled = compile_tree_expr(&mut trees, &decls[0].expr);
    assert_eq!(compiled.to_string(), "id");
    let mut namespace = TreeNamespace::new();
    let r = namespace.define_new_tree(&mut trees, decls[0].name, decls[0].span.clone(), &compiled);
    assert_eq!(r, Ok(Trees::IDENTITY()));
    assert_eq!(namespace.get("id"), Some(Trees::IDENTITY()));
    assert_eq!(namespace.get("other"), None);
    assert_eq!(namespace.iter_trees(), vec![Trees::IDENTITY()]);
}

#[test]
fn compiles_the_constant_function() {
    let mut lexer = Lexer::new("k = fn a b -> a");
    let decls = parse_declarations(&mut lexer).unwrap();
    let mut trees = Trees::new(64, 64);
    let compiled = compile_tree_expr(&mut trees, &decls[0].expr);
    assert_eq!(compiled.to_string(), "△ (△ (△ △ (△ △))) id");
    let mut namespace = TreeNamespace::new();
    let k = namespace.define_new_tree(&mut trees, decls[0].name, decls[0].span.clone(), &compiled).unwrap();
    assert_eq!(trees.as_ref(trees.index(k)).to_string(), "△ (△ (△ △ (△ △))) (△ (△ △ △) △)");
}

#[test]
fn evaluates_declared_names() {
    let (_, results) = declare_all("k = fn a b -> a\nr = k (△ △) △\ns = k △ (△ △)\nid = fn x -> x\nz = id\n");
    assert_eq!(results[1], ("r".to_string(), Ok(1)));
    assert_eq!(results[2], ("s".to_string(), Ok(0)));
    assert_eq!(results[3], ("id".to_string(), Ok(3)));
    assert_eq!(results[4], ("z".to_string(), Ok(3)));
}

#[test]
fn a_declared_name_reads_back() {
    let mut lexer = Lexer::new("t = △ △ △\nu = t t");
    let decls = parse_declarations(&mut lexer).unwrap();
    let mut trees = Trees::new(64, 64);
    let mut namespace = TreeNamespace::new();
    let c0 = compile_tree_expr(&mut trees, &decls[0].expr);
    let t = namespace.try_define_new_tree(&mut trees, decls[0].name, decls[0].span.clone(), &c0);
    assert_eq!(t, Some(Ok(Trees::FORK_LEAF_LEAF())));
    assert_eq!(namespace.get("t"), Some(Trees::FORK_LEAF_LEAF()));
    let c1 = compile_tree_expr(&mut trees, &decls[1].expr);
    let u = namespace.try_eval_tree(&mut trees, &c1);
    // (△ △ △) (△ △ △) = △
    assert_eq!(u, Some(Ok(Trees::LEAF())));
    assert_eq!(namespace.eval_tree(&mut trees, &c1), Ok(Trees::LEAF()));
}

#[test]
fn reports_undefined_names() {
    let (_, results) = declare_all("b = c\nc = △\n");
    assert_eq!(results[0], ("b".to_string(), Err(("Undefined tree \"c\"".to_string(), 4..5))));
    assert_eq!(results[1], ("c".to_string(), Ok(0)));
}

#[test]
fn redeclaring_replaces_and_reports() {
    let mut lexer = Lexer::new("a = △\na = △ △\n");
    let decls = parse_declarations(&mut lexer).unwrap();
    let mut trees = Trees::new(64, 64);
    let mut namespace = TreeNamespace::new();
    let c0 = compile_tree_expr(&mut trees, &decls[0].expr);
    assert_eq!(namespace.define_new_tree(&mut trees, decls[0].name, decls[0].span.clone(), &c0), Ok(Trees::LEAF()));
    let c1 = compile_tree_expr(&mut trees, &decls[1].expr);
    let r = namespace.define_new_tree(&mut trees, decls[1].name, decls[1].span.clone(), &c1);
    assert_eq!(r, Err(("Declaration \"a\" redefined".to_string(), 8..9)));
    assert_eq!(namespace.get("a"), Some(Trees::STEM_LEAF()));
    assert_eq!(namespace.iter_trees(), vec![Trees::STEM_LEAF()]);
}

#[test]
fn writes_compiled_trees() {
    let mut lexer = Lexer::new("x = f (△ △ △) (g △)");
    let decls = parse_declarations(&mut lexer).unwrap();
    let mut trees = Trees::new(64, 64);
    let compiled = compile_tree_expr(&mut trees, &decls[0].expr);
    assert_eq!(compiled.to_string(), "f (△ △ △) (g △)");
    match &compiled {
        CompiledTree::Application(parts) => assert_eq!(parts.len(), 3),
        _ => panic!("not an application"),
    }
}

#[test]
fn simplifies_chains_of_constants() {
    let mut trees = Trees::new(64, 64);
    // △ (△ (K I)) I behaves as I
    let k_id = trees.ignore_then(Trees::IDENTITY());
    let chain = trees.insert_func(TreeFunc::DoubleChain(k_id, Trees::IDENTITY()));
    assert_eq!(try_simplify_tree(&mut trees, chain), Trees::IDENTITY());
    // △ (△ (K △)) (K (△ △)) behaves as K (△ (△ △))
    let k_stem = trees.ignore_then(Trees::STEM_LEAF());
    let chain = trees.insert_func(TreeFunc::DoubleChain(Trees::FORK_LEAF_LEAF(), k_stem));
    let s = try_simplify_tree(&mut trees, chain);
    assert_eq!(trees.as_ref(trees.index(s)).to_string(), "△ △ (△ (△ △))");
    // leaves, stems and constants stay
    assert_eq!(try_simplify_tree(&mut trees, Trees::STEM_LEAF()), Trees::STEM_LEAF());
    assert_eq!(try_simplify_tree(&mut trees, Trees::BIT1()), Trees::BIT1());
    assert_eq!(try_simplify_tree(&mut trees, Trees::IDENTITY()), Trees::IDENTITY());
}

#[test]
fn identity_gives_back_the_same_index() {
    let mut trees = Trees::new(64, 64);
    let x = trees.insert(Tree::Fork(Trees::BIT1(), Trees::STEM_LEAF()));
    assert_eq!(trees.tree_apply(Trees::IDENTITY(), x), x);
    assert_eq!(trees.tree_apply(Trees::IDENTITY(), Trees::LEAF()), Trees::LEAF());
    // matching on the fork `x` made `△ (△ △ (△ (△ △ △) △))` along the way, in the next slot
    assert_eq!(trees.total_trees_stored(), 7);
    assert_eq!(trees.insert(Tree::Stem(Trees::BIT1())).idx(), 6);
    assert_eq!(trees.total_trees_stored(), 7);
}

#[test]
fn new_results_take_the_next_slot() {
    let mut trees = Trees::new(16, 16);
    let a = trees.insert(Tree::Fork(Trees::STEM_LEAF(), Trees::STEM_LEAF()));
    assert_eq!(a.idx(), 5);
    // △ (△ △) (△ △) △ = (△ △) (△ △ △) = △ △ (△ △ △)
    let r = trees.tree_apply(a, Trees::LEAF());
    assert_eq!(trees.index(r), Tree::Fork(Trees::LEAF(), Trees::FORK_LEAF_LEAF()));
    assert_eq!(r.idx(), 6);
    assert!(trees.iters() > 0);
}

#[test]
fn encoding_a_stored_shape_changes_nothing() {
    let mut trees = Trees::new(16, 16);
    let d = trees.insert_func(TreeFunc::DoubleChain(Trees::BIT1(), Trees::LEAF()));
    let count = trees.total_trees_stored();
    let f = trees.index_func(d);
    assert_eq!(trees.insert_func(f), d);
    assert_eq!(trees.total_trees_stored(), count);
    assert_eq!(trees.insert_func(trees.index_func(Trees::IDENTITY())), Trees::IDENTITY());
    assert_eq!(trees.insert_func(trees.index_func(Trees::BIT1())), Trees::BIT1());
    assert_eq!(trees.total_trees_stored(), count);
    assert!(Trees::BIT1().get() < u32::MAX);
    assert_eq!(Trees::BIT1().get(), 4);
}

#[test]
fn evaluates_twice_in_a_row() {
    let namespace = TreeNamespace::new();
    let mut trees = Trees::new(16, 16);
    let first = CompiledTree::Application(vec![
        CompiledTree::Tree(Trees::LEAF()),
        CompiledTree::Tree(Trees::LEAF()),
        CompiledTree::Tree(Trees::LEAF()),
    ]);
    assert_eq!(namespace.eval_tree(&mut trees, &first), Ok(Trees::FORK_LEAF_LEAF()));
    let second = CompiledTree::Application(vec![
        CompiledTree::Tree(Trees::LEAF()),
        CompiledTree::Application(vec![CompiledTree::Tree(Trees::LEAF()), CompiledTree::Tree(Trees::LEAF())]),
    ]);
    let r = namespace.eval_tree(&mut trees, &second).unwrap();
    assert_eq!(trees.index(r), Tree::Stem(Trees::STEM_LEAF()));
}

#[test]
fn compiles_by_eta_k_and_s() {
    let mut trees = Trees::new(64, 64);
    for (source, shown) in [
        ("a = fn x -> f x", "f"),
        ("a = fn x -> △", "△ △ (△)"),
        ("a = fn x -> g", "△ △ (g)"),
        ("a = fn x -> x x", "△ (△ id) id"),
        ("a = fn x -> f (x △)", "△ (△ (△ △ (f))) (△ (△ id) △ △ △)"),
    ] {
        let mut lexer = Lexer::new(source);
        let decls = parse_declarations(&mut lexer).unwrap();
        let compiled = compile_tree_expr(&mut trees, &decls[0].expr);
        assert_eq!(compiled.to_string(), shown, "{}", source);
    }
}
