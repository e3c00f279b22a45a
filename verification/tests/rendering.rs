use tree_calculus::fast_tree::{Tree, Trees};
use tree_calculus::old_tree;
use tree_calculus::old_tree::Tree as SharedTree;
use tree_calculus::render::{pretty_err, visualize_tree};
use tree_calculus::text::{decimal_text, same_text};

#[test]
fn shows_an_error_under_its_line() {
    let r = pretty_err("a = b\n", "Undefined tree \"b\"".to_string(), 4..5, true);
    assert_eq!(r, "1 | a = b\n        ^\nUndefined tree \"b\"\n");
    let r = pretty_err("a = b\n", "oops".to_string(), 4..5, false);
    assert_eq!(r, "a = b\n    ^\noops\n");
}

#[test]
fn shows_an_error_on_a_later_line() {
    let source = "x = △\ny = )\n";
    let r = pretty_err(source, "bad".to_string(), 12..13, true);
    assert_eq!(r, "2 | y = )\n        ^\nbad\n");
    let r = pretty_err(source, "wide".to_string(), 4..7, true);
    assert_eq!(r, "1 | x = △\n        ^^^\nwide\n");
    // a range that starts at a line break belongs to the next line
    let r = pretty_err(source, "nl".to_string(), 7..8, false);
    assert_eq!(r, "y = )\n\nnl\n");
}

#[test]
fn shows_an_error_at_the_end_of_the_text() {
    let r = pretty_err("x = (", "end".to_string(), 5..5, true);
    assert_eq!(r, "\nend\n");
}

#[test]
fn widens_the_margin_for_long_line_numbers() {
    let source = "\n\n\n\n\n\n\n\n\nbad";
    let r = pretty_err(source, "ten".to_string(), 9..12, true);
    assert_eq!(r, "10 | bad\n     ^^^\nten\n");
}

#[test]
fn draws_a_stored_tree() {
    let mut trees = Trees::new(16, 16);
    let mut buf = String::from("left over");
    visualize_tree(&mut buf, &trees, "id", Trees::IDENTITY());
    assert_eq!(
        buf,
        "digraph T {\n            label=\"id\"\n            node [label=\"\", shape=circle];\n        n0->n1;n1->n2;n1->n3;n0->n4;}"
    );
    let s = trees.insert(Tree::Stem(Trees::LEAF()));
    visualize_tree(&mut buf, &trees, "s", s);
    assert_eq!(
        buf,
        "digraph T {\n            label=\"s\"\n            node [label=\"\", shape=circle];\n        n0->n1;}"
    );
}

#[test]
fn writes_decimal_numbers() {
    assert_eq!(decimal_text(0), "0");
    assert_eq!(decimal_text(1234), "1234");
    assert_eq!(decimal_text(u128::MAX), "340282366920938463463374607431768211455");
    assert!(same_text("ab", "ab"));
    assert!(!same_text("ab", "a"));
}

#[test]
fn writes_shared_trees() {
    let t = old_tree::Tree::fork(old_tree::Tree::stem(old_tree::Tree::leaf()), old_tree::Tree::leaf());
    assert_eq!(t.to_string(), "△ (△ △) △");
    assert_eq!(t.iter_children().len(), 2);
    assert_eq!(old_tree::Tree::leaf().to_string(), "△");
}

fn small_trees() -> Vec<std::rc::Rc<old_tree::Tree>> {
    let l = SharedTree::leaf();
    let k = SharedTree::stem(SharedTree::leaf());
    let kl = SharedTree::fork(SharedTree::leaf(), SharedTree::leaf());
    let id = SharedTree::fork(SharedTree::fork(SharedTree::leaf(), SharedTree::leaf()), SharedTree::leaf());
    let dup = SharedTree::fork(SharedTree::stem(SharedTree::leaf()), SharedTree::leaf());
    vec![l, k, kl, id, dup]
}

#[test]
fn both_applications_agree() {
    for a in small_trees() {
        for b in small_trees() {
            let r1 = old_tree::rec_tree_apply(&a, &b);
            let r2 = old_tree::tree_apply(a.clone(), b.clone());
            assert_eq!(r1.to_string(), r2.to_string());
        }
    }
}

#[test]
fn shared_trees_apply_by_the_rules() {
    let ts = small_trees();
    let id = ts[3].clone();
    let k = ts[1].clone();
    let x = SharedTree::stem(SharedTree::leaf());
    assert_eq!(old_tree::tree_apply(id.clone(), x.clone()).to_string(), "△ △");
    let y = SharedTree::fork(SharedTree::leaf(), SharedTree::stem(SharedTree::leaf()));
    assert_eq!(old_tree::tree_apply(id, y.clone()).to_string(), "△ △ (△ △)");
    let kx = old_tree::rec_tree_apply(&k, &x);
    assert_eq!(kx.to_string(), "△ △ (△ △)");
    assert_eq!(old_tree::rec_tree_apply(&kx, &y).to_string(), "△ △");
    let dup = ts[4].clone();
    assert_eq!(old_tree::tree_apply(dup, SharedTree::leaf()).to_string(), "△ △ (△ △)");
}
