//! Rewriting stored trees into smaller trees of the same shape of function.
use vstd::prelude::*;

use crate::calculus::{halts, law_triage_fork, law_triage_leaf, law_triage_stem, value, Term};
use crate::fast_tree::{identity_term, Tree, TreeFunc, TreeIndex, Trees};

verus! {

/// The number of nodes of `t`.
pub open spec fn size(t: Term) -> nat
    decreases t,
{
    match t {
        Term::Leaf => 1,
        Term::Stem(a) => 1 + size(*a),
        Term::Fork(a, b) => 1 + size(*a) + size(*b),
    }
}

/// `△ △ t`, which gives `t` whatever it is applied to.
pub open spec fn ignore(t: Term) -> Term {
    Term::Fork(Box::new(Term::Leaf), Box::new(t))
}

/// `△ (△ x) y`, which applies `x v` to `y v`.
pub open spec fn chain(x: Term, y: Term) -> Term {
    Term::Fork(Box::new(Term::Stem(Box::new(x))), Box::new(y))
}

/// The simplified form of `t`, with the number of trees that computing it may store: inside
/// a match its branches are simplified; `△ (△ (△ △ a)) (△ △ b)` becomes `△ △ (a b)` where
/// `a` is `△`, `△ c` or `△ △ c`; `△ (△ (△ △ a)) I` becomes `a`; and otherwise a chain has
/// its parts simplified.
pub open spec fn simplify(t: Term) -> (Term, nat)
    decreases size(t),
{
    match t {
        Term::Leaf => (t, 0),
        Term::Stem(_) => (t, 0),
        Term::Fork(l, z) => match *l {
            Term::Leaf => (t, 0),
            Term::Fork(x, y) => {
                proof {
                    lemma_size_parts(t);
                }
                let (y1, ny) = simplify(*y);
                let (z1, nz) = simplify(*z);
                (Term::Fork(Box::new(Term::Fork(x, Box::new(y1))), Box::new(z1)), ny + nz + 2)
            },
            Term::Stem(x) => {
                proof {
                    lemma_size_parts(t);
                }
                let (x1, nx) = simplify(*x);
                let (y1, ny) = simplify(*z);
                if size(x1) > size(*x) || size(y1) > size(*z) {
                    (t, 0)
                } else if is_ignore(x1) && is_ignore(y1) {
                    let tx = ignored(x1);
                    let ty = ignored(y1);
                    proof {
                        lemma_size_parts(x1);
                        lemma_size_parts(y1);
                    }
                    match tx {
                        Term::Leaf => {
                            let (b, nb) = simplify(ty);
                            (ignore(Term::Stem(Box::new(b))), nx + ny + nb + 2)
                        },
                        Term::Stem(c) => {
                            let (b, nb) = simplify(ty);
                            (ignore(Term::Fork(c, Box::new(b))), nx + ny + nb + 2)
                        },
                        Term::Fork(lc, c) => if *lc == Term::Leaf {
                            (ignore(*c), nx + ny + 1)
                        } else {
                            (chain(x1, y1), nx + ny + 2)
                        },
                    }
                } else if is_ignore(x1) && y1 == identity_term() {
                    proof {
                        lemma_size_parts(x1);
                    }
                    let (a, na) = simplify(ignored(x1));
                    (a, nx + ny + na)
                } else {
                    let (y2, ny2) = simplify(y1);
                    (chain(x1, y2), nx + ny + ny2 + 2)
                }
            },
        },
    }
}

/// Whether `t` is `△ △ a` for some `a`.
pub open spec fn is_ignore(t: Term) -> bool {
    t matches Term::Fork(l, _) && *l == Term::Leaf
}

/// The `a` of `△ △ a`.
pub open spec fn ignored(t: Term) -> Term {
    match t {
        Term::Fork(_, a) => *a,
        _ => t,
    }
}

/// The sizes of the parts of `t`, two levels down.
pub proof fn lemma_size_parts(t: Term)
    ensures
        size(t) >= 1,
        t matches Term::Stem(a) ==> size(t) == 1 + size(*a),
        t matches Term::Fork(a, b) ==> size(t) == 1 + size(*a) + size(*b) && size(*a) >= 1 && size(*b) >= 1,
        t matches Term::Fork(a, b) ==> (*a matches Term::Stem(c) ==> size(*a) == 1 + size(*c)),
        t matches Term::Fork(a, b) ==> (*a matches Term::Fork(c, d) ==> size(*a) == 1 + size(*c) + size(*d)),
        t matches Term::Fork(a, b) ==> (*b matches Term::Fork(c, d) ==> size(*b) == 1 + size(*c) + size(*d)),
{
    match t {
        Term::Fork(a, b) => {
            lemma_size_pos(*a);
            lemma_size_pos(*b);
        },
        _ => {},
    }
}

/// A tree has at least one node.
pub proof fn lemma_size_pos(t: Term)
    ensures
        size(t) >= 1,
{
}

/// Simplifying never makes a tree larger.
pub proof fn lemma_simplify_size(t: Term)
    ensures
        size(simplify(t).0) <= size(t),
    decreases size(t),
{
    lemma_size_parts(t);
    match t {
        Term::Leaf => {},
        Term::Stem(_) => {},
        Term::Fork(l, z) => match *l {
            Term::Leaf => {},
            Term::Fork(x, y) => {
                lemma_simplify_size(*y);
                lemma_simplify_size(*z);
                let r = simplify(t).0;
                let y1 = simplify(*y).0;
                let z1 = simplify(*z).0;
                assert(r == Term::Fork(Box::new(Term::Fork(x, Box::new(y1))), Box::new(z1)));
                lemma_size_parts(r);
            },
            Term::Stem(x) => {
                lemma_simplify_size(*x);
                lemma_simplify_size(*z);
                assert forall|u: Term| size(u) < size(t) implies size(#[trigger] simplify(u).0) <= size(u) by {
                    lemma_simplify_size(u);
                }
                lemma_simplify_stem_size(t, *x, *z);
            },
        },
    }
}

/// Simplifying a chain `△ (△ x) z` never makes it larger.
proof fn lemma_simplify_stem_size(t: Term, x: Term, z: Term)
    requires
        t == chain(x, z),
        size(simplify(x).0) <= size(x),
        size(simplify(z).0) <= size(z),
        forall|u: Term| size(u) < size(t) ==> size(#[trigger] simplify(u).0) <= size(u),
    ensures
        size(simplify(t).0) <= size(t),
{
    lemma_size_parts(t);
    let (x1, nx) = simplify(x);
    let (y1, ny) = simplify(z);
    lemma_size_parts(x1);
    lemma_size_parts(y1);
    let r = simplify(t).0;
    if is_ignore(x1) && is_ignore(y1) {
        let tx = ignored(x1);
        let ty = ignored(y1);
        lemma_size_parts(tx);
        assert(size(simplify(ty).0) <= size(ty));
        match tx {
            Term::Leaf => {
                let b = simplify(ty).0;
                lemma_size_parts(Term::Stem(Box::new(b)));
                lemma_size_parts(ignore(Term::Stem(Box::new(b))));
            },
            Term::Stem(c) => {
                let b = simplify(ty).0;
                lemma_size_parts(Term::Fork(c, Box::new(b)));
                lemma_size_parts(ignore(Term::Fork(c, Box::new(b))));
            },
            Term::Fork(lc, c) => {
                if *lc == Term::Leaf {
                    lemma_size_parts(ignore(*c));
                } else {
                    lemma_size_parts(chain(x1, y1));
                    lemma_size_parts(Term::Stem(Box::new(x1)));
                }
            },
        }
    } else if is_ignore(x1) && y1 == identity_term() {
        assert(size(simplify(ignored(x1)).0) <= size(ignored(x1)));
    } else {
        assert(size(simplify(y1).0) <= size(y1));
        let y2 = simplify(y1).0;
        lemma_size_parts(chain(x1, y2));
        lemma_size_parts(Term::Stem(Box::new(x1)));
    }
}

/// A map is a submap of itself.
proof fn lemma_le_refl(m: Map<TreeIndex, Term>)
    ensures
        m <= m,
{
}

/// What a smaller store holds, a larger one holds alike.
proof fn lemma_grow(a: Map<TreeIndex, Term>, b: Map<TreeIndex, Term>, k: TreeIndex)
    requires
        a <= b,
        a.contains_key(k),
    ensures
        b.contains_key(k),
        b[k] == a[k],
{
    assert(a.dom().contains(k) && b.dom().contains(k));
}

/// Rewrites the stored tree `tree` into its simplified form and gives the index of that form.
pub fn try_simplify_tree(trees: &mut Trees, tree: TreeIndex) -> (r: TreeIndex)
    requires
        old(trees).well_formed(),
        old(trees)@.contains_key(tree),
        old(trees).room() >= simplify(old(trees)@[tree]).1,
    ensures
        final(trees).well_formed(),
        old(trees)@ <= final(trees)@,
        final(trees).cache() == old(trees).cache(),
        final(trees)@.contains_key(r),
        final(trees)@[r] == simplify(old(trees)@[tree]).0,
        final(trees).room() >= old(trees).room() - simplify(old(trees)@[tree]).1,
        old(trees).func(tree) is Leaf || old(trees).func(tree) is Stem || old(trees).func(tree) is IgnoreThen
            ==> r == tree && *final(trees) == *old(trees),
    decreases size(old(trees)@[tree]), 1nat,
{
    proof {
        trees.lemma_consistent();
        lemma_le_refl(trees@);
    }
    match trees.index_func(tree) {
        TreeFunc::Leaf | TreeFunc::Stem(_) | TreeFunc::IgnoreThen(_) => tree,
        TreeFunc::Match(x, y, z) => simplify_match(trees, tree, x, y, z),
        TreeFunc::DoubleChain(x, y) => simplify_chain(trees, tree, x, y),
    }
}

/// Simplifies the branches of the match `tree`, which is `△ (△ x y) z`.
fn simplify_match(trees: &mut Trees, tree: TreeIndex, x: TreeIndex, y: TreeIndex, z: TreeIndex) -> (r: TreeIndex)
    requires
        old(trees).well_formed(),
        old(trees)@.contains_key(tree),
        old(trees).holds_func(TreeFunc::Match(x, y, z)),
        old(trees).func_term(TreeFunc::Match(x, y, z)) == old(trees)@[tree],
        old(trees).room() >= simplify(old(trees)@[tree]).1,
    ensures
        final(trees).well_formed(),
        old(trees)@ <= final(trees)@,
        final(trees).cache() == old(trees).cache(),
        final(trees)@.contains_key(r),
        final(trees)@[r] == simplify(old(trees)@[tree]).0,
        final(trees).room() >= old(trees).room() - simplify(old(trees)@[tree]).1,
    decreases size(old(trees)@[tree]), 0nat,
{
    let ghost v0 = trees@;
    let ghost t = v0[tree];
    proof {
        lemma_size_parts(t);
    }
    let y1 = try_simplify_tree(trees, y);
    let ghost v1 = trees@;
    proof {
        lemma_grow(v0, v1, z);
        lemma_grow(v0, v1, x);
    }
    let z1 = try_simplify_tree(trees, z);
    let ghost v2 = trees@;
    proof {
        vstd::map_lib::lemma_submap_of_trans(v0, v1, v2);
        lemma_grow(v0, v2, x);
        lemma_grow(v1, v2, y1);
    }
    let r = trees.insert_func(TreeFunc::Match(x, y1, z1));
    proof {
        vstd::map_lib::lemma_submap_of_trans(v0, v2, trees@);
    }
    r
}

/// Simplifies the chain `tree`, which is `△ (△ x) y`.
fn simplify_chain(trees: &mut Trees, tree: TreeIndex, x: TreeIndex, y: TreeIndex) -> (r: TreeIndex)
    requires
        old(trees).well_formed(),
        old(trees)@.contains_key(tree),
        old(trees).holds_func(TreeFunc::DoubleChain(x, y)),
        old(trees).func_term(TreeFunc::DoubleChain(x, y)) == old(trees)@[tree],
        old(trees).room() >= simplify(old(trees)@[tree]).1,
    ensures
        final(trees).well_formed(),
        old(trees)@ <= final(trees)@,
        final(trees).cache() == old(trees).cache(),
        final(trees)@.contains_key(r),
        final(trees)@[r] == simplify(old(trees)@[tree]).0,
        final(trees).room() >= old(trees).room() - simplify(old(trees)@[tree]).1,
    decreases size(old(trees)@[tree]), 0nat,
{
    let ghost v0 = trees@;
    let ghost t = v0[tree];
    proof {
        lemma_size_parts(t);
        lemma_simplify_size(v0[x]);
        lemma_simplify_size(v0[y]);
    }
    let x1 = try_simplify_tree(trees, x);
    let ghost v1 = trees@;
    proof {
        lemma_grow(v0, v1, y);
    }
    let y1 = try_simplify_tree(trees, y);
    let ghost v2 = trees@;
    let ghost tx1 = v2[x1];
    let ghost ty1 = v2[y1];
    proof {
        vstd::map_lib::lemma_submap_of_trans(v0, v1, v2);
        lemma_grow(v1, v2, x1);
        trees.lemma_consistent();
        trees.lemma_constants();
        lemma_size_parts(tx1);
        lemma_size_parts(ty1);
    }
    let fx = trees.index_func(x1);
    let fy = trees.index_func(y1);
    match (fx, fy) {
        (TreeFunc::IgnoreThen(then_x), TreeFunc::IgnoreThen(then_y)) => {
            proof {
                assert(is_ignore(tx1) && is_ignore(ty1));
                lemma_size_parts(v2[then_x]);
            }
            match trees.index_func(then_x) {
                TreeFunc::Leaf => {
                    let b = try_simplify_tree(trees, then_y);
                    let ghost v3 = trees@;
                    let node = Tree::Stem(b);
                    assert(node.children()[0] == b);
                    proof {
                        trees.lemma_consistent();
                    }
                    let new_then = trees.insert(node);
                    let ghost v4 = trees@;
                    let r = trees.ignore_then(new_then);
                    proof {
                        vstd::map_lib::lemma_submap_of_trans(v0, v2, v3);
                        vstd::map_lib::lemma_submap_of_trans(v0, v3, v4);
                        vstd::map_lib::lemma_submap_of_trans(v0, v4, trees@);
                    }
                    r
                },
                TreeFunc::Stem(lhs) => {
                    let b = try_simplify_tree(trees, then_y);
                    let ghost v3 = trees@;
                    proof {
                        lemma_grow(v2, v3, lhs);
                    }
                    let node = Tree::Fork(lhs, b);
                    assert(node.children()[0] == lhs && node.children()[1] == b);
                    proof {
                        trees.lemma_consistent();
                    }
                    let new_then = trees.insert(node);
                    let ghost v4 = trees@;
                    let r = trees.ignore_then(new_then);
                    proof {
                        vstd::map_lib::lemma_submap_of_trans(v0, v2, v3);
                        vstd::map_lib::lemma_submap_of_trans(v0, v3, v4);
                        vstd::map_lib::lemma_submap_of_trans(v0, v4, trees@);
                    }
                    r
                },
                TreeFunc::IgnoreThen(then) => {
                    let r = trees.ignore_then(then);
                    proof {
                        vstd::map_lib::lemma_submap_of_trans(v0, v2, trees@);
                    }
                    r
                },
                _ => {
                    let r = trees.insert_func(TreeFunc::DoubleChain(x1, y1));
                    proof {
                        vstd::map_lib::lemma_submap_of_trans(v0, v2, trees@);
                    }
                    r
                },
            }
        },
        (TreeFunc::IgnoreThen(then_x), _) if y1 == Trees::IDENTITY() => {
            proof {
                assert(ty1 == identity_term());
                assert(is_ignore(tx1));
            }
            let r = try_simplify_tree(trees, then_x);
            proof {
                vstd::map_lib::lemma_submap_of_trans(v0, v2, trees@);
            }
            r
        },
        _ => {
            proof {
                if is_ignore(tx1) && ty1 == identity_term() {
                    trees.lemma_unique(y1, Trees::IDENTITY());
                }
                lemma_grow(v1, v2, x1);
            }
            let y2 = try_simplify_tree(trees, y1);
            let ghost v3 = trees@;
            proof {
                lemma_grow(v2, v3, x1);
            }
            let r = trees.insert_func(TreeFunc::DoubleChain(x1, y2));
            proof {
                vstd::map_lib::lemma_submap_of_trans(v0, v2, v3);
                vstd::map_lib::lemma_submap_of_trans(v0, v3, trees@);
            }
            r
        },
    }
}


/// Simplifying a triage `△ (△ w x) y` keeps its first branch and puts the simplified second
/// and third branches in their places: the result still gives `w` for a leaf, applies the
/// simplified `x` to the child of a stem, and the simplified `y` to the children of a fork.
pub proof fn law_simplify_triage(w: Term, x: Term, y: Term)
    ensures
        ({
            let t = Term::Fork(Box::new(Term::Fork(Box::new(w), Box::new(x))), Box::new(y));
            let r = simplify(t).0;
            &&& r == Term::Fork(Box::new(Term::Fork(Box::new(w), Box::new(simplify(x).0))), Box::new(simplify(y).0))
            &&& halts(r, Term::Leaf) && value(r, Term::Leaf) == w && value(r, Term::Leaf) == value(t, Term::Leaf)
            &&& forall|u: Term| #[trigger] halts(simplify(x).0, u) ==> value(r, Term::Stem(Box::new(u))) == value(
                simplify(x).0,
                u,
            )
            &&& forall|u: Term, v: Term| halts(simplify(y).0, u) && #[trigger] halts(value(simplify(y).0, u), v) ==> value(
                r,
                Term::Fork(Box::new(u), Box::new(v)),
            ) == value(value(simplify(y).0, u), v)
        }),
{
    let t = Term::Fork(Box::new(Term::Fork(Box::new(w), Box::new(x))), Box::new(y));
    lemma_size_parts(t);
    let r = simplify(t).0;
    assert(r == Term::Fork(Box::new(Term::Fork(Box::new(w), Box::new(simplify(x).0))), Box::new(simplify(y).0)));
    law_triage_leaf(w, simplify(x).0, simplify(y).0);
    law_triage_leaf(w, x, y);
    assert forall|u: Term| #[trigger] halts(simplify(x).0, u) implies value(r, Term::Stem(Box::new(u))) == value(
        simplify(x).0,
        u,
    ) by {
        law_triage_stem(w, simplify(x).0, simplify(y).0, u);
    }
    assert forall|u: Term, v: Term| halts(simplify(y).0, u) && #[trigger] halts(value(simplify(y).0, u), v) implies value(
        r,
        Term::Fork(Box::new(u), Box::new(v)),
    ) == value(value(simplify(y).0, u), v) by {
        law_triage_fork(w, simplify(x).0, simplify(y).0, u, v);
    }
}


/// A leaf, a stem and a tree `△ △ a` that ignores its argument are already simple: simplifying
/// gives them back unchanged and stores nothing.
pub proof fn law_simplify_keeps_simple(a: Term)
    ensures
        simplify(Term::Leaf) == (Term::Leaf, 0nat),
        simplify(Term::Stem(Box::new(a))) == (Term::Stem(Box::new(a)), 0nat),
        simplify(Term::Fork(Box::new(Term::Leaf), Box::new(a))) == (Term::Fork(Box::new(Term::Leaf), Box::new(a)), 0nat),
{
}

} // verus!
