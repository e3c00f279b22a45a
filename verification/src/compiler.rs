//! Compiling tree expressions to trees: functions become trees by bracket abstraction, names
//! are looked up in a namespace of declared trees.
use vstd::prelude::*;

use crate::calculus::{cost, halts, lemma_rule_duplicate, lemma_rule_immediate, value, Term};
use crate::fast_tree::{TreeIndex, Trees, MAX_TREE_APPLY_ITERS};
use crate::lexer::Span;
use crate::parser::{Error, TreeExpr, TreeLambda};
use crate::text::{debug_quoted, decimal, decimal_text, same_text, str_debug};

verus! {

/// A tree expression with its functions compiled: stored trees, names still to be looked up,
/// and applications of a sequence of compiled trees.
#[derive(Debug)]
pub enum CompiledTree<'src> {
    Tree(TreeIndex),
    NameRef((&'src str, Span)),
    Application(Vec<CompiledTree<'src>>),
}

/// What evaluating a compiled tree gives: a tree, a name that is not declared (with its byte
/// range), or an evaluation that does not end.
pub enum Outcome {
    Val(Term),
    Undefined(Seq<char>, nat, nat),
    Diverges,
}

/// What applying `f` to `v` gives.
pub open spec fn apply_outcome(f: Term, v: Term) -> Outcome {
    if halts(f, v) {
        Outcome::Val(value(f, v))
    } else {
        Outcome::Diverges
    }
}

/// What `ct` evaluates to, its names read from `env` and its trees from `store`: an
/// application evaluates its parts from left to right and applies them in turn.
pub open spec fn den(ct: CompiledTree, env: Map<Seq<char>, Term>, store: Map<TreeIndex, Term>) -> Outcome {
    match ct {
        CompiledTree::Tree(i) => Outcome::Val(store[i]),
        CompiledTree::NameRef((name, span)) => if env.contains_key(name@) {
            Outcome::Val(env[name@])
        } else {
            Outcome::Undefined(name@, span.start as nat, span.end as nat)
        },
        CompiledTree::Application(v) => den_list(v@, None, env, store),
    }
}

/// What applying `acc` (if any) to the parts `items` in turn gives.
pub open spec fn den_list(
    items: Seq<CompiledTree>,
    acc: Option<Term>,
    env: Map<Seq<char>, Term>,
    store: Map<TreeIndex, Term>,
) -> Outcome
    decreases items,
{
    if items.len() == 0 {
        match acc {
            Some(t) => Outcome::Val(t),
            None => Outcome::Diverges,
        }
    } else {
        let first = match items[0] {
            CompiledTree::Tree(i) => Outcome::Val(store[i]),
            CompiledTree::NameRef((name, span)) => if env.contains_key(name@) {
                Outcome::Val(env[name@])
            } else {
                Outcome::Undefined(name@, span.start as nat, span.end as nat)
            },
            CompiledTree::Application(w) => den_list(w@, None, env, store),
        };
        match first {
            Outcome::Val(w) => match acc {
                None => den_list(items.drop_first(), Some(w), env, store),
                Some(a) => if halts(a, w) {
                    den_list(items.drop_first(), Some(value(a, w)), env, store)
                } else {
                    Outcome::Diverges
                },
            },
            other => other,
        }
    }
}

/// Whether `ct` mentions the name `x`.
pub open spec fn refs(ct: CompiledTree, x: Seq<char>) -> bool {
    match ct {
        CompiledTree::Tree(_) => false,
        CompiledTree::NameRef((name, _)) => name@ == x,
        CompiledTree::Application(v) => refs_list(v@, x),
    }
}

/// Whether one of `items` mentions the name `x`.
pub open spec fn refs_list(items: Seq<CompiledTree>, x: Seq<char>) -> bool
    decreases items,
{
    if items.len() == 0 {
        false
    } else {
        let first = match items[0] {
            CompiledTree::Tree(_) => false,
            CompiledTree::NameRef((name, _)) => name@ == x,
            CompiledTree::Application(w) => refs_list(w@, x),
        };
        first || refs_list(items.drop_first(), x)
    }
}

/// The trees of `ct` are stored in `store`, and every application in it has a part.
pub open spec fn well_built(ct: CompiledTree, store: Map<TreeIndex, Term>) -> bool {
    match ct {
        CompiledTree::Tree(i) => store.contains_key(i),
        CompiledTree::NameRef(_) => true,
        CompiledTree::Application(v) => v@.len() > 0 && well_built_list(v@, store),
    }
}

/// The trees of `items` are stored in `store`, and every application in them has a part.
pub open spec fn well_built_list(items: Seq<CompiledTree>, store: Map<TreeIndex, Term>) -> bool
    decreases items,
{
    if items.len() == 0 {
        true
    } else {
        let first = match items[0] {
            CompiledTree::Tree(i) => store.contains_key(i),
            CompiledTree::NameRef(_) => true,
            CompiledTree::Application(w) => w@.len() > 0 && well_built_list(w@, store),
        };
        first && well_built_list(items.drop_first(), store)
    }
}

/// `r` is `out` as a function of `x`: where `r` evaluates to a tree, applying it to any `v`
/// gives what `out` gives with `x` standing for `v`; and where `out` gives a tree for some `v`,
/// `r` evaluates to a tree.
pub open spec fn abstracts(r: CompiledTree, out: CompiledTree, x: Seq<char>, store: Map<TreeIndex, Term>) -> bool {
    forall|env: Map<Seq<char>, Term>, v: Term|
        #![trigger den(out, env.insert(x, v), store)]
        {
            &&& (den(r, env, store) matches Outcome::Val(f) ==> den(out, env.insert(x, v), store)
                == apply_outcome(f, v))
            &&& (den(out, env.insert(x, v), store) is Val ==> den(r, env, store) is Val)
        }
}

/// One of `items` mentions `x` exactly where `refs_list` says so.
pub proof fn lemma_refs_list(items: Seq<CompiledTree>, x: Seq<char>)
    ensures
        refs_list(items, x) <==> exists|i: int| 0 <= i < items.len() && #[trigger] refs(items[i], x),
    decreases items.len(),
{
    if items.len() > 0 {
        let rest = items.drop_first();
        assert(refs_list(items, x) == (refs(items[0], x) || refs_list(rest, x)));
        lemma_refs_list(rest, x);
        if refs_list(rest, x) {
            let i = choose|i: int| 0 <= i < rest.len() && #[trigger] refs(rest[i], x);
            assert(items[i + 1] == rest[i]);
        }
        if exists|i: int| 0 <= i < items.len() && #[trigger] refs(items[i], x) {
            let i = choose|i: int| 0 <= i < items.len() && #[trigger] refs(items[i], x);
            if i > 0 {
                assert(rest[i - 1] == items[i]);
            }
        }
    }
}

/// `items` are well built exactly where each of them is.
pub proof fn lemma_well_built_list(items: Seq<CompiledTree>, store: Map<TreeIndex, Term>)
    ensures
        well_built_list(items, store) <==> forall|i: int| 0 <= i < items.len() ==> #[trigger] well_built(items[i], store),
    decreases items.len(),
{
    if items.len() > 0 {
        let rest = items.drop_first();
        lemma_well_built_list(rest, store);
        if well_built_list(items, store) {
            assert forall|i: int| 0 <= i < items.len() implies #[trigger] well_built(items[i], store) by {
                if i > 0 {
                    assert(rest[i - 1] == items[i]);
                }
            }
        }
        if forall|i: int| 0 <= i < items.len() ==> #[trigger] well_built(items[i], store) {
            assert(well_built(items[0], store));
            assert forall|i: int| 0 <= i < rest.len() implies #[trigger] well_built(rest[i], store) by {
                assert(rest[i] == items[i + 1]);
            }
        }
    }
}

/// Evaluation reads only the trees a compiled tree holds: a larger store gives the same.
pub proof fn lemma_den_store(
    ct: CompiledTree,
    env: Map<Seq<char>, Term>,
    s1: Map<TreeIndex, Term>,
    s2: Map<TreeIndex, Term>,
)
    requires
        well_built(ct, s1),
        s1 <= s2,
    ensures
        den(ct, env, s1) == den(ct, env, s2),
        well_built(ct, s2),
{
    match ct {
        CompiledTree::Tree(i) => {
            assert(s1.contains_key(i) && s2.contains_key(i));
        },
        CompiledTree::NameRef(_) => {},
        CompiledTree::Application(v) => {
            lemma_den_list_store(v@, None, env, s1, s2);
        },
    }
}

/// A larger store gives the same for a chain of parts.
pub proof fn lemma_den_list_store(
    items: Seq<CompiledTree>,
    acc: Option<Term>,
    env: Map<Seq<char>, Term>,
    s1: Map<TreeIndex, Term>,
    s2: Map<TreeIndex, Term>,
)
    requires
        well_built_list(items, s1),
        s1 <= s2,
    ensures
        den_list(items, acc, env, s1) == den_list(items, acc, env, s2),
        well_built_list(items, s2),
    decreases items,
{
    if items.len() > 0 {
        let rest = items.drop_first();
        match items[0] {
            CompiledTree::Tree(i) => {
                assert(s1.contains_key(i) && s2.contains_key(i));
            },
            CompiledTree::NameRef(_) => {},
            CompiledTree::Application(w) => {
                lemma_den_list_store(w@, None, env, s1, s2);
            },
        }
        lemma_den_list_store(rest, None, env, s1, s2);
        assert(den(items[0], env, s1) == den(items[0], env, s2));
        match den(items[0], env, s1) {
            Outcome::Val(w) => {
                lemma_den_list_store(rest, Some(w), env, s1, s2);
                if let Some(a) = acc {
                    if halts(a, w) {
                        lemma_den_list_store(rest, Some(value(a, w)), env, s1, s2);
                    }
                }
            },
            _ => {},
        }
    }
}

/// Evaluation reads only the names a compiled tree mentions.
pub proof fn lemma_den_env(
    ct: CompiledTree,
    env: Map<Seq<char>, Term>,
    x: Seq<char>,
    v: Term,
    store: Map<TreeIndex, Term>,
)
    requires
        !refs(ct, x),
    ensures
        den(ct, env.insert(x, v), store) == den(ct, env, store),
{
    match ct {
        CompiledTree::Tree(i) => {},
        CompiledTree::NameRef((name, _)) => {},
        CompiledTree::Application(w) => {
            lemma_den_list_env(w@, None, env, x, v, store);
        },
    }
}

/// Evaluation of a chain of parts reads only the names they mention.
pub proof fn lemma_den_list_env(
    items: Seq<CompiledTree>,
    acc: Option<Term>,
    env: Map<Seq<char>, Term>,
    x: Seq<char>,
    v: Term,
    store: Map<TreeIndex, Term>,
)
    requires
        !refs_list(items, x),
    ensures
        den_list(items, acc, env.insert(x, v), store) == den_list(items, acc, env, store),
    decreases items,
{
    if items.len() > 0 {
        let rest = items.drop_first();
        match items[0] {
            CompiledTree::Application(w) => {
                lemma_den_list_env(w@, None, env, x, v, store);
            },
            _ => {},
        }
        assert(den(items[0], env.insert(x, v), store) == den(items[0], env, store));
        match den(items[0], env, store) {
            Outcome::Val(w) => {
                lemma_den_list_env(rest, Some(w), env, x, v, store);
                if let Some(a) = acc {
                    if halts(a, w) {
                        lemma_den_list_env(rest, Some(value(a, w)), env, x, v, store);
                    }
                }
            },
            _ => {},
        }
    }
}

/// Applying one more part: the chain before it, then the part, then the application.
pub proof fn lemma_den_list_push(
    items: Seq<CompiledTree>,
    t: CompiledTree,
    acc: Option<Term>,
    env: Map<Seq<char>, Term>,
    store: Map<TreeIndex, Term>,
)
    requires
        items.len() > 0 || acc is Some,
    ensures
        den_list(items.push(t), acc, env, store) == match den_list(items, acc, env, store) {
            Outcome::Val(p) => match den(t, env, store) {
                Outcome::Val(w) => apply_outcome(p, w),
                other => other,
            },
            other => other,
        },
    decreases items.len(),
{
    let all = items.push(t);
    if items.len() == 0 {
        assert(all.drop_first() =~= Seq::<CompiledTree>::empty());
        assert(all[0] == t);
        reveal_with_fuel(den_list, 2);
    } else {
        assert(all[0] == items[0]);
        assert(all.drop_first() =~= items.drop_first().push(t));
        assert(den(all[0], env, store) == den(items[0], env, store));
        match den(items[0], env, store) {
            Outcome::Val(w) => {
                match acc {
                    None => {
                        lemma_den_list_push(items.drop_first(), t, Some(w), env, store);
                    },
                    Some(a) => {
                        if halts(a, w) {
                            lemma_den_list_push(items.drop_first(), t, Some(value(a, w)), env, store);
                        }
                    },
                }
            },
            _ => {},
        }
    }
}

/// Whether `tree` mentions the name `input_name`.
fn references_input<'src>(tree: &CompiledTree<'src>, input_name: &'src str) -> (r: bool)
    ensures
        r == refs(*tree, input_name@),
    decreases tree,
{
    match tree {
        CompiledTree::Tree(_) => {
            assert(tree is Tree);
            assert(!refs(*tree, input_name@));
            false
        },
        CompiledTree::NameRef((ref_name, _)) => same_text(ref_name, input_name),
        CompiledTree::Application(sub_trees) => {
            proof {
                lemma_refs_list(sub_trees@, input_name@);
            }
            let mut i: usize = 0;
            while i < sub_trees.len()
                invariant
                    *tree == CompiledTree::Application(*sub_trees),
                    refs_list(sub_trees@, input_name@) <==> exists|j: int| 0 <= j < sub_trees@.len()
                        && #[trigger] refs(sub_trees@[j], input_name@),
                    i <= sub_trees@.len(),
                    forall|j: int| 0 <= j < i ==> !(#[trigger] refs(sub_trees@[j], input_name@)),
                decreases sub_trees@.len() - i,
            {
                proof {
                    let ghost t = *tree;
                    let ghost v = t->Application_0;
                    assert(v == *sub_trees);
                    assert(decreases_to!(t => v));
                    assert(decreases_to!(v => v@));
                    assert(decreases_to!(v@ => v@[i as int]));
                }
                if references_input(&sub_trees[i], input_name) {
                    return true;
                }
                i += 1;
            }
            false
        },
    }
}

/// `△ (△ x) y`: applied to `v`, it applies `x v` to `y v`.
fn chain_double<'src>(x: CompiledTree<'src>, y: CompiledTree<'src>) -> (r: CompiledTree<'src>)
    ensures
        forall|n: Seq<char>| #[trigger] refs(r, n) <==> refs(x, n) || refs(y, n),
        forall|s: Map<TreeIndex, Term>| well_built(x, s) && well_built(y, s) && s.contains_key(Trees::LEAF())
            ==> #[trigger] well_built(r, s),
        forall|env: Map<Seq<char>, Term>, s: Map<TreeIndex, Term>|
            s.contains_key(Trees::LEAF()) && s[Trees::LEAF()] == Term::Leaf ==> #[trigger] den(r, env, s)
                == match den(x, env, s) {
                Outcome::Val(a) => match den(y, env, s) {
                    Outcome::Val(b) => Outcome::Val(Term::Fork(Box::new(Term::Stem(Box::new(a))), Box::new(b))),
                    other => other,
                },
                other => other,
            },
        r matches CompiledTree::Application(w) && w@.len() == 3 && w@[0] == CompiledTree::Tree(Trees::LEAF()) && w@[2] == y
            && (w@[1] matches CompiledTree::Application(u) && u@ == seq![CompiledTree::Tree(Trees::LEAF()), x]),
        s_form(r),
{
    let ghost gx = x;
    let ghost gy = y;
    let inner = CompiledTree::Application(vec![CompiledTree::Tree(Trees::LEAF()), x]);
    let ghost ginner = inner;
    let r = CompiledTree::Application(vec![CompiledTree::Tree(Trees::LEAF()), inner, y]);
    proof {
        let leaf = CompiledTree::Tree(Trees::LEAF());
        let iv = seq![leaf, gx];
        let rv = seq![leaf, ginner, gy];
        assert(ginner matches CompiledTree::Application(w) && w@ == iv);
        assert(r matches CompiledTree::Application(w) && w@ == rv);
        assert forall|n: Seq<char>| #[trigger] refs(r, n) <==> refs(gx, n) || refs(gy, n) by {
            assert(rv[0] == leaf && rv[1] == ginner && rv[2] == gy);
            assert(iv[0] == leaf && iv[1] == gx);
            lemma_refs_list(iv, n);
            lemma_refs_list(rv, n);
            assert(refs(ginner, n) <==> refs(gx, n));
        }
        assert forall|s: Map<TreeIndex, Term>| well_built(gx, s) && well_built(gy, s) && s.contains_key(Trees::LEAF())
            implies #[trigger] well_built(r, s) by {
            assert(rv[0] == leaf && rv[1] == ginner && rv[2] == gy);
            assert(iv[0] == leaf && iv[1] == gx);
            lemma_well_built_list(iv, s);
            lemma_well_built_list(rv, s);
            assert(well_built(ginner, s));
        }
        assert forall|env: Map<Seq<char>, Term>, s: Map<TreeIndex, Term>|
            s.contains_key(Trees::LEAF()) && s[Trees::LEAF()] == Term::Leaf implies #[trigger] den(r, env, s)
                == match den(gx, env, s) {
                Outcome::Val(a) => match den(gy, env, s) {
                    Outcome::Val(b) => Outcome::Val(Term::Fork(Box::new(Term::Stem(Box::new(a))), Box::new(b))),
                    other => other,
                },
                other => other,
            } by {
            lemma_den_list_two(leaf, gx, env, s);
            lemma_den_list_two(leaf, ginner, env, s);
            lemma_den_list_three(leaf, ginner, gy, env, s);
            assert(den(r, env, s) == den_list(rv, None, env, s));
            assert(den(ginner, env, s) == den_list(iv, None, env, s));
            assert(den(leaf, env, s) == Outcome::Val(Term::Leaf));
            if let Outcome::Val(a) = den(gx, env, s) {
                lemma_rule_immediate(Term::Leaf, a);
                let sa = Term::Stem(Box::new(a));
                lemma_rule_immediate(Term::Leaf, sa);
                if let Outcome::Val(b) = den(gy, env, s) {
                    lemma_rule_immediate(Term::Stem(Box::new(sa)), b);
                }
            }
        }
    }
    r
}

/// Applying a single part gives that part.
proof fn lemma_den_list_one(t: CompiledTree, env: Map<Seq<char>, Term>, store: Map<TreeIndex, Term>)
    ensures
        den_list(seq![t], None, env, store) == den(t, env, store),
{
    assert(seq![t].drop_first() =~= Seq::<CompiledTree>::empty());
    assert(seq![t][0] == t);
    reveal_with_fuel(den_list, 2);
}

/// Applying two parts: the first to the second.
proof fn lemma_den_list_two(
    a: CompiledTree,
    b: CompiledTree,
    env: Map<Seq<char>, Term>,
    store: Map<TreeIndex, Term>,
)
    ensures
        den_list(seq![a, b], None, env, store) == match den(a, env, store) {
            Outcome::Val(p) => match den(b, env, store) {
                Outcome::Val(w) => apply_outcome(p, w),
                other => other,
            },
            other => other,
        },
{
    lemma_den_list_one(a, env, store);
    lemma_den_list_push(seq![a], b, None, env, store);
    assert(seq![a].push(b) =~= seq![a, b]);
}

/// Applying three parts: the first to the second, then to the third.
proof fn lemma_den_list_three(
    a: CompiledTree,
    b: CompiledTree,
    c: CompiledTree,
    env: Map<Seq<char>, Term>,
    store: Map<TreeIndex, Term>,
)
    ensures
        den_list(seq![a, b, c], None, env, store) == match den_list(seq![a, b], None, env, store) {
            Outcome::Val(p) => match den(c, env, store) {
                Outcome::Val(w) => apply_outcome(p, w),
                other => other,
            },
            other => other,
        },
{
    lemma_den_list_push(seq![a, b], c, None, env, store);
    assert(seq![a, b].push(c) =~= seq![a, b, c]);
}

/// `r` is the chain `items` as a function of `x`, as `abstracts` says of a single tree.
pub open spec fn abstracts_list(r: CompiledTree, items: Seq<CompiledTree>, x: Seq<char>, store: Map<TreeIndex, Term>) -> bool {
    forall|env: Map<Seq<char>, Term>, v: Term|
        #![trigger den_list(items, None, env.insert(x, v), store)]
        {
            &&& (den(r, env, store) matches Outcome::Val(f) ==> den_list(items, None, env.insert(x, v), store)
                == apply_outcome(f, v))
            &&& (den_list(items, None, env.insert(x, v), store) is Val ==> den(r, env, store) is Val)
        }
}

/// The identity tree gives back what it is applied to.
pub proof fn lemma_identity(v: Term)
    ensures
        apply_outcome(crate::fast_tree::identity_term(), v) == Outcome::Val(v),
{
    let l = Term::Leaf;
    match v {
        Term::Leaf => {
            lemma_rule_immediate(crate::fast_tree::identity_term(), v);
        },
        Term::Stem(u) => {
            crate::calculus::lemma_rule_match_stem(l, l, l, *u);
            lemma_rule_immediate(l, *u);
        },
        Term::Fork(u, t) => {
            crate::calculus::lemma_rule_match_fork(l, l, l, *u, *t);
            lemma_rule_immediate(l, *u);
            lemma_rule_immediate(Term::Stem(u), *t);
        },
    }
}

/// A store that holds the trees every store starts with.
pub open spec fn has_constants(s: Map<TreeIndex, Term>) -> bool {
    &&& s.contains_key(Trees::LEAF()) && s[Trees::LEAF()] == Term::Leaf
    &&& s.contains_key(Trees::STEM_LEAF()) && s[Trees::STEM_LEAF()] == crate::fast_tree::stem_leaf_term()
    &&& s.contains_key(Trees::IDENTITY()) && s[Trees::IDENTITY()] == crate::fast_tree::identity_term()
}

/// `△ △ t`, which gives `t` whatever it is applied to; stored as one tree where `t` is a
/// stored tree and the store has room.
fn ignore_input_and_return_tree<'src>(trees: &mut Trees, return_tree: CompiledTree<'src>) -> (r: CompiledTree<'src>)
    requires
        old(trees).well_formed(),
        well_built(return_tree, old(trees)@),
    ensures
        final(trees).well_formed(),
        old(trees)@ <= final(trees)@,
        final(trees).cache() == old(trees).cache(),
        final(trees).room() >= old(trees).room() - 1,
        well_built(r, final(trees)@),
        forall|n: Seq<char>| #[trigger] refs(r, n) == refs(return_tree, n),
        forall|env: Map<Seq<char>, Term>| #[trigger] den(r, env, final(trees)@) == match den(return_tree, env, old(trees)@) {
            Outcome::Val(t) => Outcome::Val(Term::Fork(Box::new(Term::Leaf), Box::new(t))),
            other => other,
        },
        return_tree matches CompiledTree::Tree(t) ==> (old(trees).room() >= 1 ==> (r matches CompiledTree::Tree(i)
            && final(trees)@[i] == Term::Fork(Box::new(Term::Leaf), Box::new(old(trees)@[t])))),
        (return_tree is Tree ==> old(trees).room() < 1) ==> (r matches CompiledTree::Application(w) && w@ == seq![
            CompiledTree::Tree(Trees::STEM_LEAF()),
            return_tree,
        ]),
{
    proof {
        trees.lemma_constants();
    }
    let ghost ret = return_tree;
    let ghost s0 = trees@;
    match return_tree {
        CompiledTree::Tree(t) => {
            if trees.has_room_for(1) {
                let i = trees.ignore_then(t);
                return CompiledTree::Tree(i);
            }
        },
        _ => {},
    }
    let r = CompiledTree::Application(vec![CompiledTree::Tree(Trees::STEM_LEAF()), return_tree]);
    proof {
        let sl = CompiledTree::Tree(Trees::STEM_LEAF());
        let rv = seq![sl, ret];
        assert(r matches CompiledTree::Application(w) && w@ == rv);
        assert(rv[0] == sl && rv[1] == ret);
        assert forall|n: Seq<char>| #[trigger] refs(r, n) == refs(ret, n) by {
            lemma_refs_list(rv, n);
        }
        lemma_well_built_list(rv, s0);
        assert forall|env: Map<Seq<char>, Term>| #[trigger] den(r, env, s0) == match den(ret, env, s0) {
            Outcome::Val(t) => Outcome::Val(Term::Fork(Box::new(Term::Leaf), Box::new(t))),
            other => other,
        } by {
            lemma_den_list_two(sl, ret, env, s0);
            if let Outcome::Val(t) = den(ret, env, s0) {
                lemma_rule_immediate(crate::fast_tree::stem_leaf_term(), t);
            }
        }
    }
    r
}

/// `K (items)`: where `a` stands for the chain `pre`, which does not mention `x`, as a tree
/// that ignores its argument, `a` is `pre` as a function of `x`.
proof fn lemma_abs_ignore(a: CompiledTree, pre: Seq<CompiledTree>, x: Seq<char>, s: Map<TreeIndex, Term>)
    requires
        !refs_list(pre, x),
        forall|env: Map<Seq<char>, Term>| #[trigger] den(a, env, s) == match den_list(pre, None, env, s) {
            Outcome::Val(t) => Outcome::Val(Term::Fork(Box::new(Term::Leaf), Box::new(t))),
            other => other,
        },
    ensures
        abstracts_list(a, pre, x, s),
{
    assert forall|env: Map<Seq<char>, Term>, v: Term|
        #![trigger den_list(pre, None, env.insert(x, v), s)]
        {
            &&& (den(a, env, s) matches Outcome::Val(f) ==> den_list(pre, None, env.insert(x, v), s)
                == apply_outcome(f, v))
            &&& (den_list(pre, None, env.insert(x, v), s) is Val ==> den(a, env, s) is Val)
        } by {
        lemma_den_list_env(pre, None, env, x, v, s);
        if let Outcome::Val(t) = den_list(pre, None, env, s) {
            lemma_rule_immediate(Term::Fork(Box::new(Term::Leaf), Box::new(t)), v);
        }
    }
}

/// The first part of a chain: a function for the part is one for the chain of it alone.
proof fn lemma_abs_first(c: CompiledTree, t: CompiledTree, x: Seq<char>, s: Map<TreeIndex, Term>)
    requires
        abstracts(c, t, x, s),
    ensures
        abstracts_list(c, seq![t], x, s),
{
    assert forall|env: Map<Seq<char>, Term>, v: Term|
        #![trigger den_list(seq![t], None, env.insert(x, v), s)]
        {
            &&& (den(c, env, s) matches Outcome::Val(f) ==> den_list(seq![t], None, env.insert(x, v), s)
                == apply_outcome(f, v))
            &&& (den_list(seq![t], None, env.insert(x, v), s) is Val ==> den(c, env, s) is Val)
        } by {
        lemma_den_list_one(t, env.insert(x, v), s);
        assert(den(t, env.insert(x, v), s) == den(t, env.insert(x, v), s));
    }
}

/// One more part: `△ (△ a) c` is the chain `items` followed by `t` as a function of `x`.
proof fn lemma_abs_step(
    a: CompiledTree,
    c: CompiledTree,
    sc: CompiledTree,
    items: Seq<CompiledTree>,
    t: CompiledTree,
    x: Seq<char>,
    s: Map<TreeIndex, Term>,
)
    requires
        items.len() > 0,
        abstracts_list(a, items, x, s),
        abstracts(c, t, x, s),
        forall|env: Map<Seq<char>, Term>| #[trigger] den(sc, env, s) == match den(a, env, s) {
            Outcome::Val(fa) => match den(c, env, s) {
                Outcome::Val(fc) => Outcome::Val(Term::Fork(Box::new(Term::Stem(Box::new(fa))), Box::new(fc))),
                other => other,
            },
            other => other,
        },
    ensures
        abstracts_list(sc, items.push(t), x, s),
{
    assert forall|env: Map<Seq<char>, Term>, v: Term|
        #![trigger den_list(items.push(t), None, env.insert(x, v), s)]
        {
            &&& (den(sc, env, s) matches Outcome::Val(f) ==> den_list(items.push(t), None, env.insert(x, v), s)
                == apply_outcome(f, v))
            &&& (den_list(items.push(t), None, env.insert(x, v), s) is Val ==> den(sc, env, s) is Val)
        } by {
        let e2 = env.insert(x, v);
        lemma_den_list_push(items, t, None, e2, s);
        assert(den_list(items, None, e2, s) == den_list(items, None, e2, s));
        assert(den(t, e2, s) == den(t, e2, s));
        if let Outcome::Val(fa) = den(a, env, s) {
            if let Outcome::Val(fc) = den(c, env, s) {
                lemma_rule_duplicate(fa, fc, v);
            }
        }
    }
}

/// A larger store keeps a function for a chain.
proof fn lemma_abs_grow(
    a: CompiledTree,
    items: Seq<CompiledTree>,
    x: Seq<char>,
    s1: Map<TreeIndex, Term>,
    s2: Map<TreeIndex, Term>,
)
    requires
        abstracts_list(a, items, x, s1),
        well_built(a, s1),
        well_built_list(items, s1),
        s1 <= s2,
    ensures
        abstracts_list(a, items, x, s2),
{
    assert forall|env: Map<Seq<char>, Term>, v: Term|
        #![trigger den_list(items, None, env.insert(x, v), s2)]
        {
            &&& (den(a, env, s2) matches Outcome::Val(f) ==> den_list(items, None, env.insert(x, v), s2)
                == apply_outcome(f, v))
            &&& (den_list(items, None, env.insert(x, v), s2) is Val ==> den(a, env, s2) is Val)
        } by {
        lemma_den_store(a, env, s1, s2);
        lemma_den_list_store(items, None, env.insert(x, v), s1, s2);
        assert(den_list(items, None, env.insert(x, v), s1) == den_list(items, None, env.insert(x, v), s1));
    }
}

/// A function of `x` for the chain `items` is one for the application of `items`.
proof fn lemma_abs_app(r: CompiledTree, out: CompiledTree, items: Seq<CompiledTree>, x: Seq<char>, s: Map<TreeIndex, Term>)
    requires
        abstracts_list(r, items, x, s),
        out matches CompiledTree::Application(v) && v@ == items,
    ensures
        abstracts(r, out, x, s),
{
    assert forall|env: Map<Seq<char>, Term>, v: Term|
        #![trigger den(out, env.insert(x, v), s)]
        {
            &&& (den(r, env, s) matches Outcome::Val(f) ==> den(out, env.insert(x, v), s) == apply_outcome(f, v))
            &&& (den(out, env.insert(x, v), s) is Val ==> den(r, env, s) is Val)
        } by {
        assert(den(out, env.insert(x, v), s) == den_list(items, None, env.insert(x, v), s));
    }
}


/// `r` is `△ △ (parts)`: the compiled tree that ignores its argument and gives the application
/// of `parts`.
pub open spec fn k_form(r: CompiledTree, parts: Seq<CompiledTree>) -> bool {
    &&& r matches CompiledTree::Application(w)
    &&& w@.len() == 2
    &&& w@[0] == CompiledTree::Tree(Trees::STEM_LEAF())
    &&& w@[1] matches CompiledTree::Application(u) && u@ == parts
}

/// `r` is `△ (△ a) b`: the compiled tree that gives `a y (b y)` for its argument `y`.
pub open spec fn s_form(r: CompiledTree) -> bool {
    &&& r matches CompiledTree::Application(w)
    &&& w@.len() == 3
    &&& w@[0] == CompiledTree::Tree(Trees::LEAF())
    &&& w@[1] matches CompiledTree::Application(u) && u@.len() == 2 && u@[0] == CompiledTree::Tree(Trees::LEAF())
}

/// The application `v` is `f x` with `x` the name `x` and `f` not mentioning it: as a function
/// of `x` it is `f` itself.
pub open spec fn eta_reducible(v: Seq<CompiledTree>, x: Seq<char>) -> bool {
    &&& v.len() >= 2
    &&& v.last() matches CompiledTree::NameRef((nm, _)) && nm@ == x
    &&& forall|j: int| 0 <= j < v.len() - 1 ==> !#[trigger] refs(v[j], x)
}

/// The position of the first of `v` that mentions `x`, or the length of `v`.
pub open spec fn first_ref(v: Seq<CompiledTree>, x: Seq<char>) -> nat
    decreases v.len(),
{
    if v.len() == 0 {
        0
    } else if refs(v[0], x) {
        0
    } else {
        1 + first_ref(v.drop_first(), x)
    }
}

/// `r` is `out` as a function of `x`, part by part, the trees it adds standing in `s`:
/// - `x` itself is the identity;
/// - a stored tree `t` is the stored `△ △ t`, or `△ △` applied to it;
/// - another name `n` is `△ △ n`;
/// - an application `f x`, where `f` does not mention `x`, is `f`;
/// - an application that does not mention `x` is `△ △` applied to it;
/// - any other application of the parts `v` is built by `chain_abstraction`.
pub open spec fn abstraction(r: CompiledTree, out: CompiledTree, x: Seq<char>, s: Map<TreeIndex, Term>) -> bool
    decreases out, 1nat, 0nat,
{
    match out {
        CompiledTree::Tree(t) => (r matches CompiledTree::Tree(i) && s.contains_key(i) && s[i] == Term::Fork(
            Box::new(Term::Leaf),
            Box::new(s[t]),
        )) || (r matches CompiledTree::Application(w) && w@ == seq![CompiledTree::Tree(Trees::STEM_LEAF()), out]),
        CompiledTree::NameRef((nm, _)) => if nm@ == x {
            r == CompiledTree::Tree(Trees::IDENTITY())
        } else {
            r matches CompiledTree::Application(w) && w@ == seq![CompiledTree::Tree(Trees::STEM_LEAF()), out]
        },
        CompiledTree::Application(v) => if eta_reducible(v@, x) {
            r matches CompiledTree::Application(w) && w@ == v@.drop_last()
        } else if !refs_list(v@, x) {
            k_form(r, v@)
        } else {
            chain_abstraction(r, out, first_ref(v@, x), v@.len(), x, s)
        },
    }
}

/// `r` is the application `out`, of the parts `v`, as a function of `x` up to its part `m`,
/// where `e` is the first part that mentions `x`: the parts before `e` under `△ △`, then each
/// later part `p` joined as `△ (△ acc) p'` with `p'` the part `p` as a function of `x`; the
/// first part alone where `e` is 0.
pub open spec fn chain_abstraction(
    r: CompiledTree,
    out: CompiledTree,
    e: nat,
    m: nat,
    x: Seq<char>,
    s: Map<TreeIndex, Term>,
) -> bool
    decreases out, 0nat, m,
{
    match out {
        CompiledTree::Application(w) => {
            let v = w@;
            if m > v.len() || m < e {
                false
            } else if m == e {
                e > 0 && k_form(r, v.take(e as int))
            } else if e == 0 && m == 1 {
                proof {
                    assert(decreases_to!(out => w));
                    assert(decreases_to!(w => w@));
                    assert(decreases_to!(w@ => w@[0]));
                }
                abstraction(r, v[0], x, s)
            } else {
                proof {
                    assert(decreases_to!(out => w));
                    assert(decreases_to!(w => w@));
                    assert(decreases_to!(w@ => w@[m - 1]));
                }
                &&& r matches CompiledTree::Application(rw)
                &&& rw@.len() == 3
                &&& rw@[0] == CompiledTree::Tree(Trees::LEAF())
                &&& rw@[1] matches CompiledTree::Application(u) && u@.len() == 2 && u@[0] == CompiledTree::Tree(
                    Trees::LEAF(),
                ) && chain_abstraction(u@[1], out, e, (m - 1) as nat, x, s)
                &&& abstraction(rw@[2], v[m - 1], x, s)
            }
        },
        _ => false,
    }
}

/// An abstraction stays one as the store grows.
proof fn lemma_abstraction_grow(r: CompiledTree, out: CompiledTree, x: Seq<char>, s1: Map<TreeIndex, Term>, s2: Map<TreeIndex, Term>)
    requires
        abstraction(r, out, x, s1),
        well_built(out, s1),
        s1 <= s2,
    ensures
        abstraction(r, out, x, s2),
    decreases out, 1nat, 0nat,
{
    match out {
        CompiledTree::Tree(t) => {
            assert(s1.dom().contains(t) && s2.dom().contains(t));
            if let CompiledTree::Tree(i) = r {
                if s1.contains_key(i) {
                    assert(s1.dom().contains(i) && s2.dom().contains(i));
                }
            }
        },
        CompiledTree::NameRef(_) => {},
        CompiledTree::Application(v) => {
            if !eta_reducible(v@, x) && refs_list(v@, x) {
                lemma_chain_grow(r, out, first_ref(v@, x), v@.len(), x, s1, s2);
            }
        },
    }
}

/// A chain of abstractions stays one as the store grows.
proof fn lemma_chain_grow(
    r: CompiledTree,
    out: CompiledTree,
    e: nat,
    m: nat,
    x: Seq<char>,
    s1: Map<TreeIndex, Term>,
    s2: Map<TreeIndex, Term>,
)
    requires
        chain_abstraction(r, out, e, m, x, s1),
        well_built(out, s1),
        s1 <= s2,
    ensures
        chain_abstraction(r, out, e, m, x, s2),
    decreases out, 0nat, m,
{
    if let CompiledTree::Application(w) = out {
        let v = w@;
        lemma_well_built_list(v, s1);
        if m == e {
        } else if e == 0 && m == 1 {
            assert(decreases_to!(out => w));
            assert(decreases_to!(w => w@));
            assert(decreases_to!(w@ => w@[0]));
            lemma_abstraction_grow(r, v[0], x, s1, s2);
        } else {
            assert(decreases_to!(out => w));
            assert(decreases_to!(w => w@));
            assert(decreases_to!(w@ => w@[m - 1]));
            let rw = r->Application_0;
            let u = rw@[1]->Application_0;
            lemma_chain_grow(u@[1], out, e, (m - 1) as nat, x, s1, s2);
            lemma_abstraction_grow(rw@[2], v[m - 1], x, s1, s2);
        }
    }
}

/// The first part that mentions `x` is the one before which none does.
proof fn lemma_first_ref(v: Seq<CompiledTree>, x: Seq<char>, e: nat)
    requires
        e <= v.len(),
        forall|j: int| 0 <= j < e ==> !#[trigger] refs(v[j], x),
        e < v.len() ==> refs(v[e as int], x),
    ensures
        first_ref(v, x) == e,
    decreases v.len(),
{
    if v.len() > 0 && e > 0 {
        let rest = v.drop_first();
        assert(!refs(v[0], x));
        assert forall|j: int| 0 <= j < e - 1 implies !#[trigger] refs(rest[j], x) by {
            assert(rest[j] == v[j + 1]);
        }
        if e - 1 < rest.len() {
            assert(rest[e - 1] == v[e as int]);
        }
        lemma_first_ref(rest, x, (e - 1) as nat);
    }
}

/// `out` as a function of the name `input_name`: the bracket abstraction of `out`.
fn construct_tree_from_out_and_input<'src>(
    trees: &mut Trees,
    tree_out: CompiledTree<'src>,
    input_name: &'src str,
) -> (r: CompiledTree<'src>)
    requires
        old(trees).well_formed(),
        well_built(tree_out, old(trees)@),
    ensures
        final(trees).well_formed(),
        old(trees)@ <= final(trees)@,
        final(trees).cache() == old(trees).cache(),
        well_built(r, final(trees)@),
        !refs(r, input_name@),
        forall|n: Seq<char>| #[trigger] refs(r, n) ==> refs(tree_out, n),
        abstracts(r, tree_out, input_name@, final(trees)@),
        tree_out matches CompiledTree::NameRef((nm, _)) ==> (nm@ == input_name@ ==> r == CompiledTree::Tree(
            Trees::IDENTITY(),
        )),
        tree_out matches CompiledTree::NameRef((nm, _)) ==> (nm@ != input_name@ ==> (r matches CompiledTree::Application(w)
            && w@ == seq![CompiledTree::Tree(Trees::STEM_LEAF()), tree_out])),
        tree_out matches CompiledTree::Tree(t) ==> (old(trees).room() >= 1 ==> (r matches CompiledTree::Tree(i)
            && final(trees)@[i] == Term::Fork(Box::new(Term::Leaf), Box::new(old(trees)@[t])))),
        tree_out matches CompiledTree::Application(v) ==> (eta_reducible(v@, input_name@) ==> (r matches CompiledTree::Application(w)
            && w@ == v@.drop_last())),
        tree_out matches CompiledTree::Application(v) ==> (v@.len() > 0 && !refs_list(v@, input_name@) ==> k_form(r, v@)),
        tree_out matches CompiledTree::Application(v) ==> (refs_list(v@, input_name@) && v@.len() > 1 && !eta_reducible(
            v@,
            input_name@,
        ) ==> s_form(r)),
        abstraction(r, tree_out, input_name@, final(trees)@),
    decreases tree_out,
{
    let ghost x = input_name@;
    let ghost out = tree_out;
    let ghost s0 = trees@;
    proof {
        trees.lemma_constants();
    }
    match tree_out {
        CompiledTree::Tree(tree) => {
            let r = ignore_input_and_return_tree(trees, CompiledTree::Tree(tree));
            proof {
                lemma_den_store(out, Map::empty(), s0, trees@);
                assert forall|env: Map<Seq<char>, Term>, v: Term|
                    #![trigger den(out, env.insert(x, v), trees@)]
                    {
                        &&& (den(r, env, trees@) matches Outcome::Val(f) ==> den(out, env.insert(x, v), trees@)
                            == apply_outcome(f, v))
                        &&& (den(out, env.insert(x, v), trees@) is Val ==> den(r, env, trees@) is Val)
                    } by {
                    assert(den(r, env, trees@) == Outcome::Val(Term::Fork(Box::new(Term::Leaf), Box::new(s0[tree]))));
                    lemma_rule_immediate(Term::Fork(Box::new(Term::Leaf), Box::new(s0[tree])), v);
                }
            }
            r
        },
        CompiledTree::NameRef((ref_name, span)) => {
            if same_text(ref_name, input_name) {
                let r = CompiledTree::Tree(Trees::IDENTITY());
                proof {
                    assert forall|env: Map<Seq<char>, Term>, v: Term|
                        #![trigger den(out, env.insert(x, v), trees@)]
                        {
                            &&& (den(r, env, trees@) matches Outcome::Val(f) ==> den(out, env.insert(x, v), trees@)
                                == apply_outcome(f, v))
                            &&& (den(out, env.insert(x, v), trees@) is Val ==> den(r, env, trees@) is Val)
                        } by {
                        lemma_identity(v);
                    }
                }
                r
            } else {
                let r = ignore_input_and_return_tree(trees, CompiledTree::NameRef((ref_name, span)));
                proof {
                    assert forall|env: Map<Seq<char>, Term>, v: Term|
                        #![trigger den(out, env.insert(x, v), trees@)]
                        {
                            &&& (den(r, env, trees@) matches Outcome::Val(f) ==> den(out, env.insert(x, v), trees@)
                                == apply_outcome(f, v))
                            &&& (den(out, env.insert(x, v), trees@) is Val ==> den(r, env, trees@) is Val)
                        } by {
                        assert(den(out, env.insert(x, v), trees@) == den(out, env, s0));
                        if let Outcome::Val(t) = den(out, env, s0) {
                            lemma_rule_immediate(Term::Fork(Box::new(Term::Leaf), Box::new(t)), v);
                        }
                    }
                }
                r
            }
        },
        CompiledTree::Application(mut sub_trees) => {
            let ghost v0 = sub_trees;
            let ghost orig = sub_trees@;
            let n = sub_trees.len();
            proof {
                lemma_well_built_list(orig, s0);
                lemma_refs_list(orig, x);
            }
            let mut end_index: usize = 0;
            while end_index < n && !references_input(&sub_trees[end_index], input_name)
                invariant
                    n == sub_trees@.len(),
                    sub_trees@ == orig,
                    x == input_name@,
                    end_index <= n,
                    forall|j: int| 0 <= j < end_index ==> !(#[trigger] refs(orig[j], x)),
                decreases n - end_index,
            {
                end_index += 1;
            }
            proof {
                lemma_refs_list(orig.take(end_index as int), x);
                assert forall|j: int| 0 <= j < end_index implies !(#[trigger] refs(orig.take(end_index as int)[j], x)) by {
                    assert(orig.take(end_index as int)[j] == orig[j]);
                }
                lemma_well_built_list(orig.take(end_index as int), s0);
                assert forall|j: int| 0 <= j < end_index implies #[trigger] well_built(orig.take(end_index as int)[j], s0) by {
                    assert(orig.take(end_index as int)[j] == orig[j]);
                }
                assert(end_index < n ==> refs(orig[end_index as int], x));
                lemma_refs_list(orig, x);
                assert(refs_list(orig, x) <==> end_index < n);
            }
            if n >= 2 && end_index == n - 1 {
                let last_is_input = match &sub_trees[n - 1] {
                    CompiledTree::NameRef((ref_name, _)) => same_text(ref_name, input_name),
                    _ => false,
                };
                if last_is_input {
                    let _ = sub_trees.pop();
                    let r = CompiledTree::Application(sub_trees);
                    proof {
                        let pre = orig.take(n - 1);
                        assert(sub_trees@ =~= pre);
                        assert(orig =~= pre.push(orig[n - 1]));
                        assert forall|m: Seq<char>| #[trigger] refs(r, m) implies refs(out, m) by {
                            lemma_refs_list(pre, m);
                            lemma_refs_list(orig, m);
                            let j = choose|j: int| 0 <= j < pre.len() && #[trigger] refs(pre[j], m);
                            assert(orig[j] == pre[j]);
                        }
                        assert forall|env: Map<Seq<char>, Term>, v: Term|
                            #![trigger den_list(orig, None, env.insert(x, v), s0)]
                            {
                                &&& (den(r, env, s0) matches Outcome::Val(f) ==> den_list(orig, None, env.insert(x, v), s0)
                                    == apply_outcome(f, v))
                                &&& (den_list(orig, None, env.insert(x, v), s0) is Val ==> den(r, env, s0) is Val)
                            } by {
                            lemma_den_list_push(pre, orig[n - 1], None, env.insert(x, v), s0);
                            lemma_den_list_env(pre, None, env, x, v, s0);
                            assert(den(orig[n - 1], env.insert(x, v), s0) == Outcome::Val(v));
                        }
                        lemma_abs_app(r, out, orig, x, s0);
                    }
                    return r;
                }
                proof {
                    assert(!eta_reducible(orig, x));
                }
            }
            proof {
                if eta_reducible(orig, x) {
                    assert(refs(orig[n - 1], x));
                    assert(end_index == n - 1);
                }
                assert(!eta_reducible(orig, x));
            }
            let mut rest_rev: Vec<CompiledTree<'src>> = Vec::new();
            while sub_trees.len() > end_index
                invariant
                    end_index <= sub_trees@.len() <= n,
                    n == orig.len(),
                    sub_trees@ == orig.take(sub_trees@.len() as int),
                    rest_rev@.len() == n - sub_trees@.len(),
                    forall|k: int| 0 <= k < rest_rev@.len() ==> #[trigger] rest_rev@[k] == orig[n - 1 - k],
                decreases sub_trees@.len(),
            {
                let ghost before = sub_trees@;
                let t = sub_trees.pop().unwrap();
                proof {
                    assert(sub_trees@ =~= orig.take(sub_trees@.len() as int));
                }
                rest_rev.push(t);
            }
            let ghost pre = orig.take(end_index as int);
            let mut acc: Option<CompiledTree<'src>> = if end_index > 0 {
                let a = ignore_input_and_return_tree(trees, CompiledTree::Application(sub_trees));
                proof {
                    assert(sub_trees@ == pre);
                    lemma_den_list_store(pre, None, Map::empty(), s0, trees@);
                    assert forall|env: Map<Seq<char>, Term>| #[trigger] den(a, env, trees@) == match den_list(pre, None, env, trees@) {
                        Outcome::Val(t) => Outcome::Val(Term::Fork(Box::new(Term::Leaf), Box::new(t))),
                        other => other,
                    } by {
                        lemma_den_list_store(pre, None, env, s0, trees@);
                    }
                    lemma_abs_ignore(a, pre, x, trees@);
                    trees.lemma_constants();
                    assert(!refs(a, x)) by {
                        lemma_refs_list(pre, x);
                    }
                    assert forall|q: Seq<char>| #[trigger] refs(a, q) implies refs(out, q) by {
                        lemma_refs_list(pre, q);
                        lemma_refs_list(orig, q);
                        let j = choose|j: int| 0 <= j < pre.len() && #[trigger] refs(pre[j], q);
                        assert(orig[j] == pre[j]);
                    }
                }
                Some(a)
            } else {
                None
            };
            proof {
                trees.lemma_constants();
                if end_index == n && n > 0 {
                    assert(pre =~= orig);
                }
                if end_index < n {
                    lemma_first_ref(orig, x, end_index as nat);
                }
            }
            let ghost acc0 = acc;
            let mut m: usize = end_index;
            while rest_rev.len() > 0
                invariant
                    trees.well_formed(),
                    s0 <= trees@,
                    trees.cache() == old(trees).cache(),
                    has_constants(trees@),
                    old(trees)@ == s0,
                    x == input_name@,
                    n == orig.len(),
                    end_index <= m <= n,
                    rest_rev@.len() == n - m,
                    forall|k: int| 0 <= k < rest_rev@.len() ==> #[trigger] rest_rev@[k] == orig[n - 1 - k],
                    well_built_list(orig, s0),
                    forall|j: int| 0 <= j < n ==> #[trigger] well_built(orig[j], s0),
                    forall|j: int| 0 <= j < end_index ==> !(#[trigger] refs(orig[j], x)),
                    out == CompiledTree::Application(v0),
                    out == tree_out,
                    v0@ == orig,
                    acc is None <==> m == 0,
                    !eta_reducible(orig, x),
                    refs_list(orig, x) <==> end_index < n,
                    m == end_index ==> acc == acc0,
                    end_index == n && n > 0 ==> (acc0 matches Some(a) && k_form(a, orig)),
                    end_index > 0 ==> (acc0 matches Some(a) && k_form(a, orig.take(end_index as int))),
                    end_index < n ==> first_ref(orig, x) == end_index,
                    well_built(out, s0),
                    acc matches Some(a) ==> chain_abstraction(a, out, end_index as nat, m as nat, x, trees@),
                    m > end_index && m > 1 ==> (acc matches Some(a) && s_form(a)),
                    acc matches Some(a) ==> {
                        &&& well_built(a, trees@)
                        &&& !refs(a, x)
                        &&& forall|q: Seq<char>| #[trigger] refs(a, q) ==> refs(out, q)
                        &&& abstracts_list(a, orig.take(m as int), x, trees@)
                    },
                decreases rest_rev@.len(),
            {
                let next = rest_rev.pop().unwrap();
                let ghost s1 = trees@;
                proof {
                    assert(next == orig[m as int]);
                    let w = out->Application_0;
                    assert(w == v0);
                    assert(decreases_to!(out => w));
                    assert(decreases_to!(w => w@));
                    assert(decreases_to!(w@ => w@[m as int]));
                    lemma_den_store(next, Map::empty(), s0, s1);
                }
                let c = construct_tree_from_out_and_input(trees, next, input_name);
                let ghost s2 = trees@;
                proof {
                    vstd::map_lib::lemma_submap_of_trans(s0, s1, s2);
                    trees.lemma_constants();
                    lemma_well_built_list(orig.take(m as int), s0);
                    lemma_well_built_list(orig.take(m as int), s1);
                    assert forall|j: int| 0 <= j < m implies #[trigger] well_built(orig.take(m as int)[j], s0) by {
                        assert(orig.take(m as int)[j] == orig[j]);
                    }
                    lemma_den_list_store(orig.take(m as int), None, Map::empty(), s0, s1);
                    assert(orig.take(m + 1) =~= orig.take(m as int).push(orig[m as int]));
                    assert forall|q: Seq<char>| #[trigger] refs(c, q) implies refs(out, q) by {
                        lemma_refs_list(orig, q);
                        assert(refs(orig[m as int], q));
                    }
                }
                let new_acc = match acc {
                    None => {
                        proof {
                            lemma_abs_first(c, next, x, s2);
                            assert(orig.take(1) =~= seq![orig[0]]);
                            assert(m == 0 && end_index == 0);
                            assert(chain_abstraction(c, out, 0, 1, x, s2));
                        }
                        c
                    },
                    Some(a) => {
                        proof {
                            lemma_abs_grow(a, orig.take(m as int), x, s1, s2);
                            lemma_den_store(a, Map::empty(), s1, s2);
                        }
                        let sc = chain_double(a, c);
                        proof {
                            lemma_abs_step(a, c, sc, orig.take(m as int), next, x, s2);
                            lemma_den_store(out, Map::empty(), s0, s1);
                            lemma_chain_grow(a, out, end_index as nat, m as nat, x, s1, s2);
                            assert(chain_abstraction(sc, out, end_index as nat, (m + 1) as nat, x, s2));
                        }
                        sc
                    },
                };
                acc = Some(new_acc);
                m += 1;
            }
            let r = acc.unwrap();
            proof {
                assert(orig.take(n as int) =~= orig);
                lemma_abs_app(r, out, orig, x, trees@);
            }
            r
        },
    }
}

/// What applying `f` to the arguments `vs` in turn gives.
pub open spec fn apply_all(f: Term, vs: Seq<Term>) -> Outcome
    decreases vs.len(),
{
    if vs.len() == 0 {
        Outcome::Val(f)
    } else {
        match apply_outcome(f, vs[0]) {
            Outcome::Val(g) => apply_all(g, vs.drop_first()),
            other => other,
        }
    }
}

/// `env` with the names `ps` standing for the trees `vs`, a later name hiding an earlier one.
pub open spec fn extend(env: Map<Seq<char>, Term>, ps: Seq<Seq<char>>, vs: Seq<Term>) -> Map<Seq<char>, Term>
    decreases ps.len(),
{
    if ps.len() == 0 || vs.len() == 0 {
        env
    } else {
        extend(env.insert(ps[0], vs[0]), ps.drop_first(), vs.drop_first())
    }
}

/// `r` is `b` as a function of the names `ps`: `b` gives a tree with the names standing for
/// some trees exactly where `r` gives a function that, applied to those trees in turn, gives
/// that tree.
pub open spec fn lambda_law(r: CompiledTree, b: CompiledTree, ps: Seq<Seq<char>>, s: Map<TreeIndex, Term>) -> bool {
    forall|env: Map<Seq<char>, Term>, vs: Seq<Term>|
        #![trigger extend(env, ps, vs)]
        vs.len() == ps.len() ==> {
            &&& (den(b, extend(env, ps, vs), s) is Val ==> (den(r, env, s) matches Outcome::Val(f)
                && apply_all(f, vs) == den(b, extend(env, ps, vs), s)))
            &&& (den(r, env, s) matches Outcome::Val(f) ==> (apply_all(f, vs) is Val ==> den(b, extend(env, ps, vs), s)
                == apply_all(f, vs)))
        }
}

/// The characters of each parameter name.
pub open spec fn param_names(params: Seq<&str>) -> Seq<Seq<char>> {
    params.map_values(|p: &str| p@)
}

/// No parameters: a tree is itself as a function of none.
proof fn lemma_law_none(b: CompiledTree, s: Map<TreeIndex, Term>)
    ensures
        lambda_law(b, b, seq![], s),
{
    assert forall|env: Map<Seq<char>, Term>, vs: Seq<Term>|
        #![trigger extend(env, seq![], vs)]
        vs.len() == 0 implies {
            &&& (den(b, extend(env, seq![], vs), s) is Val ==> (den(b, env, s) matches Outcome::Val(f)
                && apply_all(f, vs) == den(b, extend(env, seq![], vs), s)))
            &&& (den(b, env, s) matches Outcome::Val(f) ==> (apply_all(f, vs) is Val ==> den(b, extend(env, seq![], vs), s)
                == apply_all(f, vs)))
        } by {
    }
}

/// One more parameter in front: abstracting `r` over `p` gives a function of `p` then `ps`.
proof fn lemma_law_step(
    r2: CompiledTree,
    r: CompiledTree,
    b: CompiledTree,
    p: Seq<char>,
    ps: Seq<Seq<char>>,
    s: Map<TreeIndex, Term>,
)
    requires
        lambda_law(r, b, ps, s),
        abstracts(r2, r, p, s),
    ensures
        lambda_law(r2, b, seq![p] + ps, s),
{
    let qs = seq![p] + ps;
    assert forall|env: Map<Seq<char>, Term>, vs: Seq<Term>|
        #![trigger extend(env, qs, vs)]
        vs.len() == qs.len() implies {
            &&& (den(b, extend(env, qs, vs), s) is Val ==> (den(r2, env, s) matches Outcome::Val(f)
                && apply_all(f, vs) == den(b, extend(env, qs, vs), s)))
            &&& (den(r2, env, s) matches Outcome::Val(f) ==> (apply_all(f, vs) is Val ==> den(b, extend(env, qs, vs), s)
                == apply_all(f, vs)))
        } by {
        let v = vs[0];
        let rest = vs.drop_first();
        let e1 = env.insert(p, v);
        assert(qs[0] == p);
        assert(qs.drop_first() =~= ps);
        assert(extend(env, qs, vs) == extend(e1, ps, rest));
        assert(den(r, env.insert(p, v), s) == den(r, e1, s));
        if let Outcome::Val(f) = den(r2, env, s) {
            assert(apply_all(f, vs) == match apply_outcome(f, v) {
                Outcome::Val(g) => apply_all(g, rest),
                other => other,
            });
        }
    }
}

/// Compiles a function: its body, then the body as a function of each parameter, the last
/// parameter first.
fn compile_lambda<'src>(trees: &mut Trees, lambda: &TreeLambda<'src>) -> (r: CompiledTree<'src>)
    requires
        old(trees).well_formed(),
        apps_nonempty(*lambda.body),
    ensures
        final(trees).well_formed(),
        old(trees)@ <= final(trees)@,
        final(trees).cache() == old(trees).cache(),
        well_built(r, final(trees)@),
        exists|b: CompiledTree| compiled_from(b, *lambda.body, final(trees)@) && #[trigger] well_built(b, final(trees)@)
            && lambda_law(r, b, param_names(lambda.params@), final(trees)@),
    decreases lambda,
{
    let ghost s0 = trees@;
    let body = compile_tree_expr(trees, &lambda.body);
    let ghost b = body;
    let ghost s1 = trees@;
    let ghost ps = param_names(lambda.params@);
    let mut current = body;
    let mut i = lambda.params.len();
    proof {
        lemma_law_none(b, s1);
        assert(ps.subrange(i as int, ps.len() as int) =~= seq![]);
    }
    while i > 0
        invariant
            trees.well_formed(),
            s1 <= trees@,
            old(trees)@ <= s1,
            trees.cache() == old(trees).cache(),
            i <= lambda.params@.len(),
            ps == param_names(lambda.params@),
            ps.len() == lambda.params@.len(),
            well_built(current, trees@),
            well_built(b, s1),
            compiled_from(b, *lambda.body, s1),
            lambda_law(current, b, ps.subrange(i as int, ps.len() as int), trees@),
        decreases i,
    {
        let ghost sa = trees@;
        let ghost cur = current;
        let p = lambda.params[i - 1];
        current = construct_tree_from_out_and_input(trees, current, p);
        proof {
            lemma_den_store(cur, Map::empty(), sa, trees@);
            lemma_den_store(b, Map::empty(), s1, sa);
            lemma_law_grow(cur, b, ps.subrange(i as int, ps.len() as int), sa, trees@);
            lemma_law_step(current, cur, b, p@, ps.subrange(i as int, ps.len() as int), trees@);
            assert(ps[i - 1] == p@);
            assert(seq![p@] + ps.subrange(i as int, ps.len() as int) =~= ps.subrange(i - 1, ps.len() as int));
            vstd::map_lib::lemma_submap_of_trans(s1, sa, trees@);
        }
        i -= 1;
    }
    proof {
        assert(ps.subrange(0, ps.len() as int) =~= ps);
        vstd::map_lib::lemma_submap_of_trans(old(trees)@, s1, trees@);
        lemma_den_store(b, Map::empty(), s1, trees@);
        lemma_compiled_grow(b, *lambda.body, s1, trees@);
    }
    current
}

/// A larger store keeps a function of names.
proof fn lemma_law_grow(
    r: CompiledTree,
    b: CompiledTree,
    ps: Seq<Seq<char>>,
    s1: Map<TreeIndex, Term>,
    s2: Map<TreeIndex, Term>,
)
    requires
        lambda_law(r, b, ps, s1),
        well_built(r, s1),
        well_built(b, s1),
        s1 <= s2,
    ensures
        lambda_law(r, b, ps, s2),
{
    assert forall|env: Map<Seq<char>, Term>, vs: Seq<Term>|
        #![trigger extend(env, ps, vs)]
        vs.len() == ps.len() implies {
            &&& (den(b, extend(env, ps, vs), s2) is Val ==> (den(r, env, s2) matches Outcome::Val(f)
                && apply_all(f, vs) == den(b, extend(env, ps, vs), s2)))
            &&& (den(r, env, s2) matches Outcome::Val(f) ==> (apply_all(f, vs) is Val ==> den(b, extend(env, ps, vs), s2)
                == apply_all(f, vs)))
        } by {
        lemma_den_store(r, env, s1, s2);
        lemma_den_store(b, extend(env, ps, vs), s1, s2);
    }
}

/// Every application in `e` has a part.
pub open spec fn apps_nonempty(e: TreeExpr) -> bool
    decreases e,
{
    match e {
        TreeExpr::Leaf => true,
        TreeExpr::NameRef(_) => true,
        TreeExpr::Application(v) => v@.len() > 0 && apps_nonempty_list(v@),
        TreeExpr::Lambda(lam) => apps_nonempty(*lam.body),
    }
}

/// Every application in `es` has a part.
pub open spec fn apps_nonempty_list(es: Seq<TreeExpr>) -> bool
    decreases es,
{
    if es.len() == 0 {
        true
    } else {
        apps_nonempty(es[0]) && apps_nonempty_list(es.drop_first())
    }
}

/// `r` is what compiling `e` gives: `△` is the stored `△`, a name stays a name, an
/// application is the application of the compiled parts, and a function is a function of its
/// parameters for its compiled body.
pub open spec fn compiled_from(r: CompiledTree, e: TreeExpr, s: Map<TreeIndex, Term>) -> bool
    decreases e,
{
    match e {
        TreeExpr::Leaf => r == CompiledTree::Tree(Trees::LEAF()),
        TreeExpr::NameRef((name, span)) => r matches CompiledTree::NameRef((n2, sp2)) && n2@ == name@
            && sp2.start == span.start && sp2.end == span.end,
        TreeExpr::Application(es) => r matches CompiledTree::Application(rs) && compiled_list(rs@, es@, s),
        TreeExpr::Lambda(lam) => exists|b: CompiledTree| compiled_from(b, *lam.body, s) && #[trigger] well_built(b, s)
            && lambda_law(r, b, param_names(lam.params@), s),
    }
}

/// Each of `rs` is what compiling the same one of `es` gives.
pub open spec fn compiled_list(rs: Seq<CompiledTree>, es: Seq<TreeExpr>, s: Map<TreeIndex, Term>) -> bool
    decreases es,
{
    if es.len() == 0 {
        rs.len() == 0
    } else {
        rs.len() > 0 && compiled_from(rs[0], es[0], s) && compiled_list(rs.drop_first(), es.drop_first(), s)
    }
}

proof fn lemma_apps_nonempty_list(es: Seq<TreeExpr>)
    ensures
        apps_nonempty_list(es) <==> forall|i: int| 0 <= i < es.len() ==> #[trigger] apps_nonempty(es[i]),
    decreases es.len(),
{
    if es.len() > 0 {
        let rest = es.drop_first();
        lemma_apps_nonempty_list(rest);
        if apps_nonempty_list(es) {
            assert forall|i: int| 0 <= i < es.len() implies #[trigger] apps_nonempty(es[i]) by {
                if i > 0 {
                    assert(rest[i - 1] == es[i]);
                }
            }
        }
        if forall|i: int| 0 <= i < es.len() ==> #[trigger] apps_nonempty(es[i]) {
            assert(apps_nonempty(es[0]));
            assert forall|i: int| 0 <= i < rest.len() implies #[trigger] apps_nonempty(rest[i]) by {
                assert(rest[i] == es[i + 1]);
            }
        }
    }
}

proof fn lemma_compiled_list_push(rs: Seq<CompiledTree>, es: Seq<TreeExpr>, r: CompiledTree, e: TreeExpr, s: Map<TreeIndex, Term>)
    requires
        compiled_list(rs, es, s),
        compiled_from(r, e, s),
    ensures
        compiled_list(rs.push(r), es.push(e), s),
    decreases es.len(),
{
    if es.len() == 0 {
        assert(rs.push(r).drop_first() =~= Seq::<CompiledTree>::empty());
        assert(es.push(e).drop_first() =~= Seq::<TreeExpr>::empty());
        assert(rs.push(r)[0] == r);
        assert(es.push(e)[0] == e);
        reveal_with_fuel(compiled_list, 2);
    } else {
        lemma_compiled_list_push(rs.drop_first(), es.drop_first(), r, e, s);
        assert(rs.push(r).drop_first() =~= rs.drop_first().push(r));
        assert(es.push(e).drop_first() =~= es.drop_first().push(e));
        assert(rs.push(r)[0] == rs[0]);
        assert(es.push(e)[0] == es[0]);
    }
}

/// A larger store keeps what compiling gave.
proof fn lemma_compiled_grow(r: CompiledTree, e: TreeExpr, s1: Map<TreeIndex, Term>, s2: Map<TreeIndex, Term>)
    requires
        compiled_from(r, e, s1),
        well_built(r, s1),
        s1 <= s2,
    ensures
        compiled_from(r, e, s2),
    decreases e,
{
    match e {
        TreeExpr::Application(es) => {
            let rs = r->Application_0;
            lemma_compiled_list_grow(rs@, es@, s1, s2);
        },
        TreeExpr::Lambda(lam) => {
            let b = choose|b: CompiledTree| compiled_from(b, *lam.body, s1) && #[trigger] well_built(b, s1)
                && lambda_law(r, b, param_names(lam.params@), s1);
            lemma_compiled_grow(b, *lam.body, s1, s2);
            lemma_law_grow(r, b, param_names(lam.params@), s1, s2);
            lemma_den_store(b, Map::empty(), s1, s2);
        },
        _ => {},
    }
}

proof fn lemma_compiled_list_grow(rs: Seq<CompiledTree>, es: Seq<TreeExpr>, s1: Map<TreeIndex, Term>, s2: Map<TreeIndex, Term>)
    requires
        compiled_list(rs, es, s1),
        well_built_list(rs, s1),
        s1 <= s2,
    ensures
        compiled_list(rs, es, s2),
    decreases es,
{
    if es.len() > 0 {
        assert(well_built(rs[0], s1));
        lemma_compiled_grow(rs[0], es[0], s1, s2);
        lemma_compiled_list_grow(rs.drop_first(), es.drop_first(), s1, s2);
    }
}

/// Compiles an expression: functions become trees, names stay to be looked up.
pub fn compile_tree_expr<'src>(trees: &mut Trees, expr: &TreeExpr<'src>) -> (r: CompiledTree<'src>)
    requires
        old(trees).well_formed(),
        apps_nonempty(*expr),
    ensures
        final(trees).well_formed(),
        old(trees)@ <= final(trees)@,
        final(trees).cache() == old(trees).cache(),
        well_built(r, final(trees)@),
        compiled_from(r, *expr, final(trees)@),
    decreases expr,
{
    proof {
        trees.lemma_constants();
    }
    match expr {
        TreeExpr::Lambda(lambda) => compile_lambda(trees, lambda),
        TreeExpr::Leaf => CompiledTree::Tree(Trees::LEAF()),
        TreeExpr::NameRef((name, span)) => CompiledTree::NameRef((name, span.start..span.end)),
        TreeExpr::Application(sub_terms) => {
            let ghost es = sub_terms@;
            proof {
                lemma_apps_nonempty_list(es);
            }
            let mut out: Vec<CompiledTree<'src>> = Vec::new();
            let mut i: usize = 0;
            while i < sub_terms.len()
                invariant
                    *expr == TreeExpr::Application(*sub_terms),
                    es == sub_terms@,
                    es.len() > 0,
                    forall|j: int| 0 <= j < es.len() ==> #[trigger] apps_nonempty(es[j]),
                    i <= es.len(),
                    trees.well_formed(),
                    old(trees)@ <= trees@,
                    trees.cache() == old(trees).cache(),
                    out@.len() == i,
                    forall|j: int| 0 <= j < i ==> #[trigger] well_built(out@[j], trees@),
                    compiled_list(out@, es.take(i as int), trees@),
                decreases es.len() - i,
            {
                proof {
                    let ghost t = *expr;
                    let ghost v = t->Application_0;
                    assert(v == *sub_terms);
                    assert(decreases_to!(t => v));
                    assert(decreases_to!(v => v@));
                    assert(decreases_to!(v@ => v@[i as int]));
                }
                let ghost sa = trees@;
                let c = compile_tree_expr(trees, &sub_terms[i]);
                proof {
                    lemma_well_built_list(out@, sa);
                    lemma_compiled_list_grow(out@, es.take(i as int), sa, trees@);
                    lemma_compiled_list_push(out@, es.take(i as int), c, es[i as int], trees@);
                    assert(es.take(i + 1) =~= es.take(i as int).push(es[i as int]));
                    assert forall|j: int| 0 <= j < i implies #[trigger] well_built(out@[j], trees@) by {
                        lemma_den_store(out@[j], Map::empty(), sa, trees@);
                    }
                    vstd::map_lib::lemma_submap_of_trans(old(trees)@, sa, trees@);
                }
                out.push(c);
                i += 1;
            }
            proof {
                assert(es.take(es.len() as int) =~= es);
                lemma_well_built_list(out@, trees@);
            }
            CompiledTree::Application(out)
        },
    }
}

/// Whether every application in `expr` has a part, as `compile_tree_expr` asks.
pub fn apps_are_nonempty(expr: &TreeExpr) -> (r: bool)
    ensures
        r == apps_nonempty(*expr),
    decreases expr,
{
    match expr {
        TreeExpr::Leaf => true,
        TreeExpr::NameRef(_) => true,
        TreeExpr::Lambda(lambda) => apps_are_nonempty(&lambda.body),
        TreeExpr::Application(sub_terms) => {
            let ghost es = sub_terms@;
            proof {
                lemma_apps_nonempty_list(es);
            }
            if sub_terms.len() == 0 {
                return false;
            }
            let mut i: usize = 0;
            while i < sub_terms.len()
                invariant
                    *expr == TreeExpr::Application(*sub_terms),
                    es == sub_terms@,
                    i <= es.len(),
                    forall|j: int| 0 <= j < i ==> #[trigger] apps_nonempty(es[j]),
                    apps_nonempty(*expr) == (es.len() > 0 && forall|j: int| 0 <= j < es.len() ==> #[trigger] apps_nonempty(es[j])),
                decreases es.len() - i,
            {
                proof {
                    let ghost t = *expr;
                    let ghost v = t->Application_0;
                    assert(v == *sub_terms);
                    assert(decreases_to!(t => v));
                    assert(decreases_to!(v => v@));
                    assert(decreases_to!(v@ => v@[i as int]));
                }
                if !apps_are_nonempty(&sub_terms[i]) {
                    return false;
                }
                i += 1;
            }
            true
        },
    }
}

/// The number of frames an evaluation may take up: it stops at this many.
pub const MAX_EVAL_TREE_ITERS: usize = 100_000_000;

/// How far an evaluation by frames gets: an outcome with the frames and the application steps
/// used so far and whether each application took fewer than `MAX_TREE_APPLY_ITERS` steps, or
/// a limit reached (too many frames, or an application that does not end).
pub enum Run {
    Done(Outcome, nat, nat, bool),
    Limit,
}

/// One part of a chain evaluated by frames after `acc` (if any), `it` frames and `c` steps
/// used: a part that is an application takes one frame for itself and one to resume after it.
pub open spec fn run_item(
    ct: CompiledTree,
    acc: Option<Term>,
    it: nat,
    c: nat,
    env: Map<Seq<char>, Term>,
    store: Map<TreeIndex, Term>,
) -> Run
    decreases ct, 2nat,
{
    match run_first(ct, it, c, env, store) {
        Run::Done(Outcome::Val(v), it1, c1, ok1) => {
            let it2: nat = if ct is Application { it1 + 1 } else { it1 };
            if it2 >= MAX_EVAL_TREE_ITERS {
                Run::Limit
            } else {
                match acc {
                    None => Run::Done(Outcome::Val(v), it2, c1, ok1),
                    Some(a) => if halts(a, v) {
                        Run::Done(Outcome::Val(value(a, v)), it2, c1 + cost(a, v), ok1 && cost(a, v) < MAX_TREE_APPLY_ITERS)
                    } else {
                        Run::Limit
                    },
                }
            }
        },
        other => other,
    }
}

/// The value of one part evaluated by frames, before it is applied.
pub open spec fn run_first(
    ct: CompiledTree,
    it: nat,
    c: nat,
    env: Map<Seq<char>, Term>,
    store: Map<TreeIndex, Term>,
) -> Run
    decreases ct, 1nat,
{
    match ct {
        CompiledTree::Tree(i) => Run::Done(Outcome::Val(store[i]), it, c, true),
        CompiledTree::NameRef((name, span)) => if env.contains_key(name@) {
            Run::Done(Outcome::Val(env[name@]), it, c, true)
        } else {
            Run::Done(Outcome::Undefined(name@, span.start as nat, span.end as nat), it, c, true)
        },
        CompiledTree::Application(w) => if it + 1 >= MAX_EVAL_TREE_ITERS {
            Run::Limit
        } else {
            run_list(w@, None, it + 1, c, env, store)
        },
    }
}

/// A chain of parts evaluated by frames after `acc` (if any).
pub open spec fn run_list(
    items: Seq<CompiledTree>,
    acc: Option<Term>,
    it: nat,
    c: nat,
    env: Map<Seq<char>, Term>,
    store: Map<TreeIndex, Term>,
) -> Run
    decreases items, 0nat,
{
    if items.len() == 0 {
        match acc {
            Some(t) => Run::Done(Outcome::Val(t), it, c, true),
            None => Run::Done(Outcome::Diverges, it, c, true),
        }
    } else {
        match run_item(items[0], acc, it, c, env, store) {
            Run::Done(Outcome::Val(t), it1, c1, ok1) => match run_list(items.drop_first(), Some(t), it1, c1, env, store) {
                Run::Done(o, it2, c2, ok2) => Run::Done(o, it2, c2, ok1 && ok2),
                Run::Limit => Run::Limit,
            },
            other => other,
        }
    }
}

/// `ct` evaluated by frames, the root taking one frame.
pub open spec fn run(ct: CompiledTree, env: Map<Seq<char>, Term>, store: Map<TreeIndex, Term>) -> Run {
    run_item(ct, None, 1, 0, env, store)
}

/// An evaluation of `ct` by frames reaches no limit, and a store with `room` free places has
/// room for all the trees its applications make.
pub open spec fn fits(ct: CompiledTree, env: Map<Seq<char>, Term>, store: Map<TreeIndex, Term>, room: int) -> bool {
    run(ct, env, store) matches Run::Done(_, _, c, ok) && ok && room >= c
}

/// The steps that the evaluation of `ct` by frames takes, where it ends (0 where it reaches a
/// limit): the most room in the store that it uses up.
pub open spec fn run_cost(ct: CompiledTree, env: Map<Seq<char>, Term>, store: Map<TreeIndex, Term>) -> nat {
    match run(ct, env, store) {
        Run::Done(_, _, c, _) => c,
        Run::Limit => 0,
    }
}

/// The message for a name that is not declared.
pub open spec fn undefined_message(name: Seq<char>) -> Seq<char> {
    "Undefined tree "@ + str_debug(name)
}

/// The message for a name declared twice.
pub open spec fn redefined_message(name: Seq<char>) -> Seq<char> {
    "Declaration "@ + str_debug(name) + " redefined"@
}

/// One part applied to `acc` (if any), as `den` says.
pub open spec fn den_step(ct: CompiledTree, acc: Option<Term>, env: Map<Seq<char>, Term>, store: Map<TreeIndex, Term>) -> Outcome {
    match den(ct, env, store) {
        Outcome::Val(w) => match acc {
            None => Outcome::Val(w),
            Some(a) => apply_outcome(a, w),
        },
        other => other,
    }
}

/// An evaluation by frames that ends gives what `den` says, and uses more frames and steps
/// as it goes.
proof fn lemma_run_item(ct: CompiledTree, acc: Option<Term>, it: nat, c: nat, env: Map<Seq<char>, Term>, store: Map<TreeIndex, Term>)
    requires
        well_built(ct, store),
    ensures
        run_item(ct, acc, it, c, env, store) matches Run::Done(o, it1, c1, _) ==> o == den_step(ct, acc, env, store)
            && it1 >= it && c1 >= c && !(o is Diverges),
    decreases ct, 2nat,
{
    if let CompiledTree::Application(w) = ct {
        lemma_run_list(w@, None, it + 1, c, env, store);
    }
}

proof fn lemma_run_list(
    items: Seq<CompiledTree>,
    acc: Option<Term>,
    it: nat,
    c: nat,
    env: Map<Seq<char>, Term>,
    store: Map<TreeIndex, Term>,
)
    requires
        well_built_list(items, store),
        items.len() > 0 || acc is Some,
    ensures
        run_list(items, acc, it, c, env, store) matches Run::Done(o, it1, c1, _) ==> o == den_list(items, acc, env, store)
            && it1 >= it && c1 >= c && !(o is Diverges),
    decreases items, 0nat,
{
    if items.len() > 0 {
        assert(well_built(items[0], store));
        lemma_run_item(items[0], acc, it, c, env, store);
        if let Run::Done(Outcome::Val(t), it1, c1, _) = run_item(items[0], acc, it, c, env, store) {
            lemma_run_list(items.drop_first(), Some(t), it1, c1, env, store);
        }
    }
}

/// The declared trees: each name with its tree and the byte range of its declaration.
pub struct TreeNamespace<'src> {
    trees: Vec<(&'src str, TreeIndex, Span)>,
}

/// The names of `es`, each with its tree and the byte range of its declaration; a later
/// entry for a name hides an earlier one.
pub open spec fn entry_map(es: Seq<(&str, TreeIndex, Span)>) -> Map<Seq<char>, (TreeIndex, nat, nat)>
    decreases es.len(),
{
    if es.len() == 0 {
        Map::empty()
    } else {
        entry_map(es.drop_last()).insert(
            es.last().0@,
            (es.last().1, es.last().2.start as nat, es.last().2.end as nat),
        )
    }
}

/// The trees that the names of `m` stand for in `store`.
pub open spec fn env_of(m: Map<Seq<char>, (TreeIndex, nat, nat)>, store: Map<TreeIndex, Term>) -> Map<Seq<char>, Term> {
    Map::new(|k: Seq<char>| m.contains_key(k), |k: Seq<char>| store[m[k].0])
}

/// The names of `es` are distinct.
pub open spec fn distinct_names(es: Seq<(&str, TreeIndex, Span)>) -> bool {
    forall|i: int, j: int| 0 <= i < j < es.len() ==> (#[trigger] es[i]).0@ != (#[trigger] es[j]).0@
}

/// With distinct names, a name is declared where an entry has it, with that entry's tree.
proof fn lemma_entry_map(es: Seq<(&str, TreeIndex, Span)>)
    requires
        distinct_names(es),
    ensures
        forall|k: Seq<char>| #[trigger] entry_map(es).contains_key(k) <==> exists|i: int| 0 <= i < es.len() && (#[trigger] es[i]).0@ == k,
        forall|i: int| 0 <= i < es.len() ==> #[trigger] entry_map(es)[es[i].0@] == (es[i].1, es[i].2.start as nat, es[i].2.end as nat),
        entry_map(es).dom().finite(),
        entry_map(es).dom().len() == es.len(),
    decreases es.len(),
{
    if es.len() > 0 {
        let pre = es.drop_last();
        assert(distinct_names(pre)) by {
            assert forall|i: int, j: int| 0 <= i < j < pre.len() implies (#[trigger] pre[i]).0@ != (#[trigger] pre[j]).0@ by {
                assert(pre[i] == es[i] && pre[j] == es[j]);
            }
        }
        lemma_entry_map(pre);
        let last = es.last();
        assert(!entry_map(pre).contains_key(last.0@)) by {
            if entry_map(pre).contains_key(last.0@) {
                let i = choose|i: int| 0 <= i < pre.len() && (#[trigger] pre[i]).0@ == last.0@;
                assert(es[i] == pre[i]);
                assert(es[es.len() - 1] == last);
            }
        }
        assert forall|k: Seq<char>| #[trigger] entry_map(es).contains_key(k) <==> exists|i: int| 0 <= i < es.len() && (#[trigger] es[i]).0@ == k by {
            if entry_map(es).contains_key(k) {
                if k == last.0@ {
                    assert(es[es.len() - 1].0@ == k);
                } else {
                    let i = choose|i: int| 0 <= i < pre.len() && (#[trigger] pre[i]).0@ == k;
                    assert(es[i] == pre[i]);
                }
            }
            if exists|i: int| 0 <= i < es.len() && (#[trigger] es[i]).0@ == k {
                let i = choose|i: int| 0 <= i < es.len() && (#[trigger] es[i]).0@ == k;
                if i < es.len() - 1 {
                    assert(pre[i] == es[i]);
                }
            }
        }
        assert forall|i: int| 0 <= i < es.len() implies #[trigger] entry_map(es)[es[i].0@] == (es[i].1, es[i].2.start as nat, es[i].2.end as nat) by {
            if i < es.len() - 1 {
                assert(pre[i] == es[i]);
                assert(es[i].0@ != es[es.len() - 1].0@);
            }
        }
    }
}

impl<'src> TreeNamespace<'src> {
    /// The declared names, each with its tree and the byte range of its declaration.
    pub closed spec fn names(&self) -> Map<Seq<char>, (TreeIndex, nat, nat)> {
        entry_map(self.trees@)
    }

    /// The declared trees read from `store`, by name.
    pub open spec fn env(&self, store: Map<TreeIndex, Term>) -> Map<Seq<char>, Term> {
        env_of(self.names(), store)
    }

    /// The names are distinct.
    pub closed spec fn wf(&self) -> bool {
        distinct_names(self.trees@)
    }

    /// The declared trees are stored in `store`.
    pub open spec fn stored_in(&self, store: Map<TreeIndex, Term>) -> bool {
        forall|k: Seq<char>| #[trigger] self.names().contains_key(k) ==> store.contains_key(self.names()[k].0)
    }

    /// A namespace with no name declared.
    pub fn new() -> (r: Self)
        ensures
            r.wf(),
            r.names() == Map::<Seq<char>, (TreeIndex, nat, nat)>::empty(),
    {
        TreeNamespace { trees: Vec::with_capacity(128) }
    }

    /// The declared trees, one for each name.
    pub fn iter_trees(&self) -> (r: Vec<TreeIndex>)
        requires
            self.wf(),
        ensures
            r@.len() == self.names().dom().len(),
            forall|t: TreeIndex| r@.contains(t) <==> exists|k: Seq<char>| #[trigger] self.names().contains_key(k)
                && self.names()[k].0 == t,
    {
        proof {
            lemma_entry_map(self.trees@);
        }
        let mut out: Vec<TreeIndex> = Vec::new();
        let mut i: usize = 0;
        while i < self.trees.len()
            invariant
                i <= self.trees@.len(),
                out@.len() == i,
                forall|j: int| 0 <= j < i ==> #[trigger] out@[j] == self.trees@[j].1,
            decreases self.trees@.len() - i,
        {
            out.push(self.trees[i].1);
            i += 1;
        }
        proof {
            let es = self.trees@;
            assert forall|t: TreeIndex| out@.contains(t) <==> exists|k: Seq<char>| #[trigger] self.names().contains_key(k)
                && self.names()[k].0 == t by {
                if out@.contains(t) {
                    let j = choose|j: int| 0 <= j < out@.len() && out@[j] == t;
                    assert(self.names().contains_key(es[j].0@));
                }
                if exists|k: Seq<char>| #[trigger] self.names().contains_key(k) && self.names()[k].0 == t {
                    let k = choose|k: Seq<char>| #[trigger] self.names().contains_key(k) && self.names()[k].0 == t;
                    let j = choose|j: int| 0 <= j < es.len() && (#[trigger] es[j]).0@ == k;
                    assert(out@[j] == t);
                }
            }
        }
        out
    }

    /// The position of the entry for `name`, if it is declared.
    fn find(&self, name: &str) -> (r: Option<usize>)
        requires
            self.wf(),
        ensures
            r matches Some(i) ==> i < self.trees@.len() && self.trees@[i as int].0@ == name@,
            r is None ==> !self.names().contains_key(name@),
    {
        proof {
            lemma_entry_map(self.trees@);
        }
        let mut i: usize = 0;
        while i < self.trees.len()
            invariant
                i <= self.trees@.len(),
                forall|j: int| 0 <= j < i ==> (#[trigger] self.trees@[j]).0@ != name@,
            decreases self.trees@.len() - i,
        {
            if same_text(self.trees[i].0, name) {
                return Some(i);
            }
            i += 1;
        }
        None
    }

    /// The tree declared as `name`, if any.
    pub fn get(&self, name: &str) -> (r: Option<TreeIndex>)
        requires
            self.wf(),
        ensures
            r == (if self.names().contains_key(name@) {
                Some(self.names()[name@].0)
            } else {
                None
            }),
    {
        proof {
            lemma_entry_map(self.trees@);
        }
        match self.find(name) {
            Some(i) => Some(self.trees[i].1),
            None => None,
        }
    }

    /// Evaluates one part of a chain after `acc`, by frames as `run_item` says; `None` where a
    /// limit is reached or the store runs out of room.
    fn eval_item(
        &self,
        trees: &mut Trees,
        item: &CompiledTree<'src>,
        acc: Option<TreeIndex>,
        it: &mut usize,
        Ghost(env): Ghost<Map<Seq<char>, Term>>,
        Ghost(s0): Ghost<Map<TreeIndex, Term>>,
        Ghost(c): Ghost<nat>,
        Ghost(room0): Ghost<int>,
    ) -> (r: Option<Result<TreeIndex, Error>>)
        requires
            old(trees).at_rest(),
            self.wf(),
            env == self.env(s0),
            self.stored_in(s0),
            s0 <= old(trees)@,
            well_built(*item, s0),
            acc matches Some(a) ==> old(trees)@.contains_key(a),
            *old(it) < MAX_EVAL_TREE_ITERS,
            old(trees).room() + c >= room0,
        ensures
            final(trees).at_rest(),
            old(trees)@ <= final(trees)@,
            item_result(r, run_item(*item, acc_term(acc, old(trees)@), *old(it) as nat, c, env, s0), final(trees)@, *final(it), final(trees).room(), room0),
        decreases item, 1nat,
    {
        let ghost st = trees@;
        let ghost acc_t = acc_term(acc, st);
        let ghost it0 = *it as nat;
        let ghost first = run_first(*item, it0, c, env, s0);
        let ghost whole = run_item(*item, acc_t, it0, c, env, s0);
        proof {
            lemma_entry_map(self.trees@);
            lemma_le_refl(st);
            lemma_run_first_cost(*item, acc_t, it0, c, env, s0);
        }
        let v: TreeIndex = match item {
            CompiledTree::Tree(t) => {
                proof {
                    lemma_grow(s0, st, *t);
                }
                *t
            },
            CompiledTree::NameRef((name, span)) => match self.get(name) {
                Some(t) => {
                    proof {
                        assert(self.names().contains_key(name@));
                        assert(s0.contains_key(t));
                        lemma_grow(s0, st, t);
                    }
                    t
                },
                None => {
                    let mut msg = String::from_str("Undefined tree ");
                    let quoted = debug_quoted(name);
                    msg.append(quoted.as_str());
                    proof {
                        assert(!env.contains_key(name@));
                        assert(first == Run::Done(Outcome::Undefined(name@, span.start as nat, span.end as nat), it0, c, true));
                        assert(whole == first);
                    }
                    let sp = span.start..span.end;
                    assert(sp.start == span.start && sp.end == span.end);
                    return Some(Err((msg, sp)));
                },
            },
            CompiledTree::Application(sub) => {
                if *it >= MAX_EVAL_TREE_ITERS - 1 {
                    return None;
                }
                *it += 1;
                proof {
                    let t = *item;
                    let w = t->Application_0;
                    assert(w == *sub);
                    assert(decreases_to!(t => w));
                }
                match self.eval_list(trees, sub, it, Ghost(env), Ghost(s0), Ghost(c), Ghost(room0)) {
                    None => {
                        return None;
                    },
                    Some(Err(e)) => {
                        proof {
                            assert(whole == first);
                        }
                        return Some(Err(e));
                    },
                    Some(Ok(t)) => t,
                }
            },
        };
        let ghost s1 = trees@;
        let ghost room1 = trees.room();
        let ghost c1 = match first {
            Run::Done(_, _, c1, _) => c1,
            _ => 0,
        };
        proof {
            assert(first matches Run::Done(Outcome::Val(x), it1, cc, _) && x == s1[v] && it1 == *it && cc == c1);
            assert(room1 + c1 >= room0);
            assert(s1.contains_key(v));
        }
        let result = match acc {
            None => v,
            Some(a) => {
                proof {
                    lemma_grow(st, s1, a);
                }
                match trees.try_tree_apply(a, v) {
                    Some(r) => r,
                    None => {
                        proof {
                            vstd::map_lib::lemma_submap_of_trans(st, s1, trees@);
                        }
                        return None;
                    },
                }
            },
        };
        proof {
            vstd::map_lib::lemma_submap_of_trans(st, s1, trees@);
        }
        let is_app = match item {
            CompiledTree::Application(_) => true,
            _ => false,
        };
        if is_app {
            if *it >= MAX_EVAL_TREE_ITERS - 1 {
                return None;
            }
            *it += 1;
        }
        Some(Ok(result))
    }

    /// Evaluates a chain of parts by frames, as `run_list` says; `None` where a limit is
    /// reached or the store runs out of room.
    fn eval_list(
        &self,
        trees: &mut Trees,
        items: &Vec<CompiledTree<'src>>,
        it: &mut usize,
        Ghost(env): Ghost<Map<Seq<char>, Term>>,
        Ghost(s0): Ghost<Map<TreeIndex, Term>>,
        Ghost(c): Ghost<nat>,
        Ghost(room0): Ghost<int>,
    ) -> (r: Option<Result<TreeIndex, Error>>)
        requires
            old(trees).at_rest(),
            self.wf(),
            env == self.env(s0),
            self.stored_in(s0),
            s0 <= old(trees)@,
            items@.len() > 0,
            well_built_list(items@, s0),
            *old(it) < MAX_EVAL_TREE_ITERS,
            old(trees).room() + c >= room0,
        ensures
            final(trees).at_rest(),
            old(trees)@ <= final(trees)@,
            item_result(r, run_list(items@, None, *old(it) as nat, c, env, s0), final(trees)@, *final(it), final(trees).room(), room0),
        decreases items, 0nat,
    {
        let ghost it0 = *it as nat;
        let ghost st = trees@;
        proof {
            lemma_well_built_list(items@, s0);
        }
        let mut acc: Option<TreeIndex> = None;
        let ghost mut cc: nat = c;
        let ghost mut okk: bool = true;
        let mut k: usize = 0;
        proof {
            assert(items@.skip(0) =~= items@);
        }
        while k < items.len()
            invariant
                trees.at_rest(),
                self.wf(),
                env == self.env(s0),
                self.stored_in(s0),
                s0 <= trees@,
                st <= trees@,
                old(trees)@ == st,
                it0 == *old(it) as nat,
                k <= items@.len(),
                items@.len() > 0,
                forall|j: int| 0 <= j < items@.len() ==> #[trigger] well_built(items@[j], s0),
                *it < MAX_EVAL_TREE_ITERS,
                trees.room() + cc >= room0,
                acc is Some <==> k > 0,
                acc matches Some(a) ==> trees@.contains_key(a),
                run_list(items@, None, it0, c, env, s0) == and_ok(run_list(items@.skip(k as int), acc_term(acc, trees@), *it as nat, cc, env, s0), okk),
            decreases items@.len() - k,
        {
            proof {
                assert(decreases_to!(items => items@));
                assert(decreases_to!(items@ => items@[k as int]));
                let sk = items@.skip(k as int);
                assert(sk[0] == items@[k as int]);
                assert(sk.drop_first() =~= items@.skip(k + 1));
            }
            let ghost sb = trees@;
            let ghost accb = acc_term(acc, sb);
            let ghost itb = *it as nat;
            let ghost pk = run_item(items@[k as int], accb, itb, cc, env, s0);
            let ghost rest = items@.skip(k + 1);
            proof {
                lemma_run_list_unfold(items@, k as int, accb, itb, cc, env, s0);
                lemma_well_built_list(rest, s0);
                assert forall|j: int| 0 <= j < rest.len() implies #[trigger] well_built(rest[j], s0) by {
                    assert(rest[j] == items@[k + 1 + j]);
                }
                if let Run::Done(Outcome::Val(t), it1, c1, _) = pk {
                    lemma_run_list(rest, Some(t), it1, c1, env, s0);
                }
            }
            match self.eval_item(trees, &items[k], acc, it, Ghost(env), Ghost(s0), Ghost(cc), Ghost(room0)) {
                None => {
                    proof {
                        vstd::map_lib::lemma_submap_of_trans(st, sb, trees@);
                    }
                    return None;
                },
                Some(Err(e)) => {
                    proof {
                        vstd::map_lib::lemma_submap_of_trans(st, sb, trees@);
                    }
                    return Some(Err(e));
                },
                Some(Ok(t)) => {
                    proof {
                        let (c1, ok1) = match pk {
                            Run::Done(_, _, c1, ok1) => (c1, ok1),
                            _ => (0, true),
                        };
                        cc = c1;
                        okk = okk && ok1;
                        vstd::map_lib::lemma_submap_of_trans(st, sb, trees@);
                        vstd::map_lib::lemma_submap_of_trans(s0, sb, trees@);
                    }
                    acc = Some(t);
                },
            }
            k += 1;
        }
        proof {
            assert(items@.skip(items@.len() as int) =~= Seq::<CompiledTree>::empty());
        }
        match acc {
            Some(t) => Some(Ok(t)),
            None => None,
        }
    }

    /// Evaluates `tree` with the declared trees for its names; `None` where the evaluation
    /// takes `MAX_EVAL_TREE_ITERS` frames, an application takes `MAX_TREE_APPLY_ITERS` steps,
    /// or the store runs out of room.
    pub fn try_eval_tree(&self, trees: &mut Trees, tree: &CompiledTree<'src>) -> (r: Option<Result<TreeIndex, Error>>)
        requires
            old(trees).at_rest(),
            self.wf(),
            self.stored_in(old(trees)@),
            well_built(*tree, old(trees)@),
        ensures
            final(trees).at_rest(),
            old(trees)@ <= final(trees)@,
            r matches Some(Ok(i)) ==> final(trees)@.contains_key(i) && den(*tree, self.env(old(trees)@), old(trees)@)
                == Outcome::Val(final(trees)@[i]),
            r matches Some(Err(e)) ==> den(*tree, self.env(old(trees)@), old(trees)@) matches Outcome::Undefined(n, st, en)
                && e.0@ == undefined_message(n) && e.1.start == st && e.1.end == en,
            fits(*tree, self.env(old(trees)@), old(trees)@, old(trees).room()) ==> r is Some,
            r matches Some(Ok(_)) ==> final(trees).room() >= old(trees).room() - run_cost(*tree, self.env(old(trees)@), old(trees)@),
    {
        let ghost s0 = trees@;
        let ghost env = self.env(s0);
        proof {
            lemma_run_item(*tree, None, 1, 0, env, s0);
        }
        let mut it: usize = 1;
        let r = self.eval_item(trees, tree, None, &mut it, Ghost(env), Ghost(s0), Ghost(0), Ghost(trees.room()));
        r
    }

    /// Evaluates `tree` with the declared trees for its names.
    pub fn eval_tree(&self, trees: &mut Trees, tree: &CompiledTree<'src>) -> (r: Result<TreeIndex, Error>)
        requires
            old(trees).at_rest(),
            self.wf(),
            self.stored_in(old(trees)@),
            well_built(*tree, old(trees)@),
            fits(*tree, self.env(old(trees)@), old(trees)@, old(trees).room()),
        ensures
            final(trees).at_rest(),
            old(trees)@ <= final(trees)@,
            match den(*tree, self.env(old(trees)@), old(trees)@) {
                Outcome::Val(t) => r matches Ok(i) && final(trees)@.contains_key(i) && final(trees)@[i] == t,
                Outcome::Undefined(n, st, en) => r matches Err(e) && e.0@ == undefined_message(n) && e.1.start == st
                    && e.1.end == en,
                Outcome::Diverges => false,
            },
            r is Ok ==> final(trees).room() >= old(trees).room() - run_cost(*tree, self.env(old(trees)@), old(trees)@),
    {
        let r = self.try_eval_tree(trees, tree);
        r.unwrap()
    }
}

/// `r` with its flag for the applications' steps also requiring `ok`.
pub open spec fn and_ok(r: Run, ok: bool) -> Run {
    match r {
        Run::Done(o, it, c, ok1) => Run::Done(o, it, c, ok && ok1),
        Run::Limit => Run::Limit,
    }
}

/// A chain from its part `k` on: that part, then the chain after it.
proof fn lemma_run_list_unfold(
    items: Seq<CompiledTree>,
    k: int,
    acc: Option<Term>,
    it: nat,
    c: nat,
    env: Map<Seq<char>, Term>,
    store: Map<TreeIndex, Term>,
)
    requires
        0 <= k < items.len(),
    ensures
        run_list(items.skip(k), acc, it, c, env, store) == match run_item(items[k], acc, it, c, env, store) {
            Run::Done(Outcome::Val(t), it1, c1, ok1) => and_ok(run_list(items.skip(k + 1), Some(t), it1, c1, env, store), ok1),
            other => other,
        },
{
    let sk = items.skip(k);
    assert(sk[0] == items[k]);
    assert(sk.drop_first() =~= items.skip(k + 1));
}

/// A map is a submap of itself.
proof fn lemma_le_refl(m: Map<TreeIndex, Term>)
    ensures
        m <= m,
{
}

/// What a smaller store holds, a larger one holds alike.
proof fn lemma_grow(a: Map<TreeIndex, Term>, b: Map<TreeIndex, Term>, k: TreeIndex)
    requires
        a <= b,
        a.contains_key(k),
    ensures
        b.contains_key(k),
        b[k] == a[k],
{
    assert(a.dom().contains(k) && b.dom().contains(k));
}

/// A part that ends uses at least what its value used.
proof fn lemma_run_first_cost(ct: CompiledTree, acc: Option<Term>, it: nat, c: nat, env: Map<Seq<char>, Term>, store: Map<TreeIndex, Term>)
    ensures
        run_item(ct, acc, it, c, env, store) matches Run::Done(o, _, c2, ok) ==> run_first(ct, it, c, env, store) matches Run::Done(o1, _, c1, ok1)
            && c1 <= c2 && (ok ==> ok1) && (o1 is Val || o1 == o),
{
}

/// What declaring `name`, with the byte range `span`, as the value of `tree` gives, the names
/// being `before` and the store `store` before and `after` and `final_store` after: where the
/// value is a tree, `name` stands for it and keeps the range, and an error says that the name
/// was declared before; where a name is undefined, the error says which and nothing changes.
pub open spec fn declared(
    tree: CompiledTree,
    name: Seq<char>,
    span: Span,
    before: Map<Seq<char>, (TreeIndex, nat, nat)>,
    after: Map<Seq<char>, (TreeIndex, nat, nat)>,
    store: Map<TreeIndex, Term>,
    final_store: Map<TreeIndex, Term>,
    r: Result<TreeIndex, Error>,
) -> bool {
    match den(tree, env_of(before, store), store) {
        Outcome::Val(t) => {
            &&& after.contains_key(name)
            &&& final_store[after[name].0] == t
            &&& after == before.insert(name, (after[name].0, span.start as nat, span.end as nat))
            &&& if before.contains_key(name) {
                r matches Err(e) && e.0@ == redefined_message(name) && e.1.start == span.start
                    && e.1.end == span.end
            } else {
                r == Ok::<TreeIndex, Error>(after[name].0)
            }
        },
        Outcome::Undefined(n, st, en) => {
            &&& r matches Err(e) && e.0@ == undefined_message(n) && e.1.start == st && e.1.end == en
            &&& after == before
        },
        Outcome::Diverges => false,
    }
}

/// Once `name` is declared as the value of `tree`, a reference to `name` evaluates to that
/// value, and a reference to any other name evaluates as it did before.
pub proof fn law_declared_name_evaluates(
    tree: CompiledTree,
    name: Seq<char>,
    span: Span,
    before: Map<Seq<char>, (TreeIndex, nat, nat)>,
    after: Map<Seq<char>, (TreeIndex, nat, nat)>,
    store: Map<TreeIndex, Term>,
    final_store: Map<TreeIndex, Term>,
    r: Result<TreeIndex, Error>,
    reference: CompiledTree,
)
    requires
        declared(tree, name, span, before, after, store, final_store, r),
        den(tree, env_of(before, store), store) is Val,
        store <= final_store,
        forall|k: Seq<char>| #[trigger] before.contains_key(k) ==> store.contains_key(before[k].0),
        reference is NameRef,
    ensures
        reference->NameRef_0.0@ == name ==> den(reference, env_of(after, final_store), final_store)
            == den(tree, env_of(before, store), store),
        reference->NameRef_0.0@ != name ==> den(reference, env_of(after, final_store), final_store)
            == den(reference, env_of(before, store), store),
{
    let n = reference->NameRef_0.0@;
    if n != name && before.contains_key(n) {
        assert(after[n] == before[n]);
        lemma_grow(store, final_store, before[n].0);
    }
}

impl<'src> TreeNamespace<'src> {
    /// Declares `name`, with the byte range `span`, as the stored tree `evaluated`; a name
    /// declared before is declared anew, and the error says so.
    fn declare(&mut self, trees: &Trees, name: &'src str, span: Span, evaluated: TreeIndex) -> (r: Result<TreeIndex, Error>)
        requires
            old(self).wf(),
            old(self).stored_in(trees@),
            trees@.contains_key(evaluated),
        ensures
            final(self).wf(),
            final(self).stored_in(trees@),
            final(self).names() == old(self).names().insert(name@, (evaluated, span.start as nat, span.end as nat)),
            if old(self).names().contains_key(name@) {
                r matches Err(e) && e.0@ == redefined_message(name@) && e.1.start == span.start
                    && e.1.end == span.end
            } else {
                r == Ok::<TreeIndex, Error>(evaluated)
            },
    {
        let ghost es = self.trees@;
        proof {
            lemma_entry_map(es);
        }
        let entry = (name, evaluated, span.start..span.end);
        match self.find(name) {
            Some(k) => {
                self.trees.set(k, entry);
                proof {
                    let es2 = self.trees@;
                    assert(es2 == es.update(k as int, entry));
                    assert(distinct_names(es2)) by {
                        assert forall|i: int, j: int| 0 <= i < j < es2.len() implies (#[trigger] es2[i]).0@ != (#[trigger] es2[j]).0@ by {
                            if i != k && j != k {
                                assert(es[i] == es2[i] && es[j] == es2[j]);
                            } else if i == k {
                                assert(es[j] == es2[j]);
                                assert(es[i].0@ == name@);
                            } else {
                                assert(es[i] == es2[i]);
                                assert(es[j].0@ == name@);
                            }
                        }
                    }
                    lemma_entry_map(es2);
                    assert(self.names() =~= old(self).names().insert(name@, (evaluated, span.start as nat, span.end as nat))) by {
                        assert forall|q: Seq<char>| #[trigger] self.names().contains_key(q) <==> old(self).names().insert(name@, (evaluated, span.start as nat, span.end as nat)).contains_key(q) by {
                            if self.names().contains_key(q) && q != name@ {
                                let i = choose|i: int| 0 <= i < es2.len() && (#[trigger] es2[i]).0@ == q;
                                assert(es2[i] == es[i]);
                            }
                            if old(self).names().contains_key(q) {
                                let i = choose|i: int| 0 <= i < es.len() && (#[trigger] es[i]).0@ == q;
                                if i != k {
                                    assert(es2[i] == es[i]);
                                } else {
                                    assert(es2[k as int].0@ == name@);
                                }
                            }
                        }
                        assert forall|q: Seq<char>| #[trigger] self.names().contains_key(q) implies self.names()[q] == old(self).names().insert(name@, (evaluated, span.start as nat, span.end as nat))[q] by {
                            let i = choose|i: int| 0 <= i < es2.len() && (#[trigger] es2[i]).0@ == q;
                            if i != k {
                                assert(es2[i] == es[i]);
                            }
                        }
                    }
                    assert forall|q: Seq<char>| #[trigger] self.names().contains_key(q) implies trees@.contains_key(self.names()[q].0) by {
                        if q != name@ {
                            
                        }
                    }
                }
                let mut msg = String::from_str("Declaration ");
                let quoted = debug_quoted(name);
                msg.append(quoted.as_str());
                msg.append(" redefined");
                Err((msg, span))
            },
            None => {
                self.trees.push(entry);
                proof {
                    let es2 = self.trees@;
                    assert(es2.drop_last() =~= es);
                    assert(distinct_names(es2)) by {
                        assert forall|i: int, j: int| 0 <= i < j < es2.len() implies (#[trigger] es2[i]).0@ != (#[trigger] es2[j]).0@ by {
                            if j < es.len() {
                                assert(es[i] == es2[i] && es[j] == es2[j]);
                            } else {
                                assert(es[i] == es2[i]);
                                assert(old(self).names().contains_key(es[i].0@));
                            }
                        }
                    }
                    assert forall|q: Seq<char>| #[trigger] self.names().contains_key(q) implies trees@.contains_key(self.names()[q].0) by {
                        if q != name@ {
                            
                        }
                    }
                }
                Ok(evaluated)
            },
        }
    }

    /// Stores under `name` what `evaluated` gave, the store having grown from `s0` to `s1`.
    fn declare_evaluated(
        &mut self,
        trees: &Trees,
        name: &'src str,
        span: Span,
        tree: &CompiledTree<'src>,
        evaluated: Result<TreeIndex, Error>,
        Ghost(s0): Ghost<Map<TreeIndex, Term>>,
    ) -> (r: Result<TreeIndex, Error>)
        requires
            old(self).wf(),
            old(self).stored_in(s0),
            s0 <= trees@,
            match den(*tree, old(self).env(s0), s0) {
                Outcome::Val(t) => evaluated matches Ok(i) && trees@.contains_key(i) && trees@[i] == t,
                Outcome::Undefined(n, st, en) => evaluated matches Err(e) && e.0@ == undefined_message(n)
                    && e.1.start == st && e.1.end == en,
                Outcome::Diverges => false,
            },
        ensures
            final(self).wf(),
            final(self).stored_in(trees@),
            declared(*tree, name@, span, old(self).names(), final(self).names(), s0, trees@, r),
    {
        proof {
            assert forall|q: Seq<char>| #[trigger] self.names().contains_key(q) implies trees@.contains_key(self.names()[q].0) by {
                lemma_grow(s0, trees@, self.names()[q].0);
            }
        }
        match evaluated {
            Ok(i) => self.declare(trees, name, span, i),
            Err(e) => Err(e),
        }
    }

    /// Evaluates `tree` and declares it as `name`, with the byte range `span`. A name declared
    /// before is declared anew, and the error says so.
    pub fn define_new_tree(
        &mut self,
        trees: &mut Trees,
        name: &'src str,
        span: Span,
        tree: &CompiledTree<'src>,
    ) -> (r: Result<TreeIndex, Error>)
        requires
            old(trees).at_rest(),
            old(self).wf(),
            old(self).stored_in(old(trees)@),
            well_built(*tree, old(trees)@),
            fits(*tree, old(self).env(old(trees)@), old(trees)@, old(trees).room()),
        ensures
            final(trees).at_rest(),
            old(trees)@ <= final(trees)@,
            final(self).wf(),
            final(self).stored_in(final(trees)@),
            declared(*tree, name@, span, old(self).names(), final(self).names(), old(trees)@, final(trees)@, r),
            den(*tree, old(self).env(old(trees)@), old(trees)@) is Val ==> final(trees).room() >= old(trees).room()
                - run_cost(*tree, old(self).env(old(trees)@), old(trees)@),
    {
        let ghost s0 = trees@;
        let evaluated = self.eval_tree(trees, tree);
        self.declare_evaluated(trees, name, span, tree, evaluated, Ghost(s0))
    }

    /// `define_new_tree` where the evaluation fits in the limits; `None`, with nothing
    /// declared, where it takes `MAX_EVAL_TREE_ITERS` frames, an application takes
    /// `MAX_TREE_APPLY_ITERS` steps, or the store runs out of room.
    pub fn try_define_new_tree(
        &mut self,
        trees: &mut Trees,
        name: &'src str,
        span: Span,
        tree: &CompiledTree<'src>,
    ) -> (r: Option<Result<TreeIndex, Error>>)
        requires
            old(trees).at_rest(),
            old(self).wf(),
            old(self).stored_in(old(trees)@),
            well_built(*tree, old(trees)@),
        ensures
            final(trees).at_rest(),
            old(trees)@ <= final(trees)@,
            final(self).wf(),
            final(self).stored_in(final(trees)@),
            r matches Some(d) ==> declared(*tree, name@, span, old(self).names(), final(self).names(), old(trees)@, final(trees)@, d),
            r is None ==> final(self).names() == old(self).names(),
            fits(*tree, old(self).env(old(trees)@), old(trees)@, old(trees).room()) ==> r is Some,
            r is Some && den(*tree, old(self).env(old(trees)@), old(trees)@) is Val ==> final(trees).room()
                >= old(trees).room() - run_cost(*tree, old(self).env(old(trees)@), old(trees)@),
    {
        let ghost s0 = trees@;
        match self.try_eval_tree(trees, tree) {
            Some(evaluated) => Some(self.declare_evaluated(trees, name, span, tree, evaluated, Ghost(s0))),
            None => {
                proof {
                    assert forall|q: Seq<char>| #[trigger] self.names().contains_key(q) implies trees@.contains_key(self.names()[q].0) by {
                        lemma_grow(s0, trees@, self.names()[q].0);
                    }
                }
                None
            },
        }
    }
}

/// The tree that `acc` holds, if any.
pub open spec fn acc_term(acc: Option<TreeIndex>, store: Map<TreeIndex, Term>) -> Option<Term> {
    match acc {
        Some(a) => Some(store[a]),
        None => None,
    }
}

/// `r` is what an evaluation by frames gives for the run `p`, ending with the store `s`, the
/// frame count `it` and `room` places free, where `room0` bounds what its steps may use.
pub open spec fn item_result(r: Option<Result<TreeIndex, Error>>, p: Run, s: Map<TreeIndex, Term>, it: usize, room: int, room0: int) -> bool {
    &&& (r matches Some(Ok(i)) ==> (p matches Run::Done(Outcome::Val(t), it1, c1, _) && s.contains_key(i) && s[i] == t
        && it == it1 && it < MAX_EVAL_TREE_ITERS && room + c1 >= room0))
    &&& (r matches Some(Err(e)) ==> (p matches Run::Done(Outcome::Undefined(n, st, en), _, _, _) && e.0@ == undefined_message(n)
        && e.1.start == st && e.1.end == en))
    &&& (p matches Run::Done(o, _, c2, ok) ==> (ok && room0 >= c2 && !(o is Diverges) ==> r is Some))
}

/// How a stored tree is written in a compiled tree: the trees every store starts with by
/// their form (`id` for the identity), any other by its index.
pub open spec fn tree_label(t: TreeIndex) -> Seq<char> {
    if t == Trees::LEAF() {
        "△"@
    } else if t == Trees::STEM_LEAF() {
        "△ △"@
    } else if t == Trees::FORK_LEAF_LEAF() {
        "△ △ △"@
    } else if t == Trees::IDENTITY() {
        "id"@
    } else {
        "tree#"@ + decimal(t.pos())
    }
}

/// How a compiled tree is written: a name as itself, an application of one part as that
/// part, and of more parts as the parts separated by spaces, applications in brackets.
pub open spec fn show_ct(ct: CompiledTree) -> Seq<char>
    decreases ct, 1nat,
{
    match ct {
        CompiledTree::NameRef((name, _)) => name@,
        CompiledTree::Application(v) => if v@.len() == 1 {
            show_ct(v@[0])
        } else {
            show_ct_list(v@, true)
        },
        CompiledTree::Tree(t) => tree_label(t),
    }
}

/// The parts `items` written one after the other, separated by spaces, applications in
/// brackets; `first` where no part comes before them.
pub open spec fn show_ct_list(items: Seq<CompiledTree>, first: bool) -> Seq<char>
    decreases items, 0nat,
{
    if items.len() == 0 {
        Seq::empty()
    } else {
        let sep = if first { Seq::<char>::empty() } else { " "@ };
        let part = if items[0] is Application { "("@ + show_ct(items[0]) + ")"@ } else { show_ct(items[0]) };
        sep + part + show_ct_list(items.drop_first(), false)
    }
}

impl<'src> CompiledTree<'src> {
    /// The text of this compiled tree.
    pub fn to_string(&self) -> (r: String)
        ensures
            r@ == show_ct(*self),
        decreases self, 1nat,
    {
        match self {
            CompiledTree::NameRef((name, _)) => String::from_str(name),
            CompiledTree::Application(sub_exprs) => {
                if sub_exprs.len() == 1 {
                    proof {
                        let t = *self;
                        let w = t->Application_0;
                        assert(w == *sub_exprs);
                        assert(decreases_to!(t => w));
                        assert(decreases_to!(w => w@));
                        assert(decreases_to!(w@ => w@[0]));
                    }
                    sub_exprs[0].to_string()
                } else {
                    proof {
                        let t = *self;
                        let w = t->Application_0;
                        assert(w == *sub_exprs);
                        assert(decreases_to!(t => w));
                    }
                    parts_text(sub_exprs)
                }
            },
            CompiledTree::Tree(t) => {
                if *t == Trees::LEAF() {
                    String::from_str("△")
                } else if *t == Trees::STEM_LEAF() {
                    String::from_str("△ △")
                } else if *t == Trees::FORK_LEAF_LEAF() {
                    String::from_str("△ △ △")
                } else if *t == Trees::IDENTITY() {
                    String::from_str("id")
                } else {
                    let mut s = String::from_str("tree#");
                    let n = decimal_text(t.get() as u128);
                    s.append(n.as_str());
                    s
                }
            },
        }
    }
}

/// The text of the parts `items`, separated by spaces, applications in brackets.
fn parts_text<'src>(items: &Vec<CompiledTree<'src>>) -> (r: String)
    ensures
        r@ == show_ct_list(items@, true),
    decreases items, 0nat,
{
    let mut s = String::new();
    let mut i: usize = 0;
    proof {
        assert(items@.skip(0) =~= items@);
    }
    while i < items.len()
        invariant
            i <= items@.len(),
            s@ + show_ct_list(items@.skip(i as int), i == 0) == show_ct_list(items@, true),
        decreases items@.len() - i,
    {
        let ghost rest = items@.skip(i as int);
        proof {
            assert(rest[0] == items@[i as int]);
            assert(rest.drop_first() =~= items@.skip(i + 1));
            assert(decreases_to!(items => items@));
            assert(decreases_to!(items@ => items@[i as int]));
        }
        if i > 0 {
            s.append(" ");
        }
        let part = items[i].to_string();
        let is_app = match &items[i] {
            CompiledTree::Application(_) => true,
            _ => false,
        };
        if is_app {
            s.append("(");
            s.append(part.as_str());
            s.append(")");
        } else {
            s.append(part.as_str());
        }
        proof {
            let sep = if i == 0 { Seq::<char>::empty() } else { " "@ };
            let p = if items@[i as int] is Application { "("@ + show_ct(items@[i as int]) + ")"@ } else { show_ct(items@[i as int]) };
            assert(show_ct_list(rest, i == 0) == sep + p + show_ct_list(items@.skip(i + 1), false));
            assert(s@ + show_ct_list(items@.skip(i + 1), false) == show_ct_list(items@, true));
        }
        i += 1;
    }
    proof {
        assert(items@.skip(items@.len() as int) =~= Seq::<CompiledTree>::empty());
    }
    s
}

} // verus!
