//! Trees built from reference-counted nodes, and their evaluation.
use std::rc::Rc;
use vstd::prelude::*;

use crate::calculus::{
    cost, halts, lemma_show_child, show, lemma_rule_duplicate, lemma_rule_immediate, lemma_rule_match_fork,
    lemma_rule_match_stem, value, Term,
};

verus! {

/// A tree of the tree calculus whose subtrees are shared through `Rc`.
#[derive(Debug, Clone)]
pub enum Tree {
    Leaf,
    Stem(Rc<Tree>),
    Fork(Rc<Tree>, Rc<Tree>),
}

impl Tree {
    /// The mathematical tree that this value stands for.
    pub open spec fn term(&self) -> Term
        decreases self,
    {
        match self {
            Tree::Leaf => Term::Leaf,
            Tree::Stem(a) => Term::Stem(Box::new((**a).term())),
            Tree::Fork(a, b) => Term::Fork(Box::new((**a).term()), Box::new((**b).term())),
        }
    }
}

impl Tree {
    /// A new leaf `△`.
    pub fn leaf() -> (r: Rc<Tree>)
        ensures
            r.term() == Term::Leaf,
    {
        Rc::new(Tree::Leaf)
    }

    /// A new fork `△ lhs rhs`.
    pub fn fork(lhs: Rc<Tree>, rhs: Rc<Tree>) -> (r: Rc<Tree>)
        ensures
            r.term() == Term::Fork(Box::new(lhs.term()), Box::new(rhs.term())),
    {
        Rc::new(Tree::Fork(lhs, rhs))
    }

    /// A new stem `△ value`.
    pub fn stem(value: Rc<Tree>) -> (r: Rc<Tree>)
        ensures
            r.term() == Term::Stem(Box::new(value.term())),
    {
        Rc::new(Tree::Stem(value))
    }

    /// The children of this node, left to right.
    pub fn iter_children(&self) -> (r: Vec<&Tree>)
        ensures
            self matches Tree::Leaf ==> r@.len() == 0,
            self matches Tree::Stem(a) ==> r@.len() == 1 && *r@[0] == **a,
            self matches Tree::Fork(a, b) ==> r@.len() == 2 && *r@[0] == **a && *r@[1] == **b,
    {
        match self {
            Tree::Leaf => Vec::new(),
            Tree::Stem(a) => vec![&**a],
            Tree::Fork(a, b) => vec![&**a, &**b],
        }
    }

    /// The text of this tree: `△` followed by its children, a leaf child as ` △` and any other
    /// child in brackets.
    pub fn to_string(&self) -> (r: String)
        ensures
            r@ == show(self.term()),
        decreases self,
    {
        let mut s = String::from_str("△");
        let children = self.iter_children();
        let mut i: usize = 0;
        while i < children.len()
            invariant
                i <= children@.len(),
                self matches Tree::Leaf ==> children@.len() == 0,
                self matches Tree::Stem(a) ==> children@.len() == 1 && *children@[0] == **a,
                self matches Tree::Fork(a, b) ==> children@.len() == 2 && *children@[0] == **a && *children@[1] == **b,
                s@ == "△"@ + child_texts(children@.take(i as int)),
            decreases children@.len() - i,
        {
            let child = children[i];
            proof {
                lemma_show_child(child.term());
                assert(children@.take(i + 1) =~= children@.take(i as int).push(child));
                lemma_child_texts_push(children@.take(i as int), child);
            }
            match child {
                Tree::Leaf => {
                    s.append(" △");
                },
                _ => {
                    proof {
                        match self {
                            Tree::Stem(a) => {
                                assert(decreases_to!(self => *a));
                            },
                            Tree::Fork(a, b) => {
                                assert(decreases_to!(self => *a));
                                assert(decreases_to!(self => *b));
                            },
                            Tree::Leaf => {},
                        }
                    }
                    let inner = child.to_string();
                    s.append(" (");
                    s.append(inner.as_str());
                    s.append(")");
                },
            }
            proof {
                assert(s@ == "△"@ + child_texts(children@.take(i + 1)));
            }
            i += 1;
        }
        proof {
            assert(children@.take(children@.len() as int) =~= children@);
            match self {
                Tree::Leaf => {
                    assert(children@ =~= Seq::<&Tree>::empty());
                },
                Tree::Stem(a) => {
                    assert(children@.drop_last() =~= Seq::<&Tree>::empty());
                    lemma_child_texts_push(Seq::<&Tree>::empty(), children@[0]);
                    assert(children@ =~= Seq::<&Tree>::empty().push(children@[0]));
                },
                Tree::Fork(a, b) => {
                    let c0 = Seq::<&Tree>::empty().push(children@[0]);
                    lemma_child_texts_push(Seq::<&Tree>::empty(), children@[0]);
                    lemma_child_texts_push(c0, children@[1]);
                    assert(children@ =~= c0.push(children@[1]));
                },
            }
        }
        s
    }
}

/// The texts of `cs` as children, one after the other.
pub open spec fn child_texts(cs: Seq<&Tree>) -> Seq<char>
    decreases cs.len(),
{
    if cs.len() == 0 {
        Seq::empty()
    } else {
        child_texts(cs.drop_last()) + crate::calculus::show_child(cs.last().term())
    }
}

proof fn lemma_child_texts_push(cs: Seq<&Tree>, c: &Tree)
    ensures
        child_texts(cs.push(c)) == child_texts(cs) + crate::calculus::show_child(c.term()),
{
    assert(cs.push(c).drop_last() =~= cs);
}

/// Evaluates `a b` by recursion on the reduction rules.
pub fn rec_tree_apply(a: &Rc<Tree>, b: &Rc<Tree>) -> (r: Rc<Tree>)
    requires
        halts(a.term(), b.term()),
    ensures
        r.term() == value(a.term(), b.term()),
    decreases cost(a.term(), b.term()),
{
    match &**a {
        Tree::Leaf => {
            proof { lemma_rule_immediate(a.term(), b.term()); }
            Rc::new(Tree::Stem(b.clone()))
        },
        Tree::Stem(x) => {
            proof { lemma_rule_immediate(a.term(), b.term()); }
            Rc::new(Tree::Fork(x.clone(), b.clone()))
        },
        Tree::Fork(lhs, rhs) => match &**lhs {
            Tree::Leaf => {
                assert(a.term() == Term::Fork(Box::new(lhs.term()), Box::new(rhs.term())));
                assert(lhs.term() == Term::Leaf);
                proof { lemma_rule_immediate(a.term(), b.term()); }
                rhs.clone()
            },
            Tree::Stem(x) => {
                proof { lemma_rule_duplicate(x.term(), rhs.term(), b.term()); }
                let xb = rec_tree_apply(x, b);
                let yb = rec_tree_apply(rhs, b);
                rec_tree_apply(&xb, &yb)
            },
            Tree::Fork(w, x) => match &**b {
                Tree::Leaf => {
                    proof { lemma_rule_immediate(a.term(), b.term()); }
                    w.clone()
                },
                Tree::Stem(u) => {
                    proof { lemma_rule_match_stem(w.term(), x.term(), rhs.term(), u.term()); }
                    rec_tree_apply(x, u)
                },
                Tree::Fork(u, v) => {
                    proof { lemma_rule_match_fork(w.term(), x.term(), rhs.term(), u.term(), v.term()); }
                    let yu = rec_tree_apply(rhs, u);
                    rec_tree_apply(&yu, v)
                },
            },
        },
    }
}

/// Work that waits on the tree being evaluated.
enum TreeEvalStage {
    /// Apply the result to the held tree.
    ForkPartialPatternMatch(Rc<Tree>),
    /// Evaluate `y b`, then apply the result to it.
    DuplicatePendingSecondEval(Rc<Tree>, Rc<Tree>),
    /// Apply the held tree to the result.
    DuplicatePendingFinalEval(Rc<Tree>),
}

/// The stack `stack`, given `r` for the innermost evaluation, finishes.
spec fn stack_halts(stack: Seq<TreeEvalStage>, r: Term) -> bool
    decreases stack.len(),
{
    if stack.len() == 0 {
        true
    } else {
        let rest = stack.drop_last();
        match stack.last() {
            TreeEvalStage::ForkPartialPatternMatch(v) => halts(r, v.term()) && stack_halts(
                rest,
                value(r, v.term()),
            ),
            TreeEvalStage::DuplicatePendingSecondEval(y, b) => {
                &&& halts(y.term(), b.term())
                &&& halts(r, value(y.term(), b.term()))
                &&& stack_halts(rest, value(r, value(y.term(), b.term())))
            },
            TreeEvalStage::DuplicatePendingFinalEval(xb) => halts(xb.term(), r) && stack_halts(
                rest,
                value(xb.term(), r),
            ),
        }
    }
}

/// What the stack `stack` produces, given `r` for the innermost evaluation.
spec fn stack_value(stack: Seq<TreeEvalStage>, r: Term) -> Term
    decreases stack.len(),
{
    if stack.len() == 0 {
        r
    } else {
        let rest = stack.drop_last();
        match stack.last() {
            TreeEvalStage::ForkPartialPatternMatch(v) => stack_value(rest, value(r, v.term())),
            TreeEvalStage::DuplicatePendingSecondEval(y, b) => stack_value(
                rest,
                value(r, value(y.term(), b.term())),
            ),
            TreeEvalStage::DuplicatePendingFinalEval(xb) => stack_value(rest, value(xb.term(), r)),
        }
    }
}

/// The number of reduction steps that the stack `stack` still takes.
spec fn stack_cost(stack: Seq<TreeEvalStage>, r: Term) -> nat
    decreases stack.len(),
{
    if stack.len() == 0 {
        0
    } else {
        let rest = stack.drop_last();
        match stack.last() {
            TreeEvalStage::ForkPartialPatternMatch(v) => cost(r, v.term()) + stack_cost(
                rest,
                value(r, v.term()),
            ),
            TreeEvalStage::DuplicatePendingSecondEval(y, b) => {
                let yb = value(y.term(), b.term());
                cost(y.term(), b.term()) + cost(r, yb) + stack_cost(rest, value(r, yb))
            },
            TreeEvalStage::DuplicatePendingFinalEval(xb) => cost(xb.term(), r) + stack_cost(
                rest,
                value(xb.term(), r),
            ),
        }
    }
}

/// Evaluates `a b` with an explicit stack in place of recursion.
pub fn tree_apply(input: Rc<Tree>, arg: Rc<Tree>) -> (r: Rc<Tree>)
    requires
        halts(input.term(), arg.term()),
    ensures
        r.term() == value(input.term(), arg.term()),
{
    let ghost goal = value(input.term(), arg.term());
    let mut a = input;
    let mut b = arg;
    let mut eval_stack: Vec<TreeEvalStage> = Vec::with_capacity(1024);

    loop
        invariant
            halts(a.term(), b.term()),
            stack_halts(eval_stack@, value(a.term(), b.term())),
            stack_value(eval_stack@, value(a.term(), b.term())) == goal,
            goal == value(input.term(), arg.term()),
        decreases cost(a.term(), b.term()) + stack_cost(eval_stack@, value(a.term(), b.term())),
    {
        let result = match &*a {
            // △ b = △ b
            Tree::Leaf => {
                proof { lemma_rule_immediate(a.term(), b.term()); }
                Rc::new(Tree::Stem(b.clone()))
            },
            // △ a b = △ a b
            Tree::Stem(x) => {
                proof { lemma_rule_immediate(a.term(), b.term()); }
                Rc::new(Tree::Fork(x.clone(), b.clone()))
            },
            Tree::Fork(lhs, rhs) => match &**lhs {
                // △ △ a b = a
                Tree::Leaf => {
                    assert(a.term() == Term::Fork(Box::new(lhs.term()), Box::new(rhs.term())));
                    assert(lhs.term() == Term::Leaf);
                    proof { lemma_rule_immediate(a.term(), b.term()); }
                    rhs.clone()
                },
                // △ (△ x) y b = x b (y b)
                Tree::Stem(x) => {
                    proof { lemma_rule_duplicate(x.term(), rhs.term(), b.term()); }
                    let ghost old_stack = eval_stack@;
                    eval_stack.push(TreeEvalStage::DuplicatePendingSecondEval(rhs.clone(), b.clone()));
                    assert(eval_stack@.drop_last() == old_stack);
                    let x = x.clone();
                    a = x;  // Evaluate `x b`, push `(_ (y b))`.
                    continue ;
                },
                // △ (△ x y) z w => (x | y w.stem | z w.lhs w.rhs)
                Tree::Fork(a1, a2) => match &*b {
                    Tree::Leaf => {
                        proof { lemma_rule_immediate(a.term(), b.term()); }
                        a1.clone()
                    },
                    Tree::Stem(u) => {
                        proof { lemma_rule_match_stem(a1.term(), a2.term(), rhs.term(), u.term()); }
                        let (na, nb) = (a2.clone(), u.clone());
                        a = na;
                        b = nb;  // Evaluate `a2 u`.
                        continue ;
                    },
                    Tree::Fork(u, v) => {
                        proof { lemma_rule_match_fork(a1.term(), a2.term(), rhs.term(), u.term(), v.term()); }
                        let ghost old_stack = eval_stack@;
                        eval_stack.push(TreeEvalStage::ForkPartialPatternMatch(v.clone()));
                        assert(eval_stack@.drop_last() == old_stack);
                        let (na, nb) = (rhs.clone(), u.clone());
                        a = na;
                        b = nb;  // Evaluate `a3 u`, push `_ v`.
                        continue ;
                    },
                },
            },
        };
        assert(result.term() == value(a.term(), b.term()));
        let ghost old_stack = eval_stack@;
        match eval_stack.pop() {
            None => return result,
            Some(TreeEvalStage::ForkPartialPatternMatch(v)) => {
                a = result;
                b = v;  // Complete `(a3 u) v`.
                continue ;
            },
            Some(TreeEvalStage::DuplicatePendingSecondEval(y, stack_b)) => {
                a = y;
                b = stack_b;  // Eval `y b`, push `(_ (y b))`.
                let ghost old_stack = eval_stack@;
                eval_stack.push(TreeEvalStage::DuplicatePendingFinalEval(result));
                assert(eval_stack@.drop_last() == old_stack);
                continue ;
            },
            Some(TreeEvalStage::DuplicatePendingFinalEval(xb)) => {
                a = xb;
                b = result;
                continue ;
            },
        }
    }
}

} // verus!
