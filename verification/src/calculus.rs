//! The reduction rules of the tree calculus, stated over a plain mathematical tree.
use vstd::prelude::*;

verus! {

/// A tree of the tree calculus: a leaf `△`, a stem `△ x`, or a fork `△ x y`.
pub enum Term {
    Leaf,
    Stem(Box<Term>),
    Fork(Box<Term>, Box<Term>),
}

/// How a tree is written: `△` followed by its children, a leaf child as ` △` and any other
/// child in brackets.
pub open spec fn show(t: Term) -> Seq<char>
    decreases t,
{
    match t {
        Term::Leaf => "△"@,
        Term::Stem(a) => "△"@ + show_child(*a),
        Term::Fork(a, b) => "△"@ + show_child(*a) + show_child(*b),
    }
}

/// How a child is written after its parent.
pub open spec fn show_child(c: Term) -> Seq<char>
    decreases c,
{
    match c {
        Term::Leaf => " △"@,
        Term::Stem(a) => " ("@ + ("△"@ + show_child(*a)) + ")"@,
        Term::Fork(a, b) => " ("@ + ("△"@ + show_child(*a) + show_child(*b)) + ")"@,
    }
}

/// A child that is not a leaf is written as its own text in brackets.
pub proof fn lemma_show_child(c: Term)
    ensures
        show_child(c) == if c is Leaf { " △"@ } else { " ("@ + show(c) + ")"@ },
{
}

/// Applies `a` to `b` with at most `fuel` levels of nested reduction.
/// Returns the value together with the number of reduction steps an evaluator
/// that never reuses earlier results performs.
///
/// - `△ b = △ b`
/// - `(△ x) b = △ x b`
/// - `△ △ y b = y`
/// - `△ (△ x) y b = x b (y b)`
/// - `△ (△ w x) y △ = w`, `△ (△ w x) y (△ u) = x u`, `△ (△ w x) y (△ u v) = y u v`
pub open spec fn eval(a: Term, b: Term, fuel: nat) -> Option<(Term, nat)>
    decreases fuel,
{
    if fuel == 0 {
        None
    } else {
        let f = (fuel - 1) as nat;
        match a {
            Term::Leaf => Some((Term::Stem(Box::new(b)), 1)),
            Term::Stem(x) => Some((Term::Fork(x, Box::new(b)), 1)),
            Term::Fork(l, y) => match *l {
                Term::Leaf => Some((*y, 1)),
                Term::Stem(x) => match eval(*x, b, f) {
                    Some((p, c1)) => match eval(*y, b, f) {
                        Some((q, c2)) => match eval(p, q, f) {
                            Some((r, c3)) => Some((r, 1 + c1 + c2 + c3)),
                            None => None,
                        },
                        None => None,
                    },
                    None => None,
                },
                Term::Fork(w, x) => match b {
                    Term::Leaf => Some((*w, 1)),
                    Term::Stem(u) => match eval(*x, *u, f) {
                        Some((r, c)) => Some((r, 1 + c)),
                        None => None,
                    },
                    Term::Fork(u, v) => match eval(*y, *u, f) {
                        Some((p, c1)) => match eval(p, *v, f) {
                            Some((r, c2)) => Some((r, 1 + c1 + c2)),
                            None => None,
                        },
                        None => None,
                    },
                },
            },
        }
    }
}

/// `a b` reduces to a value.
pub open spec fn halts(a: Term, b: Term) -> bool {
    exists|n: nat| (#[trigger] eval(a, b, n)) is Some
}

/// Some fuel that is enough to evaluate `a b`, where there is any.
pub open spec fn enough_fuel(a: Term, b: Term) -> nat {
    choose|n: nat| (#[trigger] eval(a, b, n)) is Some
}

/// The value of `a b`; meaningful where `halts(a, b)`.
pub open spec fn value(a: Term, b: Term) -> Term {
    eval(a, b, enough_fuel(a, b)).unwrap().0
}

/// The number of reduction steps of `a b`; meaningful where `halts(a, b)`.
pub open spec fn cost(a: Term, b: Term) -> nat {
    eval(a, b, enough_fuel(a, b)).unwrap().1
}

/// More fuel never changes an outcome that was already reached.
pub proof fn lemma_eval_monotone(a: Term, b: Term, n: nat, m: nat)
    requires
        eval(a, b, n) is Some,
        n <= m,
    ensures
        eval(a, b, m) == eval(a, b, n),
    decreases n,
{
    let f = (n - 1) as nat;
    let g = (m - 1) as nat;
    match a {
        Term::Leaf => {},
        Term::Stem(_) => {},
        Term::Fork(l, y) => match *l {
            Term::Leaf => {},
            Term::Stem(x) => {
                let (p, c1) = eval(*x, b, f).unwrap();
                let (q, c2) = eval(*y, b, f).unwrap();
                lemma_eval_monotone(*x, b, f, g);
                lemma_eval_monotone(*y, b, f, g);
                lemma_eval_monotone(p, q, f, g);
            },
            Term::Fork(w, x) => match b {
                Term::Leaf => {},
                Term::Stem(u) => {
                    lemma_eval_monotone(*x, *u, f, g);
                },
                Term::Fork(u, v) => {
                    let (p, c1) = eval(*y, *u, f).unwrap();
                    lemma_eval_monotone(*y, *u, f, g);
                    lemma_eval_monotone(p, *v, f, g);
                },
            },
        },
    }
}

/// Any fuel that reaches an outcome reaches the one that `value` and `cost` name.
pub proof fn lemma_eval_unique(a: Term, b: Term, n: nat)
    requires
        eval(a, b, n) is Some,
    ensures
        halts(a, b),
        eval(a, b, n) == Some((value(a, b), cost(a, b))),
{
    assert(halts(a, b));
    let m = enough_fuel(a, b);
    if n <= m {
        lemma_eval_monotone(a, b, n, m);
    } else {
        lemma_eval_monotone(a, b, m, n);
    }
}

/// Every evaluation takes at least one step.
pub proof fn lemma_cost_positive(a: Term, b: Term)
    requires
        halts(a, b),
    ensures
        cost(a, b) >= 1,
{
    let n = enough_fuel(a, b);
    assert(eval(a, b, n) is Some);
}

/// Where `a b` reduces, it takes at least one step.
pub proof fn lemma_cost_positive_when(a: Term, b: Term)
    ensures
        halts(a, b) ==> cost(a, b) >= 1,
{
    if halts(a, b) {
        lemma_cost_positive(a, b);
    }
}

/// The rules that give a value at once: `△ b`, `△ x b`, `△ △ y b` and `△ (△ w x) y △`.
pub proof fn lemma_rule_immediate(a: Term, b: Term)
    requires
        immediate(a, b),
    ensures
        halts(a, b),
        value(a, b) == immediate_value(a, b),
        cost(a, b) == 1,
{
    lemma_eval_unique(a, b, 1);
}

/// `a b` is reduced by one of the rules that give a value at once.
pub open spec fn immediate(a: Term, b: Term) -> bool {
    match a {
        Term::Leaf => true,
        Term::Stem(_) => true,
        Term::Fork(l, _) => match *l {
            Term::Leaf => true,
            Term::Stem(_) => false,
            Term::Fork(_, _) => b is Leaf,
        },
    }
}

/// The value of `a b` where `immediate(a, b)`.
pub open spec fn immediate_value(a: Term, b: Term) -> Term {
    match a {
        Term::Leaf => Term::Stem(Box::new(b)),
        Term::Stem(x) => Term::Fork(x, Box::new(b)),
        Term::Fork(l, y) => match *l {
            Term::Fork(w, _) => *w,
            _ => *y,
        },
    }
}

/// `△ (△ x) y b = x b (y b)`.
pub proof fn lemma_rule_duplicate(x: Term, y: Term, b: Term)
    ensures
        ({
            let a = Term::Fork(Box::new(Term::Stem(Box::new(x))), Box::new(y));
            &&& halts(a, b) <==> (halts(x, b) && halts(y, b) && halts(value(x, b), value(y, b)))
            &&& halts(a, b) ==> value(a, b) == value(value(x, b), value(y, b))
            &&& halts(a, b) ==> cost(a, b) == 1 + cost(x, b) + cost(y, b) + cost(value(x, b), value(y, b))
        }),
{
    let a = Term::Fork(Box::new(Term::Stem(Box::new(x))), Box::new(y));
    if halts(a, b) {
        let n = enough_fuel(a, b);
        let f = (n - 1) as nat;
        lemma_eval_unique(x, b, f);
        lemma_eval_unique(y, b, f);
        lemma_eval_unique(value(x, b), value(y, b), f);
    }
    if halts(x, b) && halts(y, b) && halts(value(x, b), value(y, b)) {
        let n1 = enough_fuel(x, b);
        let n2 = enough_fuel(y, b);
        let n3 = enough_fuel(value(x, b), value(y, b));
        let m = if n1 >= n2 && n1 >= n3 { n1 } else if n2 >= n3 { n2 } else { n3 };
        lemma_eval_monotone(x, b, n1, m);
        lemma_eval_monotone(y, b, n2, m);
        lemma_eval_monotone(value(x, b), value(y, b), n3, m);
        lemma_eval_unique(a, b, m + 1);
    }
}

/// `△ (△ w x) y (△ u) = x u`.
pub proof fn lemma_rule_match_stem(w: Term, x: Term, y: Term, u: Term)
    ensures
        ({
            let a = Term::Fork(Box::new(Term::Fork(Box::new(w), Box::new(x))), Box::new(y));
            let b = Term::Stem(Box::new(u));
            &&& halts(a, b) <==> halts(x, u)
            &&& halts(a, b) ==> value(a, b) == value(x, u)
            &&& halts(a, b) ==> cost(a, b) == 1 + cost(x, u)
        }),
{
    let a = Term::Fork(Box::new(Term::Fork(Box::new(w), Box::new(x))), Box::new(y));
    let b = Term::Stem(Box::new(u));
    if halts(a, b) {
        let n = enough_fuel(a, b);
        lemma_eval_unique(x, u, (n - 1) as nat);
    }
    if halts(x, u) {
        let n = enough_fuel(x, u);
        lemma_eval_unique(a, b, n + 1);
    }
}

/// `△ (△ w x) y (△ u v) = y u v`.
pub proof fn lemma_rule_match_fork(w: Term, x: Term, y: Term, u: Term, v: Term)
    ensures
        ({
            let a = Term::Fork(Box::new(Term::Fork(Box::new(w), Box::new(x))), Box::new(y));
            let b = Term::Fork(Box::new(u), Box::new(v));
            &&& halts(a, b) <==> (halts(y, u) && halts(value(y, u), v))
            &&& halts(a, b) ==> value(a, b) == value(value(y, u), v)
            &&& halts(a, b) ==> cost(a, b) == 1 + cost(y, u) + cost(value(y, u), v)
        }),
{
    let a = Term::Fork(Box::new(Term::Fork(Box::new(w), Box::new(x))), Box::new(y));
    let b = Term::Fork(Box::new(u), Box::new(v));
    if halts(a, b) {
        let n = enough_fuel(a, b);
        let f = (n - 1) as nat;
        lemma_eval_unique(y, u, f);
        lemma_eval_unique(value(y, u), v, f);
    }
    if halts(y, u) && halts(value(y, u), v) {
        let n1 = enough_fuel(y, u);
        let n2 = enough_fuel(value(y, u), v);
        let m = if n1 >= n2 { n1 } else { n2 };
        lemma_eval_monotone(y, u, n1, m);
        lemma_eval_monotone(value(y, u), v, n2, m);
        lemma_eval_unique(a, b, m + 1);
    }
}


/// The trees that the steps `△ b = △ b` and `(△ x) b = △ x b` make while `a b` is reduced with
/// at most `fuel` levels of nesting: the only steps whose value is a new tree.
pub open spec fn made_fuel(a: Term, b: Term, fuel: nat) -> Set<Term>
    decreases fuel,
{
    if fuel == 0 {
        Set::empty()
    } else {
        let f = (fuel - 1) as nat;
        match a {
            Term::Leaf => set![Term::Stem(Box::new(b))],
            Term::Stem(x) => set![Term::Fork(x, Box::new(b))],
            Term::Fork(l, y) => match *l {
                Term::Leaf => Set::empty(),
                Term::Stem(x) => match (eval(*x, b, f), eval(*y, b, f)) {
                    (Some((p, _)), Some((q, _))) => made_fuel(*x, b, f) + made_fuel(*y, b, f) + made_fuel(p, q, f),
                    _ => Set::empty(),
                },
                Term::Fork(_, x) => match b {
                    Term::Leaf => Set::empty(),
                    Term::Stem(u) => made_fuel(*x, *u, f),
                    Term::Fork(u, v) => match eval(*y, *u, f) {
                        Some((p, _)) => made_fuel(*y, *u, f) + made_fuel(p, *v, f),
                        None => Set::empty(),
                    },
                },
            },
        }
    }
}

/// The trees that reducing `a b` makes by its steps `△ b = △ b` and `(△ x) b = △ x b`;
/// meaningful where `halts(a, b)`.
pub open spec fn made(a: Term, b: Term) -> Set<Term> {
    made_fuel(a, b, enough_fuel(a, b))
}

/// More fuel never changes the trees made once the reduction ends.
pub proof fn lemma_made_monotone(a: Term, b: Term, n: nat, m: nat)
    requires
        eval(a, b, n) is Some,
        n <= m,
    ensures
        made_fuel(a, b, m) == made_fuel(a, b, n),
    decreases n,
{
    let f = (n - 1) as nat;
    let g = (m - 1) as nat;
    match a {
        Term::Leaf => {},
        Term::Stem(_) => {},
        Term::Fork(l, y) => match *l {
            Term::Leaf => {},
            Term::Stem(x) => {
                let (p, c1) = eval(*x, b, f).unwrap();
                let (q, c2) = eval(*y, b, f).unwrap();
                lemma_eval_monotone(*x, b, f, g);
                lemma_eval_monotone(*y, b, f, g);
                lemma_made_monotone(*x, b, f, g);
                lemma_made_monotone(*y, b, f, g);
                lemma_made_monotone(p, q, f, g);
            },
            Term::Fork(w, x) => match b {
                Term::Leaf => {},
                Term::Stem(u) => {
                    lemma_made_monotone(*x, *u, f, g);
                },
                Term::Fork(u, v) => {
                    let (p, c1) = eval(*y, *u, f).unwrap();
                    lemma_eval_monotone(*y, *u, f, g);
                    lemma_made_monotone(*y, *u, f, g);
                    lemma_made_monotone(p, *v, f, g);
                },
            },
        },
    }
}

/// Any fuel that reaches an outcome makes the trees that `made` names.
pub proof fn lemma_made_unique(a: Term, b: Term, n: nat)
    requires
        eval(a, b, n) is Some,
    ensures
        made_fuel(a, b, n) == made(a, b),
{
    lemma_eval_unique(a, b, n);
    let m = enough_fuel(a, b);
    if n <= m {
        lemma_made_monotone(a, b, n, m);
    } else {
        lemma_made_monotone(a, b, m, n);
    }
}

/// The steps that give a value at once make that value where it is a stem or a fork built
/// from the argument, and nothing otherwise.
pub proof fn lemma_made_immediate(a: Term, b: Term)
    requires
        immediate(a, b),
    ensures
        made(a, b) == (if a is Leaf || a is Stem { set![value(a, b)] } else { Set::<Term>::empty() }),
{
    lemma_rule_immediate(a, b);
    lemma_made_unique(a, b, 1);
}

/// `△ (△ x) y b` makes what `x b`, `y b` and their values applied make.
pub proof fn lemma_made_duplicate(x: Term, y: Term, b: Term)
    requires
        halts(Term::Fork(Box::new(Term::Stem(Box::new(x))), Box::new(y)), b),
    ensures
        made(Term::Fork(Box::new(Term::Stem(Box::new(x))), Box::new(y)), b) == made(x, b) + made(y, b) + made(
            value(x, b),
            value(y, b),
        ),
{
    let a = Term::Fork(Box::new(Term::Stem(Box::new(x))), Box::new(y));
    lemma_rule_duplicate(x, y, b);
    let n = enough_fuel(a, b);
    let f = (n - 1) as nat;
    assert(eval(a, b, n) is Some);
    lemma_eval_unique(x, b, f);
    lemma_eval_unique(y, b, f);
    lemma_eval_unique(value(x, b), value(y, b), f);
    lemma_made_unique(x, b, f);
    lemma_made_unique(y, b, f);
    lemma_made_unique(value(x, b), value(y, b), f);
}

/// `△ (△ w x) y (△ u)` makes what `x u` makes.
pub proof fn lemma_made_match_stem(w: Term, x: Term, y: Term, u: Term)
    requires
        halts(Term::Fork(Box::new(Term::Fork(Box::new(w), Box::new(x))), Box::new(y)), Term::Stem(Box::new(u))),
    ensures
        made(Term::Fork(Box::new(Term::Fork(Box::new(w), Box::new(x))), Box::new(y)), Term::Stem(Box::new(u)))
            == made(x, u),
{
    let a = Term::Fork(Box::new(Term::Fork(Box::new(w), Box::new(x))), Box::new(y));
    let b = Term::Stem(Box::new(u));
    let n = enough_fuel(a, b);
    assert(eval(a, b, n) is Some);
    lemma_made_unique(x, u, (n - 1) as nat);
}

/// `△ (△ w x) y (△ u v)` makes what `y u` and its value applied to `v` make.
pub proof fn lemma_made_match_fork(w: Term, x: Term, y: Term, u: Term, v: Term)
    requires
        halts(Term::Fork(Box::new(Term::Fork(Box::new(w), Box::new(x))), Box::new(y)), Term::Fork(Box::new(u), Box::new(v))),
    ensures
        made(Term::Fork(Box::new(Term::Fork(Box::new(w), Box::new(x))), Box::new(y)), Term::Fork(Box::new(u), Box::new(v)))
            == made(y, u) + made(value(y, u), v),
{
    let a = Term::Fork(Box::new(Term::Fork(Box::new(w), Box::new(x))), Box::new(y));
    let b = Term::Fork(Box::new(u), Box::new(v));
    let n = enough_fuel(a, b);
    let f = (n - 1) as nat;
    assert(eval(a, b, n) is Some);
    lemma_eval_unique(y, u, f);
    lemma_eval_unique(value(y, u), v, f);
    lemma_made_unique(y, u, f);
    lemma_made_unique(value(y, u), v, f);
}


/// `△ b = △ b`: a leaf applied to any tree is the stem of that tree, in one step.
pub proof fn law_leaf_applied(b: Term)
    ensures
        halts(Term::Leaf, b),
        value(Term::Leaf, b) == Term::Stem(Box::new(b)),
        cost(Term::Leaf, b) == 1,
{
    lemma_rule_immediate(Term::Leaf, b);
}

/// `(△ a) b = △ a b`: a stem applied to any tree is the fork of its child and that tree, in
/// one step.
pub proof fn law_stem_applied(a: Term, b: Term)
    ensures
        halts(Term::Stem(Box::new(a)), b),
        value(Term::Stem(Box::new(a)), b) == Term::Fork(Box::new(a), Box::new(b)),
        cost(Term::Stem(Box::new(a)), b) == 1,
{
    lemma_rule_immediate(Term::Stem(Box::new(a)), b);
}

/// `△ △ y b = y`: a fork with a leaf on the left ignores its argument and gives its right
/// child, in one step.
pub proof fn law_constant_applied(y: Term, b: Term)
    ensures
        halts(Term::Fork(Box::new(Term::Leaf), Box::new(y)), b),
        value(Term::Fork(Box::new(Term::Leaf), Box::new(y)), b) == y,
        cost(Term::Fork(Box::new(Term::Leaf), Box::new(y)), b) == 1,
{
    lemma_rule_immediate(Term::Fork(Box::new(Term::Leaf), Box::new(y)), b);
}

/// `△ (△ w x) y △ = w`: a triage applied to a leaf gives its first branch `w`, whatever the
/// other branches `x` and `y` are, in one step.
pub proof fn law_triage_leaf(w: Term, x: Term, y: Term)
    ensures
        halts(Term::Fork(Box::new(Term::Fork(Box::new(w), Box::new(x))), Box::new(y)), Term::Leaf),
        value(Term::Fork(Box::new(Term::Fork(Box::new(w), Box::new(x))), Box::new(y)), Term::Leaf) == w,
        cost(Term::Fork(Box::new(Term::Fork(Box::new(w), Box::new(x))), Box::new(y)), Term::Leaf) == 1,
{
    lemma_rule_immediate(Term::Fork(Box::new(Term::Fork(Box::new(w), Box::new(x))), Box::new(y)), Term::Leaf);
}

/// `△ (△ w x) y (△ u) = x u`: a triage applied to a stem applies its second branch to the
/// stem's child.
pub proof fn law_triage_stem(w: Term, x: Term, y: Term, u: Term)
    ensures
        halts(Term::Fork(Box::new(Term::Fork(Box::new(w), Box::new(x))), Box::new(y)), Term::Stem(Box::new(u)))
            <==> halts(x, u),
        halts(x, u) ==> value(Term::Fork(Box::new(Term::Fork(Box::new(w), Box::new(x))), Box::new(y)), Term::Stem(
            Box::new(u),
        )) == value(x, u),
{
    lemma_rule_match_stem(w, x, y, u);
}

/// `△ (△ w x) y (△ u v) = y u v`: a triage applied to a fork applies its third branch to the
/// fork's children in turn.
pub proof fn law_triage_fork(w: Term, x: Term, y: Term, u: Term, v: Term)
    ensures
        halts(Term::Fork(Box::new(Term::Fork(Box::new(w), Box::new(x))), Box::new(y)), Term::Fork(Box::new(u), Box::new(v)))
            <==> (halts(y, u) && halts(value(y, u), v)),
        halts(y, u) && halts(value(y, u), v) ==> value(
            Term::Fork(Box::new(Term::Fork(Box::new(w), Box::new(x))), Box::new(y)),
            Term::Fork(Box::new(u), Box::new(v)),
        ) == value(value(y, u), v),
{
    lemma_rule_match_fork(w, x, y, u, v);
}

/// `△ (△ x) y b = x b (y b)`: a fork with a stem on the left applies `x b` to `y b`.
pub proof fn law_duplicate(x: Term, y: Term, b: Term)
    ensures
        halts(Term::Fork(Box::new(Term::Stem(Box::new(x))), Box::new(y)), b) <==> (halts(x, b) && halts(y, b) && halts(
            value(x, b),
            value(y, b),
        )),
        halts(x, b) && halts(y, b) && halts(value(x, b), value(y, b)) ==> value(
            Term::Fork(Box::new(Term::Stem(Box::new(x))), Box::new(y)),
            b,
        ) == value(value(x, b), value(y, b)),
{
    lemma_rule_duplicate(x, y, b);
}

} // verus!
