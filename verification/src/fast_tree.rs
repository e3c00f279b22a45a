//! A store of hash-consed trees addressed by index, with evaluation and garbage collection.
use ahash::RandomState;
use std::collections::HashMap;
use vstd::arithmetic::power2::{lemma2_to64, pow2};
use vstd::prelude::*;

use crate::calculus::{
    cost, halts, lemma_made_duplicate, lemma_made_immediate, lemma_made_match_fork, lemma_made_match_stem,
    lemma_rule_duplicate, lemma_rule_immediate, lemma_rule_match_fork, lemma_rule_match_stem, made, value,
    Term,
};
use crate::hash_table::{table_capacity, table_len, vec_capacity, 
    new_random_state, table_clear, table_get, table_insert, table_remove,
    table_with_capacity_and_hasher,
};

verus! {

/// The position of a tree in a [`Trees`] store.
#[derive(Debug, Clone, Copy, PartialEq, Eq, PartialOrd, Ord, Hash, Structural)]
pub struct TreeIndex {
    idx: u32,
}

impl TreeIndex {
    /// An index names a position below `u32::MAX`.
    #[verifier::type_invariant]
    spec fn below_max(self) -> bool {
        self.idx < u32::MAX
    }

    /// The position this index names.
    pub closed spec fn pos(self) -> nat {
        self.idx as nat
    }

    pub fn get(&self) -> (r: u32)
        ensures
            r == self.pos(),
            r < u32::MAX,
    {
        proof {
            use_type_invariant(self);
        }
        self.idx
    }

    pub fn idx(&self) -> (r: usize)
        ensures
            r == self.pos(),
            r < u32::MAX,
    {
        proof {
            use_type_invariant(self);
        }
        self.idx as usize
    }

    fn from_idx(i: usize) -> (r: TreeIndex)
        requires
            i < u32::MAX,
        ensures
            r.pos() == i,
    {
        TreeIndex { idx: i as u32 }
    }

    /// Two indices at the same position are the same index.
    pub proof fn lemma_pos_injective(a: TreeIndex, b: TreeIndex)
        ensures
            a.pos() == b.pos() <==> a == b,
    {
    }

    /// Every position below `u32::MAX` has its index.
    pub proof fn lemma_pos_bound(a: TreeIndex)
        ensures
            a.pos() <= u32::MAX,
    {
    }
}

/// The index at position `i`.
pub closed spec fn index_at(i: nat) -> TreeIndex {
    TreeIndex { idx: i as u32 }
}

/// `index_at` names the index at each position that an index can have.
pub proof fn lemma_index_at(i: nat)
    requires
        i <= u32::MAX,
    ensures
        index_at(i).pos() == i,
{
}

/// One slot of the store: a leaf, a stem, a fork, or a link in the list of free slots.
#[derive(Debug, Clone, Copy, PartialEq, Eq, Structural)]
pub struct TreeStoreEntry {
    lhs_or_free_entry: Option<TreeIndex>,
    rhs_or_stem: Option<TreeIndex>,
}

/// The number that an optional index contributes to a slot's key: 0 for none, else one more
/// than the position.
pub closed spec fn raw(o: Option<TreeIndex>) -> nat {
    match o {
        Some(t) => t.pos() + 1,
        None => 0,
    }
}

/// A number that identifies a slot's contents.
pub closed spec fn entry_key(e: TreeStoreEntry) -> nat {
    raw(e.lhs_or_free_entry) + raw(e.rhs_or_stem) * 0x1_0000_0000
}

/// Both indices a slot may hold name positions below `u32::MAX`.
pub closed spec fn entry_in_range(e: TreeStoreEntry) -> bool {
    raw(e.lhs_or_free_entry) <= u32::MAX && raw(e.rhs_or_stem) <= u32::MAX
}

/// The slot is a link of the free list.
pub closed spec fn is_free(e: TreeStoreEntry) -> bool {
    e.lhs_or_free_entry is Some && e.rhs_or_stem is None
}

/// The tree node a slot holds (a free slot reads as a leaf).
pub closed spec fn node_of(e: TreeStoreEntry) -> Tree {
    match (e.lhs_or_free_entry, e.rhs_or_stem) {
        (Some(l), Some(r)) => Tree::Fork(l, r),
        (None, Some(c)) => Tree::Stem(c),
        _ => Tree::Leaf,
    }
}

proof fn lemma_entry_key_bound(e: TreeStoreEntry)
    requires
        entry_in_range(e),
    ensures
        entry_key(e) <= u64::MAX,
{
    let l = raw(e.lhs_or_free_entry);
    let r = raw(e.rhs_or_stem);
    assert(r * 0x1_0000_0000 <= 0xffff_ffff * 0x1_0000_0000) by (nonlinear_arith)
        requires
            r <= 0xffff_ffff,
    ;
}

proof fn lemma_entry_key_injective(a: TreeStoreEntry, b: TreeStoreEntry)
    requires
        entry_in_range(a),
        entry_in_range(b),
    ensures
        entry_key(a) == entry_key(b) ==> a == b,
{
    let la = raw(a.lhs_or_free_entry);
    let lb = raw(b.lhs_or_free_entry);
    let ra = raw(a.rhs_or_stem);
    let rb = raw(b.rhs_or_stem);
    assert(la < 0x1_0000_0000 && lb < 0x1_0000_0000);
    if entry_key(a) == entry_key(b) {
        if ra < rb {
            assert(ra * 0x1_0000_0000 + 0x1_0000_0000 <= rb * 0x1_0000_0000) by (nonlinear_arith)
                requires
                    ra < rb,
            ;
        } else if rb < ra {
            assert(rb * 0x1_0000_0000 + 0x1_0000_0000 <= ra * 0x1_0000_0000) by (nonlinear_arith)
                requires
                    rb < ra,
            ;
        }
        assert(ra == rb);
        assert(la == lb);
        match (a.lhs_or_free_entry, b.lhs_or_free_entry) {
            (Some(x), Some(y)) => { TreeIndex::lemma_pos_injective(x, y); },
            _ => {},
        }
        match (a.rhs_or_stem, b.rhs_or_stem) {
            (Some(x), Some(y)) => { TreeIndex::lemma_pos_injective(x, y); },
            _ => {},
        }
    }
}

impl TreeStoreEntry {
    pub fn leaf() -> (r: Self)
        ensures
            node_of(r) == Tree::Leaf,
            !is_free(r),
    {
        TreeStoreEntry { lhs_or_free_entry: None, rhs_or_stem: None }
    }

    pub fn stem(child: TreeIndex) -> (r: Self)
        ensures
            node_of(r) == Tree::Stem(child),
            !is_free(r),
    {
        TreeStoreEntry { lhs_or_free_entry: None, rhs_or_stem: Some(child) }
    }

    pub fn fork(lhs: TreeIndex, rhs: TreeIndex) -> (r: Self)
        ensures
            node_of(r) == Tree::Fork(lhs, rhs),
            !is_free(r),
    {
        TreeStoreEntry { lhs_or_free_entry: Some(lhs), rhs_or_stem: Some(rhs) }
    }

    fn free_entry(next_free: TreeIndex) -> (r: Self)
        ensures
            is_free(r),
            r.lhs_or_free_entry == Some(next_free),
    {
        TreeStoreEntry { lhs_or_free_entry: Some(next_free), rhs_or_stem: None }
    }

    fn get_free(&self) -> (r: Option<TreeIndex>)
        ensures
            r == (if is_free(*self) {
                self.lhs_or_free_entry
            } else {
                None
            }),
    {
        match (self.lhs_or_free_entry, self.rhs_or_stem) {
            (Some(next_free), None) => Some(next_free),
            _ => None,
        }
    }

    /// The number that identifies the slot's contents (`entry_key`).
    fn key(&self) -> (r: u64)
        requires
            entry_in_range(*self),
        ensures
            r == entry_key(*self),
    {
        let lhs: u64 = match self.lhs_or_free_entry {
            Some(x) => x.get() as u64 + 1,
            None => 0,
        };
        let rhs: u64 = match self.rhs_or_stem {
            Some(x) => x.get() as u64 + 1,
            None => 0,
        };
        assert(rhs * 0x1_0000_0000 <= 0x1_0000_0000 * 0x1_0000_0000) by (nonlinear_arith)
            requires
                rhs < 0x1_0000_0000,
        ;
        lhs + rhs * 0x1_0000_0000
    }
}

impl From<Tree> for TreeStoreEntry {
    fn from(value: Tree) -> (r: Self) {
        match value {
            Tree::Leaf => Self::leaf(),
            Tree::Stem(value) => Self::stem(value),
            Tree::Fork(lhs, rhs) => Self::fork(lhs, rhs),
        }
    }
}

impl vstd::std_specs::convert::FromSpecImpl<Tree> for TreeStoreEntry {
    open spec fn obeys_from_spec() -> bool {
        true
    }

    closed spec fn from_spec(v: Tree) -> Self {
        match v {
            Tree::Leaf => TreeStoreEntry { lhs_or_free_entry: None, rhs_or_stem: None },
            Tree::Stem(c) => TreeStoreEntry { lhs_or_free_entry: None, rhs_or_stem: Some(c) },
            Tree::Fork(l, r) => TreeStoreEntry { lhs_or_free_entry: Some(l), rhs_or_stem: Some(r) },
        }
    }
}

/// A slot that is a link of the free list holds no tree.
#[derive(Debug)]
pub struct IsFreeListEntryError;

/// One node of a stored tree; its children are indices into the store.
#[derive(Debug, Clone, Copy, Hash, PartialEq, Eq, Structural)]
pub enum Tree {
    Leaf,
    Stem(TreeIndex),
    Fork(TreeIndex, TreeIndex),
}

/// A stored tree read as a function, by the rule that applies when it is applied.
#[derive(Debug, Clone, Copy, Hash, PartialEq, Eq, Structural)]
pub enum TreeFunc {
    /// `(△) x = △ x`
    Leaf,
    /// `(△ a) x = △ a x`
    Stem(TreeIndex),
    /// `(△ △ a) b = a`
    IgnoreThen(TreeIndex),
    /// `△ (△ x) y z = x z (y z)`
    DoubleChain(TreeIndex, TreeIndex),
    /// `△ (△ x y) z w = (x | y w.stem | z w.lhs w.rhs)`
    Match(TreeIndex, TreeIndex, TreeIndex),
}

impl Tree {
    /// The node held by a slot, or the error for a link of the free list.
    fn try_from_entry(value: TreeStoreEntry) -> (r: Result<Tree, IsFreeListEntryError>)
        ensures
            r is Ok <==> !is_free(value),
            r is Ok ==> r->Ok_0 == node_of(value),
    {
        match (value.lhs_or_free_entry, value.rhs_or_stem) {
            (None, None) => Ok(Tree::Leaf),
            (None, Some(value)) => Ok(Tree::Stem(value)),
            (Some(lhs), Some(rhs)) => Ok(Tree::Fork(lhs, rhs)),
            (Some(_), None) => Err(IsFreeListEntryError),
        }
    }

    /// The children of the node, left to right.
    pub open spec fn children(self) -> Seq<TreeIndex> {
        match self {
            Tree::Leaf => seq![],
            Tree::Stem(a) => seq![a],
            Tree::Fork(a, b) => seq![a, b],
        }
    }

    /// The children of the node, left to right.
    pub fn iter_children(&self) -> (r: Vec<TreeIndex>)
        ensures
            r@ == self.children(),
    {
        match self {
            Tree::Leaf => Vec::new(),
            Tree::Stem(a) => vec![*a],
            Tree::Fork(a, b) => vec![*a, *b],
        }
    }
}


/// The slot at position `i` holds a tree (it is not a link of the free list).
pub closed spec fn live_in(ts: Seq<TreeStoreEntry>, i: nat) -> bool {
    i < ts.len() && !is_free(ts[i as int])
}

/// `c` is a live slot lower than slot `i`.
spec fn lower(ts: Seq<TreeStoreEntry>, hs: Seq<nat>, i: nat, c: TreeIndex) -> bool {
    live_in(ts, c.pos()) && hs[c.pos() as int] < hs[i as int]
}

/// Every child of slot `i` is a live slot lower than `i`.
spec fn children_lower(ts: Seq<TreeStoreEntry>, hs: Seq<nat>, i: nat) -> bool {
    match node_of(ts[i as int]) {
        Tree::Leaf => true,
        Tree::Stem(c) => lower(ts, hs, i, c),
        Tree::Fork(l, r) => lower(ts, hs, i, l) && lower(ts, hs, i, r),
    }
}

/// The live slots form a graph without cycles: each child is lower than its parent.
#[verifier::opaque]
spec fn dag_ok(ts: Seq<TreeStoreEntry>, hs: Seq<nat>) -> bool {
    &&& hs.len() == ts.len()
    &&& forall|i: nat| #[trigger] live_in(ts, i) ==> children_lower(ts, hs, i)
}

/// The tree at slot `i`, unfolded at most `fuel` levels deep.
spec fn term_fuel(ts: Seq<TreeStoreEntry>, i: nat, fuel: nat) -> Term
    decreases fuel,
{
    if fuel == 0 {
        Term::Leaf
    } else {
        let f = (fuel - 1) as nat;
        match node_of(ts[i as int]) {
            Tree::Leaf => Term::Leaf,
            Tree::Stem(c) => Term::Stem(Box::new(term_fuel(ts, c.pos(), f))),
            Tree::Fork(l, r) => Term::Fork(
                Box::new(term_fuel(ts, l.pos(), f)),
                Box::new(term_fuel(ts, r.pos(), f)),
            ),
        }
    }
}

/// The tree at slot `i`.
spec fn term_at(ts: Seq<TreeStoreEntry>, hs: Seq<nat>, i: nat) -> Term {
    term_fuel(ts, i, hs[i as int] + 1)
}

proof fn lemma_term_fuel(ts: Seq<TreeStoreEntry>, hs: Seq<nat>, i: nat, f1: nat, f2: nat)
    requires
        dag_ok(ts, hs),
        live_in(ts, i),
        f1 > hs[i as int],
        f2 > hs[i as int],
    ensures
        term_fuel(ts, i, f1) == term_fuel(ts, i, f2),
    decreases f1,
{
    reveal(dag_ok);
    assert(children_lower(ts, hs, i));
    match node_of(ts[i as int]) {
        Tree::Leaf => {},
        Tree::Stem(c) => {
            lemma_term_fuel(ts, hs, c.pos(), (f1 - 1) as nat, (f2 - 1) as nat);
        },
        Tree::Fork(l, r) => {
            lemma_term_fuel(ts, hs, l.pos(), (f1 - 1) as nat, (f2 - 1) as nat);
            lemma_term_fuel(ts, hs, r.pos(), (f1 - 1) as nat, (f2 - 1) as nat);
        },
    }
}

/// The tree in a node, reading its children's trees from the store.
spec fn node_term(ts: Seq<TreeStoreEntry>, hs: Seq<nat>, n: Tree) -> Term {
    match n {
        Tree::Leaf => Term::Leaf,
        Tree::Stem(c) => Term::Stem(Box::new(term_at(ts, hs, c.pos()))),
        Tree::Fork(l, r) => Term::Fork(
            Box::new(term_at(ts, hs, l.pos())),
            Box::new(term_at(ts, hs, r.pos())),
        ),
    }
}

proof fn lemma_term_unfold(ts: Seq<TreeStoreEntry>, hs: Seq<nat>, i: nat)
    requires
        dag_ok(ts, hs),
        live_in(ts, i),
    ensures
        term_at(ts, hs, i) == node_term(ts, hs, node_of(ts[i as int])),
{
    reveal(dag_ok);
    assert(children_lower(ts, hs, i));
    let f = hs[i as int];
    match node_of(ts[i as int]) {
        Tree::Leaf => {},
        Tree::Stem(c) => {
            lemma_term_fuel(ts, hs, c.pos(), f, hs[c.pos() as int] + 1);
        },
        Tree::Fork(l, r) => {
            lemma_term_fuel(ts, hs, l.pos(), f, hs[l.pos() as int] + 1);
            lemma_term_fuel(ts, hs, r.pos(), f, hs[r.pos() as int] + 1);
        },
    }
}

/// Slots in `keep` are live, closed under children, and the same in both stores.
#[verifier::opaque]
spec fn kept(
    ts1: Seq<TreeStoreEntry>,
    hs1: Seq<nat>,
    ts2: Seq<TreeStoreEntry>,
    hs2: Seq<nat>,
    keep: Set<nat>,
) -> bool {
    forall|j: nat|
        #[trigger] keep.contains(j) ==> {
            &&& live_in(ts1, j)
            &&& j < ts2.len()
            &&& ts2[j as int] == ts1[j as int]
            &&& hs2[j as int] == hs1[j as int]
            &&& forall|k: int|
                0 <= k < node_of(ts1[j as int]).children().len() ==> keep.contains(
                    #[trigger] node_of(ts1[j as int]).children()[k].pos(),
                )
        }
}

proof fn lemma_term_fuel_frame(
    ts1: Seq<TreeStoreEntry>,
    hs1: Seq<nat>,
    ts2: Seq<TreeStoreEntry>,
    hs2: Seq<nat>,
    keep: Set<nat>,
    i: nat,
    f: nat,
)
    requires
        kept(ts1, hs1, ts2, hs2, keep),
        keep.contains(i),
    ensures
        term_fuel(ts2, i, f) == term_fuel(ts1, i, f),
    decreases f,
{
    reveal(kept);
    if f > 0 {
        let n = node_of(ts1[i as int]);
        match n {
            Tree::Leaf => {},
            Tree::Stem(c) => {
                assert(n.children()[0] == c);
                lemma_term_fuel_frame(ts1, hs1, ts2, hs2, keep, c.pos(), (f - 1) as nat);
            },
            Tree::Fork(l, r) => {
                assert(n.children()[0] == l);
                assert(n.children()[1] == r);
                lemma_term_fuel_frame(ts1, hs1, ts2, hs2, keep, l.pos(), (f - 1) as nat);
                lemma_term_fuel_frame(ts1, hs1, ts2, hs2, keep, r.pos(), (f - 1) as nat);
            },
        }
    }
}

/// Slots kept unchanged, with everything below them, hold the same trees.
proof fn lemma_term_frame(
    ts1: Seq<TreeStoreEntry>,
    hs1: Seq<nat>,
    ts2: Seq<TreeStoreEntry>,
    hs2: Seq<nat>,
    keep: Set<nat>,
    i: nat,
)
    requires
        kept(ts1, hs1, ts2, hs2, keep),
        keep.contains(i),
    ensures
        term_at(ts2, hs2, i) == term_at(ts1, hs1, i),
{
    reveal(kept);
    lemma_term_fuel_frame(ts1, hs1, ts2, hs2, keep, i, hs1[i as int] + 1);
}

/// The slots of the free list, in order, each linking to the next; the last links to the end.
#[verifier::opaque]
spec fn free_list_ok(ts: Seq<TreeStoreEntry>, fl: Seq<nat>, next_free: nat, total_free: nat) -> bool {
    &&& total_free == fl.len()
    &&& next_free == (if fl.len() == 0 {
        ts.len()
    } else {
        fl[0]
    })
    &&& fl.no_duplicates()
    &&& forall|k: int|
        0 <= k < fl.len() ==> {
            &&& #[trigger] fl[k] < ts.len()
            &&& is_free(ts[fl[k] as int])
            &&& ts[fl[k] as int].lhs_or_free_entry->Some_0.pos() == (if k + 1 < fl.len() {
                fl[k + 1]
            } else {
                ts.len()
            })
        }
    &&& forall|i: nat| i < ts.len() && is_free(#[trigger] ts[i as int]) ==> fl.contains(i)
}

/// The index table maps the key of each live slot to that slot, and holds nothing else.
#[verifier::opaque]
spec fn index_ok(ts: Seq<TreeStoreEntry>, m: Map<u64, TreeIndex>) -> bool {
    &&& forall|i: nat|
        #[trigger] live_in(ts, i) ==> m.contains_key(entry_key(ts[i as int]) as u64) && m[entry_key(
            ts[i as int],
        ) as u64].pos() == i
    &&& forall|k: u64|
        #[trigger] m.contains_key(k) ==> live_in(ts, m[k].pos()) && entry_key(ts[m[k].pos() as int])
            == k
}

/// The first five slots hold the trees that the store starts with.
spec fn constants_ok(ts: Seq<TreeStoreEntry>) -> bool {
    &&& ts.len() >= 5
    &&& live_in(ts, 0) && node_of(ts[0]) == Tree::Leaf
    &&& live_in(ts, 1) && node_of(ts[1]) == Tree::Stem(index_at(0))
    &&& live_in(ts, 2) && node_of(ts[2]) == Tree::Fork(index_at(0), index_at(0))
    &&& live_in(ts, 3) && node_of(ts[3]) == Tree::Fork(index_at(2), index_at(0))
    &&& live_in(ts, 4) && node_of(ts[4]) == Tree::Fork(index_at(0), index_at(3))
}

/// The slot contents that hold the node `t`.
spec fn entry_of(t: Tree) -> TreeStoreEntry {
    match t {
        Tree::Leaf => TreeStoreEntry { lhs_or_free_entry: None, rhs_or_stem: None },
        Tree::Stem(c) => TreeStoreEntry { lhs_or_free_entry: None, rhs_or_stem: Some(c) },
        Tree::Fork(l, r) => TreeStoreEntry { lhs_or_free_entry: Some(l), rhs_or_stem: Some(r) },
    }
}

proof fn lemma_entry_of(e: TreeStoreEntry)
    requires
        !is_free(e),
    ensures
        entry_of(node_of(e)) == e,
{
}

/// Two live slots that hold the same tree are the same slot.
proof fn lemma_unique_slots(
    ts: Seq<TreeStoreEntry>,
    hs: Seq<nat>,
    m: Map<u64, TreeIndex>,
    i: nat,
    j: nat,
)
    requires
        ts.len() < u32::MAX,
        dag_ok(ts, hs),
        index_ok(ts, m),
        live_in(ts, i),
        live_in(ts, j),
        term_at(ts, hs, i) == term_at(ts, hs, j),
    ensures
        i == j,
    decreases hs[i as int],
{
    reveal(dag_ok);
    reveal(index_ok);
    lemma_term_unfold(ts, hs, i);
    lemma_term_unfold(ts, hs, j);
    assert(children_lower(ts, hs, i));
    assert(children_lower(ts, hs, j));
    let ni = node_of(ts[i as int]);
    let nj = node_of(ts[j as int]);
    match (ni, nj) {
        (Tree::Stem(a), Tree::Stem(b)) => {
            lemma_unique_slots(ts, hs, m, a.pos(), b.pos());
            TreeIndex::lemma_pos_injective(a, b);
        },
        (Tree::Fork(a, c), Tree::Fork(b, d)) => {
            lemma_unique_slots(ts, hs, m, a.pos(), b.pos());
            lemma_unique_slots(ts, hs, m, c.pos(), d.pos());
            TreeIndex::lemma_pos_injective(a, b);
            TreeIndex::lemma_pos_injective(c, d);
        },
        _ => {},
    }
    assert(ni == nj);
    lemma_entry_of(ts[i as int]);
    lemma_entry_of(ts[j as int]);
}

/// The store `ts2` is `ts1` with node `tree` placed at slot `p`, which was not live.
spec fn placed(ts1: Seq<TreeStoreEntry>, ts2: Seq<TreeStoreEntry>, p: nat, e: TreeStoreEntry) -> bool {
    &&& !live_in(ts1, p)
    &&& p <= ts1.len()
    &&& !is_free(e)
    &&& ts2 == (if p == ts1.len() {
        ts1.push(e)
    } else {
        ts1.update(p as int, e)
    })
}

proof fn lemma_place_dag(
    ts1: Seq<TreeStoreEntry>,
    hs1: Seq<nat>,
    ts2: Seq<TreeStoreEntry>,
    hs2: Seq<nat>,
    p: nat,
    tree: Tree,
)
    requires
        dag_ok(ts1, hs1),
        placed(ts1, ts2, p, entry_of(tree)),
        forall|k: int| 0 <= k < tree.children().len() ==> live_in(ts1, #[trigger] tree.children()[k].pos()),
        hs2.len() == ts2.len(),
        forall|j: int| 0 <= j < ts2.len() && j != p ==> hs2[j] == hs1[j],
        forall|k: int| 0 <= k < tree.children().len() ==> hs1[#[trigger] tree.children()[k].pos() as int] < hs2[p as int],
    ensures
        dag_ok(ts2, hs2),
        kept(ts1, hs1, ts2, hs2, Set::new(|j: nat| live_in(ts1, j))),
        node_of(ts2[p as int]) == tree,
        live_in(ts2, p),
        forall|j: nat| live_in(ts2, j) <==> (live_in(ts1, j) || j == p),
{
    reveal(dag_ok);
    reveal(kept);
    let keep = Set::new(|j: nat| live_in(ts1, j));
    assert(node_of(entry_of(tree)) == tree);
    match tree {
        Tree::Leaf => {},
        Tree::Stem(c) => {
            assert(tree.children()[0] == c);
        },
        Tree::Fork(l, r) => {
            assert(tree.children()[0] == l);
            assert(tree.children()[1] == r);
        },
    }
    assert forall|j: nat| #[trigger] keep.contains(j) implies {
        &&& live_in(ts1, j)
        &&& j < ts2.len()
        &&& ts2[j as int] == ts1[j as int]
        &&& hs2[j as int] == hs1[j as int]
        &&& forall|k: int|
            0 <= k < node_of(ts1[j as int]).children().len() ==> keep.contains(
                #[trigger] node_of(ts1[j as int]).children()[k].pos(),
            )
    } by {
        assert(children_lower(ts1, hs1, j));
        assert(j != p);
        match node_of(ts1[j as int]) {
            Tree::Leaf => {},
            Tree::Stem(c) => {
                assert(node_of(ts1[j as int]).children()[0] == c);
            },
            Tree::Fork(l, r) => {
                assert(node_of(ts1[j as int]).children()[0] == l);
                assert(node_of(ts1[j as int]).children()[1] == r);
            },
        }
    }
    assert forall|j: nat| live_in(ts2, j) <==> (live_in(ts1, j) || j == p) by {
        if j != p && j < ts1.len() {
            assert(ts2[j as int] == ts1[j as int]);
        }
    }
    assert forall|i: nat| #[trigger] live_in(ts2, i) implies children_lower(ts2, hs2, i) by {
        if i != p {
            assert(live_in(ts1, i));
            assert(children_lower(ts1, hs1, i));
            assert(ts2[i as int] == ts1[i as int]);
        }
    }
}

proof fn lemma_place_free_list(
    ts1: Seq<TreeStoreEntry>,
    fl1: Seq<nat>,
    ts2: Seq<TreeStoreEntry>,
    fl2: Seq<nat>,
    p: nat,
    e: TreeStoreEntry,
)
    requires
        free_list_ok(ts1, fl1, (if fl1.len() == 0 { ts1.len() } else { fl1[0] }), fl1.len()),
        placed(ts1, ts2, p, e),
        p == (if fl1.len() == 0 { ts1.len() } else { fl1[0] }),
        fl2 == (if fl1.len() == 0 { fl1 } else { fl1.drop_first() }),
    ensures
        free_list_ok(ts2, fl2, (if fl2.len() == 0 { ts2.len() } else { fl2[0] }), fl2.len()),
{
    reveal(free_list_ok);
    if fl1.len() > 0 {
        assert forall|k: int| 0 <= k < fl2.len() implies {
            &&& #[trigger] fl2[k] < ts2.len()
            &&& is_free(ts2[fl2[k] as int])
            &&& ts2[fl2[k] as int].lhs_or_free_entry->Some_0.pos() == (if k + 1 < fl2.len() {
                fl2[k + 1]
            } else {
                ts2.len()
            })
        } by {
            assert(fl2[k] == fl1[k + 1]);
            assert(fl1[k + 1] != fl1[0]);
            assert(fl1[k + 1] < ts1.len());
        }
        assert forall|i: nat| i < ts2.len() && is_free(#[trigger] ts2[i as int]) implies fl2.contains(i) by {
            assert(i != p);
            assert(ts2[i as int] == ts1[i as int]);
            assert(fl1.contains(i));
            let k = choose|k: int| 0 <= k < fl1.len() && fl1[k] == i;
            assert(k != 0);
            assert(fl2[k - 1] == i);
        }
        assert(fl1[0] < ts1.len());
        assert(fl1[1] < ts1.len() || fl2.len() == 0);
    } else {
        assert forall|i: nat| i < ts2.len() && is_free(#[trigger] ts2[i as int]) implies fl2.contains(i) by {
            assert(i != p);
            assert(ts2[i as int] == ts1[i as int]);
            assert(fl1.contains(i));
        }
    }
}

proof fn lemma_place_index(
    ts1: Seq<TreeStoreEntry>,
    m1: Map<u64, TreeIndex>,
    ts2: Seq<TreeStoreEntry>,
    m2: Map<u64, TreeIndex>,
    idx: TreeIndex,
    e: TreeStoreEntry,
)
    requires
        index_ok(ts1, m1),
        placed(ts1, ts2, idx.pos(), e),
        !m1.contains_key(entry_key(e) as u64),
        m2 == m1.insert(entry_key(e) as u64, idx),
        entry_in_range(e),
    ensures
        index_ok(ts2, m2),
{
    reveal(index_ok);
    let p = idx.pos();
    assert forall|i: nat| #[trigger] live_in(ts2, i) implies m2.contains_key(entry_key(ts2[i as int]) as u64)
        && m2[entry_key(ts2[i as int]) as u64].pos() == i by {
        if i != p {
            assert(ts2[i as int] == ts1[i as int]);
            assert(live_in(ts1, i));
            assert(m1.contains_key(entry_key(ts1[i as int]) as u64));
        }
    }
    assert forall|k: u64| #[trigger] m2.contains_key(k) implies live_in(ts2, m2[k].pos())
        && entry_key(ts2[m2[k].pos() as int]) == k by {
        if k != entry_key(e) as u64 {
            assert(m1.contains_key(k));
            assert(live_in(ts1, m1[k].pos()));
            assert(m1[k].pos() != p);
            assert(ts2[m1[k].pos() as int] == ts1[m1[k].pos() as int]);
        } else {
            lemma_entry_key_bound(e);
        }
    }
}

proof fn lemma_submap_trans(a: Map<TreeIndex, Term>, b: Map<TreeIndex, Term>, c: Map<TreeIndex, Term>)
    requires
        a <= b,
        b <= c,
    ensures
        a <= c,
{
    vstd::map_lib::lemma_submap_of_trans(a, b, c);
}

/// The free slot that links to position `next`.
spec fn free_link(next: nat) -> TreeStoreEntry {
    TreeStoreEntry { lhs_or_free_entry: Some(index_at(next)), rhs_or_stem: None }
}

/// `d` lists positions below `end` in strictly increasing order.
spec fn increasing_below(d: Seq<nat>, end: nat) -> bool {
    &&& forall|k: int| 0 <= k < d.len() ==> #[trigger] d[k] < end
    &&& forall|j: int, k: int| 0 <= j < k < d.len() ==> #[trigger] d[j] < #[trigger] d[k]
}

/// After a collection: the slots in `d` are linked in order as the free list, the slots in
/// `keep` are as they were, and the index table holds the keys of the kept slots only.
#[verifier::opaque]
spec fn gc_done(
    ts1: Seq<TreeStoreEntry>,
    hs: Seq<nat>,
    m1: Map<u64, TreeIndex>,
    ts2: Seq<TreeStoreEntry>,
    m2: Map<u64, TreeIndex>,
    d: Seq<nat>,
    keep: Set<nat>,
) -> bool {
    &&& ts1.len() < u32::MAX
    &&& dag_ok(ts1, hs)
    &&& index_ok(ts1, m1)
    &&& ts2.len() == ts1.len()
    &&& increasing_below(d, ts1.len())
    &&& forall|p: nat| p < ts1.len() ==> (d.contains(p) <==> !(#[trigger] keep.contains(p)))
    &&& forall|p: nat| #[trigger] keep.contains(p) ==> p < ts1.len() && live_in(ts1, p) && forall|k: int|
        0 <= k < node_of(ts1[p as int]).children().len() ==> keep.contains(
            #[trigger] node_of(ts1[p as int]).children()[k].pos(),
        )
    &&& forall|k: int| 0 <= k < d.len() ==> ts2[#[trigger] d[k] as int] == free_link(
        if k + 1 < d.len() {
            d[k + 1]
        } else {
            ts1.len() as nat
        },
    )
    &&& forall|p: nat| p < ts1.len() && !d.contains(p) ==> ts2[p as int] == ts1[p as int]
    &&& forall|k: u64| #[trigger] m2.contains_key(k) <==> m1.contains_key(k) && keep.contains(m1[k].pos())
    &&& forall|k: u64| #[trigger] m2.contains_key(k) ==> m2[k] == m1[k]
}

proof fn lemma_gc_live(
    ts1: Seq<TreeStoreEntry>,
    hs: Seq<nat>,
    m1: Map<u64, TreeIndex>,
    ts2: Seq<TreeStoreEntry>,
    m2: Map<u64, TreeIndex>,
    d: Seq<nat>,
    keep: Set<nat>,
)
    requires
        gc_done(ts1, hs, m1, ts2, m2, d, keep),
    ensures
        forall|p: nat| live_in(ts2, p) <==> keep.contains(p),
        forall|p: nat| keep.contains(p) ==> ts2[p as int] == ts1[p as int],
        forall|p: nat| #[trigger] keep.contains(p) ==> p < ts1.len() && live_in(ts1, p) && forall|k: int|
            0 <= k < node_of(ts1[p as int]).children().len() ==> keep.contains(
                #[trigger] node_of(ts1[p as int]).children()[k].pos(),
            ),
        forall|k: u64| #[trigger] m2.contains_key(k) <==> m1.contains_key(k) && keep.contains(m1[k].pos()),
        forall|k: u64| #[trigger] m2.contains_key(k) ==> m2[k] == m1[k],
        forall|p: nat| p < ts1.len() ==> (d.contains(p) <==> !(#[trigger] keep.contains(p))),
        increasing_below(d, ts1.len()),
        ts2.len() == ts1.len(),
        ts1.len() < u32::MAX,
        dag_ok(ts1, hs),
        index_ok(ts1, m1),
        forall|k: int| 0 <= k < d.len() ==> is_free(ts2[#[trigger] d[k] as int])
            && ts2[d[k] as int].lhs_or_free_entry->Some_0.pos() == (if k + 1 < d.len() { d[k + 1] } else { ts1.len() as nat }),
{
    reveal(gc_done);
    let len = ts1.len();
    assert forall|k: int| 0 <= k < d.len() implies is_free(ts2[#[trigger] d[k] as int])
        && ts2[d[k] as int].lhs_or_free_entry->Some_0.pos() == (if k + 1 < d.len() { d[k + 1] } else { len as nat }) by {
        let next: nat = if k + 1 < d.len() { d[k + 1] } else { len as nat };
        assert(next <= len);
        lemma_index_at(next);
    }
    assert forall|p: nat| live_in(ts2, p) <==> keep.contains(p) by {
        if p < len {
            if d.contains(p) {
                let k = choose|k: int| 0 <= k < d.len() && d[k] == p;
                assert(is_free(ts2[d[k] as int]));
            } else {
                assert(ts2[p as int] == ts1[p as int]);
            }
        }
    }
}

proof fn lemma_gc_dag(
    ts1: Seq<TreeStoreEntry>,
    hs: Seq<nat>,
    m1: Map<u64, TreeIndex>,
    ts2: Seq<TreeStoreEntry>,
    m2: Map<u64, TreeIndex>,
    d: Seq<nat>,
    keep: Set<nat>,
)
    requires
        gc_done(ts1, hs, m1, ts2, m2, d, keep),
    ensures
        dag_ok(ts2, hs),
{
    reveal(gc_done);
    lemma_gc_live(ts1, hs, m1, ts2, m2, d, keep);
    reveal(dag_ok);
    assert forall|i: nat| #[trigger] live_in(ts2, i) implies children_lower(ts2, hs, i) by {
        assert(keep.contains(i));
        assert(children_lower(ts1, hs, i));
        match node_of(ts1[i as int]) {
            Tree::Leaf => {},
            Tree::Stem(c) => {
                assert(node_of(ts1[i as int]).children()[0] == c);
                assert(keep.contains(c.pos()));
            },
            Tree::Fork(l, r) => {
                assert(node_of(ts1[i as int]).children()[0] == l);
                assert(node_of(ts1[i as int]).children()[1] == r);
                assert(keep.contains(l.pos()));
                assert(keep.contains(r.pos()));
            },
        }
    }
}

proof fn lemma_gc_index(
    ts1: Seq<TreeStoreEntry>,
    hs: Seq<nat>,
    m1: Map<u64, TreeIndex>,
    ts2: Seq<TreeStoreEntry>,
    m2: Map<u64, TreeIndex>,
    d: Seq<nat>,
    keep: Set<nat>,
)
    requires
        gc_done(ts1, hs, m1, ts2, m2, d, keep),
    ensures
        index_ok(ts2, m2),
{
    lemma_gc_live(ts1, hs, m1, ts2, m2, d, keep);
    reveal(index_ok);
    assert forall|i: nat| #[trigger] live_in(ts2, i) implies m2.contains_key(entry_key(ts2[i as int]) as u64)
        && m2[entry_key(ts2[i as int]) as u64].pos() == i by {
        assert(keep.contains(i));
        assert(live_in(ts1, i));
        assert(ts2[i as int] == ts1[i as int]);
        let k = entry_key(ts1[i as int]) as u64;
        assert(m1.contains_key(k));
        assert(m1[k].pos() == i);
    }
    assert forall|k: u64| #[trigger] m2.contains_key(k) implies live_in(ts2, m2[k].pos())
        && entry_key(ts2[m2[k].pos() as int]) == k by {
        assert(m1.contains_key(k));
        assert(keep.contains(m1[k].pos()));
        assert(ts2[m1[k].pos() as int] == ts1[m1[k].pos() as int]);
    }
}

proof fn lemma_gc_free_list(
    ts1: Seq<TreeStoreEntry>,
    hs: Seq<nat>,
    m1: Map<u64, TreeIndex>,
    ts2: Seq<TreeStoreEntry>,
    m2: Map<u64, TreeIndex>,
    d: Seq<nat>,
    keep: Set<nat>,
)
    requires
        gc_done(ts1, hs, m1, ts2, m2, d, keep),
    ensures
        free_list_ok(ts2, d, (if d.len() == 0 { ts2.len() as nat } else { d[0] }), d.len()),
{
    reveal(gc_done);
    lemma_gc_live(ts1, hs, m1, ts2, m2, d, keep);
    reveal(free_list_ok);
    assert(d.no_duplicates()) by {
        assert forall|j: int, k: int| 0 <= j < d.len() && 0 <= k < d.len() && j != k implies d[j] != d[k] by {
            if j < k {
                assert(d[j] < d[k]);
            } else {
                assert(d[k] < d[j]);
            }
        }
    }
    assert forall|i: nat| i < ts2.len() && is_free(#[trigger] ts2[i as int]) implies d.contains(i) by {
        if !d.contains(i) {
            assert(keep.contains(i));
        }
    }
}

proof fn lemma_gc_consistent(
    ts1: Seq<TreeStoreEntry>,
    hs: Seq<nat>,
    m1: Map<u64, TreeIndex>,
    ts2: Seq<TreeStoreEntry>,
    m2: Map<u64, TreeIndex>,
    d: Seq<nat>,
    keep: Set<nat>,
)
    requires
        gc_done(ts1, hs, m1, ts2, m2, d, keep),
    ensures
        dag_ok(ts2, hs),
        index_ok(ts2, m2),
        free_list_ok(ts2, d, (if d.len() == 0 { ts2.len() as nat } else { d[0] }), d.len()),
        kept(ts1, hs, ts2, hs, keep),
        forall|p: nat| live_in(ts2, p) <==> keep.contains(p),
{
    lemma_gc_live(ts1, hs, m1, ts2, m2, d, keep);
    lemma_gc_dag(ts1, hs, m1, ts2, m2, d, keep);
    lemma_gc_index(ts1, hs, m1, ts2, m2, d, keep);
    lemma_gc_free_list(ts1, hs, m1, ts2, m2, d, keep);
    assert(kept(ts1, hs, ts2, hs, keep)) by {
        reveal(kept);
        reveal(gc_done);
    }
}

/// Where the slot `d[k]` of a collection links to: the next slot of `d`, or the end.
spec fn gc_next(d: Seq<nat>, k: int, end: nat) -> nat {
    if k + 1 < d.len() {
        d[k + 1]
    } else {
        end
    }
}

/// How many slots of `d` a collection has written after handling `i` of them.
spec fn gc_written(i: nat) -> int {
    if i == 0 {
        0
    } else {
        i - 1
    }
}

/// How many slots of `d` a collection has dropped from the index table after handling `i`.
spec fn gc_dropped(d: Seq<nat>, i: nat) -> int {
    if i <= d.len() {
        i as int
    } else {
        d.len() as int
    }
}

/// A collection of the slots `d` of `ts1` has handled `i` of the positions `d` followed by
/// the end: links written for all but the last, keys dropped for all.
#[verifier::opaque]
spec fn gc_progress(
    ts1: Seq<TreeStoreEntry>,
    m1: Map<u64, TreeIndex>,
    d: Seq<nat>,
    ts: Seq<TreeStoreEntry>,
    m: Map<u64, TreeIndex>,
    i: nat,
) -> bool {
    &&& ts.len() == ts1.len()
    &&& increasing_below(d, ts1.len())
    &&& i <= d.len() + 1
    &&& forall|k: int| 0 <= k < gc_written(i) ==> ts[#[trigger] d[k] as int] == free_link(gc_next(d, k, ts1.len() as nat))
    &&& forall|p: nat| p < ts1.len() && !d.take(gc_written(i)).contains(p) ==> #[trigger] ts[p as int] == ts1[p as int]
    &&& forall|k: u64| #[trigger] m.contains_key(k) <==> m1.contains_key(k) && !d.take(gc_dropped(d, i)).contains(m1[k].pos())
    &&& forall|k: u64| #[trigger] m.contains_key(k) ==> m[k] == m1[k]
}

proof fn lemma_gc_start(ts1: Seq<TreeStoreEntry>, m1: Map<u64, TreeIndex>, d: Seq<nat>)
    requires
        increasing_below(d, ts1.len()),
    ensures
        gc_progress(ts1, m1, d, ts1, m1, 0),
{
    reveal(gc_progress);
    assert(d.take(0) =~= Seq::<nat>::empty());
}

/// The slot `d[i]` is not written yet.
proof fn lemma_gc_read(
    ts1: Seq<TreeStoreEntry>,
    m1: Map<u64, TreeIndex>,
    d: Seq<nat>,
    ts: Seq<TreeStoreEntry>,
    m: Map<u64, TreeIndex>,
    i: nat,
)
    requires
        gc_progress(ts1, m1, d, ts, m, i),
        i < d.len(),
    ensures
        ts[d[i as int] as int] == ts1[d[i as int] as int],
        d[i as int] < ts1.len(),
        ts.len() == ts1.len(),
{
    reveal(gc_progress);
    let written = d.take(gc_written(i));
    if written.contains(d[i as int]) {
        let k = choose|k: int| 0 <= k < written.len() && #[trigger] written[k] == d[i as int];
        assert(d[k] < d[i as int]);
    }
}

/// One more slot of `d` linked: the slot `d[i - 1]` now links to where it should.
proof fn lemma_gc_links(ts1: Seq<TreeStoreEntry>, d: Seq<nat>, ts: Seq<TreeStoreEntry>, i: nat, ts2: Seq<TreeStoreEntry>)
    requires
        ts.len() == ts1.len(),
        increasing_below(d, ts1.len()),
        1 <= i <= d.len(),
        forall|k: int| 0 <= k < i - 1 ==> ts[#[trigger] d[k] as int] == free_link(gc_next(d, k, ts1.len() as nat)),
        forall|p: nat| p < ts1.len() && !d.take(i - 1).contains(p) ==> #[trigger] ts[p as int] == ts1[p as int],
        ts2 == ts.update(d[i - 1] as int, free_link(gc_next(d, i - 1, ts1.len() as nat))),
    ensures
        forall|k: int| 0 <= k < i ==> ts2[#[trigger] d[k] as int] == free_link(gc_next(d, k, ts1.len() as nat)),
        forall|p: nat| p < ts1.len() && !d.take(i as int).contains(p) ==> #[trigger] ts2[p as int] == ts1[p as int],
{
    let len = ts1.len() as nat;
    assert forall|k: int| 0 <= k < i implies ts2[#[trigger] d[k] as int] == free_link(gc_next(d, k, len)) by {
        if k < i - 1 {
            assert(d[k] < d[i - 1]);
        }
    }
    assert(d.take(i as int) =~= d.take(i - 1).push(d[i - 1]));
    assert forall|p: nat| p < len && !d.take(i as int).contains(p) implies #[trigger] ts2[p as int] == ts1[p as int] by {
        assert(d.take(i as int)[i - 1] == d[i - 1]);
        assert(p != d[i - 1]);
        if d.take(i - 1).contains(p) {
            let j = choose|j: int| 0 <= j < i - 1 && #[trigger] d.take(i - 1)[j] == p;
            assert(d.take(i as int)[j] == p);
        }
    }
}

/// One more slot of `d` handled: its key dropped from the index table if it held a tree.
proof fn lemma_gc_keys(
    ts1: Seq<TreeStoreEntry>,
    m1: Map<u64, TreeIndex>,
    d: Seq<nat>,
    m: Map<u64, TreeIndex>,
    i: nat,
    m2: Map<u64, TreeIndex>,
)
    requires
        index_ok(ts1, m1),
        i < d.len(),
        forall|k: u64| #[trigger] m.contains_key(k) <==> m1.contains_key(k) && !d.take(i as int).contains(m1[k].pos()),
        forall|k: u64| #[trigger] m.contains_key(k) ==> m[k] == m1[k],
        m2 == (if live_in(ts1, d[i as int]) {
            m.remove(entry_key(ts1[d[i as int] as int]) as u64)
        } else {
            m
        }),
    ensures
        forall|k: u64| #[trigger] m2.contains_key(k) <==> m1.contains_key(k) && !d.take(i + 1int).contains(m1[k].pos()),
        forall|k: u64| #[trigger] m2.contains_key(k) ==> m2[k] == m1[k],
{
    let q = d[i as int];
    let e = ts1[q as int];
    assert(d.take(i + 1int) =~= d.take(i as int).push(q));
    assert forall|x: nat| #[trigger] d.take(i + 1int).contains(x) <==> d.take(i as int).contains(x) || x == q by {
        if d.take(i + 1int).contains(x) && x != q {
            let j = choose|j: int| 0 <= j < i + 1 && #[trigger] d.take(i + 1int)[j] == x;
            assert(j < i);
            assert(d.take(i as int)[j] == x);
        }
        if d.take(i as int).contains(x) {
            let j = choose|j: int| 0 <= j < i && #[trigger] d.take(i as int)[j] == x;
            assert(d.take(i + 1int)[j] == x);
        }
        if x == q {
            assert(d.take(i + 1int)[i as int] == q);
        }
    }
    reveal(index_ok);
    assert forall|k: u64| #[trigger] m2.contains_key(k) <==> m1.contains_key(k) && !d.take(i + 1int).contains(m1[k].pos()) by {
        if m1.contains_key(k) && m1[k].pos() == q {
            assert(live_in(ts1, q));
            assert(entry_key(e) == k);
        }
        if live_in(ts1, q) {
            let kk = entry_key(e) as u64;
            assert(m1.contains_key(kk));
            assert(m1[kk].pos() == q);
        }
    }
}

/// One more position handled: its key dropped if it held a tree, and the previous position
/// linked to it.
proof fn lemma_gc_step(
    ts1: Seq<TreeStoreEntry>,
    m1: Map<u64, TreeIndex>,
    d: Seq<nat>,
    ts: Seq<TreeStoreEntry>,
    m: Map<u64, TreeIndex>,
    i: nat,
    ts2: Seq<TreeStoreEntry>,
    m2: Map<u64, TreeIndex>,
)
    requires
        gc_progress(ts1, m1, d, ts, m, i),
        index_ok(ts1, m1),
        i <= d.len(),
        m2 == (if i < d.len() && live_in(ts1, d[i as int]) {
            m.remove(entry_key(ts1[d[i as int] as int]) as u64)
        } else {
            m
        }),
        ts2 == (if i == 0 {
            ts
        } else {
            ts.update(d[i - 1] as int, free_link(gc_next(d, i - 1, ts1.len() as nat)))
        }),
    ensures
        gc_progress(ts1, m1, d, ts2, m2, i + 1),
{
    reveal(gc_progress);
    if i > 0 {
        assert(gc_written(i) == i - 1);
        lemma_gc_links(ts1, d, ts, i, ts2);
    }
    if i < d.len() {
        assert(gc_dropped(d, i) == i);
        assert(gc_dropped(d, i + 1) == i + 1);
        lemma_gc_keys(ts1, m1, d, m, i, m2);
    } else {
        assert(gc_dropped(d, i + 1) == gc_dropped(d, i));
    }
}

/// A list without repeats whose items all occur in a list without repeats is no longer.
proof fn lemma_seq_count(fl: Seq<nat>, d: Seq<nat>)
    requires
        fl.no_duplicates(),
        forall|j: int, k: int| 0 <= j < k < d.len() ==> #[trigger] d[j] < #[trigger] d[k],
        forall|k: int| 0 <= k < fl.len() ==> d.contains(#[trigger] fl[k]),
    ensures
        fl.len() <= d.len(),
{
    assert(d.no_duplicates()) by {
        assert forall|j: int, k: int| 0 <= j < d.len() && 0 <= k < d.len() && j != k implies d[j] != d[k] by {
            if j < k {
                assert(d[j] < d[k]);
            } else {
                assert(d[k] < d[j]);
            }
        }
    }
    assert(fl.to_set().subset_of(d.to_set())) by {
        assert forall|p: nat| fl.to_set().contains(p) implies d.to_set().contains(p) by {
            let k = choose|k: int| 0 <= k < fl.len() && fl[k] == p;
            assert(d.contains(fl[k]));
        }
    }
    fl.unique_seq_to_set();
    d.unique_seq_to_set();
    vstd::seq_lib::seq_to_set_is_finite(d);
    vstd::set_lib::lemma_len_subset(fl.to_set(), d.to_set());
}

/// A strictly increasing list of positions below `end` has at most `end` of them.
proof fn lemma_increasing_len(d: Seq<nat>, end: nat)
    requires
        increasing_below(d, end),
    ensures
        d.len() <= end,
        forall|k: int| 0 <= k < d.len() ==> k <= #[trigger] d[k],
{
    assert forall|k: int| 0 <= k < d.len() implies k <= #[trigger] d[k] by {
        lemma_increasing_index(d, end, k);
    }
    if d.len() > 0 {
        assert(d.len() - 1 <= d[d.len() - 1]);
    }
}

proof fn lemma_increasing_index(d: Seq<nat>, end: nat, k: int)
    requires
        increasing_below(d, end),
        0 <= k < d.len(),
    ensures
        k <= d[k],
    decreases k,
{
    if k > 0 {
        lemma_increasing_index(d, end, k - 1);
        assert(d[k - 1] < d[k]);
    }
}

/// All positions handled: the collection is done.
proof fn lemma_gc_finish(
    ts1: Seq<TreeStoreEntry>,
    hs: Seq<nat>,
    m1: Map<u64, TreeIndex>,
    d: Seq<nat>,
    ts: Seq<TreeStoreEntry>,
    m: Map<u64, TreeIndex>,
    keep: Set<nat>,
)
    requires
        gc_progress(ts1, m1, d, ts, m, d.len() + 1),
        ts1.len() < u32::MAX,
        dag_ok(ts1, hs),
        index_ok(ts1, m1),
        forall|p: nat| p < ts1.len() ==> (d.contains(p) <==> !(#[trigger] keep.contains(p))),
        forall|p: nat| #[trigger] keep.contains(p) ==> p < ts1.len() && live_in(ts1, p) && forall|k: int|
            0 <= k < node_of(ts1[p as int]).children().len() ==> keep.contains(
                #[trigger] node_of(ts1[p as int]).children()[k].pos(),
            ),
    ensures
        gc_done(ts1, hs, m1, ts, m, d, keep),
{
    reveal(gc_progress);
    reveal(gc_done);
    assert(d.take(d.len() as int) == d);
    assert(gc_written(d.len() + 1) == d.len());
    assert(gc_dropped(d, d.len() + 1) == d.len());
    assert forall|k: int| 0 <= k < d.len() implies ts[#[trigger] d[k] as int] == free_link(
        if k + 1 < d.len() { d[k + 1] } else { ts1.len() as nat }) by {
        assert(ts[d[k] as int] == free_link(gc_next(d, k, ts1.len() as nat)));
    }
    assert forall|p: nat| p < ts1.len() && !d.contains(p) implies ts[p as int] == ts1[p as int] by {
        assert(!d.take(gc_written(d.len() + 1)).contains(p));
    }
    assert forall|k: u64| #[trigger] m.contains_key(k) <==> m1.contains_key(k) && keep.contains(m1[k].pos()) by {
        if m1.contains_key(k) {
            reveal(index_ok);
            assert(live_in(ts1, m1[k].pos()));
            assert(m1[k].pos() < ts1.len());
        }
    }
}

/// `△ △`
pub open spec fn stem_leaf_term() -> Term {
    Term::Stem(Box::new(Term::Leaf))
}

/// `△ △ △`
pub open spec fn fork_leaf_leaf_term() -> Term {
    Term::Fork(Box::new(Term::Leaf), Box::new(Term::Leaf))
}

/// `△ (△ △ △) △`, which gives back its argument.
pub open spec fn identity_term() -> Term {
    Term::Fork(Box::new(fork_leaf_leaf_term()), Box::new(Term::Leaf))
}

/// The identity gives back every argument, in at most three steps; so `tree_apply` of
/// `IDENTITY()` and a stored tree gives back that tree's own index.
pub proof fn law_identity(x: Term)
    ensures
        halts(identity_term(), x),
        value(identity_term(), x) == x,
        cost(identity_term(), x) <= 3,
{
    match x {
        Term::Leaf => {
            lemma_rule_immediate(identity_term(), x);
        },
        Term::Stem(u) => {
            lemma_rule_match_stem(Term::Leaf, Term::Leaf, Term::Leaf, *u);
            lemma_rule_immediate(Term::Leaf, *u);
        },
        Term::Fork(u, v) => {
            lemma_rule_match_fork(Term::Leaf, Term::Leaf, Term::Leaf, *u, *v);
            lemma_rule_immediate(Term::Leaf, *u);
            lemma_rule_immediate(Term::Stem(u), *v);
        },
    }
}

/// `△ △ (△ (△ △ △) △)`, the bit one.
pub open spec fn bit1_term() -> Term {
    Term::Fork(Box::new(Term::Leaf), Box::new(identity_term()))
}

/// One step of work that waits on the evaluation under way.
#[derive(Debug)]
struct TreeEvalFrame {
    input_to_cache: EvalInput,
    fork_partial: Option<TreeIndex>,
    duplicate_end: Option<TreeIndex>,
}

/// A pair of trees, the first applied to the second.
type EvalInput = (TreeIndex, TreeIndex);

/// The number `n` written as `n` stems over a leaf: `△ (△ (… △))`.
pub open spec fn stem_nat(t: Term) -> Option<nat>
    decreases t,
{
    match t {
        Term::Leaf => Some(0),
        Term::Stem(x) => match stem_nat(*x) {
            Some(n) => Some(n + 1),
            None => None,
        },
        Term::Fork(_, _) => None,
    }
}

/// The number `n` written as `n` forks `△ △ _` over a leaf: `△ △ (△ △ (… △))`.
pub open spec fn fork_nat(t: Term) -> Option<nat>
    decreases t,
{
    match t {
        Term::Leaf => Some(0),
        Term::Fork(l, x) => if *l == Term::Leaf {
            match fork_nat(*x) {
                Some(n) => Some(n + 1),
                None => None,
            }
        } else {
            None
        },
        Term::Stem(_) => None,
    }
}

/// A bit: `△ △` is zero and `△ △ (△ (△ △ △) △)` is one.
pub open spec fn bit_of(t: Term) -> Option<bool> {
    if t == stem_leaf_term() {
        Some(false)
    } else if t == bit1_term() {
        Some(true)
    } else {
        None
    }
}

/// The list `△ x0 (△ x1 (… △))` of the trees `x0, x1, …`.
pub open spec fn list_of(t: Term) -> Option<Seq<Term>>
    decreases t,
{
    match t {
        Term::Leaf => Some(Seq::empty()),
        Term::Fork(x, rest) => match list_of(*rest) {
            Some(xs) => Some(seq![*x] + xs),
            None => None,
        },
        Term::Stem(_) => None,
    }
}

/// The number a list of bits stands for, its first bit weighing `2^i`; at most eight bits
/// count in all.
pub open spec fn byte_bits(t: Term, i: nat) -> Option<nat>
    decreases t,
{
    match t {
        Term::Leaf => Some(0),
        Term::Fork(bit, rest) => if i > 7 {
            None
        } else {
            match (bit_of(*bit), byte_bits(*rest, i + 1)) {
                (Some(b), Some(r)) => Some((if b { pow2(i) } else { 0 }) + r),
                _ => None,
            }
        },
        Term::Stem(_) => None,
    }
}

/// The byte a list of at most eight bits stands for, least significant bit first.
pub open spec fn byte_of(t: Term) -> Option<u8> {
    match byte_bits(t, 0) {
        Some(n) => Some(n as u8),
        None => None,
    }
}

/// The bytes a list of bytes stands for.
pub open spec fn bytes_of(t: Term) -> Option<Seq<u8>> {
    match list_of(t) {
        Some(xs) => if forall|k: int| 0 <= k < xs.len() ==> (#[trigger] byte_of(xs[k])) is Some {
            Some(xs.map_values(|x: Term| byte_of(x)->Some_0))
        } else {
            None
        },
        None => None,
    }
}

/// Where a list of bits has no byte because one of its bits is not a bit, that bit; `None`
/// where the list is malformed in another way first.
pub open spec fn byte_bad_bit(t: Term, i: nat) -> Option<Term>
    decreases t,
{
    match t {
        Term::Fork(bit, rest) => if i > 7 {
            None
        } else if bit_of(*bit) is None {
            Some(*bit)
        } else {
            byte_bad_bit(*rest, i + 1)
        },
        _ => None,
    }
}

/// The number of nodes of a tree, shared subtrees counted each time they occur.
pub open spec fn node_count(t: Term) -> nat
    decreases t,
{
    match t {
        Term::Leaf => 1,
        Term::Stem(x) => 1 + node_count(*x),
        Term::Fork(l, r) => 1 + node_count(*l) + node_count(*r),
    }
}

proof fn lemma_byte_bits_bound(t: Term, i: nat)
    requires
        i <= 8,
        byte_bits(t, i) is Some,
    ensures
        byte_bits(t, i)->Some_0 + pow2(i) <= 256,
    decreases t,
{
    lemma2_to64();
    match t {
        Term::Fork(bit, rest) => {
            lemma_byte_bits_bound(*rest, i + 1);
            vstd::arithmetic::power2::lemma_pow2_unfold(i + 1);
        },
        _ => {},
    }
}

proof fn lemma_set_bit(byte: u8, i: u8)
    requires
        i < 8,
        byte < pow2(i as nat),
    ensures
        (byte | (1u8 << i)) == byte + pow2(i as nat),
        (byte | (0u8 << i)) == byte,
        pow2((i + 1) as nat) == 2 * pow2(i as nat),
{
    lemma2_to64();
    assert(i < 8 ==> {
        &&& (i == 0 ==> (1u8 << i) == 1)
        &&& (i == 1 ==> (1u8 << i) == 2)
        &&& (i == 2 ==> (1u8 << i) == 4)
        &&& (i == 3 ==> (1u8 << i) == 8)
        &&& (i == 4 ==> (1u8 << i) == 16)
        &&& (i == 5 ==> (1u8 << i) == 32)
        &&& (i == 6 ==> (1u8 << i) == 64)
        &&& (i == 7 ==> (1u8 << i) == 128)
    }) by (bit_vector);
    assert(((1u8 << i) as nat) == pow2(i as nat));
    assert((byte < (1u8 << i) && i < 8) ==> (byte | (1u8 << i)) == byte + (1u8 << i)) by (bit_vector);
    assert((byte | (0u8 << i)) == byte) by (bit_vector);
}

/// Evaluations stop when they reach this many steps.
pub const MAX_TREE_APPLY_ITERS: usize = 1_000_000_000;

impl TreeEvalFrame {
    fn just_cache(input_to_cache: EvalInput) -> (r: Self)
        ensures
            r.input_to_cache == input_to_cache,
            r.fork_partial is None,
            r.duplicate_end is None,
    {
        Self { input_to_cache, fork_partial: None, duplicate_end: None }
    }

    fn duplicate_middle_eval(input_to_cache: EvalInput, y: TreeIndex, b: TreeIndex) -> (r: Self)
        ensures
            r.input_to_cache == input_to_cache,
            r.fork_partial == Some(y),
            r.duplicate_end == Some(b),
    {
        TreeEvalFrame { input_to_cache, fork_partial: Some(y), duplicate_end: Some(b) }
    }

    fn duplciate_end_eval(input_to_cache: EvalInput, xb: TreeIndex) -> (r: Self)
        ensures
            r.input_to_cache == input_to_cache,
            r.fork_partial is None,
            r.duplicate_end == Some(xb),
    {
        TreeEvalFrame { input_to_cache, fork_partial: None, duplicate_end: Some(xb) }
    }

    fn fork_partial(input_to_cache: EvalInput, v: TreeIndex) -> (r: Self)
        ensures
            r.input_to_cache == input_to_cache,
            r.fork_partial == Some(v),
            r.duplicate_end is None,
    {
        TreeEvalFrame { input_to_cache, fork_partial: Some(v), duplicate_end: None }
    }
}

/// The key under which the application of `a` to `b` is remembered.
spec fn pair_key(a: TreeIndex, b: TreeIndex) -> nat {
    a.pos() * 0x1_0000_0000 + b.pos()
}

proof fn lemma_pair_key(a: TreeIndex, b: TreeIndex, c: TreeIndex, d: TreeIndex)
    ensures
        pair_key(a, b) <= u64::MAX,
        pair_key(a, b) == pair_key(c, d) ==> a == c && b == d,
{
    TreeIndex::lemma_pos_bound(a);
    TreeIndex::lemma_pos_bound(b);
    TreeIndex::lemma_pos_bound(c);
    TreeIndex::lemma_pos_bound(d);
    assert(a.pos() * 0x1_0000_0000 <= 0xffff_ffff * 0x1_0000_0000) by (nonlinear_arith)
        requires
            a.pos() <= 0xffff_ffff,
    ;
    if pair_key(a, b) == pair_key(c, d) {
        if a.pos() < c.pos() {
            assert(a.pos() * 0x1_0000_0000 + 0x1_0000_0000 <= c.pos() * 0x1_0000_0000) by (nonlinear_arith)
                requires
                    a.pos() < c.pos(),
            ;
        } else if c.pos() < a.pos() {
            assert(c.pos() * 0x1_0000_0000 + 0x1_0000_0000 <= a.pos() * 0x1_0000_0000) by (nonlinear_arith)
                requires
                    c.pos() < a.pos(),
            ;
        }
        TreeIndex::lemma_pos_injective(a, c);
        TreeIndex::lemma_pos_injective(b, d);
    }
}

/// Every remembered application is of stored trees, to a stored result, and is right.
spec fn cache_sound(v: Map<TreeIndex, Term>, c: Map<u64, TreeIndex>) -> bool {
    forall|a: TreeIndex, b: TreeIndex|
        #[trigger] c.contains_key(pair_key(a, b) as u64) ==> {
            &&& v.contains_key(a)
            &&& v.contains_key(b)
            &&& v.contains_key(c[pair_key(a, b) as u64])
            &&& halts(v[a], v[b])
            &&& v[c[pair_key(a, b) as u64]] == value(v[a], v[b])
        }
}

/// The trees a frame refers to are stored.
spec fn frame_stored(v: Map<TreeIndex, Term>, f: TreeEvalFrame) -> bool {
    &&& v.contains_key(f.input_to_cache.0)
    &&& v.contains_key(f.input_to_cache.1)
    &&& (f.fork_partial matches Some(t) ==> v.contains_key(t))
    &&& (f.duplicate_end matches Some(t) ==> v.contains_key(t))
}

spec fn frames_stored(v: Map<TreeIndex, Term>, s: Seq<TreeEvalFrame>) -> bool {
    forall|k: int| 0 <= k < s.len() ==> frame_stored(v, #[trigger] s[k])
}

/// The application a frame remembers, as trees.
spec fn input_halts(v: Map<TreeIndex, Term>, f: TreeEvalFrame) -> bool {
    halts(v[f.input_to_cache.0], v[f.input_to_cache.1])
}

spec fn input_value(v: Map<TreeIndex, Term>, f: TreeEvalFrame) -> Term {
    value(v[f.input_to_cache.0], v[f.input_to_cache.1])
}

/// Given `r` for the evaluation under way, the frames `s` agree with the applications they
/// remember: each remembered application has the value the frames compute for it.
spec fn frames_ok(v: Map<TreeIndex, Term>, s: Seq<TreeEvalFrame>, r: Term) -> bool
    decreases s.len(),
{
    if s.len() == 0 {
        true
    } else {
        let f = s.last();
        let rest = s.drop_last();
        match (f.fork_partial, f.duplicate_end) {
            (None, None) => input_halts(v, f) && input_value(v, f) == r && frames_ok(v, rest, r),
            (Some(w), None) => halts(r, v[w]) ==> {
                let n = value(r, v[w]);
                input_halts(v, f) && input_value(v, f) == n && frames_ok(v, rest, n)
            },
            (Some(y), Some(b)) => (halts(v[y], v[b]) && halts(r, value(v[y], v[b]))) ==> {
                let n = value(r, value(v[y], v[b]));
                input_halts(v, f) && input_value(v, f) == n && frames_ok(v, rest, n)
            },
            (None, Some(xb)) => halts(v[xb], r) ==> {
                let n = value(v[xb], r);
                input_halts(v, f) && input_value(v, f) == n && frames_ok(v, rest, n)
            },
        }
    }
}

/// Given `r` for the evaluation under way, the work in the frames `s` finishes.
spec fn frames_halts(v: Map<TreeIndex, Term>, s: Seq<TreeEvalFrame>, r: Term) -> bool
    decreases s.len(),
{
    if s.len() == 0 {
        true
    } else {
        let f = s.last();
        let rest = s.drop_last();
        match (f.fork_partial, f.duplicate_end) {
            (None, None) => frames_halts(v, rest, r),
            (Some(w), None) => halts(r, v[w]) && frames_halts(v, rest, value(r, v[w])),
            (Some(y), Some(b)) => halts(v[y], v[b]) && halts(r, value(v[y], v[b])) && frames_halts(
                v,
                rest,
                value(r, value(v[y], v[b])),
            ),
            (None, Some(xb)) => halts(v[xb], r) && frames_halts(v, rest, value(v[xb], r)),
        }
    }
}

/// Given `r` for the evaluation under way, what the work in the frames `s` gives.
spec fn frames_value(v: Map<TreeIndex, Term>, s: Seq<TreeEvalFrame>, r: Term) -> Term
    decreases s.len(),
{
    if s.len() == 0 {
        r
    } else {
        let f = s.last();
        let rest = s.drop_last();
        match (f.fork_partial, f.duplicate_end) {
            (None, None) => frames_value(v, rest, r),
            (Some(w), None) => frames_value(v, rest, value(r, v[w])),
            (Some(y), Some(b)) => frames_value(v, rest, value(r, value(v[y], v[b]))),
            (None, Some(xb)) => frames_value(v, rest, value(v[xb], r)),
        }
    }
}

/// Given `r` for the evaluation under way, the reduction steps the frames `s` still take.
spec fn frames_cost(v: Map<TreeIndex, Term>, s: Seq<TreeEvalFrame>, r: Term) -> nat
    decreases s.len(),
{
    if s.len() == 0 {
        0
    } else {
        let f = s.last();
        let rest = s.drop_last();
        match (f.fork_partial, f.duplicate_end) {
            (None, None) => frames_cost(v, rest, r),
            (Some(w), None) => cost(r, v[w]) + frames_cost(v, rest, value(r, v[w])),
            (Some(y), Some(b)) => {
                let yb = value(v[y], v[b]);
                cost(v[y], v[b]) + cost(r, yb) + frames_cost(v, rest, value(r, yb))
            },
            (None, Some(xb)) => cost(v[xb], r) + frames_cost(v, rest, value(v[xb], r)),
        }
    }
}

/// Given `r` for the evaluation under way, the trees that the work in the frames `s` makes.
spec fn frames_made(v: Map<TreeIndex, Term>, s: Seq<TreeEvalFrame>, r: Term) -> Set<Term>
    decreases s.len(),
{
    if s.len() == 0 {
        Set::empty()
    } else {
        let f = s.last();
        let rest = s.drop_last();
        match (f.fork_partial, f.duplicate_end) {
            (None, None) => frames_made(v, rest, r),
            (Some(w), None) => made(r, v[w]) + frames_made(v, rest, value(r, v[w])),
            (Some(y), Some(b)) => {
                let yb = value(v[y], v[b]);
                made(v[y], v[b]) + made(r, yb) + frames_made(v, rest, value(r, yb))
            },
            (None, Some(xb)) => made(v[xb], r) + frames_made(v, rest, value(v[xb], r)),
        }
    }
}

/// The evaluation is at `ta tb` with the frames `s` waiting, after `iters` steps, on its way
/// to evaluate `a0 b0`.
spec fn apply_state_ok(
    v: Map<TreeIndex, Term>,
    s: Seq<TreeEvalFrame>,
    ta: Term,
    tb: Term,
    iters: nat,
    a0: Term,
    b0: Term,
) -> bool {
    &&& frames_stored(v, s)
    &&& halts(ta, tb) ==> frames_ok(v, s, value(ta, tb))
    &&& (halts(ta, tb) && frames_halts(v, s, value(ta, tb))) ==> halts(a0, b0) && frames_value(
        v,
        s,
        value(ta, tb),
    ) == value(a0, b0)
    &&& halts(a0, b0) ==> halts(ta, tb) && frames_halts(v, s, value(ta, tb)) && iters + cost(ta, tb)
        + frames_cost(v, s, value(ta, tb)) <= cost(a0, b0)
    &&& halts(a0, b0) ==> (made(ta, tb) + frames_made(v, s, value(ta, tb))).subset_of(made(a0, b0))
}

/// The evaluation has found `r` for the innermost application and is handing it to the
/// frames `s`, after `iters` steps, on its way to evaluate `a0 b0`.
spec fn unwind_state_ok(
    v: Map<TreeIndex, Term>,
    s: Seq<TreeEvalFrame>,
    r: Term,
    iters: nat,
    a0: Term,
    b0: Term,
) -> bool {
    &&& frames_stored(v, s)
    &&& frames_ok(v, s, r)
    &&& frames_halts(v, s, r) ==> halts(a0, b0) && frames_value(v, s, r) == value(a0, b0)
    &&& halts(a0, b0) ==> frames_halts(v, s, r) && iters + frames_cost(v, s, r) <= cost(a0, b0)
    &&& halts(a0, b0) ==> frames_made(v, s, r).subset_of(made(a0, b0))
}

proof fn lemma_frames_grow(v1: Map<TreeIndex, Term>, v2: Map<TreeIndex, Term>, s: Seq<TreeEvalFrame>, r: Term)
    requires
        frames_stored(v1, s),
        v1 <= v2,
    ensures
        frames_stored(v2, s),
        frames_ok(v2, s, r) == frames_ok(v1, s, r),
        frames_halts(v2, s, r) == frames_halts(v1, s, r),
        frames_value(v2, s, r) == frames_value(v1, s, r),
        frames_cost(v2, s, r) == frames_cost(v1, s, r),
        frames_made(v2, s, r) == frames_made(v1, s, r),
    decreases s.len(),
{
    if s.len() > 0 {
        let f = s.last();
        let rest = s.drop_last();
        assert(frame_stored(v1, s[s.len() - 1]));
        assert(frames_stored(v1, rest)) by {
            assert forall|k: int| 0 <= k < rest.len() implies frame_stored(v1, #[trigger] rest[k]) by {
                assert(rest[k] == s[k]);
            }
        }
        let (ia, ib) = f.input_to_cache;
        assert(v1.contains_key(ia) && v2.contains_key(ia));
        assert(v1.contains_key(ib) && v2.contains_key(ib));
        match f.fork_partial {
            Some(t) => {
                assert(v1.contains_key(t) && v2.contains_key(t));
            },
            None => {},
        }
        match f.duplicate_end {
            Some(t) => {
                assert(v1.contains_key(t) && v2.contains_key(t));
            },
            None => {},
        }
        match (f.fork_partial, f.duplicate_end) {
            (None, None) => {
                lemma_frames_grow(v1, v2, rest, r);
            },
            (Some(w), None) => {
                lemma_frames_grow(v1, v2, rest, value(r, v1[w]));
            },
            (Some(y), Some(b)) => {
                lemma_frames_grow(v1, v2, rest, value(r, value(v1[y], v1[b])));
            },
            (None, Some(xb)) => {
                lemma_frames_grow(v1, v2, rest, value(v1[xb], r));
            },
        }
    }
    assert(frames_stored(v2, s)) by {
        assert forall|k: int| 0 <= k < s.len() implies frame_stored(v2, #[trigger] s[k]) by {
            assert(frame_stored(v1, s[k]));
            let f = s[k];
            assert(v2.contains_key(f.input_to_cache.0));
            assert(v2.contains_key(f.input_to_cache.1));
            match f.fork_partial {
                Some(t) => {
                    assert(v1.contains_key(t) && v2.contains_key(t));
                },
                None => {},
            }
            match f.duplicate_end {
                Some(t) => {
                    assert(v1.contains_key(t) && v2.contains_key(t));
                },
                None => {},
            }
        }
    }
}

proof fn lemma_cache_grow(v1: Map<TreeIndex, Term>, v2: Map<TreeIndex, Term>, c: Map<u64, TreeIndex>)
    requires
        cache_sound(v1, c),
        v1 <= v2,
    ensures
        cache_sound(v2, c),
{
    assert forall|a: TreeIndex, b: TreeIndex| #[trigger] c.contains_key(pair_key(a, b) as u64) implies {
        &&& v2.contains_key(a)
        &&& v2.contains_key(b)
        &&& v2.contains_key(c[pair_key(a, b) as u64])
        &&& halts(v2[a], v2[b])
        &&& v2[c[pair_key(a, b) as u64]] == value(v2[a], v2[b])
    } by {
        let r = c[pair_key(a, b) as u64];
        assert(v1.contains_key(a) && v2.contains_key(a));
        assert(v1.contains_key(b) && v2.contains_key(b));
        assert(v1.contains_key(r) && v2.contains_key(r));
    }
}

/// A frame that remembers `a b`.
spec fn jc_frame(input: EvalInput) -> TreeEvalFrame {
    TreeEvalFrame { input_to_cache: input, fork_partial: None, duplicate_end: None }
}

proof fn lemma_push_unfold(s: Seq<TreeEvalFrame>, f: TreeEvalFrame)
    ensures
        s.push(f).drop_last() == s,
        s.push(f).last() == f,
        s.push(f).len() > 0,
{
    assert(s.push(f).drop_last() =~= s);
}

proof fn lemma_push_stored(v: Map<TreeIndex, Term>, s: Seq<TreeEvalFrame>, f: TreeEvalFrame)
    requires
        frames_stored(v, s),
        frame_stored(v, f),
    ensures
        frames_stored(v, s.push(f)),
{
    assert forall|k: int| 0 <= k < s.push(f).len() implies frame_stored(v, #[trigger] s.push(f)[k]) by {
        if k < s.len() {
            assert(s.push(f)[k] == s[k]);
        }
    }
}

proof fn lemma_pop_stored(v: Map<TreeIndex, Term>, s: Seq<TreeEvalFrame>)
    requires
        frames_stored(v, s),
        s.len() > 0,
    ensures
        frames_stored(v, s.drop_last()),
        frame_stored(v, s.last()),
{
    assert(frame_stored(v, s[s.len() - 1]));
    assert forall|k: int| 0 <= k < s.drop_last().len() implies frame_stored(v, #[trigger] s.drop_last()[k]) by {
        assert(s.drop_last()[k] == s[k]);
    }
}

/// A value found for the application under way is handed to the frames.
proof fn lemma_apply_result(
    v: Map<TreeIndex, Term>,
    s: Seq<TreeEvalFrame>,
    ta: Term,
    tb: Term,
    iters: nat,
    a0: Term,
    b0: Term,
)
    requires
        apply_state_ok(v, s, ta, tb, iters, a0, b0),
        halts(ta, tb),
    ensures
        unwind_state_ok(v, s, value(ta, tb), iters + 1, a0, b0),
{
    crate::calculus::lemma_cost_positive(ta, tb);
}

/// `△ (△ x) y b`: evaluate `x b` first, and remember to evaluate `y b` after it.
proof fn lemma_push_duplicate(
    v: Map<TreeIndex, Term>,
    s: Seq<TreeEvalFrame>,
    a: TreeIndex,
    b: TreeIndex,
    x: TreeIndex,
    y: TreeIndex,
    iters: nat,
    a0: Term,
    b0: Term,
)
    requires
        apply_state_ok(v, s, v[a], v[b], iters, a0, b0),
        v.contains_key(a) && v.contains_key(b) && v.contains_key(x) && v.contains_key(y),
        v[a] == Term::Fork(Box::new(Term::Stem(Box::new(v[x]))), Box::new(v[y])),
    ensures
        apply_state_ok(
            v,
            s.push(TreeEvalFrame { input_to_cache: (a, b), fork_partial: Some(y), duplicate_end: Some(b) }),
            v[x],
            v[b],
            iters + 1,
            a0,
            b0,
        ),
{
    let f = TreeEvalFrame { input_to_cache: (a, b), fork_partial: Some(y), duplicate_end: Some(b) };
    lemma_push_unfold(s, f);
    lemma_push_stored(v, s, f);
    lemma_rule_duplicate(v[x], v[y], v[b]);
    if halts(a0, b0) {
        lemma_made_duplicate(v[x], v[y], v[b]);
        assert(made(v[x], v[b]) + frames_made(v, s.push(f), value(v[x], v[b])) =~= made(v[a], v[b]) + frames_made(
            v,
            s,
            value(v[a], v[b]),
        ));
    }
}

/// `△ (△ w x) y (△ u)`: evaluate `x u`, and remember its value as that of the whole.
proof fn lemma_push_match_stem(
    v: Map<TreeIndex, Term>,
    s: Seq<TreeEvalFrame>,
    a: TreeIndex,
    b: TreeIndex,
    a1: TreeIndex,
    a2: TreeIndex,
    a3: TreeIndex,
    u: TreeIndex,
    iters: nat,
    a0: Term,
    b0: Term,
)
    requires
        apply_state_ok(v, s, v[a], v[b], iters, a0, b0),
        v.contains_key(a) && v.contains_key(b) && v.contains_key(a2) && v.contains_key(u),
        v[a] == Term::Fork(Box::new(Term::Fork(Box::new(v[a1]), Box::new(v[a2]))), Box::new(v[a3])),
        v[b] == Term::Stem(Box::new(v[u])),
    ensures
        apply_state_ok(v, s.push(jc_frame((a, b))), v[a2], v[u], iters + 1, a0, b0),
{
    let f = jc_frame((a, b));
    lemma_push_unfold(s, f);
    lemma_push_stored(v, s, f);
    lemma_rule_match_stem(v[a1], v[a2], v[a3], v[u]);
    if halts(a0, b0) {
        lemma_made_match_stem(v[a1], v[a2], v[a3], v[u]);
        assert(made(v[a2], v[u]) + frames_made(v, s.push(f), value(v[a2], v[u])) =~= made(v[a], v[b]) + frames_made(
            v,
            s,
            value(v[a], v[b]),
        ));
    }
}

/// `△ (△ w x) y (△ u z)`: evaluate `y u`, and remember to apply it to `z`.
proof fn lemma_push_match_fork(
    v: Map<TreeIndex, Term>,
    s: Seq<TreeEvalFrame>,
    a: TreeIndex,
    b: TreeIndex,
    a1: TreeIndex,
    a2: TreeIndex,
    a3: TreeIndex,
    u: TreeIndex,
    w: TreeIndex,
    iters: nat,
    a0: Term,
    b0: Term,
)
    requires
        apply_state_ok(v, s, v[a], v[b], iters, a0, b0),
        v.contains_key(a) && v.contains_key(b) && v.contains_key(a3) && v.contains_key(u)
            && v.contains_key(w),
        v[a] == Term::Fork(Box::new(Term::Fork(Box::new(v[a1]), Box::new(v[a2]))), Box::new(v[a3])),
        v[b] == Term::Fork(Box::new(v[u]), Box::new(v[w])),
    ensures
        apply_state_ok(
            v,
            s.push(TreeEvalFrame { input_to_cache: (a, b), fork_partial: Some(w), duplicate_end: None }),
            v[a3],
            v[u],
            iters + 1,
            a0,
            b0,
        ),
{
    let f = TreeEvalFrame { input_to_cache: (a, b), fork_partial: Some(w), duplicate_end: None };
    lemma_push_unfold(s, f);
    lemma_push_stored(v, s, f);
    lemma_rule_match_fork(v[a1], v[a2], v[a3], v[u], v[w]);
    if halts(a0, b0) {
        lemma_made_match_fork(v[a1], v[a2], v[a3], v[u], v[w]);
        assert(made(v[a3], v[u]) + frames_made(v, s.push(f), value(v[a3], v[u])) =~= made(v[a], v[b]) + frames_made(
            v,
            s,
            value(v[a], v[b]),
        ));
    }
}

/// A frame that only remembers an application takes the value and passes it on.
proof fn lemma_pop_just_cache(
    v: Map<TreeIndex, Term>,
    s: Seq<TreeEvalFrame>,
    r: Term,
    iters: nat,
    a0: Term,
    b0: Term,
)
    requires
        unwind_state_ok(v, s, r, iters, a0, b0),
        s.len() > 0,
        s.last().fork_partial is None,
        s.last().duplicate_end is None,
    ensures
        unwind_state_ok(v, s.drop_last(), r, iters, a0, b0),
        input_halts(v, s.last()),
        input_value(v, s.last()) == r,
        frame_stored(v, s.last()),
{
    lemma_pop_stored(v, s);
}

/// `(a3 u) z`: the value of `a3 u` is in; apply it to `z`.
proof fn lemma_pop_fork_partial(
    v: Map<TreeIndex, Term>,
    s: Seq<TreeEvalFrame>,
    r: Term,
    w: TreeIndex,
    iters: nat,
    a0: Term,
    b0: Term,
)
    requires
        unwind_state_ok(v, s, r, iters, a0, b0),
        s.len() > 0,
        s.last().fork_partial == Some(w),
        s.last().duplicate_end is None,
    ensures
        apply_state_ok(v, s.drop_last().push(jc_frame(s.last().input_to_cache)), r, v[w], iters, a0, b0),
        v.contains_key(w),
{
    lemma_pop_stored(v, s);
    let f = jc_frame(s.last().input_to_cache);
    lemma_push_unfold(s.drop_last(), f);
    lemma_push_stored(v, s.drop_last(), f);
}

/// `x b (y b)`: the value of `x b` is in; evaluate `y b` next.
proof fn lemma_pop_duplicate_middle(
    v: Map<TreeIndex, Term>,
    s: Seq<TreeEvalFrame>,
    r: Term,
    ri: TreeIndex,
    y: TreeIndex,
    b: TreeIndex,
    iters: nat,
    a0: Term,
    b0: Term,
)
    requires
        unwind_state_ok(v, s, r, iters, a0, b0),
        s.len() > 0,
        s.last().fork_partial == Some(y),
        s.last().duplicate_end == Some(b),
        v.contains_key(ri),
        v[ri] == r,
    ensures
        apply_state_ok(
            v,
            s.drop_last().push(TreeEvalFrame { input_to_cache: s.last().input_to_cache, fork_partial: None, duplicate_end: Some(ri) }),
            v[y],
            v[b],
            iters,
            a0,
            b0,
        ),
        v.contains_key(y),
        v.contains_key(b),
{
    lemma_pop_stored(v, s);
    let f = TreeEvalFrame { input_to_cache: s.last().input_to_cache, fork_partial: None, duplicate_end: Some(ri) };
    lemma_push_unfold(s.drop_last(), f);
    lemma_push_stored(v, s.drop_last(), f);
}

/// `x b (y b)`: both values are in; apply the first to the second.
proof fn lemma_pop_duplicate_end(
    v: Map<TreeIndex, Term>,
    s: Seq<TreeEvalFrame>,
    r: Term,
    xb: TreeIndex,
    iters: nat,
    a0: Term,
    b0: Term,
)
    requires
        unwind_state_ok(v, s, r, iters, a0, b0),
        s.len() > 0,
        s.last().fork_partial is None,
        s.last().duplicate_end == Some(xb),
    ensures
        apply_state_ok(v, s.drop_last().push(jc_frame(s.last().input_to_cache)), v[xb], r, iters, a0, b0),
        v.contains_key(xb),
{
    lemma_pop_stored(v, s);
    let f = jc_frame(s.last().input_to_cache);
    lemma_push_unfold(s.drop_last(), f);
    lemma_push_stored(v, s.drop_last(), f);
}

proof fn lemma_unwind_grow(
    v1: Map<TreeIndex, Term>,
    v2: Map<TreeIndex, Term>,
    s: Seq<TreeEvalFrame>,
    r: Term,
    iters: nat,
    a0: Term,
    b0: Term,
)
    requires
        unwind_state_ok(v1, s, r, iters, a0, b0),
        v1 <= v2,
    ensures
        unwind_state_ok(v2, s, r, iters, a0, b0),
{
    lemma_frames_grow(v1, v2, s, r);
}

/// The key under which the application `input` is remembered.
fn eval_input_key(input: EvalInput) -> (r: u64)
    ensures
        r == pair_key(input.0, input.1),
{
    proof {
        lemma_pair_key(input.0, input.1, input.0, input.1);
    }
    (input.0.get() as u64) * 0x1_0000_0000 + (input.1.get() as u64)
}

/// The number of bits in a word of a bitmap.
spec fn word_bits() -> nat {
    usize::BITS as nat
}

/// The bit for position `i` in a bitmap of words: bit `i % W` of word `i / W`.
pub closed spec fn bit_at(words: Seq<usize>, i: nat) -> bool {
    words[(i / word_bits()) as int] & (1usize << ((i % word_bits()) as usize)) != 0
}

/// The bitmap has a word for position `i`.
pub closed spec fn bit_in_range(words: Seq<usize>, i: nat) -> bool {
    i / word_bits() < words.len()
}

fn bitmap_get_alive(alive_bitmap: &[usize], idx: usize) -> (r: bool)
    requires
        bit_in_range(alive_bitmap@, idx as nat),
    ensures
        r == bit_at(alive_bitmap@, idx as nat),
{
    let field = idx / (usize::BITS as usize);
    let offset = idx % (usize::BITS as usize);
    (alive_bitmap[field] & (1 << offset)) != 0
}

proof fn lemma_word_bits()
    ensures
        word_bits() == 32 || word_bits() == 64,
{
}

fn set_alive(alive_bitmap: &mut Vec<usize>, idx: usize)
    requires
        bit_in_range(old(alive_bitmap)@, idx as nat),
    ensures
        final(alive_bitmap)@.len() == old(alive_bitmap)@.len(),
        bit_at(final(alive_bitmap)@, idx as nat),
        forall|j: nat| j != idx && bit_in_range(old(alive_bitmap)@, j) ==> #[trigger] bit_at(final(alive_bitmap)@, j)
            == bit_at(old(alive_bitmap)@, j),
{
    let field = idx / (usize::BITS as usize);
    let offset = idx % (usize::BITS as usize);
    let w = alive_bitmap[field];
    alive_bitmap.set(field, w | (1 << offset));
    proof {
        lemma_word_bits();
        assert((w | (1usize << offset)) & (1usize << offset) != 0) by (bit_vector)
            requires
                offset < usize::BITS,
        ;
        assert forall|j: nat| j != idx && bit_in_range(old(alive_bitmap)@, j) implies #[trigger] bit_at(alive_bitmap@, j)
            == bit_at(old(alive_bitmap)@, j) by {
            let f2 = j / word_bits();
            let o2 = (j % word_bits()) as usize;
            if f2 == field {
                vstd::arithmetic::div_mod::lemma_fundamental_div_mod(j as int, word_bits() as int);
                vstd::arithmetic::div_mod::lemma_fundamental_div_mod(idx as int, word_bits() as int);
                assert(o2 != offset);
                assert(((w | (1usize << offset)) & (1usize << o2) != 0) == (w & (1usize << o2) != 0)) by (bit_vector)
                    requires
                        offset < usize::BITS,
                        o2 < usize::BITS,
                        o2 != offset,
                ;
            }
        }
    }
}

/// The positions in `[i, end)` whose bit is clear, in increasing order.
pub closed spec fn clear_bits(words: Seq<usize>, i: nat, end: nat) -> Seq<nat>
    decreases end - i,
{
    if i >= end {
        Seq::empty()
    } else if bit_at(words, i) {
        clear_bits(words, i + 1, end)
    } else {
        seq![i] + clear_bits(words, i + 1, end)
    }
}

/// The positions of the slots that `get_dead` found unreachable, in increasing order, that
/// are still to come.
#[derive(Debug)]
pub struct DeadTreesIter {
    alive_bitmap: Vec<usize>,
    next_idx: usize,
    end_idx: usize,
}

impl DeadTreesIter {
    /// The positions still to come.
    pub closed spec fn remaining(&self) -> Seq<nat> {
        clear_bits(self.alive_bitmap@, self.next_idx as nat, self.end_idx as nat)
    }

    pub closed spec fn wf(&self) -> bool {
        &&& self.end_idx <= u32::MAX
        &&& self.next_idx <= self.end_idx
        &&& forall|i: nat| i < self.end_idx ==> #[trigger] bit_in_range(self.alive_bitmap@, i)
    }

    /// The next position whose slot is unreachable.
    pub fn next(&mut self) -> (r: Option<usize>)
        requires
            old(self).wf(),
        ensures
            final(self).wf(),
            r is None <==> old(self).remaining().len() == 0,
            r matches Some(x) ==> x as nat == old(self).remaining()[0],
            final(self).remaining() == (if old(self).remaining().len() == 0 {
                old(self).remaining()
            } else {
                old(self).remaining().drop_first()
            }),
    {
        while self.next_idx < self.end_idx
            invariant
                self.wf(),
                self.alive_bitmap == old(self).alive_bitmap,
                self.end_idx == old(self).end_idx,
                self.remaining() == old(self).remaining(),
            decreases self.end_idx - self.next_idx,
        {
            let idx = self.next_idx;
            self.next_idx += 1;
            if !bitmap_get_alive(&self.alive_bitmap, idx) {
                proof {
                    assert(old(self).remaining() == seq![idx as nat] + self.remaining());
                    assert(old(self).remaining().drop_first() =~= self.remaining());
                }
                return Some(idx);
            }
        }
        return None;
    }
}

/// A node read together with the store that holds its children, for writing it out.
pub struct TreeRef<'trees> {
    trees: &'trees Trees,
    tree: Tree,
}

impl<'trees> TreeRef<'trees> {
    /// The store the node's children are read from.
    pub closed spec fn store(&self) -> Trees {
        *self.trees
    }

    /// The node.
    pub closed spec fn node(&self) -> Tree {
        self.tree
    }

    /// The text of the node's tree: `△` followed by its children, a leaf child as ` △` and
    /// any other child in brackets.
    pub fn to_string(&self) -> (r: String)
        requires
            self.store().consistent(),
            self.store().holds(self.node()),
        ensures
            r@ == crate::calculus::show(self.store().node_term(self.node())),
    {
        node_text(self.trees, self.tree)
    }
}

/// The text of the tree that the node `tree` stands for in `trees`.
fn node_text(trees: &Trees, tree: Tree) -> (r: String)
    requires
        trees.consistent(),
        trees.holds(tree),
    ensures
        r@ == crate::calculus::show(trees.node_term(tree)),
    decreases trees.node_term(tree), 0nat,
{
    let mut s = String::from_str("△");
    match tree {
        Tree::Leaf => {},
        Tree::Stem(a) => {
            assert(tree.children()[0] == a);
            proof {
                let t = trees.node_term(tree);
                assert(t == Term::Stem(Box::new(trees@[a])));
                assert(*t->Stem_0 == trees@[a]);
                assert(decreases_to!(t => t->Stem_0));
            }
            let ca = child_text(trees, a);
            s.append(ca.as_str());
        },
        Tree::Fork(a, b) => {
            assert(tree.children()[0] == a && tree.children()[1] == b);
            proof {
                let t = trees.node_term(tree);
                assert(t == Term::Fork(Box::new(trees@[a]), Box::new(trees@[b])));
                assert(*t->Fork_0 == trees@[a]);
                assert(*t->Fork_1 == trees@[b]);
                assert(decreases_to!(t => t->Fork_0));
                assert(decreases_to!(t => t->Fork_1));
            }
            let ca = child_text(trees, a);
            s.append(ca.as_str());
            let cb = child_text(trees, b);
            s.append(cb.as_str());
        },
    }
    s
}

/// The text of the stored tree `c` written as a child: ` △` for a leaf, otherwise its text
/// in brackets.
fn child_text(trees: &Trees, c: TreeIndex) -> (r: String)
    requires
        trees.consistent(),
        trees@.contains_key(c),
    ensures
        r@ == crate::calculus::show_child(trees@[c]),
    decreases trees@[c], 1nat,
{
    let n = trees.index(c);
    proof {
        crate::calculus::lemma_show_child(trees@[c]);
    }
    match n {
        Tree::Leaf => String::from_str(" △"),
        _ => {
            let inner = node_text(trees, n);
            let mut s = String::from_str(" (");
            s.append(inner.as_str());
            s.append(")");
            s
        },
    }
}

/// The counts of a collection check.
pub struct GarbageReport {
    /// Slots not reachable from the trees in use.
    pub unused: usize,
    /// Unreachable slots that are not free yet.
    pub uncollected: usize,
    /// All slots, stored trees and free slots together.
    pub total_trees: usize,
    /// Slots allocated.
    pub capacity: usize,
}

/// The sizes of a store's parts.
pub struct UsageReport {
    /// Slots allocated.
    pub trees_capacity: usize,
    /// Slots in use, stored trees and free slots together.
    pub trees_len: usize,
    /// Free slots.
    pub total_free: usize,
    /// Entries of the index table.
    pub indexed_trees_len: usize,
    /// Room of the table of remembered applications.
    pub cache_capacity: usize,
    /// Room of the stack of evaluation frames.
    pub eval_stack_capacity: usize,
}

/// A store of trees, each kept once: a tree is stored at one slot at most, and nodes refer to
/// their children by index.
pub struct Trees {
    indexed_trees: HashMap<u64, TreeIndex, RandomState>,
    cached_applications: HashMap<u64, TreeIndex, RandomState>,
    trees: Vec<TreeStoreEntry>,
    next_free: usize,
    total_free: usize,
    eval_stack: Vec<TreeEvalFrame>,
    iters: usize,
    heights: Ghost<Seq<nat>>,
    free_list: Ghost<Seq<nat>>,
}

impl View for Trees {
    type V = Map<TreeIndex, Term>;

    /// Each index that names a stored tree, mapped to that tree.
    closed spec fn view(&self) -> Map<TreeIndex, Term> {
        Map::new(
            |t: TreeIndex| live_in(self.trees@, t.pos()),
            |t: TreeIndex| term_at(self.trees@, self.heights@, t.pos()),
        )
    }
}

impl Trees {
    /// The index of `△`.
    #[allow(non_snake_case)]
    #[verifier::allow_in_spec]
    pub fn LEAF() -> TreeIndex
        returns
            index_at(0),
    {
        TreeIndex { idx: 0 }
    }

    /// The index of `△ △`.
    #[allow(non_snake_case)]
    #[verifier::allow_in_spec]
    pub fn STEM_LEAF() -> TreeIndex
        returns
            index_at(1),
    {
        TreeIndex { idx: 1 }
    }

    /// The index of `△ △ △`.
    #[allow(non_snake_case)]
    #[verifier::allow_in_spec]
    pub fn FORK_LEAF_LEAF() -> TreeIndex
        returns
            index_at(2),
    {
        TreeIndex { idx: 2 }
    }

    /// The index of `△ (△ △ △) △`, which gives back its argument.
    #[allow(non_snake_case)]
    #[verifier::allow_in_spec]
    pub fn IDENTITY() -> TreeIndex
        returns
            index_at(3),
    {
        TreeIndex { idx: 3 }
    }

    /// The index of `△ △ (△ (△ △ △) △)`, the bit one.
    #[allow(non_snake_case)]
    #[verifier::allow_in_spec]
    pub fn BIT1() -> TreeIndex
        returns
            index_at(4),
    {
        TreeIndex { idx: 4 }
    }

    pub const CONSTANT_TREES: usize = 5;
    pub const MAX_TREE_IDX_TO_BE_CACHED: usize = 50_000;

    /// The store's own bookkeeping is consistent: nodes refer to stored trees lower than
    /// themselves, the free list links exactly the free slots, and the index table maps each
    /// stored node to its slot.
    pub closed spec fn consistent(&self) -> bool {
        &&& self.trees.len() < u32::MAX
        &&& self.heights@.len() == self.trees.len()
        &&& dag_ok(self.trees@, self.heights@)
        &&& free_list_ok(self.trees@, self.free_list@, self.next_free as nat, self.total_free as nat)
        &&& index_ok(self.trees@, self.indexed_trees@)
    }

    /// The store is consistent and holds the five trees it starts with at their indices.
    pub closed spec fn well_formed(&self) -> bool {
        &&& self.consistent()
        &&& constants_ok(self.trees@)
    }

    /// The table of applications remembered during an evaluation.
    pub closed spec fn cache(&self) -> Map<u64, TreeIndex> {
        self.cached_applications@
    }

    /// The store between evaluations: well formed, and no application remembered.
    pub open spec fn at_rest(&self) -> bool {
        &&& self.well_formed()
        &&& self.cache().dom().is_empty()
    }

    /// The evaluation under way, if any, is as in `other`: its frames, its step count and its
    /// remembered applications.
    pub closed spec fn evaluation_unchanged(&self, other: Trees) -> bool {
        &&& self.eval_stack@ == other.eval_stack@
        &&& self.iters == other.iters
        &&& self.cached_applications@ == other.cached_applications@
    }

    /// The number of slots, stored trees and free slots together.
    pub closed spec fn spec_len(&self) -> nat {
        self.trees.len() as nat
    }

    /// The number of free slots.
    pub closed spec fn spec_total_free(&self) -> nat {
        self.total_free as nat
    }

    /// The free slots, in the order in which new trees take them.
    pub closed spec fn free_slots(&self) -> Seq<nat> {
        self.free_list@
    }

    /// The position a new tree takes: the first free slot, or the end where none is free.
    pub open spec fn next_slot(&self) -> nat {
        if self.free_slots().len() == 0 {
            self.spec_len()
        } else {
            self.free_slots()[0]
        }
    }

    /// The positions that `k` trees stored one after another take, starting from this store:
    /// the free slots in order, then the positions past the end.
    pub open spec fn taken(&self, k: nat) -> Seq<nat> {
        Seq::new(
            k,
            |i: int|
                if i < self.free_slots().len() {
                    self.free_slots()[i]
                } else {
                    (self.spec_len() + (i - self.free_slots().len())) as nat
                },
        )
    }

    /// `later` is this store with `k` more trees stored: the stored trees are kept, the new ones
    /// sit at the positions `taken(k)`, and the free slots and the length moved on by `k`.
    pub open spec fn grown_to(&self, later: Trees, k: nat) -> bool {
        let n = self.free_slots().len();
        &&& self@ <= later@
        &&& later.free_slots() == (if k <= n {
            self.free_slots().skip(k as int)
        } else {
            Seq::<nat>::empty()
        })
        &&& later.spec_len() == (if k <= n {
            self.spec_len()
        } else {
            (self.spec_len() + (k - n)) as nat
        })
        &&& forall|t: TreeIndex| #[trigger] later@.contains_key(t) && !self@.contains_key(t) ==> self.taken(k).contains(t.pos())
        &&& forall|i: int|
            #![trigger self.taken(k)[i]]
            0 <= i < k ==> later@.contains_key(index_at(self.taken(k)[i])) && !self@.contains_key(
                index_at(self.taken(k)[i]),
            )
    }

    /// A store has grown from itself by no tree.
    proof fn lemma_grown_refl(&self)
        ensures
            self.grown_to(*self, 0),
    {
        assert(self.free_slots().skip(0) =~= self.free_slots());
    }

    /// Storing one tree at `mid.next_slot()`, or none, moves the growth on by one, or by none.
    proof fn lemma_grown_step(&self, mid: Trees, later: Trees, k: nat, r: TreeIndex)
        requires
            self.grown_to(mid, k),
            mid.consistent(),
            later@.contains_key(r),
            later@.dom() == mid@.dom().insert(r),
            mid@ <= later@,
            mid@.contains_key(r) ==> later.spec_len() == mid.spec_len(),
            !mid@.contains_key(r) ==> r.pos() == mid.next_slot(),
            !mid@.contains_key(r) ==> later.spec_len() == (if mid.free_slots().len() == 0 {
                mid.spec_len() + 1
            } else {
                mid.spec_len()
            }),
            later.free_slots() == (if mid@.contains_key(r) || mid.free_slots().len() == 0 {
                mid.free_slots()
            } else {
                mid.free_slots().drop_first()
            }),
        ensures
            self.grown_to(later, if mid@.contains_key(r) { k } else { k + 1 }),
    {
        vstd::map_lib::lemma_submap_of_trans(self@, mid@, later@);
        if !mid@.contains_key(r) {
            let n = self.free_slots().len();
            let t1 = self.taken(k);
            let t2 = self.taken(k + 1);
            assert forall|i: int| 0 <= i < k implies t2[i] == t1[i] by {}
            if k < n {
                assert(mid.free_slots()[0] == self.free_slots()[k as int]);
                assert(mid.free_slots().drop_first() =~= self.free_slots().skip(k + 1 as int));
            } else {
                assert(mid.free_slots().len() == 0);
            }
            assert(r.pos() == t2[k as int]);
            assert(later.free_slots() == (if k + 1 <= n { self.free_slots().skip(k + 1 as int) } else { Seq::<nat>::empty() }));
            assert(later.spec_len() == (if k + 1 <= n { self.spec_len() } else { (self.spec_len() + (k + 1 - n)) as nat }));
            assert forall|i: int| #![trigger t2[i]] 0 <= i < k + 1 implies later@.contains_key(index_at(t2[i]))
                && !self@.contains_key(index_at(t2[i])) by {
                if i < k {
                    assert(t1[i] == t2[i]);
                    assert(mid@.dom().contains(index_at(t1[i])) && later@.dom().contains(index_at(t1[i])));
                } else {
                    TreeIndex::lemma_pos_bound(r);
                    lemma_index_at(r.pos());
                    TreeIndex::lemma_pos_injective(r, index_at(r.pos()));
                    assert(index_at(t2[i]) == r);
                }
            }
            assert forall|t: TreeIndex| #[trigger] later@.contains_key(t) && !self@.contains_key(t) implies t2.contains(t.pos()) by {
                if t == r {
                    assert(t2[k as int] == t.pos());
                } else {
                    assert(mid@.contains_key(t));
                    let i = choose|i: int| 0 <= i < t1.len() && t1[i] == t.pos();
                    assert(t2[i] == t.pos());
                }
            }
        } else {
            assert(later@.dom() =~= mid@.dom());
            assert(later@ =~= mid@);
            let t1 = self.taken(k);
            assert forall|i: int| #![trigger t1[i]] 0 <= i < k implies later@.contains_key(index_at(t1[i]))
                && !self@.contains_key(index_at(t1[i])) by {
                assert(mid@.dom().contains(index_at(t1[i])));
            }
        }
    }

    /// There are as many free slots as `spec_total_free` counts.
    pub proof fn lemma_free_slots(&self)
        requires
            self.consistent(),
        ensures
            self.free_slots().len() == self.spec_total_free(),
            self.free_slots().no_duplicates(),
            forall|i: int| 0 <= i < self.free_slots().len() ==> #[trigger] self.free_slots()[i] < self.spec_len(),
    {
        reveal(free_list_ok);
    }

    /// Where the only tree that a growth from `self` to `later` may have made new is the one
    /// at `i`, and that tree is new, it sits at `self.next_slot()`.
    proof fn lemma_single_new(&self, later: Trees, k: nat, i: TreeIndex, made_trees: Set<Term>)
        requires
            self.consistent(),
            later.consistent(),
            self.grown_to(later, k),
            later@.contains_key(i),
            !self.stores(later@[i]),
            forall|t: TreeIndex| #[trigger] later@.contains_key(t) && !self@.contains_key(t) ==> made_trees.contains(
                later@[t],
            ),
            forall|u: Term| #[trigger] made_trees.contains(u) && u != later@[i] ==> self.stores(u),
        ensures
            i.pos() == self.next_slot(),
    {
        self.lemma_free_slots();
        let tk = self.taken(k);
        assert(!self@.contains_key(i));
        assert forall|t: TreeIndex| #[trigger] later@.contains_key(t) && !self@.contains_key(t) implies t == i by {
            if later@[t] != later@[i] {
                assert(made_trees.contains(later@[t]));
                let t2 = choose|t2: TreeIndex| #[trigger] self@.contains_key(t2) && self@[t2] == later@[t];
                assert(self@.dom().contains(t2) && later@.dom().contains(t2));
                later.lemma_unique(t, t2);
            } else {
                later.lemma_unique(t, i);
            }
        }
        assert(tk.contains(i.pos()));
        let n = self.free_slots().len();
        if k >= 2 {
            let e0 = index_at(tk[0]);
            let e1 = index_at(tk[1]);
            assert(later@.contains_key(e0) && !self@.contains_key(e0));
            assert(later@.contains_key(e1) && !self@.contains_key(e1));
            assert(e0 == i && e1 == i);
            TreeIndex::lemma_pos_bound(e0);
            TreeIndex::lemma_pos_bound(e1);
            assert(later.spec_len() < u32::MAX);
            assert(tk[0] < later.spec_len() && tk[1] < later.spec_len());
            lemma_index_at(tk[0]);
            lemma_index_at(tk[1]);
            if n >= 2 {
                assert(self.free_slots()[0] != self.free_slots()[1]);
            }
            assert(tk[0] != tk[1]);
        }
        assert(k == 1);
        assert(tk[0] == i.pos());
    }

    /// The node stored at index `t`.
    pub closed spec fn node(&self, t: TreeIndex) -> Tree {
        node_of(self.trees@[t.pos() as int])
    }

    /// How many more trees can be stored: the free slots and the positions still unused.
    pub open spec fn room(&self) -> int {
        self.spec_total_free() + (u32::MAX - 1) - self.spec_len()
    }

    /// Another tree can be stored.
    pub open spec fn has_room(&self) -> bool {
        self.room() >= 1
    }

    /// Some stored tree is `term`.
    pub open spec fn stores(&self, term: Term) -> bool {
        exists|t: TreeIndex| #[trigger] self@.contains_key(t) && self@[t] == term
    }

    /// The tree that `f` stands for, its parts read from the store.
    pub open spec fn func_term(&self, f: TreeFunc) -> Term {
        match f {
            TreeFunc::Leaf => Term::Leaf,
            TreeFunc::Stem(i) => Term::Stem(Box::new(self@[i])),
            TreeFunc::IgnoreThen(t) => Term::Fork(Box::new(Term::Leaf), Box::new(self@[t])),
            TreeFunc::DoubleChain(x, y) => Term::Fork(
                Box::new(Term::Stem(Box::new(self@[x]))),
                Box::new(self@[y]),
            ),
            TreeFunc::Match(x, y, z) => Term::Fork(
                Box::new(Term::Fork(Box::new(self@[x]), Box::new(self@[y]))),
                Box::new(self@[z]),
            ),
        }
    }

    /// The parts of `f` are stored trees.
    pub open spec fn holds_func(&self, f: TreeFunc) -> bool {
        match f {
            TreeFunc::Leaf => true,
            TreeFunc::Stem(i) => self@.contains_key(i),
            TreeFunc::IgnoreThen(t) => self@.contains_key(t),
            TreeFunc::DoubleChain(x, y) => self@.contains_key(x) && self@.contains_key(y),
            TreeFunc::Match(x, y, z) => self@.contains_key(x) && self@.contains_key(y)
                && self@.contains_key(z),
        }
    }

    /// The stored tree `t` read as a function.
    pub open spec fn func(&self, t: TreeIndex) -> TreeFunc {
        match self.node(t) {
            Tree::Leaf => TreeFunc::Leaf,
            Tree::Stem(i) => TreeFunc::Stem(i),
            Tree::Fork(l, r) => match self.node(l) {
                Tree::Leaf => TreeFunc::IgnoreThen(r),
                Tree::Stem(x) => TreeFunc::DoubleChain(x, r),
                Tree::Fork(x, y) => TreeFunc::Match(x, y, r),
            },
        }
    }

    /// The children of `n` are stored trees.
    pub open spec fn holds(&self, n: Tree) -> bool {
        forall|k: int| 0 <= k < n.children().len() ==> self@.contains_key(#[trigger] n.children()[k])
    }

    /// The tree that the node `n` stands for, its children read from the store.
    pub open spec fn node_term(&self, n: Tree) -> Term {
        match n {
            Tree::Leaf => Term::Leaf,
            Tree::Stem(c) => Term::Stem(Box::new(self@[c])),
            Tree::Fork(l, r) => Term::Fork(Box::new(self@[l]), Box::new(self@[r])),
        }
    }

    /// The store holds the five trees it starts with at their indices.
    pub open spec fn constants_stored(&self) -> bool {
        &&& self@.contains_key(Trees::LEAF()) && self@[Trees::LEAF()] == Term::Leaf
        &&& self@.contains_key(Trees::STEM_LEAF()) && self@[Trees::STEM_LEAF()] == stem_leaf_term()
        &&& self@.contains_key(Trees::FORK_LEAF_LEAF()) && self@[Trees::FORK_LEAF_LEAF()]
            == fork_leaf_leaf_term()
        &&& self@.contains_key(Trees::IDENTITY()) && self@[Trees::IDENTITY()] == identity_term()
        &&& self@.contains_key(Trees::BIT1()) && self@[Trees::BIT1()] == bit1_term()
    }

    /// A well-formed store holds the five trees it starts with at their indices.
    pub proof fn lemma_constants(&self)
        requires
            self.well_formed(),
        ensures
            self.constants_stored(),
            self.node(Trees::LEAF()) == Tree::Leaf,
            self.node(Trees::STEM_LEAF()) == Tree::Stem(Trees::LEAF()),
            self.node(Trees::FORK_LEAF_LEAF()) == Tree::Fork(Trees::LEAF(), Trees::LEAF()),
            self.node(Trees::IDENTITY()) == Tree::Fork(Trees::FORK_LEAF_LEAF(), Trees::LEAF()),
            self.node(Trees::BIT1()) == Tree::Fork(Trees::LEAF(), Trees::IDENTITY()),
    {
        lemma_index_at(0);
        lemma_index_at(1);
        lemma_index_at(2);
        lemma_index_at(3);
        lemma_index_at(4);
        assert(self@.contains_key(Trees::LEAF()));
        assert(self@.contains_key(Trees::STEM_LEAF()));
        assert(self@.contains_key(Trees::FORK_LEAF_LEAF()));
        assert(self@.contains_key(Trees::IDENTITY()));
        assert(self@.contains_key(Trees::BIT1()));
        self.lemma_node(Trees::LEAF());
        self.lemma_node(Trees::STEM_LEAF());
        self.lemma_node(Trees::FORK_LEAF_LEAF());
        self.lemma_node(Trees::IDENTITY());
        self.lemma_node(Trees::BIT1());
    }

    /// A well-formed store is consistent.
    pub proof fn lemma_consistent(&self)
        requires
            self.well_formed(),
        ensures
            self.consistent(),
    {
    }

    /// A tree is stored at one index at most.
    pub proof fn lemma_unique(&self, a: TreeIndex, b: TreeIndex)
        requires
            self.consistent(),
            self@.contains_key(a),
            self@.contains_key(b),
            self@[a] == self@[b],
        ensures
            a == b,
    {
        lemma_unique_slots(self.trees@, self.heights@, self.indexed_trees@, a.pos(), b.pos());
        TreeIndex::lemma_pos_injective(a, b);
    }

    /// A stored tree is its node, with the children's trees read from the store.
    pub proof fn lemma_node(&self, t: TreeIndex)
        requires
            self.consistent(),
            self@.contains_key(t),
        ensures
            self.holds(self.node(t)),
            self@[t] == self.node_term(self.node(t)),
    {
        reveal(dag_ok);
        let ts = self.trees@;
        let hs = self.heights@;
        assert(live_in(ts, t.pos()));
        assert(children_lower(ts, hs, t.pos()));
        lemma_term_unfold(ts, hs, t.pos());
        match self.node(t) {
            Tree::Leaf => {},
            Tree::Stem(c) => {
                assert(self@.contains_key(c));
            },
            Tree::Fork(l, r) => {
                assert(self@.contains_key(l));
                assert(self@.contains_key(r));
            },
        }
    }

    /// The height a new slot holding `n` gets: one more than its highest child.
    spec fn height_for(&self, n: Tree) -> nat {
        match n {
            Tree::Leaf => 0,
            Tree::Stem(c) => self.heights@[c.pos() as int] + 1,
            Tree::Fork(l, r) => {
                let hl = self.heights@[l.pos() as int];
                let hr = self.heights@[r.pos() as int];
                if hl >= hr {
                    hl + 1
                } else {
                    hr + 1
                }
            },
        }
    }

    /// A node whose tree is stored is itself stored.
    proof fn lemma_node_stored(&self, tree: Tree, t: TreeIndex)
        requires
            self.consistent(),
            self.holds(tree),
            self@.contains_key(t),
            self@[t] == self.node_term(tree),
        ensures
            self.indexed_trees@.contains_key(entry_key(entry_of(tree)) as u64),
            self.node(t) == tree,
    {
        self.lemma_node(t);
        let n = self.node(t);
        match (n, tree) {
            (Tree::Stem(a), Tree::Stem(b)) => {
                assert(n.children()[0] == a);
                assert(tree.children()[0] == b);
                self.lemma_unique(a, b);
            },
            (Tree::Fork(a, c), Tree::Fork(b, d)) => {
                assert(n.children()[0] == a);
                assert(n.children()[1] == c);
                assert(tree.children()[0] == b);
                assert(tree.children()[1] == d);
                self.lemma_unique(a, b);
                self.lemma_unique(c, d);
            },
            _ => {},
        }
        assert(n == tree);
        reveal(index_ok);
        assert(live_in(self.trees@, t.pos()));
        lemma_entry_of(self.trees@[t.pos() as int]);
    }

    /// Stores the node `tree`, unless the same tree is stored already, and gives its index.
    pub fn insert(&mut self, tree: Tree) -> (r: TreeIndex)
        requires
            old(self).consistent(),
            old(self).holds(tree),
            old(self).has_room() || old(self).stores(old(self).node_term(tree)),
        ensures
            final(self).consistent(),
            final(self)@.contains_key(r),
            final(self)@[r] == old(self).node_term(tree),
            final(self).node(r) == tree,
            final(self)@.dom() == old(self)@.dom().insert(r),
            old(self)@ <= final(self)@,
            forall|t: TreeIndex| #[trigger] old(self)@.contains_key(t) ==> final(self).node(t) == old(self).node(t),
            forall|t: TreeIndex| #[trigger] old(self)@.contains_key(t) && old(self)@[t] == old(self).node_term(tree) ==> r == t,
            old(self)@.contains_key(r) ==> final(self)@ == old(self)@ && final(self).room() == old(self).room()
                && final(self).spec_len() == old(self).spec_len(),
            !old(self)@.contains_key(r) ==> final(self).room() == old(self).room() - 1,
            !old(self)@.contains_key(r) && old(self).spec_total_free() == 0 ==> r.pos() == old(self).spec_len(),
            !old(self)@.contains_key(r) ==> r.pos() == old(self).next_slot(),
            !old(self)@.contains_key(r) ==> final(self).spec_len() == (if old(self).free_slots().len() == 0 {
                old(self).spec_len() + 1
            } else {
                old(self).spec_len()
            }),
            old(self)@.contains_key(r) ==> final(self).spec_total_free() == old(self).spec_total_free(),
            final(self).free_slots() == (if old(self)@.contains_key(r) || old(self).free_slots().len() == 0 {
                old(self).free_slots()
            } else {
                old(self).free_slots().drop_first()
            }),
            final(self).spec_len() <= old(self).spec_len() + 1,
            final(self).cache() == old(self).cache(),
            final(self).evaluation_unchanged(*old(self)),
            old(self).well_formed() ==> final(self).well_formed(),
    {
        let entry = TreeStoreEntry::from(tree);
        assert(entry_in_range(entry)) by {
            match tree {
                Tree::Leaf => {},
                Tree::Stem(c) => {
                    assert(tree.children()[0] == c);
                },
                Tree::Fork(l, r) => {
                    assert(tree.children()[0] == l);
                    assert(tree.children()[1] == r);
                },
            }
        }
        match table_get(&self.indexed_trees, entry.key()) {
            Some(idx) => {
                proof {
                    reveal(index_ok);
                    let k = entry_key(entry) as u64;
                    lemma_entry_key_bound(entry);
                    let e2 = self.trees@[idx.pos() as int];
                    assert(entry_in_range(e2)) by {
                        reveal(dag_ok);
                        assert(children_lower(self.trees@, self.heights@, idx.pos()));
                    }
                    lemma_entry_key_injective(e2, entry);
                    assert(self@.contains_key(idx));
                    self.lemma_node(idx);
                    assert forall|t: TreeIndex| #[trigger] self@.contains_key(t) && self@[t] == self.node_term(tree) implies idx == t by {
                        self.lemma_unique(idx, t);
                    }
                }
                idx
            },
            None => {
                proof {
                    if old(self).stores(old(self).node_term(tree)) {
                        let t = choose|t: TreeIndex| #[trigger] self@.contains_key(t) && self@[t] == self.node_term(tree);
                        self.lemma_node_stored(tree, t);
                    }
                    self.lemma_free_slots();
                }
                self.push_and_index(tree)
            },
        }
    }

    /// An empty store with the five trees it always holds: `△`, `△ △`, `△ △ △`, the identity
    /// `△ (△ △ △) △` and the bit one `△ △ (△ (△ △ △) △)`.
    pub fn new(tree_capacity: usize, application_cache_size: usize) -> (trees: Self)
        ensures
            trees.at_rest(),
            trees.constants_stored(),
            trees.spec_len() == Trees::CONSTANT_TREES,
            trees.spec_total_free() == 0,
            trees.free_slots() == Seq::<nat>::empty(),
            forall|t: TreeIndex| trees@.contains_key(t) <==> t.pos() < Trees::CONSTANT_TREES,
    {
        let mut trees = Self {
            indexed_trees: table_with_capacity_and_hasher(tree_capacity, new_random_state()),
            cached_applications: table_with_capacity_and_hasher(
                application_cache_size,
                new_random_state(),
            ),
            next_free: 0,
            total_free: 0,
            trees: Vec::with_capacity(tree_capacity),
            eval_stack: Vec::with_capacity(256),
            iters: 0,
            heights: Ghost(Seq::empty()),
            free_list: Ghost(Seq::empty()),
        };
        proof {
            reveal(dag_ok);
            reveal(free_list_ok);
            reveal(index_ok);
            assert(trees@ =~= Map::empty());
        }
        let leaf = trees.insert(Tree::Leaf);
        assert(leaf == Self::LEAF());
        let ghost v0 = trees@;
        let stem_leaf = trees.insert(Tree::Stem(Self::LEAF()));
        assert(stem_leaf == Self::STEM_LEAF()) by {
            assert(v0.contains_key(leaf));
        }
        assert(trees.node(leaf) == Tree::Leaf);
        let ghost v1 = trees@;
        let fork_leaf_leaf = trees.insert(Tree::Fork(Self::LEAF(), Self::LEAF()));
        assert(fork_leaf_leaf == Self::FORK_LEAF_LEAF()) by {
            assert(v1.contains_key(leaf) && v1.contains_key(stem_leaf));
            if v1.contains_key(fork_leaf_leaf) {
                assert(fork_leaf_leaf == leaf || fork_leaf_leaf == stem_leaf);
            }
        }
        assert(trees.node(leaf) == Tree::Leaf && trees.node(stem_leaf) == Tree::Stem(leaf)) by {
            assert(v1.contains_key(leaf) && v1.contains_key(stem_leaf));
        }
        let ghost v2 = trees@;

        // △ (△ △ △) △
        // △ (△ △ △) △ (△) -> △
        // △ (△ △ △) △ (△ x) -> △ x
        // △ (△ △ △) △ (△ x y) -> (△ x) y -> (△ x y)
        let identity = trees.insert(Tree::Fork(Self::FORK_LEAF_LEAF(), Self::LEAF()));
        assert(identity == Self::IDENTITY()) by {
            assert(v2.contains_key(leaf) && v2.contains_key(stem_leaf) && v2.contains_key(fork_leaf_leaf));
            if v2.contains_key(identity) {
                assert(identity == leaf || identity == stem_leaf || identity == fork_leaf_leaf);
            }
        }
        assert(trees.node(leaf) == Tree::Leaf && trees.node(stem_leaf) == Tree::Stem(leaf)
            && trees.node(fork_leaf_leaf) == Tree::Fork(leaf, leaf)) by {
            assert(v2.contains_key(leaf) && v2.contains_key(stem_leaf) && v2.contains_key(fork_leaf_leaf));
        }
        let ghost v3 = trees@;

        // △ △ (△ (△ △ △) △)
        let bit1 = trees.insert(Tree::Fork(Self::LEAF(), Self::IDENTITY()));
        assert(bit1 == Self::BIT1()) by {
            assert(v3.contains_key(leaf) && v3.contains_key(stem_leaf) && v3.contains_key(fork_leaf_leaf)
                && v3.contains_key(identity));
            if v3.contains_key(bit1) {
                assert(bit1 == leaf || bit1 == stem_leaf || bit1 == fork_leaf_leaf || bit1 == identity);
            }
        }
        assert(trees.node(leaf) == Tree::Leaf && trees.node(stem_leaf) == Tree::Stem(leaf)
            && trees.node(fork_leaf_leaf) == Tree::Fork(leaf, leaf)
            && trees.node(identity) == Tree::Fork(fork_leaf_leaf, leaf)) by {
            assert(v3.contains_key(leaf) && v3.contains_key(stem_leaf) && v3.contains_key(fork_leaf_leaf)
                && v3.contains_key(identity));
        }

        assert(Self::CONSTANT_TREES == trees.trees.len());
        proof {
            lemma_index_at(0);
            lemma_index_at(1);
            lemma_index_at(2);
            lemma_index_at(3);
            lemma_index_at(4);
            assert(trees@.contains_key(leaf) && trees@.contains_key(stem_leaf)
                && trees@.contains_key(fork_leaf_leaf) && trees@.contains_key(identity)
                && trees@.contains_key(bit1));
            assert(live_in(trees.trees@, 0) && live_in(trees.trees@, 1) && live_in(trees.trees@, 2)
                && live_in(trees.trees@, 3) && live_in(trees.trees@, 4));
            assert(constants_ok(trees.trees@));
            trees.lemma_constants();
            assert forall|t: TreeIndex| trees@.contains_key(t) <==> t.pos() < Trees::CONSTANT_TREES by {
                if t.pos() < 5 {
                    TreeIndex::lemma_pos_injective(t, index_at(t.pos()));
                }
            }
        }
        trees
    }

    /// Stores `△ △ then`, which gives back `then` whatever it is applied to.
    pub fn ignore_then(&mut self, then: TreeIndex) -> (r: TreeIndex)
        requires
            old(self).well_formed(),
            old(self)@.contains_key(then),
            old(self).has_room() || old(self).stores(Term::Fork(Box::new(Term::Leaf), Box::new(old(self)@[then]))),
        ensures
            final(self).well_formed(),
            final(self)@.contains_key(r),
            final(self)@[r] == Term::Fork(Box::new(Term::Leaf), Box::new(old(self)@[then])),
            final(self).func(r) == TreeFunc::IgnoreThen(then),
            final(self)@.dom() == old(self)@.dom().insert(r),
            old(self)@ <= final(self)@,
            final(self).room() >= old(self).room() - 1,
            final(self).spec_len() <= old(self).spec_len() + 1,
            final(self).cache() == old(self).cache(),
            forall|t: TreeIndex| #[trigger] old(self)@.contains_key(t) && old(self)@[t] == Term::Fork(
                Box::new(Term::Leaf),
                Box::new(old(self)@[then]),
            ) ==> r == t && final(self)@ == old(self)@ && final(self).free_slots() == old(self).free_slots()
                && final(self).spec_len() == old(self).spec_len(),
            !old(self)@.contains_key(r) ==> r.pos() == old(self).next_slot(),
    {
        let tree = Tree::Fork(Trees::LEAF(), then);
        proof {
            assert(tree.children()[0] == Trees::LEAF());
            assert(tree.children()[1] == then);
            self.lemma_constants();
        }
        self.insert(tree)
    }

    /// The node stored at `idx`.
    pub fn index(&self, idx: TreeIndex) -> (r: Tree)
        requires
            self.consistent(),
            self@.contains_key(idx),
        ensures
            r == self.node(idx),
            self.holds(r),
            self@[idx] == self.node_term(r),
    {
        proof {
            self.lemma_node(idx);
        }
        let stored = self.get_debug_checked(idx.idx());
        let tree_res = Tree::try_from_entry(stored);
        tree_res.unwrap()
    }

    /// Reads the stored tree `idx` as a function: by the rule that applies when it is applied.
    pub fn index_func(&self, idx: TreeIndex) -> (r: TreeFunc)
        requires
            self.consistent(),
            self@.contains_key(idx),
        ensures
            r == self.func(idx),
            self.holds_func(r),
            self.func_term(r) == self@[idx],
    {
        proof {
            self.lemma_func(idx);
        }
        match self.index(idx) {
            Tree::Leaf => TreeFunc::Leaf,
            Tree::Stem(inner) => TreeFunc::Stem(inner),
            Tree::Fork(lhs, rhs) => match {
                assert(Tree::Fork(lhs, rhs).children()[0] == lhs);
                self.index(lhs)
            } {
                Tree::Leaf => TreeFunc::IgnoreThen(rhs),
                Tree::Stem(x) => TreeFunc::DoubleChain(x, rhs),
                Tree::Fork(x, y) => TreeFunc::Match(x, y, rhs),
            },
        }
    }

    /// A stored tree read as a function has stored parts, and stands for the same tree.
    pub proof fn lemma_func(&self, t: TreeIndex)
        requires
            self.consistent(),
            self@.contains_key(t),
        ensures
            self.holds_func(self.func(t)),
            self.func_term(self.func(t)) == self@[t],
    {
        self.lemma_node(t);
        match self.node(t) {
            Tree::Leaf => {},
            Tree::Stem(i) => {
                assert(self.node(t).children()[0] == i);
            },
            Tree::Fork(l, r) => {
                assert(self.node(t).children()[0] == l);
                assert(self.node(t).children()[1] == r);
                self.lemma_node(l);
                match self.node(l) {
                    Tree::Leaf => {},
                    Tree::Stem(x) => {
                        assert(self.node(l).children()[0] == x);
                    },
                    Tree::Fork(x, y) => {
                        assert(self.node(l).children()[0] == x);
                        assert(self.node(l).children()[1] == y);
                    },
                }
            },
        }
    }

    /// Stores the tree that `func` stands for and gives its index.
    pub fn insert_func(&mut self, func: TreeFunc) -> (r: TreeIndex)
        requires
            old(self).well_formed(),
            old(self).holds_func(func),
            old(self).room() >= 2 || old(self).stores(old(self).func_term(func)),
        ensures
            final(self).well_formed(),
            final(self)@.contains_key(r),
            final(self)@[r] == old(self).func_term(func),
            final(self).func(r) == func,
            old(self)@ <= final(self)@,
            final(self).room() >= old(self).room() - 2,
            final(self).spec_len() <= old(self).spec_len() + 2,
            final(self).cache() == old(self).cache(),
            forall|t: TreeIndex| #[trigger] old(self)@.contains_key(t) && old(self)@[t] == old(self).func_term(func)
                ==> r == t && final(self)@ == old(self)@ && final(self).free_slots() == old(self).free_slots()
                && final(self).spec_len() == old(self).spec_len(),
    {
        proof {
            self.lemma_constants();
        }
        match func {
            TreeFunc::Leaf => {
                proof {
                    assert forall|t: TreeIndex| #[trigger] old(self)@.contains_key(t) && old(self)@[t] == old(self).func_term(func)
                        implies Trees::LEAF() == t by {
                        self.lemma_unique(Trees::LEAF(), t);
                    }
                }
                Self::LEAF()
            },
            TreeFunc::Stem(inner) => {
                let tree = Tree::Stem(inner);
                assert(tree.children()[0] == inner);
                self.insert(tree)
            },
            TreeFunc::IgnoreThen(then) => self.ignore_then(then),
            TreeFunc::DoubleChain(x, y) => {
                let tree = Tree::Stem(x);
                assert(tree.children()[0] == x);
                let ghost v0 = self@;
                let ghost whole = choose|t: TreeIndex| #[trigger] self@.contains_key(t) && self@[t] == old(self).func_term(func);
                proof {
                    if !(self.room() >= 2) {
                        self.lemma_node(whole);
                        let n = self.node(whole);
                        if let Tree::Fork(l, rr) = n {
                            assert(n.children()[0] == l);
                            assert(n.children()[1] == rr);
                            assert(self@[l] == self.node_term(tree));
                        }
                    }
                }
                let stem_x = self.insert(tree);
                let ghost v1 = self@;
                let tree2 = Tree::Fork(stem_x, y);
                assert(tree2.children()[0] == stem_x);
                assert(tree2.children()[1] == y);
                let ghost m1 = *self;
                proof {
                    if !(old(self).room() >= 2) {
                        let n = old(self).node(whole);
                        if let Tree::Fork(l, rr) = n {
                            assert(stem_x == l);
                            assert(self@ == old(self)@);
                            assert(self.node_term(tree2) == self@[whole]);
                        }
                    }
                }
                let r = self.insert(tree2);
                assert(self.node(stem_x) == tree);
                proof {
                    lemma_submap_trans(v0, v1, self@);
                    assert(v1[stem_x] == Term::Stem(Box::new(v0[x])));
                    assert(v0.contains_key(y) && v1.contains_key(y));
                    assert(v1[y] == v0[y]);
                    assert(self@[r] == Term::Fork(Box::new(v1[stem_x]), Box::new(v1[y])));
                    assert forall|t: TreeIndex| #[trigger] old(self)@.contains_key(t) && old(self)@[t] == old(self).func_term(func)
                        implies r == t && self@ == old(self)@ && self.free_slots() == old(self).free_slots()
                        && self.spec_len() == old(self).spec_len() by {
                        old(self).lemma_node(t);
                        let n = old(self).node(t);
                        if let Tree::Fork(l, rr) = n {
                            assert(n.children()[0] == l);
                            assert(n.children()[1] == rr);
                            assert(old(self)@.contains_key(l));
                            assert(old(self)@[l] == old(self).node_term(tree));
                            assert(stem_x == l);
                            assert(m1@ == old(self)@);
                            assert(m1.node_term(tree2) == old(self)@[t]);
                            assert(r == t);
                        }
                    }
                }
                r
            },
            TreeFunc::Match(x, y, z) => {
                let tree = Tree::Fork(x, y);
                assert(tree.children()[0] == x);
                assert(tree.children()[1] == y);
                let ghost v0 = self@;
                let ghost whole = choose|t: TreeIndex| #[trigger] self@.contains_key(t) && self@[t] == old(self).func_term(func);
                proof {
                    if !(self.room() >= 2) {
                        self.lemma_node(whole);
                        let n = self.node(whole);
                        if let Tree::Fork(l, rr) = n {
                            assert(n.children()[0] == l);
                            assert(n.children()[1] == rr);
                            assert(self@[l] == self.node_term(tree));
                        }
                    }
                }
                let xy = self.insert(tree);
                let ghost v1 = self@;
                let tree2 = Tree::Fork(xy, z);
                assert(tree2.children()[0] == xy);
                assert(tree2.children()[1] == z);
                let ghost m1 = *self;
                proof {
                    if !(old(self).room() >= 2) {
                        let n = old(self).node(whole);
                        if let Tree::Fork(l, rr) = n {
                            assert(xy == l);
                            assert(self@ == old(self)@);
                            assert(self.node_term(tree2) == self@[whole]);
                        }
                    }
                }
                let r = self.insert(tree2);
                assert(self.node(xy) == tree);
                proof {
                    lemma_submap_trans(v0, v1, self@);
                    assert(v1[xy] == Term::Fork(Box::new(v0[x]), Box::new(v0[y])));
                    assert(v0.contains_key(z) && v1.contains_key(z));
                    assert(v1[z] == v0[z]);
                    assert(self@[r] == Term::Fork(Box::new(v1[xy]), Box::new(v1[z])));
                    assert forall|t: TreeIndex| #[trigger] old(self)@.contains_key(t) && old(self)@[t] == old(self).func_term(func)
                        implies r == t && self@ == old(self)@ && self.free_slots() == old(self).free_slots()
                        && self.spec_len() == old(self).spec_len() by {
                        old(self).lemma_node(t);
                        let n = old(self).node(t);
                        if let Tree::Fork(l, rr) = n {
                            assert(n.children()[0] == l);
                            assert(n.children()[1] == rr);
                            assert(old(self)@.contains_key(l));
                            assert(old(self)@[l] == old(self).node_term(tree));
                            assert(xy == l);
                            assert(m1@ == old(self)@);
                            assert(m1.node_term(tree2) == old(self)@[t]);
                            assert(r == t);
                        }
                    }
                }
                r
            },
        }
    }

    /// The node `tree` read together with this store, for writing it out.
    pub fn as_ref<'a>(&'a self, tree: Tree) -> (r: TreeRef<'a>)
        ensures
            r.store() == *self,
            r.node() == tree,
    {
        TreeRef { trees: self, tree }
    }

    /// The free slots are among the slots not reachable from `in_use`.
    proof fn lemma_free_dead(&self, in_use: Seq<TreeIndex>)
        requires
            self.well_formed(),
            forall|k: int| 0 <= k < in_use.len() ==> self@.contains_key(#[trigger] in_use[k]),
        ensures
            self.spec_total_free() <= self.dead_positions(in_use, 0, self.spec_len()).len(),
            self.dead_positions(in_use, 0, self.spec_len()).len() <= self.spec_len(),
    {
        let d = self.dead_positions(in_use, 0, self.spec_len());
        let fl = self.free_list@;
        let ts = self.trees@;
        self.lemma_dead_positions(in_use, 0, self.spec_len());
        self.lemma_reach(in_use);
        assert(increasing_below(d, ts.len() as nat));
        lemma_increasing_len(d, ts.len() as nat);
        assert(fl.no_duplicates() && fl.len() == self.total_free
            && forall|k: int| 0 <= k < fl.len() ==> #[trigger] fl[k] < ts.len() && is_free(ts[fl[k] as int])) by {
            reveal(free_list_ok);
        }
        assert forall|k: int| 0 <= k < fl.len() implies d.contains(#[trigger] fl[k]) by {
            assert(!live_in(ts, fl[k]));
        }
        lemma_seq_count(fl, d);
    }

    /// The counts of a collection check: the slots not reachable from the stored trees
    /// `in_use`, those of them not yet free, and the room allocated for slots.
    pub fn report_garbage(&self, in_use: &[TreeIndex]) -> (r: GarbageReport)
        requires
            self.well_formed(),
            forall|k: int| 0 <= k < in_use@.len() ==> self@.contains_key(#[trigger] in_use@[k]),
        ensures
            r.unused == self.dead_positions(in_use@, 0, self.spec_len()).len(),
            r.uncollected == r.unused - self.spec_total_free(),
            r.total_trees == self.spec_len(),
    {
        let mut dead = self.get_dead(in_use);
        let ghost d = dead.remaining();
        proof {
            self.lemma_free_dead(in_use@);
        }
        let mut unused: usize = 0;
        loop
            invariant
                dead.wf(),
                unused + dead.remaining().len() == d.len(),
                d.len() <= u32::MAX,
            ensures
                unused == d.len(),
            decreases dead.remaining().len(),
        {
            match dead.next() {
                Some(_) => {
                    unused += 1;
                },
                None => {
                    break;
                },
            }
        }
        assert(self.spec_total_free() <= unused);
        let uncollected = unused - self.total_free();
        GarbageReport {
            unused,
            uncollected,
            total_trees: self.total_trees_stored(),
            capacity: vec_capacity(&self.trees),
        }
    }

    /// The sizes of the store's parts: slots allocated and used, free slots, entries of the
    /// index table, room of the table of remembered applications, and room of the stack of
    /// evaluation frames.
    pub fn report_final_usage(&self) -> (r: UsageReport)
        ensures
            r.trees_len == self.spec_len(),
            r.total_free == self.spec_total_free(),
    {
        UsageReport {
            trees_capacity: vec_capacity(&self.trees),
            trees_len: self.trees.len(),
            total_free: self.total_free,
            indexed_trees_len: table_len(&self.indexed_trees),
            cache_capacity: table_capacity(&self.cached_applications),
            eval_stack_capacity: vec_capacity(&self.eval_stack),
        }
    }

    /// Whether `n` more trees can be stored.
    pub fn has_room_for(&self, n: usize) -> (r: bool)
        ensures
            r == (self.room() >= n),
    {
        (self.total_free as u128) + (u32::MAX as u128 - 1) >= (self.trees.len() as u128) + (n as u128)
    }

    /// The number of free slots.
    pub fn total_free(&self) -> (r: usize)
        ensures
            r == self.spec_total_free(),
    {
        self.total_free
    }

    /// The number of slots, stored trees and free slots together.
    pub fn total_trees_stored(&self) -> (r: usize)
        ensures
            r == self.spec_len(),
    {
        self.trees.len()
    }

    /// The number of steps of the last evaluation.
    pub closed spec fn spec_iters(&self) -> nat {
        self.iters as nat
    }

    /// The number of steps of the last evaluation.
    pub fn iters(&self) -> (r: usize)
        ensures
            r == self.spec_iters(),
    {
        self.iters
    }

    fn update_application_cache(&mut self, input: (TreeIndex, TreeIndex), output: TreeIndex)
        requires
            cache_sound(old(self)@, old(self).cache()),
            old(self)@.contains_key(input.0),
            old(self)@.contains_key(input.1),
            old(self)@.contains_key(output),
            halts(old(self)@[input.0], old(self)@[input.1]),
            old(self)@[output] == value(old(self)@[input.0], old(self)@[input.1]),
        ensures
            cache_sound(final(self)@, final(self).cache()),
            final(self).trees == old(self).trees,
            final(self).heights == old(self).heights,
            final(self).free_list == old(self).free_list,
            final(self).indexed_trees == old(self).indexed_trees,
            final(self).next_free == old(self).next_free,
            final(self).total_free == old(self).total_free,
            final(self).eval_stack == old(self).eval_stack,
            final(self).iters == old(self).iters,
            final(self).cache() == (if input.0.pos() > Self::MAX_TREE_IDX_TO_BE_CACHED {
                old(self).cache()
            } else {
                old(self).cache().insert(pair_key(input.0, input.1) as u64, output)
            }),
    {
        let (a, _) = input;
        if a.idx() > Self::MAX_TREE_IDX_TO_BE_CACHED {
            return ;
        }
        let key = eval_input_key(input);
        table_insert(&mut self.cached_applications, key, output);
        proof {
            let v = self@;
            let c = self.cache();
            assert forall|x: TreeIndex, y: TreeIndex| #[trigger] c.contains_key(pair_key(x, y) as u64) implies {
                &&& v.contains_key(x)
                &&& v.contains_key(y)
                &&& v.contains_key(c[pair_key(x, y) as u64])
                &&& halts(v[x], v[y])
                &&& v[c[pair_key(x, y) as u64]] == value(v[x], v[y])
            } by {
                lemma_pair_key(x, y, input.0, input.1);
                if pair_key(x, y) as u64 != key {
                    assert(old(self).cache().contains_key(pair_key(x, y) as u64));
                }
            }
        }
    }

    fn query_application_cache(&self, a: TreeIndex, b: TreeIndex) -> (r: Option<TreeIndex>)
        requires
            cache_sound(self@, self.cache()),
        ensures
            r matches Some(i) ==> self@.contains_key(i) && halts(self@[a], self@[b]) && self@[i]
                == value(self@[a], self@[b]),
            r == (if a.pos() <= Self::MAX_TREE_IDX_TO_BE_CACHED && self.cache().contains_key(pair_key(a, b) as u64) {
                Some(self.cache()[pair_key(a, b) as u64])
            } else {
                None
            }),
    {
        if a.idx() > Self::MAX_TREE_IDX_TO_BE_CACHED {
            return None;
        }
        let key = eval_input_key((a, b));
        let r = table_get(&self.cached_applications, key);
        proof {
            lemma_pair_key(a, b, a, b);
            assert(key == pair_key(a, b) as u64);
            if r is Some {
                assert(self.cache().contains_key(pair_key(a, b) as u64));
            }
        }
        r
    }

    /// Evaluates `a b`, stores the result and gives its index.
    pub fn tree_apply(&mut self, a: TreeIndex, b: TreeIndex) -> (r: TreeIndex)
        requires
            old(self).at_rest(),
            old(self)@.contains_key(a),
            old(self)@.contains_key(b),
            halts(old(self)@[a], old(self)@[b]),
            cost(old(self)@[a], old(self)@[b]) < MAX_TREE_APPLY_ITERS,
            old(self).room() >= cost(old(self)@[a], old(self)@[b]),
        ensures
            final(self).at_rest(),
            final(self)@.contains_key(r),
            final(self)@[r] == value(old(self)@[a], old(self)@[b]),
            old(self)@ <= final(self)@,
            final(self).room() >= old(self).room() - cost(old(self)@[a], old(self)@[b]),
            forall|t: TreeIndex| #[trigger] old(self)@.contains_key(t) && old(self)@[t] == value(old(self)@[a], old(self)@[b])
                ==> r == t,
            exists|k: nat| #[trigger] old(self).grown_to(*final(self), k),
            final(self).spec_len() >= old(self).spec_len(),
            final(self).spec_total_free() <= old(self).spec_total_free(),
            final(self).spec_iters() < MAX_TREE_APPLY_ITERS,
            forall|t: TreeIndex| #[trigger] final(self)@.contains_key(t) && !old(self)@.contains_key(t) ==> made(
                old(self)@[a],
                old(self)@[b],
            ).contains(final(self)@[t]),
            old(self).only_value_new(old(self)@[a], old(self)@[b]) ==> r.pos() == old(self).next_slot(),
    {
        let ghost s0 = *self;
        self.iters = 0;
        let ghost s1 = *self;
        let idx = self.tree_apply_inner(a, b);
        let ghost s2 = *self;
        table_clear(&mut self.cached_applications);
        proof {
            assert(self.cache() =~= Map::empty());
            let k = choose|k: nat| #[trigger] s1.grown_to(s2, k);
            assert(s0@ == s1@ && s0.free_slots() == s1.free_slots() && s0.spec_len() == s1.spec_len());
            assert(s2@ == self@ && s2.free_slots() == self.free_slots() && s2.spec_len() == self.spec_len());
            assert(s0.taken(k) =~= s1.taken(k));
            assert(s0.grown_to(*self, k));
            self.lemma_applied(s0, Some(idx));
            assert(s0.next_slot() == s1.next_slot());
        }
        idx
    }

    /// Evaluates `input_a input_b`, which ends within `MAX_TREE_APPLY_ITERS` steps and the room
    /// of the store, and gives the index of its value. The trees it stores are ones that the
    /// reduction makes; where the value is the only one not stored yet, it takes
    /// `next_slot()`.
    fn tree_apply_inner(&mut self, input_a: TreeIndex, input_b: TreeIndex) -> (r: TreeIndex)
        requires
            old(self).well_formed(),
            cache_sound(old(self)@, old(self).cache()),
            old(self)@.contains_key(input_a),
            old(self)@.contains_key(input_b),
            old(self).iters == 0,
            halts(old(self)@[input_a], old(self)@[input_b]),
            cost(old(self)@[input_a], old(self)@[input_b]) < MAX_TREE_APPLY_ITERS,
            old(self).room() >= cost(old(self)@[input_a], old(self)@[input_b]),
        ensures
            final(self).well_formed(),
            cache_sound(final(self)@, final(self).cache()),
            old(self)@ <= final(self)@,
            final(self)@.contains_key(r),
            final(self)@[r] == value(old(self)@[input_a], old(self)@[input_b]),
            final(self).room() >= old(self).room() - cost(old(self)@[input_a], old(self)@[input_b]),
            final(self).spec_iters() <= cost(old(self)@[input_a], old(self)@[input_b]),
            exists|k: nat| #[trigger] old(self).grown_to(*final(self), k),
            forall|t: TreeIndex| #[trigger] final(self)@.contains_key(t) && !old(self)@.contains_key(t) ==> made(
                old(self)@[input_a],
                old(self)@[input_b],
            ).contains(final(self)@[t]),
            old(self).only_value_new(old(self)@[input_a], old(self)@[input_b]) ==> r.pos() == old(self).next_slot(),
    {
        let r = self.run_application(input_a, input_b);
        let i = r.unwrap();
        proof {
            let k = choose|k: nat| #[trigger] old(self).grown_to(*self, k);
            if old(self).only_value_new(old(self)@[input_a], old(self)@[input_b]) {
                old(self).lemma_single_new(*self, k, i, made(old(self)@[input_a], old(self)@[input_b]));
            }
        }
        i
    }

    /// The only tree that evaluating `a b` from this store could store anew is its value: the
    /// value is not stored, and every other tree the reduction makes is.
    pub open spec fn only_value_new(&self, a: Term, b: Term) -> bool {
        &&& !self.stores(value(a, b))
        &&& forall|u: Term| #[trigger] made(a, b).contains(u) && u != value(a, b) ==> self.stores(u)
    }

    /// After an application from `s0`: a result that was stored already keeps its index, the
    /// store grew as `grown_to` says, and the counts of slots and free slots moved accordingly.
    proof fn lemma_applied(&self, s0: Trees, r: Option<TreeIndex>)
        requires
            s0.consistent(),
            self.consistent(),
            exists|k: nat| #[trigger] s0.grown_to(*self, k),
        ensures
            self.spec_len() >= s0.spec_len(),
            self.spec_total_free() <= s0.spec_total_free(),
            r matches Some(i) ==> (self@.contains_key(i) ==> forall|t: TreeIndex| #[trigger] s0@.contains_key(t) && s0@[t]
                == self@[i] ==> i == t),
    {
        let k = choose|k: nat| #[trigger] s0.grown_to(*self, k);
        assert(s0.grown_to(*self, k));
        assert(s0@ <= self@);
        s0.lemma_free_slots();
        self.lemma_free_slots();
        if let Some(i) = r {
            if self@.contains_key(i) {
                assert forall|t: TreeIndex| #[trigger] s0@.contains_key(t) && s0@[t] == self@[i] implies i == t by {
                    assert(s0@.dom().contains(t) && self@.dom().contains(t));
                    assert(self@.contains_key(t) && self@[t] == s0@[t]);
                    self.lemma_unique(i, t);
                }
            }
        }
    }

    /// Evaluates `a b` as `tree_apply` does, but gives `None` where the evaluation reaches
    /// `MAX_TREE_APPLY_ITERS` steps or the store runs out of room.
    pub fn try_tree_apply(&mut self, a: TreeIndex, b: TreeIndex) -> (r: Option<TreeIndex>)
        requires
            old(self).at_rest(),
            old(self)@.contains_key(a),
            old(self)@.contains_key(b),
        ensures
            final(self).at_rest(),
            old(self)@ <= final(self)@,
            r matches Some(i) ==> final(self)@.contains_key(i) && halts(old(self)@[a], old(self)@[b])
                && final(self)@[i] == value(old(self)@[a], old(self)@[b]),
            halts(old(self)@[a], old(self)@[b]) && cost(old(self)@[a], old(self)@[b]) < MAX_TREE_APPLY_ITERS
                && old(self).room() >= cost(old(self)@[a], old(self)@[b]) ==> r is Some,
            r is Some ==> final(self).room() >= old(self).room() - cost(old(self)@[a], old(self)@[b]),
            r matches Some(i) ==> forall|t: TreeIndex| #[trigger] old(self)@.contains_key(t) && old(self)@[t]
                == final(self)@[i] ==> i == t,
            exists|k: nat| #[trigger] old(self).grown_to(*final(self), k),
            final(self).spec_len() >= old(self).spec_len(),
            final(self).spec_total_free() <= old(self).spec_total_free(),
            r is None ==> final(self).spec_iters() == MAX_TREE_APPLY_ITERS || !final(self).has_room(),
            r is Some ==> final(self).spec_iters() < MAX_TREE_APPLY_ITERS,
            r is Some ==> forall|t: TreeIndex| #[trigger] final(self)@.contains_key(t) && !old(self)@.contains_key(t)
                ==> made(old(self)@[a], old(self)@[b]).contains(final(self)@[t]),
            r matches Some(i) ==> (old(self).only_value_new(old(self)@[a], old(self)@[b]) ==> i.pos() == old(
                self,
            ).next_slot()),
    {
        let ghost s0 = *self;
        self.iters = 0;
        let ghost s1 = *self;
        let idx = self.run_application(a, b);
        let ghost s2 = *self;
        table_clear(&mut self.cached_applications);
        proof {
            assert(self.cache() =~= Map::empty());
            let k = choose|k: nat| #[trigger] s1.grown_to(s2, k);
            assert(s0@ == s1@ && s0.free_slots() == s1.free_slots() && s0.spec_len() == s1.spec_len());
            assert(s2@ == self@ && s2.free_slots() == self.free_slots() && s2.spec_len() == self.spec_len());
            assert(s0.taken(k) =~= s1.taken(k));
            assert(s0.grown_to(*self, k));
            self.lemma_applied(s0, idx);
            if let Some(i) = idx {
                if s0.only_value_new(s0@[a], s0@[b]) {
                    s0.lemma_single_new(*self, k, i, made(s0@[a], s0@[b]));
                }
            }
        }
        idx
    }

    /// Evaluates `input_a input_b` with an explicit stack of frames, remembering the values of
    /// applications of small trees. Gives `None` where its step count reaches the limit or a
    /// step finds the store full; new trees take the free slots first, in order, then the end.
    fn run_application(&mut self, input_a: TreeIndex, input_b: TreeIndex) -> (r: Option<TreeIndex>)
        requires
            old(self).well_formed(),
            cache_sound(old(self)@, old(self).cache()),
            old(self)@.contains_key(input_a),
            old(self)@.contains_key(input_b),
            old(self).iters == 0,
        ensures
            final(self).well_formed(),
            cache_sound(final(self)@, final(self).cache()),
            old(self)@ <= final(self)@,
            r matches Some(i) ==> final(self)@.contains_key(i) && halts(old(self)@[input_a], old(self)@[input_b])
                && final(self)@[i] == value(old(self)@[input_a], old(self)@[input_b]),
            halts(old(self)@[input_a], old(self)@[input_b]) && cost(old(self)@[input_a], old(self)@[input_b])
                < MAX_TREE_APPLY_ITERS && old(self).room() >= cost(old(self)@[input_a], old(self)@[input_b]) ==> r is Some,
            final(self).room() + final(self).spec_iters() >= old(self).room(),
            final(self).spec_iters() <= MAX_TREE_APPLY_ITERS,
            r is Some && halts(old(self)@[input_a], old(self)@[input_b]) ==> final(self).spec_iters()
                <= cost(old(self)@[input_a], old(self)@[input_b]),
            final(self).spec_len() <= old(self).spec_len() + final(self).spec_iters(),
            exists|k: nat| #[trigger] old(self).grown_to(*final(self), k),
            r is None ==> final(self).spec_iters() == MAX_TREE_APPLY_ITERS || !final(self).has_room(),
            r is Some ==> final(self).spec_iters() < MAX_TREE_APPLY_ITERS,
            halts(old(self)@[input_a], old(self)@[input_b]) ==> forall|t: TreeIndex| #[trigger] final(self)@.contains_key(t)
                && !old(self)@.contains_key(t) ==> made(old(self)@[input_a], old(self)@[input_b]).contains(final(self)@[t]),
    {
        let ghost v0 = self@;
        let ghost a0 = self@[input_a];
        let ghost b0 = self@[input_b];
        let ghost r0 = self.room();
        let ghost len0 = self.spec_len();
        let ghost mut k: nat = 0;
        proof {
            self.lemma_grown_refl();
        }
        self.eval_stack.clear();
        let mut a = input_a;
        let mut b = input_b;
        proof {
            assert(self.eval_stack@ =~= Seq::<TreeEvalFrame>::empty());
            crate::calculus::lemma_cost_positive_when(a0, b0);
        }

        loop
            invariant
                v0 == old(self)@,
                r0 == old(self).room(),
                len0 == old(self).spec_len(),
                old(self).grown_to(*self, k),
                forall|t: TreeIndex| #[trigger] self@.contains_key(t) && !v0.contains_key(t) && halts(a0, b0) ==> made(
                    a0,
                    b0,
                ).contains(self@[t]),
                self.well_formed(),
                cache_sound(self@, self.cache()),
                v0 <= self@,
                self@.contains_key(a),
                self@.contains_key(b),
                apply_state_ok(self@, self.eval_stack@, self@[a], self@[b], self.iters as nat, a0, b0),
                self.iters < MAX_TREE_APPLY_ITERS,
                self.room() + self.iters >= r0,
                self.spec_len() <= len0 + self.iters,
                a0 == v0[input_a],
                b0 == v0[input_b],
            decreases MAX_TREE_APPLY_ITERS - self.iters,
        {
            self.iters += 1;

            if self.iters >= MAX_TREE_APPLY_ITERS {
                proof {
                    if halts(a0, b0) {
                        crate::calculus::lemma_cost_positive(self@[a], self@[b]);
                    }
                    assert(old(self).grown_to(*self, k));
                }
                return None;
            }
            if !self.has_room_for(1) {
                proof {
                    if halts(a0, b0) {
                        crate::calculus::lemma_cost_positive(self@[a], self@[b]);
                    }
                    assert(old(self).grown_to(*self, k));
                }
                return None;
            }
            let ghost v = self@;
            let ghost st = self.eval_stack@;
            let ghost it = self.iters as nat;
            proof {
                if halts(a0, b0) {
                    crate::calculus::lemma_cost_positive(v[a], v[b]);
                }
                self.lemma_node(a);
                self.lemma_node(b);
            }

            let result = match self.index(a) {
                // △ b = △ b
                Tree::Leaf => {
                    proof {
                        lemma_rule_immediate(v[a], v[b]);
                        lemma_apply_result(v, st, v[a], v[b], (it - 1) as nat, a0, b0);
                    }
                    let tree = Tree::Stem(b);
                    assert(tree.children()[0] == b);
                    let ghost mid = *self;
                    let r = self.insert(tree);
                    proof {
                        old(self).lemma_grown_step(mid, *self, k, r);
                        if !mid@.contains_key(r) {
                            k = k + 1;
                        }
                        assert forall|t: TreeIndex| #[trigger] self@.contains_key(t) && !v0.contains_key(t) && halts(a0, b0)
                            implies made(a0, b0).contains(self@[t]) by {
                            if v.contains_key(t) {
                                assert(v.dom().contains(t) && self@.dom().contains(t));
                            } else {
                                assert(t == r);
                                lemma_made_immediate(v[a], v[b]);
                            }
                        }
                        lemma_unwind_grow(v, self@, st, value(v[a], v[b]), it, a0, b0);
                        lemma_cache_grow(v, self@, self.cache());
                        lemma_submap_trans(v0, v, self@);
                    }
                    r
                },
                // △ a b = △ a b
                Tree::Stem(x) => {
                    proof {
                        lemma_rule_immediate(v[a], v[b]);
                        lemma_apply_result(v, st, v[a], v[b], (it - 1) as nat, a0, b0);
                    }
                    let tree = Tree::Fork(x, b);
                    assert(Tree::Stem(x).children()[0] == x);
                    assert(tree.children()[0] == x);
                    assert(tree.children()[1] == b);
                    let ghost mid = *self;
                    let r = self.insert(tree);
                    proof {
                        old(self).lemma_grown_step(mid, *self, k, r);
                        if !mid@.contains_key(r) {
                            k = k + 1;
                        }
                        assert forall|t: TreeIndex| #[trigger] self@.contains_key(t) && !v0.contains_key(t) && halts(a0, b0)
                            implies made(a0, b0).contains(self@[t]) by {
                            if v.contains_key(t) {
                                assert(v.dom().contains(t) && self@.dom().contains(t));
                            } else {
                                assert(t == r);
                                lemma_made_immediate(v[a], v[b]);
                            }
                        }
                        lemma_unwind_grow(v, self@, st, value(v[a], v[b]), it, a0, b0);
                        lemma_cache_grow(v, self@, self.cache());
                        lemma_submap_trans(v0, v, self@);
                    }
                    r
                },
                Tree::Fork(lhs, rhs) => {
                    proof {
                        assert(Tree::Fork(lhs, rhs).children()[0] == lhs);
                        assert(Tree::Fork(lhs, rhs).children()[1] == rhs);
                        self.lemma_node(lhs);
                    }
                    match self.index(lhs) {
                        // △ △ a b = a
                        Tree::Leaf => {
                            proof {
                                lemma_rule_immediate(v[a], v[b]);
                                lemma_apply_result(v, st, v[a], v[b], (it - 1) as nat, a0, b0);
                            }
                            rhs
                        },
                        // △ (△ x) y b = x b (y b)
                        Tree::Stem(x) => {
                            proof {
                                assert(Tree::Stem(x).children()[0] == x);
                            }
                            let Some(result) = self.query_application_cache(a, b) else {
                                let frame = TreeEvalFrame::duplicate_middle_eval((a, b), rhs, b);
                                proof {
                                    lemma_push_duplicate(v, st, a, b, x, rhs, (it - 1) as nat, a0, b0);
                                }
                                self.eval_stack.push(frame);
                                a = x;  // Evaluate `x b`, push `(_ (y b))`.
                                continue ;
                            };
                            proof {
                                lemma_apply_result(v, st, v[a], v[b], (it - 1) as nat, a0, b0);
                            }
                            result
                        },
                        // △ (△ x y) z w => (x | y w.stem | z w.lhs w.rhs)
                        Tree::Fork(a1, a2) => {
                            proof {
                                assert(Tree::Fork(a1, a2).children()[0] == a1);
                                assert(Tree::Fork(a1, a2).children()[1] == a2);
                            }
                            match self.index(b) {
                                Tree::Leaf => {
                                    proof {
                                        lemma_rule_immediate(v[a], v[b]);
                                        lemma_apply_result(v, st, v[a], v[b], (it - 1) as nat, a0, b0);
                                    }
                                    a1
                                },
                                Tree::Stem(u) => {
                                    proof {
                                        assert(Tree::Stem(u).children()[0] == u);
                                    }
                                    let Some(result) = self.query_application_cache(a, b) else {
                                        proof {
                                            lemma_push_match_stem(v, st, a, b, a1, a2, rhs, u, (it - 1) as nat, a0, b0);
                                        }
                                        self.eval_stack.push(TreeEvalFrame::just_cache((a, b)));
                                        a = a2;
                                        b = u;  // Evaluate `a2 u`.
                                        continue ;
                                    };
                                    proof {
                                        lemma_apply_result(v, st, v[a], v[b], (it - 1) as nat, a0, b0);
                                    }
                                    result
                                },
                                Tree::Fork(u, w) => {
                                    proof {
                                        assert(Tree::Fork(u, w).children()[0] == u);
                                        assert(Tree::Fork(u, w).children()[1] == w);
                                    }
                                    let Some(result) = self.query_application_cache(a, b) else {
                                        proof {
                                            lemma_push_match_fork(v, st, a, b, a1, a2, rhs, u, w, (it - 1) as nat, a0, b0);
                                        }
                                        self.eval_stack.push(TreeEvalFrame::fork_partial((a, b), w));
                                        a = rhs;
                                        b = u;  // Evaluate `a3 u`, push `_ v`.
                                        continue ;
                                    };
                                    proof {
                                        lemma_apply_result(v, st, v[a], v[b], (it - 1) as nat, a0, b0);
                                    }
                                    result
                                },
                            }
                        },
                    }
                },
            };

            loop
                invariant_except_break
                    self@.contains_key(result),
                    unwind_state_ok(self@, self.eval_stack@, self@[result], self.iters as nat, a0, b0),
                invariant
                    v0 == old(self)@,
                    r0 == old(self).room(),
                    len0 == old(self).spec_len(),
                    old(self).grown_to(*self, k),
                    forall|t: TreeIndex| #[trigger] self@.contains_key(t) && !v0.contains_key(t) && halts(a0, b0) ==> made(
                        a0,
                        b0,
                    ).contains(self@[t]),
                    self.well_formed(),
                    cache_sound(self@, self.cache()),
                    v0 <= self@,
                    1 <= self.iters < MAX_TREE_APPLY_ITERS,
                    self.iters == it,
                    self.room() + self.iters >= r0,
                    self.spec_len() <= len0 + self.iters,
                        a0 == v0[input_a],
                    b0 == v0[input_b],
                ensures
                    self@.contains_key(a),
                    self@.contains_key(b),
                    apply_state_ok(self@, self.eval_stack@, self@[a], self@[b], self.iters as nat, a0, b0),
                decreases self.eval_stack.len(),
            {
                let ghost st = self.eval_stack@;
                let ghost v = self@;
                match self.eval_stack.pop() {
                    None => {
                        assert(old(self).grown_to(*self, k));
                        return Some(result);
                    },
                    Some(TreeEvalFrame { input_to_cache, fork_partial: Some(w), duplicate_end: None }) => {
                        proof {
                            lemma_pop_fork_partial(v, st, v[result], w, self.iters as nat, a0, b0);
                        }
                        self.eval_stack.push(TreeEvalFrame::just_cache(input_to_cache));
                        a = result;
                        b = w;  // Complete `(a3 u) v`.
                        break ;
                    },
                    Some(TreeEvalFrame { input_to_cache, fork_partial: Some(y), duplicate_end: Some(stack_b) }) => {
                        proof {
                            lemma_pop_duplicate_middle(v, st, v[result], result, y, stack_b, self.iters as nat, a0, b0);
                        }
                        a = y;
                        b = stack_b;  // Eval `y b`, push `(_ (y b))`
                        self.eval_stack.push(TreeEvalFrame::duplciate_end_eval(input_to_cache, result));
                        break ;
                    },
                    Some(TreeEvalFrame { input_to_cache, fork_partial: None, duplicate_end: Some(xb) }) => {
                        proof {
                            lemma_pop_duplicate_end(v, st, v[result], xb, self.iters as nat, a0, b0);
                        }
                        self.eval_stack.push(TreeEvalFrame::just_cache(input_to_cache));
                        a = xb;
                        b = result;  // Evaluated `y b`, evaluate `x b (y b)`.
                        break ;
                    },
                    Some(TreeEvalFrame { input_to_cache, fork_partial: None, duplicate_end: None }) => {
                        proof {
                            lemma_pop_just_cache(v, st, v[result], self.iters as nat, a0, b0);
                        }
                        self.update_application_cache(input_to_cache, result);
                    },
                }
            }
        }
    }

    /// Positions visited along a path downwards: all below the length, all higher than `below`.
    spec fn visited_ok(&self, visited: Set<int>, below: TreeIndex) -> bool {
        &&& visited.finite()
        &&& forall|p: int| #[trigger] visited.contains(p) ==> 0 <= p < self.trees.len()
            && self.heights@[p] > self.heights@[below.pos() as int]
    }

    /// One more step down from `t` to its child `c`.
    proof fn lemma_visit(&self, visited: Set<int>, t: TreeIndex, c: TreeIndex)
        requires
            self.consistent(),
            self@.contains_key(t),
            self.visited_ok(visited, t),
            self.node(t).children().contains(c),
        ensures
            self.visited_ok(visited.insert(t.pos() as int), c),
            !visited.contains(t.pos() as int),
            visited.insert(t.pos() as int).len() == visited.len() + 1,
            visited.insert(t.pos() as int).len() < u32::MAX,
            self.heights@[c.pos() as int] < self.heights@[t.pos() as int],
            self@.contains_key(c),
    {
        reveal(dag_ok);
        assert(live_in(self.trees@, t.pos()));
        assert(children_lower(self.trees@, self.heights@, t.pos()));
        let k = choose|k: int| 0 <= k < self.node(t).children().len() && self.node(t).children()[k] == c;
        match self.node(t) {
            Tree::Leaf => {},
            Tree::Stem(x) => {
                assert(k == 0);
            },
            Tree::Fork(l, r) => {
                assert(k == 0 || k == 1);
            },
        }
        let v2 = visited.insert(t.pos() as int);
        vstd::set_lib::lemma_int_range(0, self.trees.len() as int);
        vstd::set_lib::lemma_len_subset(v2, vstd::set_lib::set_int_range(0, self.trees.len() as int));
    }

    /// The number `n` that the stored tree `start` writes as `n` stems over a leaf, or `start`
    /// itself where it is not of that shape.
    pub fn parse_stem_nat(&self, start: TreeIndex) -> (r: Result<u64, TreeIndex>)
        requires
            self.consistent(),
            self@.contains_key(start),
        ensures
            r matches Ok(n) ==> stem_nat(self@[start]) == Some(n as nat),
            r matches Err(e) ==> e == start && stem_nat(self@[start]) is None,
    {
        let mut tree = start;
        let mut x: u64 = 0;
        let ghost mut visited: Set<int> = Set::empty();
        loop
            invariant
                self.consistent(),
                self@.contains_key(tree),
                stem_nat(self@[start]) == (match stem_nat(self@[tree]) {
                    Some(n) => Some(n + x as nat),
                    None => None,
                }),
                self.visited_ok(visited, tree),
                visited.len() == x,
            decreases self.heights@[tree.pos() as int],
        {
            proof {
                self.lemma_node(tree);
            }
            match self.index(tree) {
                Tree::Leaf => return Ok(x),
                Tree::Stem(inner) => {
                    proof {
                        assert(self.node(tree).children()[0] == inner);
                        self.lemma_visit(visited, tree, inner);
                        visited = visited.insert(tree.pos() as int);
                    }
                    x += 1;
                    tree = inner;
                },
                Tree::Fork(_, _) => return Err(start),
            }
        }
    }

    /// The number `n` that the stored tree `start` writes as `n` forks `△ △ _` over a leaf,
    /// or `start` itself where it is not of that shape.
    pub fn parse_fork_nat(&self, start: TreeIndex) -> (r: Result<u64, TreeIndex>)
        requires
            self.well_formed(),
            self@.contains_key(start),
        ensures
            r matches Ok(n) ==> fork_nat(self@[start]) == Some(n as nat),
            r matches Err(e) ==> e == start && fork_nat(self@[start]) is None,
    {
        let mut tree = start;
        let mut x: u64 = 0;
        let ghost mut visited: Set<int> = Set::empty();
        proof {
            self.lemma_constants();
        }
        loop
            invariant
                self.well_formed(),
                self@.contains_key(tree),
                fork_nat(self@[start]) == (match fork_nat(self@[tree]) {
                    Some(n) => Some(n + x as nat),
                    None => None,
                }),
                self.visited_ok(visited, tree),
                visited.len() == x,
            decreases self.heights@[tree.pos() as int],
        {
            proof {
                self.lemma_node(tree);
                self.lemma_constants();
            }
            match self.index(tree) {
                Tree::Leaf => return Ok(x),
                Tree::Fork(l, inner) if l == Trees::LEAF() => {
                    proof {
                        assert(self.node(tree).children()[1] == inner);
                        self.lemma_visit(visited, tree, inner);
                        visited = visited.insert(tree.pos() as int);
                    }
                    x += 1;
                    tree = inner;
                },
                _ => {
                    proof {
                        if let Tree::Fork(l, inner) = self.node(tree) {
                            assert(self.node(tree).children()[0] == l);
                            if self@[l] == Term::Leaf {
                                self.lemma_unique(l, Trees::LEAF());
                            }
                        }
                    }
                    return Err(start);
                },
            }
        }
    }

    /// Zero for `△ △`, one for `△ △ (△ (△ △ △) △)`; the index itself for any other tree.
    pub fn parse_bit(&self, bit: TreeIndex) -> (r: Result<bool, TreeIndex>)
        requires
            self.well_formed(),
            self@.contains_key(bit),
        ensures
            r matches Ok(b) ==> bit_of(self@[bit]) == Some(b),
            r matches Err(e) ==> e == bit && bit_of(self@[bit]) is None,
    {
        proof {
            self.lemma_constants();
            if self@[bit] == stem_leaf_term() {
                self.lemma_unique(bit, Trees::STEM_LEAF());
            }
            if self@[bit] == bit1_term() {
                self.lemma_unique(bit, Trees::BIT1());
            }
        }
        if bit == Trees::STEM_LEAF() {
            Ok(false)
        } else if bit == Trees::BIT1() {
            Ok(true)
        } else {
            Err(bit)
        }
    }

    /// The stored tree that is `term`, where there is one.
    pub closed spec fn index_of(&self, term: Term) -> TreeIndex {
        choose|t: TreeIndex| self@.contains_key(t) && self@[t] == term
    }

    /// A stored tree's index is the index of its tree.
    pub proof fn lemma_index_of(&self, t: TreeIndex)
        requires
            self.consistent(),
            self@.contains_key(t),
        ensures
            self.index_of(self@[t]) == t,
    {
        let u = self.index_of(self@[t]);
        assert(self@.contains_key(u) && self@[u] == self@[t]);
        self.lemma_unique(u, t);
    }

    /// The byte that the stored list of bits `start` stands for, least significant bit first.
    /// Where it stands for none: the first element that is not a bit, or `start` itself where
    /// the list is malformed otherwise.
    pub fn parse_byte(&self, start: TreeIndex) -> (r: Result<u8, TreeIndex>)
        requires
            self.well_formed(),
            self@.contains_key(start),
        ensures
            r matches Ok(b) ==> byte_of(self@[start]) == Some(b),
            r matches Err(e) ==> byte_of(self@[start]) is None && match byte_bad_bit(self@[start], 0) {
                Some(bit) => self@.contains_key(e) && self@[e] == bit,
                None => e == start,
            },
    {
        let mut tree = start;
        let mut i = 0u8;
        let mut byte = 0u8;
        proof {
            lemma2_to64();
        }
        loop
            invariant
                self.well_formed(),
                self@.contains_key(tree),
                i <= 8,
                byte < pow2(i as nat),
                byte_bits(self@[start], 0) == (match byte_bits(self@[tree], i as nat) {
                    Some(n) => Some(n + byte as nat),
                    None => None,
                }),
                byte_bad_bit(self@[start], 0) == byte_bad_bit(self@[tree], i as nat),
            decreases self.heights@[tree.pos() as int],
        {
            proof {
                self.lemma_node(tree);
            }
            match self.index(tree) {
                Tree::Leaf => {
                    proof {
                        lemma2_to64();
                    }
                    return Ok(byte);
                },
                Tree::Stem(_) => return Err(start),
                Tree::Fork(bit, rem_tree) => {
                    proof {
                        assert(self.node(tree).children()[0] == bit);
                        assert(self.node(tree).children()[1] == rem_tree);
                        self.lemma_visit(Set::empty(), tree, rem_tree);
                    }
                    if i > 7 {
                        return Err(start);
                    }
                    let b = match self.parse_bit(bit) {
                        Ok(b) => b,
                        Err(e) => return Err(e),
                    };
                    proof {
                        lemma_set_bit(byte, i);
                        if byte_bits(self@[rem_tree], (i + 1) as nat) is Some {
                            lemma_byte_bits_bound(self@[rem_tree], (i + 1) as nat);
                        }
                    }
                    byte |= (b as u8) << i;
                    i += 1;
                    tree = rem_tree;
                },
            }
        }
    }

    /// The elements of the stored list `start`, each turned into a value by `parse_element`;
    /// `start` itself where it is not a list or `parse_element` gives nothing for an element.
    pub fn parse_list<P, I>(&self, start: TreeIndex, parse_element: P) -> (r: Result<Vec<I>, TreeIndex>) where
        P: Fn(TreeIndex) -> Option<I>,
        requires
            self.consistent(),
            self@.contains_key(start),
            forall|e: TreeIndex| self@.contains_key(e) ==> call_requires(parse_element, (e,)),
        ensures
            r matches Ok(v) ==> list_of(self@[start]) matches Some(xs) && v@.len() == xs.len() && forall|k: int|
                0 <= k < xs.len() ==> call_ensures(parse_element, (self.index_of(xs[k]),), Some(#[trigger] v@[k])),
            r matches Err(e) ==> e == start && (list_of(self@[start]) is None || exists|k: int|
                0 <= k < list_of(self@[start])->Some_0.len() && call_ensures(
                    parse_element,
                    (self.index_of(list_of(self@[start])->Some_0[k]),),
                    None,
                )),
    {
        let mut elements: Vec<I> = Vec::with_capacity(256);
        let mut tree = start;
        let ghost mut done: Seq<Term> = Seq::empty();
        loop
            invariant
                self.consistent(),
                self@.contains_key(tree),
                forall|e: TreeIndex| self@.contains_key(e) ==> call_requires(parse_element, (e,)),
                list_of(self@[start]) == (match list_of(self@[tree]) {
                    Some(xs) => Some(done + xs),
                    None => None,
                }),
                elements@.len() == done.len(),
                forall|k: int|
                    0 <= k < done.len() ==> call_ensures(parse_element, (self.index_of(done[k]),), Some(#[trigger] elements@[k])),
            decreases self.heights@[tree.pos() as int],
        {
            proof {
                self.lemma_node(tree);
            }
            match self.index(tree) {
                Tree::Leaf => {
                    proof {
                        assert(done + Seq::<Term>::empty() =~= done);
                    }
                    return Ok(elements);
                },
                Tree::Stem(_) => return Err(start),
                Tree::Fork(element, rem_tree) => {
                    proof {
                        assert(self.node(tree).children()[0] == element);
                        assert(self.node(tree).children()[1] == rem_tree);
                        self.lemma_visit(Set::empty(), tree, rem_tree);
                        self.lemma_index_of(element);
                    }
                    let parsed = parse_element(element);
                    match parsed {
                        Some(x) => {
                            elements.push(x);
                        },
                        None => {
                            proof {
                                let xs = list_of(self@[start])->Some_0;
                                if list_of(self@[start]) is Some {
                                    let rest = list_of(self@[rem_tree])->Some_0;
                                    assert(xs == done + (seq![self@[element]] + rest));
                                    assert(xs[done.len() as int] == self@[element]);
                                }
                            }
                            return Err(start);
                        },
                    }
                    proof {
                        let rest = list_of(self@[rem_tree]);
                        if rest is Some {
                            assert(done.push(self@[element]) + rest->Some_0 =~= done + (seq![self@[element]] + rest->Some_0));
                        }
                        done = done.push(self@[element]);
                    }
                    tree = rem_tree;
                },
            }
        }
    }

    /// The bytes that the stored list of bytes `start` stands for; `start` itself where it
    /// stands for none.
    pub fn parse_bytes(&self, start: TreeIndex) -> (r: Result<Vec<u8>, TreeIndex>)
        requires
            self.well_formed(),
            self@.contains_key(start),
        ensures
            r matches Ok(v) ==> bytes_of(self@[start]) == Some(v@),
            r matches Err(e) ==> e == start && bytes_of(self@[start]) is None,
    {
        let parse_element = |l: TreeIndex| -> (b: Option<u8>)
            requires
                self.well_formed(),
                self@.contains_key(l),
            ensures
                b == byte_of(self@.index(l)),
            { self.parse_byte(l).ok() };
        let r = self.parse_list(start, parse_element);
        proof {
            match list_of(self@[start]) {
                Some(xs) => {
                    assert forall|k: int| 0 <= k < xs.len() implies self@.contains_key(#[trigger] self.index_of(xs[k]))
                        && self@[self.index_of(xs[k])] == xs[k] by {
                        self.lemma_list_stored(start, k);
                    }
                    if r is Ok {
                        let v = r->Ok_0@;
                        assert forall|k: int| 0 <= k < xs.len() implies byte_of(#[trigger] xs[k]) == Some(v[k]) by {
                            assert(call_ensures(parse_element, (self.index_of(xs[k]),), Some(v[k])));
                        }
                        assert(v =~= xs.map_values(|x: Term| byte_of(x)->Some_0));
                    }
                },
                None => {},
            }
        }
        r
    }

    /// The elements of a stored list are stored trees.
    proof fn lemma_list_stored(&self, start: TreeIndex, k: int)
        requires
            self.consistent(),
            self@.contains_key(start),
            list_of(self@[start]) is Some,
            0 <= k < list_of(self@[start])->Some_0.len(),
        ensures
            self@.contains_key(self.index_of(list_of(self@[start])->Some_0[k])),
            self@[self.index_of(list_of(self@[start])->Some_0[k])] == list_of(self@[start])->Some_0[k],
        decreases self.heights@[start.pos() as int],
    {
        self.lemma_node(start);
        match self.node(start) {
            Tree::Fork(e, rest) => {
                assert(self.node(start).children()[0] == e);
                assert(self.node(start).children()[1] == rest);
                self.lemma_visit(Set::empty(), start, rest);
                if k == 0 {
                    self.lemma_index_of(e);
                } else {
                    self.lemma_list_stored(rest, k - 1);
                }
            },
            _ => {},
        }
    }

    /// `s` holds the positions of `in_use` and of the five trees the store starts with, and
    /// with each stored tree the positions of its children.
    pub open spec fn keeps(&self, s: Set<int>, in_use: Seq<TreeIndex>) -> bool {
        &&& forall|k: int| 0 <= k < in_use.len() ==> s.contains(#[trigger] in_use[k].pos() as int)
        &&& forall|p: int| 0 <= p < Trees::CONSTANT_TREES ==> #[trigger] s.contains(p)
        &&& forall|t: TreeIndex, k: int|
            #![trigger s.contains(t.pos() as int), self.node(t).children()[k]]
            s.contains(t.pos() as int) && self@.contains_key(t) && 0 <= k < self.node(t).children().len()
                ==> s.contains(self.node(t).children()[k].pos() as int)
    }

    /// The slot at position `p` is reachable from `in_use` or from the five trees the store
    /// starts with: every set that `keeps` them holds it.
    pub open spec fn reachable(&self, in_use: Seq<TreeIndex>, p: int) -> bool {
        forall|s: Set<int>| #[trigger] self.keeps(s, in_use) ==> s.contains(p)
    }

    /// The positions in `[i, end)` that are not reachable, in increasing order.
    pub open spec fn dead_positions(&self, in_use: Seq<TreeIndex>, i: nat, end: nat) -> Seq<nat>
        decreases end - i,
    {
        if i >= end {
            Seq::empty()
        } else if self.reachable(in_use, i as int) {
            self.dead_positions(in_use, i + 1, end)
        } else {
            seq![i] + self.dead_positions(in_use, i + 1, end)
        }
    }

    /// The slots not reachable from the stored trees `in_use`, the five trees the store starts
    /// with being always reachable.
    pub fn get_dead(&self, in_use: &[TreeIndex]) -> (r: DeadTreesIter)
        requires
            self.well_formed(),
            forall|k: int| 0 <= k < in_use@.len() ==> self@.contains_key(#[trigger] in_use@[k]),
        ensures
            r.wf(),
            r.remaining() == self.dead_positions(in_use@, 0, self.spec_len()),
    {
        let len = self.trees.len();
        let bits = usize::BITS as usize;
        let bitmap_fields = len / bits + if len % bits == 0 { 0 } else { 1 };
        let mut tree_alive_bitmap: Vec<usize> = vec![0usize; bitmap_fields];
        let mut todo_stack: Vec<TreeIndex> = Vec::new();
        proof {
            lemma_word_bits();
            vstd::arithmetic::div_mod::lemma_fundamental_div_mod(len as int, bits as int);
            assert forall|p: nat| p < len implies #[trigger] bit_in_range(tree_alive_bitmap@, p) by {
                vstd::arithmetic::div_mod::lemma_div_is_ordered(p as int, len as int, bits as int);
            }
            assert forall|p: nat| p < len implies !#[trigger] bit_at(tree_alive_bitmap@, p) by {
                assert(bit_in_range(tree_alive_bitmap@, p));
                let w = tree_alive_bitmap@[(p / word_bits()) as int];
                let o = (p % word_bits()) as usize;
                assert(w == 0);
                assert(0usize & (1usize << o) == 0) by (bit_vector);
            }
        }
        let mut k: usize = 0;
        while k < in_use.len()
            invariant
                k <= in_use@.len(),
                todo_stack@ == in_use@.take(k as int),
            decreases in_use@.len() - k,
        {
            todo_stack.push(in_use[k]);
            k += 1;
            proof {
                assert(in_use@.take(k as int) == in_use@.take(k - 1).push(in_use@[k - 1]));
            }
        }
        assert(in_use@.take(in_use@.len() as int) == in_use@);
        let ghost mut marked: Set<int> = Set::empty();
        let mut i: usize = 0;
        while i < Self::CONSTANT_TREES
            invariant
                self.well_formed(),
                i <= Self::CONSTANT_TREES,
                len == self.trees.len(),
                tree_alive_bitmap@.len() == bitmap_fields,
                forall|p: nat| p < len ==> #[trigger] bit_in_range(tree_alive_bitmap@, p),
                forall|p: nat| p < len ==> (#[trigger] bit_at(tree_alive_bitmap@, p) <==> marked.contains(p as int)),
                marked == Set::new(|p: int| 0 <= p < i),
            decreases Self::CONSTANT_TREES - i,
        {
            proof {
                reveal(dag_ok);
            }
            let ghost bm0 = tree_alive_bitmap@;
            set_alive(&mut tree_alive_bitmap, i);
            proof {
                assert forall|p: nat| p < len implies #[trigger] bit_in_range(tree_alive_bitmap@, p) by {
                    assert(bit_in_range(bm0, p));
                }
                marked = marked.insert(i as int);
                assert(marked =~= Set::new(|p: int| 0 <= p < i + 1));
            }
            i += 1;
        }
        proof {
            self.lemma_constants();
            lemma_index_at(0);
            lemma_index_at(1);
            lemma_index_at(2);
            lemma_index_at(3);
            lemma_index_at(4);
            vstd::set_lib::lemma_int_range(0, 5);
            assert(marked =~= vstd::set_lib::set_int_range(0, 5));
            assert forall|t: TreeIndex, c: int|
                marked.contains(t.pos() as int) && self@.contains_key(t) && 0 <= c < self.node(t).children().len()
                    implies marked.contains(#[trigger] self.node(t).children()[c].pos() as int) by {
                TreeIndex::lemma_pos_injective(t, index_at(t.pos()));
            }
            assert forall|p: int| #[trigger] marked.contains(p) implies self.reachable(in_use@, p)
                && self@.contains_key(index_at(p as nat)) && index_at(p as nat).pos() == p by {
                lemma_index_at(p as nat);
            }
        }
        loop
            invariant
                self.well_formed(),
                len == self.trees.len(),
                tree_alive_bitmap@.len() == bitmap_fields,
                forall|p: nat| p < len ==> #[trigger] bit_in_range(tree_alive_bitmap@, p),
                forall|p: nat| p < len ==> (#[trigger] bit_at(tree_alive_bitmap@, p) <==> marked.contains(p as int)),
                marked.finite(),
                forall|p: int| #[trigger] marked.contains(p) ==> self.reachable(in_use@, p)
                    && self@.contains_key(index_at(p as nat)) && index_at(p as nat).pos() == p,
                forall|k: int| 0 <= k < todo_stack@.len() ==> self@.contains_key(#[trigger] todo_stack@[k])
                    && self.reachable(in_use@, todo_stack@[k].pos() as int),
                forall|t: TreeIndex, c: int|
                    marked.contains(t.pos() as int) && self@.contains_key(t) && 0 <= c < self.node(t).children().len()
                        ==> marked.contains(#[trigger] self.node(t).children()[c].pos() as int)
                        || todo_stack@.contains(self.node(t).children()[c]),
                forall|k: int| 0 <= k < in_use@.len() ==> marked.contains(#[trigger] in_use@[k].pos() as int)
                    || todo_stack@.contains(in_use@[k]),
                forall|p: int| 0 <= p < Trees::CONSTANT_TREES ==> #[trigger] marked.contains(p),
            ensures
                todo_stack@.len() == 0,
            decreases len - marked.len(), todo_stack@.len(),
        {
            let ghost st = todo_stack@;
            match todo_stack.pop() {
                None => break,
                Some(idx) => {
                    proof {
                        assert(st.last() == idx);
                        assert(self@.contains_key(st[st.len() - 1]));
                        assert(forall|k: int| 0 <= k < todo_stack@.len() ==> todo_stack@[k] == st[k]);
                        assert(forall|t: TreeIndex| st.contains(t) ==> t == idx || todo_stack@.contains(t)) by {
                            assert forall|t: TreeIndex| st.contains(t) implies t == idx || todo_stack@.contains(t) by {
                                let k = choose|k: int| 0 <= k < st.len() && st[k] == t;
                                if k < st.len() - 1 {
                                    assert(todo_stack@[k] == t);
                                }
                            }
                        }
                    }
                    let iidx = idx.idx();
                    proof {
                        reveal(dag_ok);
                        assert(live_in(self.trees@, idx.pos()));
                    }
                    if bitmap_get_alive(&tree_alive_bitmap, iidx) {
                        continue ;
                    }
                    let ghost bm0 = tree_alive_bitmap@;
                    set_alive(&mut tree_alive_bitmap, iidx);
                    let ghost old_marked = marked;
                    proof {
                        assert forall|p: nat| p < len implies #[trigger] bit_in_range(tree_alive_bitmap@, p) by {
                            assert(bit_in_range(bm0, p));
                        }
                        marked = marked.insert(iidx as int);
                        vstd::set_lib::lemma_int_range(0, len as int);
                        assert(marked.subset_of(vstd::set_lib::set_int_range(0, len as int))) by {
                            assert forall|p: int| #[trigger] marked.contains(p) implies 0 <= p < len by {
                                if p != iidx {
                                    assert(old_marked.contains(p));
                                    reveal(dag_ok);
                                    assert(live_in(self.trees@, index_at(p as nat).pos()));
                                }
                            }
                        }
                        vstd::set_lib::lemma_len_subset(marked, vstd::set_lib::set_int_range(0, len as int));
                        assert forall|p: nat| p < len implies (#[trigger] bit_at(tree_alive_bitmap@, p) <==> marked.contains(p as int)) by {
                            if p != iidx {
                                assert(bit_in_range(bm0, p));
                            }
                        }
                        lemma_index_at(idx.pos());
                        TreeIndex::lemma_pos_injective(idx, index_at(idx.pos()));
                        self.lemma_node(idx);
                    }
                    let children = self.index(idx).iter_children();
                    let ghost before = todo_stack@;
                    let mut c: usize = 0;
                    while c < children.len()
                        invariant
                            c <= children@.len(),
                            children@ == self.node(idx).children(),
                            todo_stack@ == before + children@.take(c as int),
                        decreases children@.len() - c,
                    {
                        todo_stack.push(children[c]);
                        c += 1;
                        proof {
                            assert(children@.take(c as int) == children@.take(c - 1).push(children@[c - 1]));
                        }
                    }
                    proof {
                        assert(children@.take(children@.len() as int) == children@);
                        let ch = self.node(idx).children();
                        assert forall|k: int| 0 <= k < todo_stack@.len() implies self@.contains_key(#[trigger] todo_stack@[k])
                            && self.reachable(in_use@, todo_stack@[k].pos() as int) by {
                            if k >= before.len() {
                                let j = k - before.len();
                                assert(todo_stack@[k] == ch[j]);
                                assert forall|s: Set<int>| #[trigger] self.keeps(s, in_use@) implies s.contains(ch[j].pos() as int) by {
                                    assert(s.contains(idx.pos() as int));
                                }
                            } else {
                                assert(todo_stack@[k] == before[k]);
                            }
                        }
                        assert forall|t: TreeIndex, cc: int|
                            marked.contains(t.pos() as int) && self@.contains_key(t) && 0 <= cc < self.node(t).children().len()
                                implies marked.contains(#[trigger] self.node(t).children()[cc].pos() as int)
                                || todo_stack@.contains(self.node(t).children()[cc]) by {
                            let child = self.node(t).children()[cc];
                            if t == idx {
                                assert(todo_stack@[before.len() + cc] == child);
                            } else {
                                assert(t.pos() != idx.pos());
                                assert(old_marked.contains(t.pos() as int));
                                if st.contains(child) && !old_marked.contains(child.pos() as int) {
                                    if child != idx {
                                        assert(before.contains(child));
                                        let j = choose|j: int| 0 <= j < before.len() && before[j] == child;
                                        assert(todo_stack@[j] == child);
                                    }
                                }
                            }
                        }
                        assert forall|k: int| 0 <= k < in_use@.len() implies marked.contains(#[trigger] in_use@[k].pos() as int)
                            || todo_stack@.contains(in_use@[k]) by {
                            let t = in_use@[k];
                            if !old_marked.contains(t.pos() as int) && t != idx {
                                assert(before.contains(t));
                                let j = choose|j: int| 0 <= j < before.len() && before[j] == t;
                                assert(todo_stack@[j] == t);
                            }
                        }
                    }
                },
            }
        }
        proof {
            assert(self.keeps(marked, in_use@)) by {
                assert forall|t: TreeIndex, k: int|
                    #![trigger marked.contains(t.pos() as int), self.node(t).children()[k]]
                    marked.contains(t.pos() as int) && self@.contains_key(t) && 0 <= k < self.node(t).children().len()
                        implies marked.contains(self.node(t).children()[k].pos() as int) by {
                    assert(marked.contains(self.node(t).children()[k].pos() as int) || todo_stack@.contains(self.node(t).children()[k]));
                }
                assert forall|k: int| 0 <= k < in_use@.len() implies marked.contains(#[trigger] in_use@[k].pos() as int) by {
                    assert(marked.contains(in_use@[k].pos() as int) || todo_stack@.contains(in_use@[k]));
                }
            }
            assert forall|p: nat| p < len implies (#[trigger] bit_at(tree_alive_bitmap@, p) <==> self.reachable(in_use@, p as int)) by {
                if self.reachable(in_use@, p as int) {
                    assert(self.keeps(marked, in_use@));
                }
            }
            self.lemma_clear_bits(in_use@, tree_alive_bitmap@, 0, len as nat);
        }
        DeadTreesIter { alive_bitmap: tree_alive_bitmap, next_idx: 0, end_idx: self.trees.len() }
    }

    /// Frees every slot not reachable from the stored trees `in_use` (nor from the five trees
    /// the store starts with), linking them in increasing order as the list of free slots;
    /// unless more than a fifth of the slots are free already, in which case it does nothing.
    pub fn collect_garbage(&mut self, in_use: &[TreeIndex])
        requires
            old(self).at_rest(),
            old(self).spec_total_free() * 5 <= old(self).spec_len() ==> forall|k: int| 0 <= k < in_use@.len()
                ==> old(self)@.contains_key(#[trigger] in_use@[k]),
        ensures
            final(self).at_rest(),
            final(self).spec_len() == old(self).spec_len(),
            old(self).spec_total_free() * 5 > old(self).spec_len() ==> final(self)@ == old(self)@
                && final(self).spec_total_free() == old(self).spec_total_free()
                && final(self).free_slots() == old(self).free_slots(),
            old(self).spec_total_free() * 5 <= old(self).spec_len() ==> {
                &&& forall|t: TreeIndex| #[trigger] final(self)@.contains_key(t) <==> old(self)@.contains_key(t)
                    && old(self).reachable(in_use@, t.pos() as int)
                &&& forall|t: TreeIndex| #[trigger] final(self)@.contains_key(t) ==> final(self)@[t] == old(self)@[t]
                &&& final(self).spec_total_free() == old(self).dead_positions(in_use@, 0, old(self).spec_len()).len()
                &&& final(self).free_slots() == old(self).dead_positions(in_use@, 0, old(self).spec_len())
            },
    {
        if (self.total_free as u128) * 5 > (self.trees.len() as u128) {
            return ;
        }
        let ghost ts1 = self.trees@;
        let ghost hs = self.heights@;
        let ghost m1 = self.indexed_trees@;
        let ghost v1 = self@;
        let ghost d = self.dead_positions(in_use@, 0, self.spec_len());
        let ghost n = d.len();
        let ghost keep = Set::new(|p: nat| p < ts1.len() && self.reachable(in_use@, p as int));
        proof {
            self.lemma_dead_positions(in_use@, 0, self.spec_len());
            self.lemma_reach(in_use@);
        }
        let mut free_indices = self.get_dead(in_use);
        let end = self.trees.len();
        let mut last_free_idx: usize = 0;
        self.total_free = 0;
        let mut i: usize = 0;
        let mut finished = false;
        proof {
            lemma_gc_start(ts1, m1, d);
        }
        while !finished
            invariant
                end == ts1.len(),
                ts1.len() < u32::MAX,
                self.trees@.len() == end,
                self.heights@ == hs,
                self.cache() == old(self).cache(),
                n == d.len(),
                i <= n + 1,
                finished <==> i == n + 1,
                !finished ==> free_indices.wf() && free_indices.remaining() == d.skip(i as int),
                gc_progress(ts1, m1, d, self.trees@, self.indexed_trees@, i as nat),
                i >= 1 ==> last_free_idx == (if i - 1 < n { d[i - 1] } else { end as nat }),
                i >= 1 ==> self.next_free == (if n > 0 { d[0] } else { end as nat }),
                self.total_free == gc_written(i as nat),
                index_ok(ts1, m1),
                dag_ok(ts1, hs),
            decreases n + 1 - i,
        {
            let ghost t_before = self.trees@;
            let ghost m_before = self.indexed_trees@;
            let to_be_freed = match free_indices.next() {
                Some(idx) => idx,
                None => {
                    finished = true;
                    end
                },
            };
            proof {
                if i < n {
                    assert(!finished);
                    assert(to_be_freed as nat == d[i as int]);
                    lemma_gc_read(ts1, m1, d, t_before, m_before, i as nat);
                } else {
                    assert(d.skip(i as int).len() == 0);
                    assert(finished);
                }
                assert(increasing_below(d, ts1.len())) by {
                    reveal(gc_progress);
                }
                lemma_increasing_len(d, ts1.len() as nat);
                if i >= 1 && i - 1 < n {
                    assert(d[i - 1] < ts1.len());
                }
                assert(t_before.len() == ts1.len()) by {
                    reveal(gc_progress);
                }
            }
            if to_be_freed < self.trees.len() {
                let entry = self.trees[to_be_freed];
                if Tree::try_from_entry(entry).is_ok() {
                    proof {
                        reveal(dag_ok);
                        assert(live_in(ts1, to_be_freed as nat));
                        assert(children_lower(ts1, hs, to_be_freed as nat));
                        assert(entry_in_range(entry));
                    }
                    table_remove(&mut self.indexed_trees, entry.key());
                }
            }
            if i == 0 {
                self.next_free = to_be_freed;
            } else {
                let link = TreeStoreEntry::free_entry(TreeIndex::from_idx(to_be_freed));
                proof {
                    lemma_index_at(to_be_freed as nat);
                    TreeIndex::lemma_pos_injective(link.lhs_or_free_entry->Some_0, index_at(to_be_freed as nat));
                    assert(link == free_link(gc_next(d, i - 1, end as nat)));
                }
                self.trees.set(last_free_idx, link);
                self.total_free += 1;
            }
            last_free_idx = to_be_freed;
            proof {
                lemma_gc_step(ts1, m1, d, t_before, m_before, i as nat, self.trees@, self.indexed_trees@);
            }
            i += 1;
        }
        proof {
            let ts2 = self.trees@;
            assert forall|p: nat| p < ts1.len() implies (d.contains(p) <==> !(#[trigger] keep.contains(p))) by {}
            assert forall|p: nat| #[trigger] keep.contains(p) implies p < ts1.len() && live_in(ts1, p) && forall|k: int|
                0 <= k < node_of(ts1[p as int]).children().len() ==> keep.contains(
                    #[trigger] node_of(ts1[p as int]).children()[k].pos(),
                ) by {
                assert forall|k: int| 0 <= k < node_of(ts1[p as int]).children().len() implies keep.contains(
                    #[trigger] node_of(ts1[p as int]).children()[k].pos()) by {
                    let c = node_of(ts1[p as int]).children()[k];
                    assert(old(self).reachable(in_use@, c.pos() as int));
                    assert(live_in(ts1, c.pos()));
                }
            }
            lemma_gc_finish(ts1, hs, m1, d, ts2, self.indexed_trees@, keep);
            lemma_gc_consistent(ts1, hs, m1, ts2, self.indexed_trees@, d, keep);
            self.free_list@ = d;
            assert forall|t: TreeIndex| #[trigger] self@.contains_key(t) <==> v1.contains_key(t)
                && old(self).reachable(in_use@, t.pos() as int) by {}
            assert forall|t: TreeIndex| #[trigger] self@.contains_key(t) implies self@[t] == v1[t] by {
                lemma_term_frame(ts1, hs, ts2, hs, keep, t.pos());
            }
            old(self).lemma_constants();
            lemma_index_at(0);
            lemma_index_at(1);
            lemma_index_at(2);
            lemma_index_at(3);
            lemma_index_at(4);
            assert forall|p: int| 0 <= p < Trees::CONSTANT_TREES implies #[trigger] keep.contains(p as nat) by {
                assert forall|s: Set<int>| #[trigger] old(self).keeps(s, in_use@) implies s.contains(p) by {}
            }
            lemma_gc_live(ts1, hs, m1, ts2, self.indexed_trees@, d, keep);
            assert(keep.contains(0) && keep.contains(1) && keep.contains(2) && keep.contains(3) && keep.contains(4));
            assert(constants_ok(ts1));
            assert(constants_ok(ts2));
        }
    }

    /// Reachable slots hold stored trees, and the children of a reachable stored tree are
    /// reachable.
    proof fn lemma_reach(&self, in_use: Seq<TreeIndex>)
        requires
            self.well_formed(),
            forall|k: int| 0 <= k < in_use.len() ==> self@.contains_key(#[trigger] in_use[k]),
        ensures
            forall|p: int| 0 <= p && #[trigger] self.reachable(in_use, p) ==> live_in(self.trees@, p as nat),
            forall|p: nat, k: int|
                #![trigger self.reachable(in_use, p as int), node_of(self.trees@[p as int]).children()[k]]
                self.reachable(in_use, p as int) && live_in(self.trees@, p) && 0 <= k < node_of(self.trees@[p as int]).children().len()
                    ==> self.reachable(in_use, node_of(self.trees@[p as int]).children()[k].pos() as int),
    {
        let ts = self.trees@;
        let live = Set::new(|p: int| 0 <= p && live_in(ts, p as nat));
        self.lemma_constants();
        lemma_index_at(0);
        lemma_index_at(1);
        lemma_index_at(2);
        lemma_index_at(3);
        lemma_index_at(4);
        assert(self.keeps(live, in_use)) by {
            assert forall|p: int| 0 <= p < Trees::CONSTANT_TREES implies #[trigger] live.contains(p) by {
                assert(self@.contains_key(index_at(p as nat)));
            }
            assert forall|t: TreeIndex, k: int|
                #![trigger live.contains(t.pos() as int), self.node(t).children()[k]]
                live.contains(t.pos() as int) && self@.contains_key(t) && 0 <= k < self.node(t).children().len()
                    implies live.contains(self.node(t).children()[k].pos() as int) by {
                self.lemma_node(t);
                assert(self@.contains_key(self.node(t).children()[k]));
            }
            assert forall|k: int| 0 <= k < in_use.len() implies live.contains(#[trigger] in_use[k].pos() as int) by {
                assert(self@.contains_key(in_use[k]));
            }
        }
        assert forall|p: nat, k: int|
            #![trigger self.reachable(in_use, p as int), node_of(self.trees@[p as int]).children()[k]]
            self.reachable(in_use, p as int) && live_in(self.trees@, p) && 0 <= k < node_of(self.trees@[p as int]).children().len()
                implies self.reachable(in_use, node_of(self.trees@[p as int]).children()[k].pos() as int) by {
            lemma_index_at(p);
            let t = index_at(p);
            assert(self@.contains_key(t));
            assert(self.node(t) == node_of(self.trees@[p as int]));
            assert forall|s: Set<int>| #[trigger] self.keeps(s, in_use) implies s.contains(node_of(self.trees@[p as int]).children()[k].pos() as int) by {
                assert(s.contains(t.pos() as int));
            }
        }
    }

    /// The unreachable positions of `[i, end)` are listed in increasing order, each once.
    proof fn lemma_dead_positions(&self, in_use: Seq<TreeIndex>, i: nat, end: nat)
        ensures
            forall|k: int| 0 <= k < self.dead_positions(in_use, i, end).len() ==> i <= #[trigger] self.dead_positions(in_use, i, end)[k] < end,
            forall|j: int, k: int| 0 <= j < k < self.dead_positions(in_use, i, end).len() ==> #[trigger] self.dead_positions(in_use, i, end)[j]
                < #[trigger] self.dead_positions(in_use, i, end)[k],
            forall|p: nat| #[trigger] self.dead_positions(in_use, i, end).contains(p)
                <==> i <= p < end && !self.reachable(in_use, p as int),
        decreases end - i,
    {
        if i < end {
            self.lemma_dead_positions(in_use, i + 1, end);
            let rest = self.dead_positions(in_use, i + 1, end);
            let dp = self.dead_positions(in_use, i, end);
            if !self.reachable(in_use, i as int) {
                assert(dp == seq![i] + rest);
                assert forall|p: nat| #[trigger] dp.contains(p) <==> i <= p < end && !self.reachable(in_use, p as int) by {
                    if dp.contains(p) && p != i {
                        let k = choose|k: int| 0 <= k < dp.len() && dp[k] == p;
                        assert(k != 0);
                        assert(rest[k - 1] == p);
                        assert(rest.contains(p));
                    }
                    if i < p < end && !self.reachable(in_use, p as int) {
                        assert(rest.contains(p));
                        let k = choose|k: int| 0 <= k < rest.len() && rest[k] == p;
                        assert(dp[k + 1] == p);
                    }
                    if p == i {
                        assert(dp[0] == i);
                    }
                }
            } else {
                assert(dp == rest);
                assert forall|p: nat| #[trigger] dp.contains(p) <==> i <= p < end && !self.reachable(in_use, p as int) by {
                    if p == i && rest.contains(p) {
                        let k = choose|k: int| 0 <= k < rest.len() && rest[k] == p;
                        assert(rest[k] >= i + 1);
                    }
                }
            }
        }
    }

    proof fn lemma_clear_bits(&self, in_use: Seq<TreeIndex>, words: Seq<usize>, i: nat, end: nat)
        requires
            forall|p: nat| i <= p < end ==> (#[trigger] bit_at(words, p) <==> self.reachable(in_use, p as int)),
        ensures
            clear_bits(words, i, end) == self.dead_positions(in_use, i, end),
        decreases end - i,
    {
        if i < end {
            self.lemma_clear_bits(in_use, words, i + 1, end);
        }
    }

    /// The count of nodes of the stored tree `tree`, shared subtrees counted each time.
    pub fn count_nodes(&self, tree: TreeIndex) -> (r: usize)
        requires
            self.consistent(),
            self@.contains_key(tree),
            node_count(self@[tree]) <= usize::MAX,
        ensures
            r == node_count(self@[tree]),
    {
        let mut trees_stack: Vec<TreeIndex> = Vec::with_capacity(256);
        trees_stack.push(tree);
        let mut total: usize = 0;
        proof {
            assert(trees_stack@.drop_last() =~= Seq::<TreeIndex>::empty());
            assert(self.stack_count(Seq::<TreeIndex>::empty()) == 0);
        }
        loop
            invariant
                self.consistent(),
                self@.contains_key(tree),
                node_count(self@[tree]) <= usize::MAX,
                forall|k: int| 0 <= k < trees_stack@.len() ==> self@.contains_key(#[trigger] trees_stack@[k]),
                total + self.stack_count(trees_stack@) == node_count(self@[tree]),
            decreases self.stack_count(trees_stack@),
        {
            let ghost st = trees_stack@;
            match trees_stack.pop() {
                None => {
                    return total;
                },
                Some(t) => {
                    proof {
                        assert(st.last() == t);
                        assert(self@.contains_key(st[st.len() - 1]));
                        self.lemma_node(t);
                    }
                    assert(self.stack_count(st) == node_count(self@[t]) + self.stack_count(st.drop_last()));
                    assert(forall|k: int| 0 <= k < st.drop_last().len() ==> self@.contains_key(#[trigger] st.drop_last()[k])) by {
                        assert(forall|k: int| 0 <= k < st.drop_last().len() ==> st.drop_last()[k] == st[k]);
                    }
                    total += 1;
                    match self.index(t) {
                        Tree::Leaf => {},
                        Tree::Stem(inner) => {
                            assert(self.node(t).children()[0] == inner);
                            trees_stack.push(inner);
                            proof {
                                assert(trees_stack@.drop_last() == st.drop_last());
                                assert(self.stack_count(trees_stack@) == node_count(self@[inner])
                                    + self.stack_count(st.drop_last()));
                            }
                        },
                        Tree::Fork(lhs, rhs) => {
                            assert(self.node(t).children()[0] == lhs);
                            assert(self.node(t).children()[1] == rhs);
                            trees_stack.push(lhs);
                            trees_stack.push(rhs);
                            proof {
                                assert(trees_stack@.drop_last() == st.drop_last().push(lhs));
                                assert(st.drop_last().push(lhs).drop_last() == st.drop_last());
                                assert(self.stack_count(st.drop_last().push(lhs)) == node_count(self@[lhs])
                                    + self.stack_count(st.drop_last()));
                                assert(self.stack_count(trees_stack@) == node_count(self@[rhs])
                                    + self.stack_count(st.drop_last().push(lhs)));
                            }
                        },
                    }
                },
            }
        }
    }

    /// The node counts of the stored trees `s`, added up.
    pub closed spec fn stack_count(&self, s: Seq<TreeIndex>) -> nat
        decreases s.len(),
    {
        if s.len() == 0 {
            0
        } else {
            node_count(self@[s.last()]) + self.stack_count(s.drop_last())
        }
    }

    fn get_debug_checked(&self, idx: usize) -> (r: TreeStoreEntry)
        requires
            idx < self.trees.len(),
        ensures
            r == self.trees@[idx as int],
    {
        self.trees[idx]
    }

    /// Stores `tree` in a free slot, or in a new one where none is free.
    #[verifier::rlimit(60)]
    fn push_and_index(&mut self, tree: Tree) -> (idx: TreeIndex)
        requires
            old(self).consistent(),
            old(self).holds(tree),
            old(self).has_room(),
            !old(self).indexed_trees@.contains_key(entry_key(entry_of(tree)) as u64),
        ensures
            final(self).consistent(),
            !old(self)@.contains_key(idx),
            final(self)@ == old(self)@.insert(idx, old(self).node_term(tree)),
            final(self).node(idx) == tree,
            forall|t: TreeIndex| #[trigger] old(self)@.contains_key(t) ==> final(self).node(t) == old(self).node(t),
            old(self).spec_total_free() > 0 ==> final(self).spec_total_free() == old(self).spec_total_free() - 1
                && final(self).spec_len() == old(self).spec_len(),
            old(self).spec_total_free() == 0 ==> final(self).spec_total_free() == 0
                && final(self).spec_len() == old(self).spec_len() + 1
                && idx.pos() == old(self).spec_len(),
            idx.pos() == old(self).next_slot(),
            final(self).free_slots() == (if old(self).free_slots().len() == 0 {
                old(self).free_slots()
            } else {
                old(self).free_slots().drop_first()
            }),
            final(self).cache() == old(self).cache(),
            final(self).evaluation_unchanged(*old(self)),
            constants_ok(old(self).trees@) ==> constants_ok(final(self).trees@),
    {
        let ghost ts1 = self.trees@;
        let ghost hs1 = self.heights@;
        let ghost fl1 = self.free_list@;
        let ghost h = self.height_for(tree);
        let ghost v1 = self@;
        proof {
            reveal(free_list_ok);
            if fl1.len() > 0 {
                assert(fl1[0] < ts1.len());
            }
        }
        let entry = TreeStoreEntry::from(tree);
        assert(entry == entry_of(tree));
        let idx = TreeIndex::from_idx(self.next_free);
        assert(idx.pos() == old(self).next_slot() && (fl1.len() == 0 <==> self.next_free == self.trees.len())) by {
            reveal(free_list_ok);
        }
        if self.next_free == self.trees.len() {
            self.trees.push(entry);
            self.next_free += 1;
            proof {
                self.heights@ = hs1.push(h);
            }
        } else {
            let free_list_node = self.get_debug_checked(self.next_free);
            let next_free = free_list_node.get_free();
            assert(fl1.len() > 0 && is_free(free_list_node)
                && free_list_node.lhs_or_free_entry->Some_0.pos() == (if fl1.len() > 1 { fl1[1] } else { ts1.len() })) by {
                reveal(free_list_ok);
            }
            assert(free_list_node == ts1[fl1[0] as int]);
            self.trees.set(self.next_free, entry);
            self.next_free = next_free.unwrap().idx();
            self.total_free -= 1;
            proof {
                self.heights@ = hs1.update(idx.pos() as int, h);
                self.free_list@ = fl1.drop_first();
            }
        }
        let ghost p = idx.pos();
        let ghost ts2 = self.trees@;
        let ghost hs2 = self.heights@;
        proof {
            assert(!live_in(ts1, p)) by {
                reveal(free_list_ok);
                if p < ts1.len() {
                    assert(fl1[0] == p);
                }
            }
            lemma_place_dag(ts1, hs1, ts2, hs2, p, tree);
            lemma_place_free_list(ts1, fl1, ts2, self.free_list@, p, entry);
        }
        assert(entry_in_range(entry)) by {
            match tree {
                Tree::Leaf => {},
                Tree::Stem(c) => {
                    assert(tree.children()[0] == c);
                    assert(v1.contains_key(c));
                },
                Tree::Fork(l, r) => {
                    assert(tree.children()[0] == l);
                    assert(tree.children()[1] == r);
                    assert(v1.contains_key(l));
                    assert(v1.contains_key(r));
                },
            }
        }
        table_insert(&mut self.indexed_trees, entry.key(), idx);
        proof {
            lemma_place_index(ts1, old(self).indexed_trees@, ts2, self.indexed_trees@, idx, entry);
            let keep = Set::new(|j: nat| live_in(ts1, j));
            lemma_term_unfold(ts2, hs2, p);
            match tree {
                Tree::Leaf => {},
                Tree::Stem(c) => {
                    assert(tree.children()[0] == c);
                    lemma_term_frame(ts1, hs1, ts2, hs2, keep, c.pos());
                },
                Tree::Fork(l, r) => {
                    assert(tree.children()[0] == l);
                    assert(tree.children()[1] == r);
                    lemma_term_frame(ts1, hs1, ts2, hs2, keep, l.pos());
                    lemma_term_frame(ts1, hs1, ts2, hs2, keep, r.pos());
                },
            }
            assert forall|t: TreeIndex| #[trigger] v1.contains_key(t) implies self@.contains_key(t)
                && self@[t] == v1[t] by {
                lemma_term_frame(ts1, hs1, ts2, hs2, keep, t.pos());
            }
            assert(self@[idx] == old(self).node_term(tree));
            assert forall|t: TreeIndex| self@.contains_key(t) <==> v1.insert(idx, old(self).node_term(tree)).contains_key(t) by {
                TreeIndex::lemma_pos_injective(t, idx);
            }
            assert(self@ =~= v1.insert(idx, old(self).node_term(tree)));
        }
        idx
    }
}

} // verus!
