//! Texts for people: a tree drawn as a graph, and an error shown at its place in the source.
use vstd::prelude::*;
use vstd::string::*;
use vstd::utf8::*;

use crate::calculus::Term;
use crate::fast_tree::{Tree, TreeIndex, Trees};
use crate::lexer::{lemma_boundary_after_ascii, text_slice, Span};
use crate::optimizations::size;
use crate::text::{decimal, decimal_text};

verus! {

/// The edge `nx->ny;` of a graph.
pub open spec fn edge(x: nat, y: nat) -> Seq<char> {
    "n"@ + decimal(x) + "->n"@ + decimal(y) + ";"@
}

/// The edges of the tree `t` drawn with its root numbered `id` and its nodes numbered in
/// order, with the number after the last node.
pub open spec fn dot_edges(t: Term, id: nat) -> (Seq<char>, nat)
    decreases t,
{
    match t {
        Term::Leaf => (Seq::empty(), id + 1),
        Term::Stem(a) => {
            let (s, n) = dot_edges(*a, id + 1);
            (edge(id, id + 1) + s, n)
        },
        Term::Fork(a, b) => {
            let (sa, na) = dot_edges(*a, id + 1);
            let (sb, nb) = dot_edges(*b, na);
            (edge(id, id + 1) + sa + edge(id, na) + sb, nb)
        },
    }
}

/// The graph of the tree `t` named `name`, in the language of Graphviz.
pub open spec fn dot_graph(name: Seq<char>, t: Term) -> Seq<char> {
    "digraph T {\n            label=\""@ + name + "\"\n            node [label=\"\", shape=circle];\n        "@
        + dot_edges(t, 0).0 + "}"@
}

/// The numbering of a tree's nodes gives each node one number.
pub proof fn lemma_dot_count(t: Term, id: nat)
    ensures
        dot_edges(t, id).1 == id + size(t),
    decreases t,
{
    match t {
        Term::Leaf => {},
        Term::Stem(a) => {
            lemma_dot_count(*a, id + 1);
        },
        Term::Fork(a, b) => {
            lemma_dot_count(*a, id + 1);
            lemma_dot_count(*b, dot_edges(*a, id + 1).1);
        },
    }
}

/// Writes the edges of the stored tree `tree`, its root numbered `id`, after `buf`, and gives
/// the number after the last node.
fn visualize_tree_inner(buf: &mut String, trees: &Trees, tree: TreeIndex, id: u64) -> (r: u64)
    requires
        trees.consistent(),
        trees@.contains_key(tree),
        id + size(trees@[tree]) < u64::MAX,
    ensures
        final(buf)@ == old(buf)@ + dot_edges(trees@[tree], id as nat).0,
        r == dot_edges(trees@[tree], id as nat).1,
    decreases trees@[tree],
{
    proof {
        lemma_dot_count(trees@[tree], id as nat);
    }
    let ghost t = trees@[tree];
    match trees.index(tree) {
        Tree::Leaf => id + 1,
        Tree::Stem(value) => {
            assert(Tree::Stem(value).children()[0] == value);
            let next_id = id + 1;
            push_edge(buf, id, next_id);
            proof {
                assert(*t->Stem_0 == trees@[value]);
                assert(decreases_to!(t => t->Stem_0));
            }
            visualize_tree_inner(buf, trees, value, next_id)
        },
        Tree::Fork(lhs, rhs) => {
            assert(Tree::Fork(lhs, rhs).children()[0] == lhs && Tree::Fork(lhs, rhs).children()[1] == rhs);
            let next_id = id + 1;
            push_edge(buf, id, next_id);
            proof {
                assert(*t->Fork_0 == trees@[lhs]);
                assert(*t->Fork_1 == trees@[rhs]);
                assert(decreases_to!(t => t->Fork_0));
                assert(decreases_to!(t => t->Fork_1));
                lemma_dot_count(trees@[lhs], next_id as nat);
            }
            let next_id = visualize_tree_inner(buf, trees, lhs, next_id);
            push_edge(buf, id, next_id);
            visualize_tree_inner(buf, trees, rhs, next_id)
        },
    }
}

/// Writes the edge `nx->ny;` after `buf`.
fn push_edge(buf: &mut String, x: u64, y: u64)
    ensures
        final(buf)@ == old(buf)@ + edge(x as nat, y as nat),
{
    buf.append("n");
    let a = decimal_text(x as u128);
    buf.append(a.as_str());
    buf.append("->n");
    let b = decimal_text(y as u128);
    buf.append(b.as_str());
    buf.append(";");
}

/// Replaces `buf` with the graph of the stored tree `tree` named `name`, in the language of
/// Graphviz.
pub fn visualize_tree(buf: &mut String, trees: &Trees, name: &str, tree: TreeIndex)
    requires
        trees.consistent(),
        trees@.contains_key(tree),
        size(trees@[tree]) < u64::MAX,
    ensures
        final(buf)@ == dot_graph(name@, trees@[tree]),
{
    *buf = String::new();
    buf.append("digraph T {\n            label=\"");
    buf.append(name);
    buf.append("\"\n            node [label=\"\", shape=circle];\n        ");
    visualize_tree_inner(buf, trees, tree, 0);
    buf.append("}");
}

/// The number of line breaks among the first `i` bytes of `b`.
pub open spec fn count_newlines(b: Seq<u8>, i: nat) -> nat
    decreases i,
{
    if i == 0 || i > b.len() {
        0
    } else {
        count_newlines(b, (i - 1) as nat) + if b[i - 1] == 0x0a { 1nat } else { 0nat }
    }
}

/// The position just after the last line break among the first `i` bytes of `b`, or 0.
pub open spec fn line_start(b: Seq<u8>, i: nat) -> nat
    decreases i,
{
    if i == 0 || i > b.len() {
        0
    } else if b[i - 1] == 0x0a {
        i
    } else {
        line_start(b, (i - 1) as nat)
    }
}

/// The position of the first line break at or after position `i` of `b`, or its length.
pub open spec fn line_end(b: Seq<u8>, i: nat) -> nat
    decreases b.len() - i,
{
    if i >= b.len() {
        b.len()
    } else if b[i as int] == 0x0a {
        i
    } else {
        line_end(b, i + 1)
    }
}

/// `n` spaces.
pub open spec fn spaces(n: nat) -> Seq<char> {
    Seq::new(n, |i: int| ' ')
}

/// `n` carets.
pub open spec fn carets(n: nat) -> Seq<char> {
    Seq::new(n, |i: int| '^')
}

/// The error `reason` shown at the byte range `start..end` of the text `b`: the line that
/// holds `start` (after its number where `with_line_number`), under it carets at the bytes of
/// the range on that line, then the reason. A range that starts at a line break belongs to
/// the line after it; one that starts at the end of the text is shown with no line.
pub open spec fn error_text(b: Seq<u8>, reason: Seq<char>, start: nat, end: nat, with_line_number: bool) -> Seq<char> {
    let shown = if start < b.len() {
        let k = count_newlines(b, start + 1) + 1;
        let ls = line_start(b, start + 1);
        let le = line_end(b, start + 1);
        let text = decode_utf8(b.subrange(ls as int, le as int));
        let head = if with_line_number {
            decimal(k) + " | "@ + text + "\n"@ + spaces(decimal(k).len() + 3)
        } else {
            text + "\n"@
        };
        let before = if start < le { start } else { le };
        let after = if end < le { end } else { le };
        let cs = if ls <= before { before - ls } else { 0 };
        let from = if start > ls { start } else { ls };
        let ct = if from <= after { after - from } else { 0 };
        head + spaces(cs as nat) + carets(ct as nat)
    } else {
        Seq::empty()
    };
    shown + "\n"@ + reason + "\n"@
}

proof fn lemma_line_start(b: Seq<u8>, i: nat)
    requires
        i <= b.len(),
    ensures
        line_start(b, i) <= i,
        line_start(b, i) == 0 || b[line_start(b, i) - 1] == 0x0a,
    decreases i,
{
    if i > 0 && b[i - 1] != 0x0a {
        lemma_line_start(b, (i - 1) as nat);
    }
}

proof fn lemma_line_end(b: Seq<u8>, i: nat)
    requires
        i <= b.len(),
    ensures
        i <= line_end(b, i) <= b.len(),
        line_end(b, i) == b.len() || b[line_end(b, i) as int] == 0x0a,
    decreases b.len() - i,
{
    if i < b.len() && b[i as int] != 0x0a {
        lemma_line_end(b, i + 1);
    }
}

/// The text that shows the error `reason` at the byte range `span` of `source`: the line
/// that holds the start of the range, carets under the range, and the reason.
pub fn pretty_err(source: &str, reason: String, span: Span, with_line_number: bool) -> (r: String)
    ensures
        r@ == error_text(source.spec_bytes(), reason@, span.start as nat, span.end as nat, with_line_number),
{
    let b = source.as_bytes();
    let mut out = String::new();
    if span.start < b.len() {
        let mut newlines: u128 = 0;
        let mut last: usize = 0;
        let mut p: usize = 0;
        while p <= span.start
            invariant
                b@ == source.spec_bytes(),
                span.start < b@.len(),
                p <= span.start + 1,
                newlines == count_newlines(b@, p as nat),
                newlines <= p,
                last == line_start(b@, p as nat),
            decreases span.start + 1 - p,
        {
            if b[p] == 0x0a {
                newlines += 1;
                last = p + 1;
            }
            p += 1;
        }
        let mut e = span.start + 1;
        while e < b.len() && b[e] != 0x0a
            invariant
                b@ == source.spec_bytes(),
                span.start + 1 <= e <= b@.len(),
                line_end(b@, e as nat) == line_end(b@, (span.start + 1) as nat),
            decreases b@.len() - e,
        {
            e += 1;
        }
        let k = newlines + 1;
        let ghost bs = b@;
        proof {
            lemma_line_start(bs, (span.start + 1) as nat);
            lemma_line_end(bs, (span.start + 1) as nat);
            encode_utf8_valid_utf8(source@);
            if last > 0 {
                is_char_boundary_iff_not_is_continuation_byte(bs, last - 1);
                lemma_boundary_after_ascii(bs, last - 1);
            } else {
                is_char_boundary_start_end_of_seq(bs);
            }
            if e < bs.len() {
                is_char_boundary_iff_not_is_continuation_byte(bs, e as int);
            } else {
                is_char_boundary_start_end_of_seq(bs);
            }
        }
        let line = text_slice(source, last, e);
        proof {
            encode_utf8_decode_utf8(line@);
            assert(line@ == decode_utf8(bs.subrange(last as int, e as int)));
        }
        if with_line_number {
            let num = decimal_text(k);
            out.append(num.as_str());
            out.append(" | ");
            out.append(line);
            out.append("\n");
            out.append("   ");
            let ghost pre = decimal(k as nat) + " | "@ + line@ + "\n"@;
            let width = num.as_str().unicode_len();
            let mut i: usize = 0;
            proof {
                reveal_strlit("   ");
                assert(out@ == pre + spaces(3));
            }
            while i < width
                invariant
                    i <= width,
                    width == decimal(k as nat).len(),
                    out@ == pre + spaces((i + 3) as nat),
                decreases width - i,
            {
                out.append(" ");
                proof {
                    reveal_strlit(" ");
                    assert(spaces((i + 4) as nat) =~= spaces((i + 3) as nat) + " "@);
                }
                i += 1;
            }
        } else {
            out.append(line);
            out.append("\n");
        }
        let ghost head = out@;
        let mut j = last;
        while j < e && j < span.start
            invariant
                last <= j <= e,
                j <= span.start || j == last,
                out@ == head + spaces((j - last) as nat),
            decreases e - j,
        {
            out.append(" ");
            proof {
                reveal_strlit(" ");
                assert(spaces((j + 1 - last) as nat) =~= spaces((j - last) as nat) + " "@);
            }
            j += 1;
        }
        let ghost mid = out@;
        let ghost j0 = j;
        proof {
            assert(j0 == if last <= span.start { span.start as int } else { last as int });
        }
        while j < e && j < span.end
            invariant
                j0 <= j <= e,
                j <= span.end || j == j0,
                out@ == mid + carets((j - j0) as nat),
            decreases e - j,
        {
            out.append("^");
            proof {
                reveal_strlit("^");
                assert(carets((j + 1 - j0) as nat) =~= carets((j - j0) as nat) + "^"@);
            }
            j += 1;
        }
        proof {
            let ls = line_start(bs, (span.start + 1) as nat);
            let le = line_end(bs, (span.start + 1) as nat);
            assert(last == ls && e == le);
            let after: int = if span.end < e { span.end as int } else { e as int };
            assert(j - j0 == if j0 <= after { after - j0 } else { 0 });
            let before: int = if span.start < le { span.start as int } else { le as int };
            assert(j0 - last == if ls <= before { before - ls } else { 0 });
            if with_line_number {
                assert(spaces((decimal(k as nat).len() + 3) as nat) == spaces(decimal(k as nat).len() + 3));
            }
        }
    }
    out.append("\n");
    out.append(reason.as_str());
    out.append("\n");
    out
}

} // verus!
