# tree_calculus

An interpreter for tree calculus, verified with Verus.

A program is a list of declarations `name = expression`, where an expression is built from
`△` (or `$`), names, brackets and functions `fn x y -> body`. Functions are compiled to
trees by bracket abstraction; declarations are evaluated in order by the five reduction rules
of tree calculus over a store that keeps each tree once.

Layout of `src/`:

- `calculus.rs`: the mathematical model: terms, the reduction rules, what an application
  evaluates to and how many steps it takes.
- `lexer.rs`, `parser.rs`: tokens and the grammar of declarations, stated over the bytes of the
  text.
- `fast_tree.rs`: the store of trees (one slot per distinct tree, a free list, collection of
  unreachable slots), evaluation with remembered applications, and readers of numbers, bits,
  bytes and lists.
- `compiler.rs`: compilation of expressions and functions, evaluation of compiled trees against
  the declared names, and the namespace of declarations.
- `optimizations.rs`: rewriting of chains of constant functions.
- `old_tree.rs`: trees with shared children and two evaluators over them.
- `render.rs`: error messages under their source line, and Graphviz drawings of trees.
- `hash_table.rs`, `text.rs`: the calls into `ahash`'s hash maps and into `std`'s formatting.

`app/main.rs` is the command line program: `PATH [--gc | -g] [--verbose | -v]`.
