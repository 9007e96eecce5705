# compiler_lib

Verified parts of a compiler from a small ML dialect to JavaScript, written
in Verus.

- `js`: the JavaScript expression tree, its printer (which wraps each
  operand that binds looser than its position allows, though not the
  condition of a ternary, and keeps arrow-function bodies from starting
  with `{`), and `js::dead_code`, which drops assignments to scope fields
  that nothing reads.
- `bound_pairs_set`: a set of pairs of source locations with cheap flipped
  views that share storage.
- `reachability`: a graph whose edge relation is kept transitively closed,
  with edge values merged by the caller's edge type, and a journal that lets
  everything since a `save` be undone by `revert`.
- `ast`: the surface syntax tree: expressions, statements, patterns and
  type expressions, with their constructors.
- `CompilationResult`: what compiling a piece of source reports.

Each public function states its result over a mathematical model (`JsExpr`,
`Set`/`Map` views), and the laws of each module are proof functions beside
the code. The tests under `tests/` run the same operations on concrete
values.

Not here: the parser, the type checker, the code generator and the `State`
that drives them, the parser's context, and the helper that interns tuple
field names. They depend on modules for spans, parsed types, type errors,
undo maps and the checker's core, and on the name interner, which this
crate does not have. The syntax tree itself is here (`ast`, `ast::expr`),
with a span held as the index that identifies it and an interned name as
its integer id.
