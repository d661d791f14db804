# traversable

The visitor pattern over traversable data structures, as a Verus library: the
traversal discipline (events reported in order, a break ends the walk and is
handed back, visitors combined with `or` are asked one after the other, visitors
built from closures answer `Continue` or what their closure answers) is stated
in contracts and proved.

What the contracts cannot say: which node a visitor is given and what it does
to that node at the level of the visitor traits, since a node has a type of its
own that a contract cannot name or compare (see the trait documentation in
`src/lib.rs`). Visitors built from closures state it one call down, where the
outcome of the type test is an argument.

Layout of `src/`:

- `lib.rs`: the traits `Visitor`, `VisitorMut`, `Folder`, `Traversable`,
  `TraversableMut`, `TraversableFold`, each with the spec functions that
  describe its implementations.
- `walk.rs`: events, walks of a visitor along events, traversals of parts in
  order (fields of a tuple, items of a sequence), and the laws of walks.
- `combinator.rs`: `VisitorExt::or`, `VisitorMutExt::or`, `OrVisitor`, with
  the laws that both combined visitors are asked about every event and that
  `or` is associative.
- `function.rs`: visitors and folders built from closures (`visitor`,
  `visitor_mut`, `folder` and their one-sided forms), with their laws, and
  `traverse_with`, a traversal with a visitor built from closures whose
  contract a caller can use at concrete closure types.
- `cast.rs`: the runtime type tests behind the closure-built visitors.
- `impls/`: the standard library's types: primitives and strings (leaves that
  are not visited), containers, tuples.

Deriving `Traversable`, `TraversableMut` and `TraversableFold` is not part of
this crate; the tests write out by hand what the derive generates.
