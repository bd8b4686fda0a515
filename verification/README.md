# graphql_documents

Turn a GraphQL executable document into a stable, single-line string. Two
operations that mean the same thing but differ in field order or whitespace map
to the same output, so the string can key persisted operations and allow-lists.

```rust
use graphql_documents::{canonicalize, parse};

let document = parse("query A { c b a }").unwrap();
assert_eq!(canonicalize(&document), "query A { a b c }");
```

The library is written in Verus. Every public function has a contract that
states exactly what it returns, over a mathematical model of the syntax tree,
and Verus proves each body against its contract.

## Layout

- `src/ast.rs`: the syntax tree, with verified deep clones.
- `src/model.rs`: the model of the tree (`Seq`-based views of every node).
- `src/parse_spec.rs`, `src/parser.rs`: what parsing means, and the parser
  proved to compute exactly that, failures and their byte offsets included.
- `src/sort_spec.rs`, `src/sort.rs`: canonical order (a stable sort by keys
  compared as UTF-16 code units) and its implementation.
- `src/print_spec.rs`, `src/printer.rs`: the pretty-printer, line wrapping and
  string escaping included.
- `src/normalize.rs`: collapsing whitespace runs as ECMAScript's `\s` class
  defines whitespace.
- `src/text.rs`: character-sequence helpers and the two contracts assumed of
  the standard library (`String::push`, `char::from_u32`).
- `src/laws.rs`, `src/order_laws.rs`, `src/token_laws.rs`, `src/parse_laws.rs`,
  `src/string_laws.rs`: properties of the library as a whole, proved: the
  shape of canonical order, that source order (of definitions, and of
  selections at any depth) does not change the canonical form, that sources
  with the same tokens parse to the same document, that normalized output is
  the words of the text joined by single spaces, and that printed quoted and
  block strings read back as the values they print.
- `tests/`: examples of each rule, each failure, and each property.
