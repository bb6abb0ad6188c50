# rsonpath_rewrite

Schema-aware rewriting of JSONPath queries, verified with Verus.

A JSON document, or a JSON schema, is turned into a *document automaton*:
a deterministic automaton over paths (member names and array indices) that
accepts exactly the paths a document can have. Two query automata are
equivalent on such documents when no path that the document automaton
accepts is accepted by exactly one of them; candidate rewrites of a query
are kept when they are equivalent to it.

## Layout

- `src/` — the verified library.
  - `automaton.rs`: automata over paths, their runs, reachability and
    distinguishability of states.
  - `json.rs`: JSON values as parsed by `serde_json`, and the paths of a
    document.
  - `preprocessor.rs`: the nondeterministic tree automaton of a document,
    with or without sharing equal subtrees.
  - `shape.rs`: shapes of JSON values and the states that stand for them.
  - `nfa_minimizer.rs`: subset construction and Hopcroft minimisation; the
    result accepts the same paths and is minimal.
  - `extraction.rs`: document text to minimal document automaton.
  - `json_schema_parser.rs`: JSON schema (`$defs`, `Root`) to document
    automaton, with the parser's errors.
  - `product.rs`, `arith.rs`, `subsets.rs`, `order.rs`: the product check of
    two query automata against a document automaton and what it needs.
  - `generators.rs`, `optimizer.rs`: candidate rewrites and the choice of
    the equivalent ones.
  - `tooling.rs`, `rewrite_benchmark.rs`: report text, CSV fields, and the
    decisions of the rewrite benchmark.
- `tests/` — tests of the library.
- `app/` — file reading, floating-point report formatting, and conversions
  between `rsonpath_syntax` queries and the library's segments.
