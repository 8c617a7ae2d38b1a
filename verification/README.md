# ddquery

Parse and explain **Datadog monitor queries**, in Rust verified with Verus.

A monitor query packs an aggregation window, a metric, a scope, a grouping,
transforms, an evaluation function and a threshold into one dense line:

```text
avg(last_1d):anomalies(sum:app.service.latency{platform:macos, country:us}.as_count(), 'agile', 5, direction='below') >= 1
```

`ddquery_core` turns that line into a typed syntax tree and renders it as a
paragraph of plain English or as a structured summary:

```text
Alert if the average over the 1 day of anomaly detection
(algorithm agile, ~5σ, direction below) (sum of `app.service.latency`
(platform:macos, country:us)) is ≥ 1.
```

Reading a query does no I/O and keeps no global state, and its cost is linear in
the length of the query: of a number with very many digits the leading ones are
kept, and one digit stands for the others. (That one digit suffices is proved;
the cost itself is not.)

## What is proved

- `parse` computes the grammar stated in `src/grammar.rs`: which tree a text
  gives, and for every other text the reason and the byte offset of the error,
  which is on a character boundary.
- `explain` and `summarize` compute the texts stated in `src/phrasing.rs`.
- Numbers are kept by the bits of their double-precision format. Reading rounds
  to the nearest, ties to even; writing gives the shortest decimal that reads
  back.
- No function panics or overflows, and the recursion of the parser is bounded.
- `src/laws.rs` and the modules beside it hold what is true of the library as a
  whole: nothing is dropped, reasons are one line, precedence, nesting, negations,
  separators, tokens, windows, quoted strings; a composite expression is read back
  from its text, the methods of a search or of a service check may come in any
  order, and white space around a query changes nothing.

One function of the standard library is taken on trust: that `String::push`
appends a character.

## Layout

| Path | What |
| --- | --- |
| `src/ast.rs`, `src/tokens.rs`, `src/window.rs` | the syntax tree, its tokens, windows |
| `src/cursor.rs`, `src/grammar.rs`, `src/parser.rs` | reading a query |
| `src/phrasing.rs`, `src/explain.rs` | rendering a query |
| `src/natural.rs`, `src/binary64.rs`, `src/literal.rs`, `src/rendering.rs` | numbers |
| `src/text.rs`, `src/error.rs` | strings and errors |
| `src/reasons.rs`, `src/laws.rs` | properties of the whole |
| `src/composites.rs`, `src/methods.rs`, `src/spaces.rs` | the longer ones: reading back, orders of methods, white space |
| `tests/` | tests of the library |
| `app/` | the `ddquery` command line and the JSON form of the types |
