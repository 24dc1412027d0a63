# regexrel

Exact full-string language relations (emptiness, overlap, inclusion,
equivalence) between patterns of a regular-expression subset, with shortest
witnesses, verified with Verus.

## Layout

- `src/ast.rs` — expressions and their language (`matches_expr`).
- `src/parser.rs`, `src/parser/grammar.rs` — the pattern parser and its
  diagnostics; the grammar spells out what a pattern denotes, and `parse` is
  proved to return an expression with exactly that language.
- `src/charset.rs`, `src/charset/` — interval character classes, the
  alphabet partition used by the searches, DOT labels.
- `src/nfa.rs`, `src/nfa/walk.rs` — Thompson ε-NFAs; `Nfa::from_expr` is
  proved to accept exactly the strings its expression matches, through a
  walk reading of the automaton.
- `src/analysis.rs` — the default engine (on-the-fly subset product search)
  and the report pipeline.
- `src/minimize.rs` — determinization, Moore minimization, canonical
  isomorphism, and the engine built on them.
- `src/antichain.rs` — the antichain inclusion engine.
- `src/draw.rs` — Graphviz text of the automata.
- `src/laws.rs` — properties across queries and engines.
- `src/report.rs`, `src/cli.rs`, `src/text.rs`, `src/config.rs` — reports,
  text rendering, configuration rules.
- `app/` — the command-line program: argument handling, files, JSON and TOML
  (de)serialization, running Graphviz.

Three engines decide the relations: the default subset-product search
(`analysis.rs`), the antichain engine (`antichain.rs`) and the minimized-DFA
engine (`minimize.rs`). Every engine is proved sound and complete when it
finishes (a witness settles the query; running out of states means no string
does), and every witness it reports is a shortest one. With the default
engine, `analyze_binary` and `analyze_empty` answer `YES`/`NO` exactly for the
languages of the patterns as the grammar reads them, and `UNKNOWN` only with
the state-limit or timeout diagnostic.

The searches read elapsed time from a `Clock`; a search stops with `Timeout`
only after a reading at its timeout, so a clock that stays below it never
stops one. A search of the default or the minimized-DFA engine that stops at
the state limit has reached that many pairwise distinct subsets, states, or
pairs of them on the way.

Engines are `RelationBackend`s. An engine that works on parsed expressions
overrides `analyze_binary_expr` / `analyze_empty_expr`; by default they hand
the automata built from the expressions to `analyze_binary` /
`analyze_empty`. Whatever the engine, `binary_answer` and `empty_answer` replay
its witness before a report carries it, and `analyze_parse_results` /
`analyze_parse_result` say how a refused pattern is answered.
