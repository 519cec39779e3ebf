# djqlint

A linter for inefficient Django ORM queries in Python source, written in
Verus: the analysis is a verified library, the command-line program a thin
layer around it.

* `src/` — the verified library.
  * `engine/syntax.rs` — a plain model of the Python syntax tree (nodes in
    pre-order with kind, field, depth, subtree end and span).
  * `engine/parser.rs` — parsing with `tree-sitter` and reading the tree into
    the model.
  * `engine/queryset.rs` — the QuerySet data-flow model; the bindings are the
    least set of names closed under the module's assignments.
  * `engine/suppress.rs` — `# noqa` / `# djqlint: disable` directives.
  * `engine/mod.rs` — the per-file analysis: rules, suppression, ordering.
  * `rules/` — the rules N001, P001 and P002, and the registry.
  * `reporters/` — the summary counts and the SARIF records.
  * `engine/walker.rs`, `cli.rs`, `config.rs` — file filters and the order
    of collected paths, arguments, configuration, and the decisions a run
    takes from them.
* `app/` — the program: arguments (clap), configuration files (toml), the
  filesystem walk (ignore), the parallel driver (rayon), and rendering
  (miette, serde_json).
* `tests/` — tests of the library on concrete inputs.
