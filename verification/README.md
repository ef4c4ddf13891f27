# augur

Augur is a small distribution-native probabilistic language:

```augur
let mu ~ Normal(0, 1)
observe Normal(mu, 1) = 0.5
```

This crate is its compiler front half, verified with Verus: the lexer, the
error-tolerant parser, the formatter, lowering with its type checker and
static analysis of degenerate parameters, the `augur` MLIR-style dialect
(graph construction, constant-branch and dead-value passes, TPTIR text and
Graphviz output), the language-server logic, engine selection, hardware
targets and hand-off validation, package manifests and Keystone outcome
tallies. Every function in `src/` carries a contract that Verus proves,
except three small trusted wrappers around std (`String::push`,
`char::is_alphanumeric` and `format!("{:?}")`), whose contracts restate
what std documents.

Beyond the contracts, `src/shape.rs`, `src/relex.rs` and `src/reformat.rs`
prove that formatting is a fixed point: for every source text, the
formatted program parses back without a diagnostic and formats to the same
text again.

`app/` is the `augur` command-line program around the library: file and
stdio I/O, the JSON-RPC language server loop, manifest (de)serialisation,
and everything that computes with floating point (distributions, constant
folding, the inference engines and posterior summaries).

Number literals are kept as the text they were written with; their values
are exact decimals in the library's reasoning, and floating point only
appears in `app/`.
