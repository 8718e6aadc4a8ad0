# vcal

A Verilog expression calculator (a subset of IEEE 1364-2005): the tokenizer,
the literal parser, the statement and expression parser, the depth-capped
multi-line rendering of the parsed statements, the lenient highlighter that
colours the REPL line, and the four-state integer evaluator with its session
of declared variables (width and sign context, operators, selects,
concatenation, system functions, declarations, assignments, `$display` /
`$write` of values, `$finish`).

Verus proves the contracts of the functions in `src/`, except for a few small
wrappers that it takes on trust: those around `num_bigint`, all in
`src/bignum.rs`, and the one around `String::push` (`push_char`). Their contracts restate what those functions
document.

Layout:

- `src/text.rs` — characters, whitespace, UTF-8 byte offsets, `trim`.
- `src/lexer.rs` — `tokenize`, with its model `spec_tokenize`.
- `src/literal.rs` — integer literal text to a literal specification (width,
  signedness, base, magnitude or four-state bits).
- `src/bignum.rs` — decimal magnitudes held in `num_bigint::BigUint`, and the
  `num_bigint::BigInt` arithmetic of the evaluator.
- `src/ast.rs` — the syntax tree, its mathematical model and views.
- `src/parser.rs` — `parse_statements`, with its model
  `spec_parse_statements`, and the laws of operator grouping.
- `src/truncate.rs` — depth capping, and what it keeps.
- `src/render.rs` — the pretty rendering of statements.
- `src/highlight.rs`, `src/color.rs` — token classes of a line and its colours.
- `src/system.rs` — system tasks and functions, `$display` format checks.
- `src/width.rs` — indefinite-width analysis of expressions.
- `src/value.rs` — four-state integer values, literal materialisation, the
  operator truth tables, reductions, comparisons, arithmetic, power and
  shifts at a given width, and the shape (width, signedness, base) of
  operator results.
- `src/select.rs` — bit-selects and part-selects of a vector reg: index
  resolution against the declared range, out-of-range `x`, direction checks.
- `src/canonical.rs` — the canonical text of an integer value
  (`<width>'<s><base><digits>`, or a quoted string).
- `src/eval.rs` — `Session` (the declared variables), the width/sign analysis
  `infer_expr_meta`, the evaluator `eval_expr`, and `Session::eval`, which runs
  the statements of one line; each is proved against its model (`smeta`,
  `sev`, `spec_eval`).
- `src/lib.rs` — `evaluate_input` and the calculator REPL `run_repl`;
  `parse_input`, `parse_input_with_depth` and the parse-only REPL
  (`prompt`, `out_prefix`, `parse_reply`, `run_parse_repl`).
- `app/main.rs` — the command: arguments, terminal line editing, pipes.
- `app/real.rs` — real-valued expressions, computed in `f64` outside the
  verified library.

Run `vcal` to evaluate each input line, `vcal --parse-only` to print its
syntax tree instead.

The library holds no floating-point values. Its evaluator refuses a real
operand, and the command computes a line that is a single real-valued
expression in `app/real.rs`. The syntax tree shows a real literal by its
source text with underscores removed (`1e3` stays `1e3`, not `1000.0`).
Real and array variables, and assignments to selects, are refused with an
error naming what is missing.
