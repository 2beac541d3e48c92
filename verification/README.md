# ltl_spec

Linear Temporal Logic for agents: parse formulas, print them, put them in
negation normal form, classify them as safety or liveness properties, and
check them against lasso-shaped execution traces. The library is written
in Verus; every public function states its result in a contract over a
mathematical model of formulas and traces, and Verus proves it. The one
result stated only in part is `LtlFormula::formula_id`: it is given as
what std's `DefaultHasher` finishes with after a stated sequence of
writes, up to the bytes std writes for the variant and the byte order of
the operands' ids, which depend on the machine.

## Layout

- `src/formula.rs` — `LtlFormula`, its model `FormulaModel`, the printed
  text (`to_string`, spec `display`).
- `src/parser.rs` — tokenizer and recursive-descent parser; the grammar is
  stated as spec functions (`tokenize_spec`, `implies_spec` … `primary_spec`,
  `parse_spec`) and `parse` is proved to compute `parse_spec`.
- `src/round_trip.rs` — parsing the printed text of a formula gives the
  formula back (`lemma_parse_display`, `lemma_parse_print_parse`).
- `src/spacing.rs` — blanks next to symbols change no parse
  (`lemma_blank_insertion`).
- `src/trace.rs` — `Trace` and its model; index resolution into the loop.
- `src/satisfaction.rs` — the bounded semantics `sat` and the checker
  `satisfies`, with the laws that positions in the loop are periodic.
- `src/unbounded.rs` — the usual, unbounded LTL semantics `holds_ltl`,
  and the proof that any window at least as long as the prefix gives it
  (`lemma_window_suffices`); `satisfies` is stated against both.
- `src/normal_form.rs` — `to_nnf`, with proofs that its result is in
  negation normal form, that it is idempotent and that it preserves
  satisfaction; the until/release and next dualities.
- `src/safety_liveness.rs` — `classify`.
- `tests/` — the test suite.
- `app/` — serde-enabled mirrors of the library's types, with `Display`.
