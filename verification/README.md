# patchproof_verify

Re-checks a linear-arithmetic elimination certificate: a list of inequalities
`expr <= 0`, each with a non-negative integer multiplier. The certificate is
`VERIFIED` when the scaled inequalities sum to `c <= 0` with `c > 0` (so they
cannot all hold: the affine form of Farkas' lemma) and they are exactly the
canonical forms of the defect class the certificate claims; `UNVERIFIED` when
the arithmetic replays but no known class is bound; `REJECTED` otherwise.

Layout:

- `src/text.rs` — character classes, decimal numerals, string order and building.
- `src/form.rs` — linear forms, their coefficient maps (names kept in order),
  checked scaling and addition, rendering, and the value of a form under an
  assignment.
- `src/parse.rs` — the strict reader of `a - 2*b + 3 <= 0`.
- `src/certificate.rs` — combining forms by their multipliers, the Farkas
  soundness lemma, and the canonical forms of each shipped class.
- `src/json.rs` — the JSON value the checker reads, and reading it from text
  with serde_json.
- `src/replay.rs` — checking a whole certificate, from its text or its JSON
  value, and the status it earns.
- `src/round_trip.rs` — what `render` writes reads back as the same form.
- `src/spacing.rs` — whitespace around signs, `*` and `<=` changes nothing.
- `app/main.rs` — the command-line program: reads the file, prints the
  verdict and sets the exit code.

Every function in `src/` is verified with Verus against its contract, except
the few that call into std or serde_json, whose contracts are stated beside
them and trusted.
