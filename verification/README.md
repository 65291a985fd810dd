# yoakke

Building blocks for language tooling, verified with Verus:

- `endpoint`, `bound`, `interval`, `interval_set`, `interval_map`: intervals
  over ordered values, sets of disjoint intervals kept in a canonical form,
  and maps from intervals to values that unify what overlaps.
- `regex_ast`, `regex_parser`, `regex_lang`: regular expressions, their
  parser, and the words they match.
- `nfa`, `dfa`: Thompson's construction of automata from regular
  expressions and the subset construction of deterministic automata; the
  automaton of an expression reads exactly the words it matches.
- `position`, `token`, `lexer`: the state a lexer carries, tokens, and the
  incremental standard lexer.
- `token_defs`: the token definitions of a token-kind enumeration, read
  from the attributes of its variants.
- `dfa_lexer`: the lexer those definitions derive: the deterministic
  automaton of all patterns, where the highest precedence wins, and the
  reading of one lexeme with it by the longest match.
- `relex`: relexing after an edit agrees with lexing the edited source from
  scratch, for a lexer that reads locally.
- `parse_result`, `drec`, `irec`, `bnf`, `matcher`: results and errors of a
  packrat parser, helpers for left recursion, and the grammar description
  with its left-recursion analysis.
- `call_stack`: the calls in progress with indirect left recursion, which
  share the head of their recursion.
- `rnd`, `str_gen`, `fuzz_gen`: random strings and edits for fuzzing a lexer.
- `format`, `console`: console formatting.

The tests under `tests/` exercise the library on concrete values.
