# mini_grep

A small grep-style pattern matcher, written in Verus with its behaviour
stated in contracts and proved.

A pattern is read into atoms: literal characters, `\d`, `\w`, `\\`,
back-references `\n`, character groups `[...]` and `[^...]`, capturing
groups `(...)`, alternations `(a|b)`, the anchors `^` and `$`, the
repetitions `+`, `*`, `?`, and the wildcard `.`. Matching is by
backtracking; a back-reference reads the captured text as a pattern again.

The text is matched character by character. The pattern is walked by byte
position while its characters are looked up by index, so a multi-byte
character outside brackets leads to `PatternError::Misaligned`.

Layout:

- `src/atom.rs` — the pattern atoms, their mathematical model (`Atom`) and
  sizes.
- `src/text.rs` — characters of strings, their UTF-8 byte positions, and
  the trusted calls into std (Unicode character classes, building a
  `String` from characters).
- `src/parse.rs` — the pattern grammar as a spec function (`parse`) and the
  verified parser (`parse_pattern`, `split_pattern`).
- `src/matcher.rs` — the matching rules as spec functions (`run`, `star`,
  `alternatives`) and the verified matcher (`match_string_exactly`,
  `try_match_string_exactly`, `find_pattern_atom_at_start`).
- `src/search.rs` — searching a line for a match (`match_pattern`,
  `try_match_pattern`).
- `src/laws.rs` — properties of the whole library, proved.
- `app/main.rs` — the command line: `echo <text> | mini_grep -E <pattern>`.
