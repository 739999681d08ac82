# hegel

The self-contained logic of a property-based testing engine, written in
Verus: every function in `src/` carries a contract that Verus proves.

Layout:

- `src/native/re/` — a parser for Python-style regular expressions
  (tokenizer, flag handling, groups, classes, repeats, lookarounds).
- `src/native/schema/` — what string schemas allow (alphabets and
  codepoint intervals), the character sets and the backtracking matcher
  used to generate strings from a parsed regex, calendar and clock text,
  and UUID text.
- `src/native/shrinker/` — the standalone value shrinkers (integers,
  orderings, collections, bytes, strings), the ordering pass over index
  permutations, and the choice tree that enumerates shrink attempts.
- `src/native/` — the targeting schedule, the runner's generation and
  health-check decisions, Unicode general categories by table, and
  character helpers.
- `src/pretty/` — the recording side of the pretty printer: layout
  operations, the `PrettyPrintable` implementations for standard types,
  and the reading of `{:?}` output back into its structure.
- `src/protocol/` — packet framing with CRC-32 checksums, the bookkeeping
  of a channel's requests and replies, and the routing of packets between
  the channels of a connection.
- `app/` — stream I/O for packets, the connection and channel loops over
  a stream, and the reading of CBOR schemas into the library's plain
  values.
- `tests/` — tests of the library on concrete values.
