# analyzer_core

The analysis core of a language server for the Compact smart contract language,
written in Verus. Offsets are bytes; nothing here speaks an editor protocol.

- `src/syntax.rs`, `kinds.rs`: syntax trees, built from the parser's walk.
- `src/item_tree.rs`, `resolve.rs`, `db.rs`: symbols, scopes, name resolution
  across files; `resolution_laws.rs` holds its laws.
- `src/ty.rs`, `infer.rs`, `typing.rs`, `checks.rs`: types and the complaints
  about returns, calls, imports and type arguments.
- `src/disclosure/`: the witness-disclosure analysis. `model.rs` says what the
  walk computes, `interp.rs` computes it, `abs_laws.rs`, `walk_laws.rs` and
  `memo_laws.rs` hold the laws.
- `src/vfs.rs`, `disk.rs`, `workspace.rs`, `analysis.rs`: file contents, the
  workspace index and the host that answers requests; `host_model.rs` and
  `host_laws.rs` say what a request does to it.
- `app/`: the file system, the search for source files and the JSON table of
  ledger methods.

The library never touches the disk: a request is given a `Disk` that tells what
is there. Trusted are the parser (`compactp_parser::parse`), `String::push`,
`char::is_whitespace` and `char::to_lowercase`; every other contract is proved.
