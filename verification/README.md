# thp

Verified support code for the THP language toolchain, written in Verus.

`src/` is the verified library:

- `syntax` — the lexer (source bytes to tokens with spans and
  diagnostics) and the syntax tree of a parsed program.
- `modules` — module IDs, autoload mappings, the deterministic module
  index, the export index and import aliases (`modules::names`), module
  interfaces and their hashes (`modules::interface`), name resolution over
  a program (`modules::resolve`), signature and body dependencies
  (`modules::deps`), and the module graph with its declaration groups
  (`modules::graph`, `modules::assembly`).
- `lsp` — the language server's text helpers: declaration identities,
  file URI decoding, words at a cursor, identifier checks, comment spans
  and the formatter's token gaps.
- `opcache` — cache keys, the artifact and frozen-manifest encodings, and
  the cache directory's naming and eviction plan (`opcache::store`).
- `runtime` — request-local values, the request heap with its streams and
  exceptions, runtime errors, and the request body (`runtime::input`), whose
  reads the host drives step by step.
- `metrics` — stage measurements and their JSON form.
- `fixture`, `compare`, `runner`, `cli` — the PHPT fixture format, output
  comparison, verdicts and the runner's command line.
- `text`, `digest` — text and byte helpers, BLAKE3 digests in hexadecimal.

`app/` holds what runs around the library: the file system, clocks, the
request body's reader, the tracking allocator and the fixture runner's
discovery and command.

`tests/` exercises the library through its public API.
