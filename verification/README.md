# cairn

A content-addressed build cache whose engine is verified with Verus.

## Layout

- `src/` — the verified library:
  - `text.rs`: character and byte helpers (decimal and hex rendering, byte-wise string order).
  - `hash.rs`: the streaming FNV-1a 64-bit hasher and the canonical 16-character digest.
  - `json.rs`: the JSON value type, its encoder and its parser, with the round-trip law.
  - `manifest.rs`: manifests, the cache-key byte stream, and manifest JSON in both directions.
  - `store.rs`: the store layout (blob and manifest paths), input/output entries,
    restore planning and integrity reports.
  - `cli.rs`: command-line flag parsing and the subcommand table.
- `app/` — the `cairn` program: reads and writes files and hands plain values to the library.
- `tests/` — tests of the library on concrete values.
