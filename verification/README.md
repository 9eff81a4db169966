# vic2enc_core

Encoding conversion for Victoria II localisation CSV and event/decision
scripts, between the game format (GBK bytes shown as Latin-1, "dummy
Latin-1") and readable UTF-8, verified with Verus.

Layout:

- `src/` — the verified library.
  - `dummy_latin1.rs`: game bytes <-> text, with the GBK code table of
    `encoding_rs` behind `gbk.rs`; round-trip laws.
  - `safe_token.rs`: Paradox control codes <-> inert `<...>` tokens; the
    round-trip laws in both directions.
  - `convert.rs`: whole-buffer conversion, batch statistics, which files a
    batch takes.
  - `path.rs`: paths as components; file names, extensions, script folders.
  - `script_line.rs`, `pa_migrate.rs`: inline-translation lines of scripts
    and the decisions of the PA migration.
  - `request.rs`: the checks the front ends make of a request.
  - `text.rs`: character and byte helpers, UTF-8 reading, decimal numerals.
- `tests/` — tests of the library, run with the real outside crates.
- `app/` — the command-line program, the file-system work (reading,
  writing, walking folders, backups) and the serde copies of the library's
  types used by the desktop commands.
