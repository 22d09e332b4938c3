# fren-date

A file renamer that understands dates, as a library verified with Verus,
and a thin command-line program around it.

## Layout

- `src/` — the verified library.
  - `text.rs` — character-level helpers and their specifications.
  - `slug/` — the case-preserving slugifier: NFKC folding, separators,
    case modes.
  - `date/` — date formats, the date-detection grammar and calendar checks.
  - `slugify/` — CamelCase splitting, textual datetimes, and the whole
    name pipeline (`slugify_camel_iso`).
  - `plan/` — rename planning: new names, path pieces, walker decisions,
    conflict resolution, bottom-up order, and the laws of a planned batch.
  - `merge.rs`, `merge_order.rs`, `merge_laws.rs` — where merged files go,
    the `_Copy` naming, the visiting order, and why a chosen name is free.
  - `execute.rs`, `listing.rs`, `pager.rs` — decisions of the executor,
    output lines, and pager selection.
- `app/` — the program: argument parsing, filesystem work, the JSONL log,
  paging. Every decision it makes is a call into the library.
- `tests/` — tests of the library on concrete values.
