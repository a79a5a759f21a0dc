# Cadence

Marker tracking for source files. Comments such as `// $$todo handle empty input`
get ids (`// $$todo:1:open handle empty input`), are tracked as items, and are
mirrored to Markdown checklists under `.cadence/items/`; a mark changed in a
checklist flows back into the item and its source line.

## Layout

- `src/` is the verified library. Its functions carry contracts that Verus
  proves, except two small trusted wrappers in `text.rs` around std's
  `char::is_alphanumeric` and `String::push`, whose contracts are assumed.
  - `text.rs`: characters, searching, splitting, lines, numbers and tokens,
    each stated over `Seq<char>` in the way `str` behaves.
  - `scanner.rs`: finding markers in lines and files.
  - `schema.rs`: reading `schemas.yml` and mapping statuses to checklist marks.
    The schemas are a list of `(marker type, statuses)` pairs whose invariant
    is that no marker type occurs twice, rather than a hash map keyed by
    `String`: vstd's specification of std's `HashMap` holds only for key types
    known to obey its key model (integers, `bool` and boxes of them), which
    `String` is not, and that can only be assumed, not proved; lookups over
    such a map could not carry exact contracts. The list keeps the order in which types first
    appear; lookups go by the marker type, as a map's would.
  - `config.rs`: reading `config.yml` (the marker prefix).
  - `db.rs`: tracked items and staged files.
  - `updater.rs`: giving ids to new markers of staged files.
  - `sync.rs`: writing item statuses back into their source lines.
  - `markdown.rs`: writing the checklists and reading marks and notes back.
  - `readback.rs`: what reading written checklists gives back.
- `app/` is the command-line program around the library: argument parsing,
  files under `.cadence/`, and JSON storage of items and staged files.
- `tests/` runs the library on concrete inputs.
