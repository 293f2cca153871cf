# kanban-stale-cards

For every open card of a Trello-style board export, how long it has been
sitting in the list it is in now, stalest first — with the logic verified by
Verus.

Layout:

- `src/json.rs` — the JSON reader. The grammar is stated as reader functions
  over the characters of the input (`value_at`, `array_at`, `object_at`, ...);
  `parse` agrees with them, errors and their messages included.
- `src/time.rs` — ISO 8601 UTC timestamps to seconds since the epoch, the
  days-from-civil day count (with laws that it counts calendar days from
  1970-01-01), and durations as short text.
- `src/board.rs` — the report: which cards count, when each entered its list,
  and how stale it is.
- `src/report.rs` — choosing (list filter, stable stalest-first order, limit)
  and rendering (table, JSON) the report.
- `src/readback.rs` — the law that the JSON report reads back with the reader.
- `src/cli.rs` — the command line.
- `src/text.rs` — character classes and decimal text.
- `app/main.rs` — arguments, the file, the clock and printing.

A number in a JSON document is kept as the literal text it was written with;
nothing here reads its value.
