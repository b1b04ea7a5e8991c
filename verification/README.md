# ruskie

Loads NHL data (teams, schedules, rosters, play-by-play events and shift
charts) from the public stats API into an SQLite database.

* `src/` – the verified library: download addresses and file names, the
  download state machines, clock-time parsing (`"12:34"` → 754 seconds), and
  the rows that each table receives, each with its contract; the laws about
  them are proof functions beside the code (`text.rs`, `games.rs`).
* `app/` – the command-line loaders: environment, HTTP, JSON, SQLite.
* `tests/` – tests of the library on concrete values.
