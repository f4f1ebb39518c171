# wl — a verified wordlist indexer

`wl` indexes wordlist files (for penetration testing and CTFs) found under configured
repositories, and answers lookups, fuzzy searches, listings, statistics, duplicate searches
and integrity checks over the index.

The library under `src/` is written in Verus and verified:

- `db` — the index itself: entries kept in path order with unique ids, each with its tags
  (automatic or attached by hand), and the operations on it (store, look up, tag, delete).
  Its invariant is a type invariant; the laws that tags attached by hand survive re-tagging,
  that storing keeps ids and tags, and that a stored entry reads back are proved there.
- `indexer` — what a scan decides about each file (too large, unchanged, to index), the
  plan of a repository's scan and the recording of the files it asks for, the entry recorded
  for a file, line counting and SHA-256 text, and the scan's bookkeeping. The laws that a
  scan indexes exactly the files it finds and that a second update reads nothing and keeps
  the index as it is are proved there.
- `tagger` — tags from a path by a fixed taxonomy.
- `search`, `listing` — exact and fuzzy lookup, name resolution, and list filters.
- `output`, `stats`, `duplicates`, `verify`, `commands` — what each command computes and the
  exact text it prints.
- `config`, `cli` — the configuration and the command line as plain data.

`app/main.rs` holds the program around it: argument parsing, the configuration file, the
SQLite store, the directory walk, and printing.

Exit status: 0 on success, 1 when a wordlist is not found, 2 for wrong usage (contradictory
flags such as `--json` with `--table`, or no repository configured), 3 for failures of the
file system, the store or the configuration file. The status comes from
`WlError::exit_code` in the library; `--quiet` is handled in `app/main.rs` only, where it
silences messages and is handed to no library function, so it cannot change the status.
