# arches

A bridge between Arc Timeline Recorder backups and the tools that read them: it ingests
Arc's iCloud backup (and optionally a directory of daily GPX files) into SQLite, derives a
summary per local day, and serves the result over a small HTTP API.

The crate is split in two:

- `src/` is the library, verified with Verus. It holds the rules: the LocoKit2 enums, which
  backup to read and which of its files are buckets, when a file can be skipped, the upsert
  statements, item offsets and local dates, day summaries, the GPX reading state machine and
  the GPX ingest rules (ids, activity types, visit ends, item chains), highlights, the GPX 1.1 export of
  a day, the heatmap aggregation, status listings, configuration and the API's request parsing. Each public
  function states what it returns in its contract, and the laws of the library (feeds are
  sorted permutations, aggregation never loses a sample, a country is reported once, and so on)
  are public proof functions.
- `app/` is the binary around it: the command line, SQLite, the file system, quick-xml, time
  zones, geometry on floating point coordinates, and the axum server.

`tests/` exercises the library from the outside.
