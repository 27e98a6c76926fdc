# chunk_store

A verified store of chunks of multi-timeline, multi-component data, written in Verus.

- `src/` is the library, every function proved against its contract:
  - `types`, `names`: identifiers, times, timelines, entity paths (with their FNV-1a hash and
    their part-by-part order), component and datatype names, the loggable traits.
  - `chunk`: chunks and their time columns, their invariants and sanity checks, slicing,
    sorting rows by row id, sizes, and `query` for latest-at reads within a chunk.
  - `store`, `events`, `stats`: the chunk store with its static and temporal indexes,
    insertion, latest-at and range queries, garbage collection with protection of the
    latest data, and statistics.
  - `entity_db`, `log_msg`, `ingestion`: a database of one recording or blueprint built
    from messages, its export to messages (whole or over a time selection), and cloning.
  - `view_context`: what a space view sees of the viewer.
- `tests/` runs the library on concrete values.
- `app/` holds what the library cannot: error types with their messages, conversions from
  Arrow arrays, ingestion latency with a clock, garbage-collection options with a fractional
  target, exports over real-valued time ranges, and the Arrow side of loggable types.
