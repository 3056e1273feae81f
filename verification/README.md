# IngoDB

IngoDB is a document store on a log-structured merge tree. This crate is its verified core,
written in Verus. Verus proves the contracts of the functions in `src/`, except for the few
that only call other code: what those claim is believed, and two of them claim nothing.

## Layout

- `src/value.rs`, `src/fields.rs`, `src/iblob.rs`: values, fields and documents, and their
  binary form.
- `src/document_id.rs`: document identities.
- `src/wal.rs`: the write-ahead log.
- `src/memtable.rs`: the in-memory table with all versions of a document.
- `src/sstable/`: sorted table files: layout, bloom filter, sort keys, writer, reader, and the
  laws that connect them.
- `src/compaction.rs`: which tables to merge, and what to drop while merging.
- `src/secondary.rs`, `src/secondary_laws.rs`: secondary indexes and their laws.
- `src/rebuild.rs`, `src/natural.rs`: when rebuilding an index pays, in exact arithmetic.
- `src/query.rs`, `src/stats.rs`: filters, queries and query statistics.
- `src/bytes.rs`, `src/text.rs`, `src/sort.rs`, `src/error.rs`: what the others share.
- `src/hashing.rs`, `src/compression.rs`, `src/clock.rs`: calls into other crates and the clock.
- `tests/`: tests of the library.
- `app/`: files, locks, error texts and floating-point views around the library.

## Conventions

- The library works on bytes in memory. `app/` reads and writes the files.
- Floating-point values are held as their bit patterns, latencies as nanoseconds, and fractions
  as numerator and denominator.
- Public proof functions named `law_..` state what holds across several functions.
- Functions marked `external_body` call code outside the library. Their comments say what is
  claimed of it without proof.
