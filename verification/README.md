# parser

Reads and writes financial transactions in three formats — CSV, a `KEY: VALUE`
text form, and a framed big-endian binary form — with every step verified by
Verus against a mathematical description of the format.

- `src/` is the verified library. `lib.rs` holds the data types and the
  format-independent `read`/`write` over bytes; `csv_format.rs`,
  `txt_format.rs` and `bin_format.rs` hold each format's reader, writer, the
  specification of what they compute, and the proofs of what the formats
  promise: writing then reading gives the transactions back; blank CSV lines,
  text comments and the order of a record's text fields do not change what is
  read; the binary reader finds the next `YPBN` at any byte offset, and on
  bytes as the writer makes them, writing undoes reading. `compare.rs` matches
  two sequences of transactions by id, and comparing the other way round
  reports the same pairs swapped; `text.rs`, `lines.rs` and `fields.rs` are the shared
  building blocks (trimming, decimal numbers, line splitting, field names).
- `app/` is the command-line tool (`convert` and `compare`), which does the file
  and stream I/O around the library.
- `tests/` runs the library on concrete inputs.
