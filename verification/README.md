# simd_sexp

A parser for s-expressions in the simdjson style: a first stage finds the
structural bytes of the input 64 bytes at a time (bit masks), a second stage
walks the structural indices and builds trees, tapes, or output. Every
function in `src/` is verified with Verus against a contract.

Layout of `src/`:

- `structural`, `vector_classifier`: the scan that marks structural bytes, and
  the nibble lookup tables that classify bytes.
- `clmul`, `xor_masked_adjacent`, `ranges`, `start_stop_transitions`,
  `find_quote_transitions`, `extract`, `utils`: word-at-a-time bit
  operations, each stated bit by bit.
- `parser`: the streaming parser (`process_partial`, `process_eof`,
  `process_all`) and the stages it drives; `streaming` proves that feeding
  the input in pieces gives what parsing it whole gives; `parse_events`
  proves that every visitor is handed the same events and builds the same
  sexps, so that trees and tapes parsed from one input read back alike.
- `visitor`, `rust_parser`, `rust_generator`: trees and tapes built from
  the parse, read back and printed.
- `escape`, `escape_csv`, `varint`: escaping of atoms and CSV fields, and
  variable-length integers.
- `select`, `print`: stages that select values by key and that pretty-print.
- `parser_parallel`: cutting the input into segments, numbering them, and
  joining the parsed segments in order.

`app/` holds what reads and writes: streaming from a `BufRead`, writing to a
`Write`, and running the parallel parser on threads.
