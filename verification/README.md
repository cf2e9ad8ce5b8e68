# nmea_parse

Readers for the bodies of NMEA 0183 sentences (GLL, RMC, VTG, TXT, ZDA),
written as functions on bytes and verified with Verus against the grammar of
each sentence.

- `src/scan.rs`: the byte-level readers (a byte, a byte out of a set, a literal,
  a fixed count, everything up to a byte) in their streaming and complete forms.
- `src/number.rs`: unsigned decimal numbers, fractions with missing digits taken
  as zeros, and the decimal texts that `f32` parsing accepts.
- `src/fields.rs`: time stamps, dates, positions, speeds, optional numbers and
  heights.
- `src/gll.rs`, `src/rmc.rs`, `src/vtg.rs`, `src/txt.rs`, `src/zda.rs`: the
  sentences.
- `src/framing.rs`: a sentence that parses ends right after the first `*` of its
  input.
- `src/streaming.rs`: a decided result of a streaming reader, and any match of a
  sentence reader, stays the same when more input follows.
- `src/fieldwise.rs`: each sentence stated by its comma-separated fields: when
  every field is empty or of its kind, the body reads as the fields' values and
  the rest is what follows the `*`.
- `app/`: the `f32` values of the decimal fields and of positions in degrees.

A reader returns `ParseError::Incomplete` when the input ended before it could
decide and `ParseError::Invalid` when the bytes do not match. Decimal fields are
kept as the text of the sentence; the library guarantees that `f32` parsing
accepts it.

In a ZDA sentence the two zone fields are stored crosswise: `Zone::hours` holds
the second zone field and `Zone::minutes` the first, so `...,05,30*` gives
`hours: 30, minutes: 5`.
