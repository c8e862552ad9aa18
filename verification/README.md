# qr_core

The core of a QR Code encoder, verified with Verus: symbol versions (1..=40),
error-correction levels, the four data modes, the data capacity of every
version, and the optimal text segmentation that splits an input into mode
segments with the fewest bits and picks the smallest version that holds them.

- `src/encoding.rs`: `Version`, `Mode`, `ECCLevel`.
- `src/errors.rs`: `QrError`.
- `src/lookups.rs`: the alphanumeric set, kanji values and the data capacity
  table (ISO/IEC 18004, table 7). Which characters kanji mode takes comes
  from the Shift_JIS encoder of the `encoding_rs` crate (the WHATWG
  Shift_JIS table), called through one trusted wrapper: a character is
  kanji-mode when that encoder gives it a double-byte code in 0x8140..=0x9FFC
  or 0xE040..=0xEBBF. No other Shift JIS table is kept here, so kanji-mode
  membership is exactly that encoder's.
- `src/segmentation_model.rs`: the specification: character costs, the
  dynamic program over prefixes, the segments read back from it, and the bit
  cost of any split of the input.
- `src/segmentation_laws.rs`: the proofs: the chosen split is a partition of
  the input and no split takes fewer bits; longer prefixes and higher levels
  never select a smaller version; inputs over 7089 characters never fit.
- `src/optimal_segmentation.rs`: the executable dynamic program.
- `app/lib.rs`: `Display` and `std::error::Error` for the errors.
