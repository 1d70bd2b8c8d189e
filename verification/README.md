# qrencode

A QR Code encoder written in Verus: it turns text into the module matrix of
a QR Code symbol, and each step carries a contract that Verus proves.

## Layout

- `src/bit_array.rs`, `src/byte_matrix.rs`: the bit sequence and the module
  matrix the encoder writes into.
- `src/gf256.rs`, `src/reed_solomon.rs`: arithmetic in GF(256) and the error
  correction codewords, with the law that a block followed by its error
  correction is divisible by the generator polynomial.
- `src/version.rs`: versions, error correction levels, modes and the
  codeword tables.
- `src/charset.rs`: the ECI character sets; the conversion of text to bytes,
  and of Shift_JIS bytes back to text, is done by the `encoding` crate,
  behind two trusted functions.
- `src/encoder.rs`: mode choice, the bit encodings of each mode, version
  choice, termination, interleaving, mask choice and the whole encoding.
- `src/matrix_util.rs`, `src/mask_util.rs`: placing the bits in the matrix,
  the format and version information, the masks and their penalties.
- `src/eci_encoder_set.rs`, `src/minimal_encoder.rs`: the search for the
  shortest mix of segments. Its result is proved to be the least-cost path
  of its size class, ties broken by where the steps end, compared from the
  last step back (`rev_le`), and no larger than the result of each other
  class; the result is a function of the search's arguments.
- `src/hints.rs`: the options of an encoding.
- `src/qr_code.rs`, `src/known_symbols.rs`: the finished symbol and its text
  form.

`tests/` holds the tests; run them, and the verification, with the crate's
usual Verus and Cargo tooling.
