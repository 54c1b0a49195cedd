# toy_ac

A binary arithmetic coder with an adaptive count model, verified with Verus.

- `src/range.rs`: the `[low, high]` register and its two shifts.
- `src/coder.rs`: the mathematical description of the 32-bit coder: narrowing,
  renormalisation, what the encoder writes and what the decoder reads.
- `src/encoder.rs`, `src/decoder.rs`: the encoder and decoder, each step proved
  equal to that description.
- `src/symbol_model.rs`: the `SymbolModel` trait with the laws every model must
  prove, and `VectorCountSymbolModel`.
- `src/lossless.rs`: the proof that decoding the encoder's stream with the same
  models gives back the symbols.
- `app/main.rs`: compresses a text file, writing the bits with `bitbit`.

`VectorCountSymbolModel` needs `==` on its symbols to be equality
(`vstd::laws_eq::obeys_concrete_eq`). vstd proves this for the integer types and
`bool` but not for `char`, so verified code can build a model over bytes but
not yet over characters; the tests, which are not verified, use both.

`Decoder::decode` takes the stream as a slice of bits and a position; the
caller reads the bits (app/ uses `bitbit`). The 32 bits that first fill the
buffer are assembled most significant first or least significant first, as
the `BitOrder` argument says, like the two bit orders of a `bitbit` reader.
