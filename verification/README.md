# ternary_arithmetic

Arithmetic coding for ternary data (symbols -1, 0, +1): a frequency table, a
bit-level encoder and decoder, static or adaptive, with proofs that decoding an
encoding gives the data back and that the encoding stays near the ideal code
length.

- `src/table.rs`: the frequency table (`FrequencyTable`) and its model as three
  counts: cumulative ranges, lookup of a cumulative value, updates and rescaling.
- `src/bits.rs`: bit sequences, bytes as bits, and the value of a stream prefix.
- `src/interval.rs`: the coder as the specification sees it: the 32-bit
  interval, the narrowing for a symbol, the rescaling steps of encoder and
  decoder, and whole runs over a sequence (static or adaptive counts).
- `src/roundtrip.rs`: the proof that decoding an encoding gives the data back,
  the decoder staying in step with the encoder, and the laws about nesting
  intervals and emitted bits.
- `src/length.rs`: the bound of the encoding's length by the ideal code length
  of the data under the counts, plus a slack for integer rounding.
- `src/encoder.rs`, `src/decoder.rs`: the executable coder, proved equal to
  the model.
- `app/lib.rs`: probability, entropy and compression ratio, which use `f64`
  and so stay outside the verified library.

Encoding with a table requires its total to be at most 2^30, the precision the
32-bit window leaves room for; the adaptive coder keeps its table within that
bound by rescaling.
