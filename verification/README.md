# heretek

Byte-level compression driven by a predictor, verified with Verus.

A predictor gives a probability table for the next byte. An ANS entropy coder
turns the bytes and their tables into 32-bit words. A 60-byte header with a
SHA-256 checksum frames the words.

- `src/` is the verified library.
  - `text`, `wire`: decimal and hexadecimal text, big-endian integers.
  - `error`: the errors and their texts.
  - `format`: the header and the checksum.
  - `coder`: ANS coders over the `constriction` crate, with one table for a
    stream or one for each byte, how many words they take, and 16-bit
    distributions.
  - `predictor`: the predictor trait, the uniform stub, and the parameters of a
    transformer model, over the `candle` crates.
  - `engine`: compression and decompression, for any predictor that gives a
    valid table for every byte. Decompressing what was compressed with the same
    predictor gives the input back.
  - `cli`: exit codes and the files of a model.
- `tests/` runs the library.
- `app/` is the command line. It does the I/O and the floating-point arithmetic
  of the transformer.
