# lzallright

LZO1X-1 compression and decompression, verified with Verus.

- `src/lzo/format.rs` describes the compressed format as a decoding machine
  over bytes (`spec_decompress`).
- `src/lzo/decoder.rs` is the decompressor; its result is exactly
  `spec_decompress` of its input and output capacity, for every input.
- `src/lzo/laws.rs` proves how that result depends on the capacity (a buffer
  that holds the output gives the same result, a smaller one `OutputOverrun`)
  and on bytes after the end of the stream (`InputNotConsumed`).
- `src/lzo/dict.rs` is the match finder of the compressor (hash chains over a
  circular buffer), `src/lzo/stream.rs` the streams the compressor writes and
  the proof that they decode back to their input, and
  `src/lzo/compressor.rs` the compressor itself, whose output is the stream
  of the tokens `spec_tokens(src)` picks.
- `src/lzokay.rs` maps the status codes of the lzokay library onto the errors
  of this one.
- `src/lzallright.rs` is the compressor object of the library: compression
  into a buffer that always suffices, and decompression that grows its buffer.
- `app/` holds the Python extension module built with pyo3.
