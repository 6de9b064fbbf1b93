# lzvn

Safe encoding and decoding of Apple's LZVN format, written in Verus: the
code carries `requires` / `ensures` contracts and Verus proves it against
them.

Scope:

- raw LZVN streams: one-shot encoding and decoding, and incremental
  encoder and decoder state machines (`RawEncoder`, `RawDecoder`);
- Apple `bvxn` blocks: one-shot and incremental (`BvxnEncoder`,
  `BvxnDecoder`);
- Apple `decmpfs` wrappers: inline xattr payloads and resource forks of
  independently compressed 64 KiB blocks.

## Layout

- `src/raw/semantics.rs` gives the meaning of a raw stream: `run` executes
  instructions from a decoder state until the end marker or the first error,
  and `decode_spec` runs it from the start with a bound on the output.
- `src/raw/decode.rs` and `src/raw/encode.rs` hold the one-shot decoder and
  encoder; `src/raw/encoding.rs` holds what each emitted instruction decodes
  to, and the lemmas that compose them.
- `src/raw/stream.rs` holds the incremental raw encoder and decoder. The
  decoder's contract (`decode_step`, `stream_outcome`) says how far each
  call advances along `run` over the bytes fed so far.
- `src/apple/bvxn.rs` and `src/apple/fs/` hold the Apple wrappers, each with a
  specification of what a block or wrapper decodes to.
- `src/lib.rs` holds the crate-level entry points.
- `app/` adds `Display` and `std::error::Error` to a copy of the error type.

## What is proved

- Every decoder returns exactly what its specification gives, error values
  included, and never panics.
- The raw encoder's output is exactly `encode_spec` of its input: the greedy
  scan over a hash table of earlier positions (`encode_step`,
  `find_match_spec`), then the padded end marker. The `bvxn`, `decmpfs` and
  incremental encoders are stated over the same spec, and every encoder's
  output decodes back to its input.
- An incremental decoder that has reached the end of its stream holds what
  decoding the same bytes in one piece gives, however the input was split
  and however small the output buffers were; a decoding error it reports is
  the one the one-shot decoder reports.
- The one-shot decoders that allocate and those that write into a caller's
  buffer agree.
