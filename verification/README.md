# ppmd-rust (verified)

PPMd compression components written in Verus. Every function is proved free of
panics and overflow and to keep the model's tables and sizes intact. What the
contracts state beyond that differs by part:

- the range coders, the byte streams, the table builders and the allocator steps
  are stated exactly;
- the model steps are stated for the cases named in each contract: a hit in the
  current context, an escape from the root (the end marker), the first step along
  the text, one context made for the found symbol, one escaped context gaining the
  symbol, halving a context, pruning at order zero, and the like;
- the PPMd7a `read`, `write` and `finish` are stated over the model's coding step:
  each byte read or written is one step, and the end marker and flush close the
  stream.

The escape into a suffix context with masked symbols, updates that span several
contexts, and the round trip of the whole compressor are exercised by the tests
but not stated in contracts.

## Layout

- `src/byte_io.rs` — in-memory byte streams (`ByteReader`, `ByteWriter`) that the
  coders read from and write to.
- `src/range_coding.rs` — the two range coders of PPMd: the 7z coder of PPMd7 (with
  carry propagation in the encoder) and the carryless coder of PPMd var.H (PPMd7a),
  each as decoder and encoder, with the normalization loops specified byte by byte.
- `src/round_trip.rs`, `src/classic_round_trip.rs` — the round-trip laws of the two
  coders: a decoder that reads the encoder's output and follows its steps finds its
  code in the part the encoder chose at every step and never runs out of input.
- `src/ppmd7/` — the PPMd7 (PPMdH) model: its state and tables (`model.rs`), the
  fields of contexts and states and the allocator of 12-byte units (`units.rs`),
  the adaptation and growth after a symbol (`grow.rs`), and the coding of one
  symbol over the carryless range coder (`coder.rs`).
- `src/decoder_7a.rs`, `src/encoder_7a.rs` — the PPMd7a decoder and encoder:
  parameter checks, the model, reading and writing whole streams, the end marker,
  and restarting the range coder while keeping the model.
- `src/ppmd8/` — the PPMd8 (PPMdI) model: its tables (`mod.rs`), its memory
  (`arena.rs`), the allocator of 12-byte units (`units.rs`), the model state and its
  start (`model.rs`), pruning and restoring (`update.rs`), growth after a symbol
  (`grow.rs`), and the frequency updates and escape estimation (`adapt.rs`).
- `tests/` — tests of each part, including round trips of both coders, PPMd7a round
  trips of text, and runs of the PPMd8 model over text with small and large
  memories.
- `app/` — adapters between `std::io` readers and writers and the library's
  in-memory streams.

The model memory may be left inconsistent by a corrupt stream; every access stays
within it, and walks along the model stop after a bounded number of steps.
