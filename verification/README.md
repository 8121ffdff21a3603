# crypto_writer

Writers for encrypted files, verified with Verus.

* `src/ring_writer.rs` seals bytes block by block, `src/stream.rs` reads such blocks back, and
  `src/aead.rs` and `src/nonce.rs` hold what is taken from `ring`, `secrecy` and `rand_chacha`
  without proof.
* `src/tmp_file.rs` changes a file by way of a temporary one that replaces it as a whole.
* `src/chunked.rs` spreads a file over chunks, each of them a file of its own; `src/chunk_writer.rs`
  and `src/chunk_name.rs` say how a chunk fits in.

The writers decide and compute, and touch no file. An operation returns the next piece of outside
work and is resumed with what came of it. `app/` carries the work out on real files.

What the operations mean for the bytes stands in `src/ring_laws.rs`, `src/tmp_file_laws.rs` and
`src/chunked_laws.rs`, and for several operations in `src/tmp_file_sequence_laws.rs` and
`src/chunked_sequence_laws.rs`. As long as the outside work is done as it was asked for and
succeeds, each writer behaves like one that edits a plain file in place. There is one exception: a
seek from one chunk to another leaves a chunk in between that has a file as long as it is, also if
it is not full. `src/composition.rs` shows that the writers do for each other what they ask of an
inner writer; the rest of the work is that of the file system and of whoever knows the size of the
file.
