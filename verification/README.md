# resplix_cdc

Content-defined chunking (FastCDC with a gear rolling hash), written in Verus.

- `src/gear.rs`: the gear table (SplitMix64 of each byte value), the rolling hash,
  and the cut-point search, with proofs that the table entries are distinct, that the
  hash forgets its state after 64 bytes, and that the search stops at the first cut-point.
- `src/config.rs`: chunk size configuration.
- `src/chunk.rs`: chunks, the `Chunker` interface and FastCDC over in-memory data, with
  proofs that chunks tile the data, respect the size bounds and depend only on the
  bytes of their `max_size` window.
- `src/stream.rs`: the buffered streaming chunker as a state machine; the caller reads.
  Proofs show that every run, however reads split the stream, emits the same chunks:
  they cover the stream, each hashes its own stream bytes, and all but the last are at
  least `min_size` long.
- `src/analysis.rs`: chunk counting, duplicate counting, length statistics and the data
  edits used by the experiments.
- `app/`: the experiment runner (file reading, memory mapping, TOML configuration,
  printed reports, timing).
