# ewm-cortex

HLLSet cortex pipeline and its K-storage, written in Verus. The library's
functions carry `requires` / `ensures` contracts proved by the verifier,
except six trusted items whose contracts are believed, not proved (five
wrappers and one declared outside type):

- `hashing::murmur3_x64_128` (calls `fastmurmur3::murmur3_x64_128`),
- `hashing::sha1_bytes` (calls `sha1::Sha1::digest`),
- `hashing::string_from_chars` (calls `String::from_iter`),
- `hllset::roaring_bytes` (builds a `roaring::RoaringBitmap` and calls
  `serialize_into`),
- `encoding::string_from_utf8_lossy` (calls `String::from_utf8_lossy`),
- and the declaration of `std::io::Error` (`materialize::ExIoError`).

The HLLSet core (hashing, content addresses, serialized form) is built in
this crate on three published crates: `fastmurmur3` for the seeded murmur3
x64/128 hash that places tokens in cells, `sha1` for the content addresses
of HLLSets, and `roaring` for the serialized form that those addresses
hash. The calls stand behind the wrappers above; everything computed from
their results is verified.

An HLLSet here is a set of lattice cells (1024 registers × 32
trailing-zero states). Tokens are ingested into cells by their murmur3
content address (`I`), and cells are materialized back into tokens through
a LUT (`M`); the two form a Galois connection, and the coverage gauge
`resolved / total` reads 1 exactly when the LUT covers a sub-lattice.

Layout:

- `src/` — the verified library
  - `hllset`, `hashing`, `bytes_order`, `byte_map`, `text` — cells, hashes,
    byte strings, counters, whitespace/line splitting
  - `kstorage`, `galois`, `bridge` — tier-1 / tier-2 LUTs and the laws of
    the adjunction
  - `encoding`, `gate`, `lut`, `pipeline` — the black-box cortex pipeline
  - `token_mask`, `context_vocab`, `setkey`, `moe` — context vocabulary,
    set-key scores, MoE / Expert Think Tank
  - `ingest`, `materialize`, `fpga` — streaming ingestion, engine interface,
    simulated board with its command protocol
  - `data`, `model`, `rng`, `phase1`, `phase2`, `phase3`, `corpus` — the
    integer parts of the phase harnesses
- `app/` — the command line, and the floating-point parts (autograd,
  transformer, ratios, hybrid scores)
- `tests/` — tests of the library

The command line is `ewm-cortex cortex <file>` or
`ewm-cortex phase0|phase1|phase2|phase3`.
