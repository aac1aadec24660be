# daxo_eco

Trusted air-quality monitoring: sensor nodes sign each measurement with Ed25519
and number it; the collection server checks the signature and refuses any
sequence number that is not above the last one it accepted from that node.

- `src/` — the verified library (Verus):
  - `codec` — varints, little-endian fields, length-prefixed byte strings;
  - `sensor_data` — the measurement record and the signed payload, with their
    encoders and decoders;
  - `crypto` — key pairs, signing, payload verification (Ed25519 through
    `ed25519-dalek`);
  - `store` — the server's replay-protected store;
  - `server` — how a submitted body is answered, and the OpenAQ export;
  - `persist` — the node's stored sequence number.
- `app/` — the node, the HTTP server, the end-to-end check and the encoding
  benchmark (I/O, randomness, floating point).
- `tests/` — tests of the library, including comparisons with `postcard`.
