# tx_decoder

Decodes Bitcoin transactions from their consensus encoding (given as hexadecimal
text), encodes their parts again, and computes transaction ids, with the format
and the decoders proved in Verus.

- `src/wire.rs`: the wire format as spec functions, what each decoder reads and
  each encoder writes.
- `src/reader.rs`: a cursor over bytes in memory.
- `src/transaction.rs`: the transaction types, their models, the `Decodable` and
  `Encodable` traits with their implementations, and `compute_txid`.
- `src/hexcode.rs`, `src/sha.rs`: hexadecimal text and SHA-256, through the
  `hex` and `sha2` crates.
- `src/laws.rs`: round trips between the encoders and decoders, that each
  decoder reads its own bytes only and runs out of input on every proper prefix,
  lists and witnesses read from any item encodings, and the bytes a decoded
  transaction's id is the hash of.
- `src/lib.rs`: `decode_transaction`, from hexadecimal text to a transaction.
- `app/lib.rs`: `decode`, which renders a decoded transaction as JSON with serde
  (amounts in bitcoin, as floating point).
