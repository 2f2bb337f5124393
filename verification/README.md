# srtp

SRTP and SRTCP packet protection, verified with Verus.

- `src/context.rs` holds the keying material of a session and the receive and send pipelines.
  Their contracts are exact: each is a function of the context and the packet
  (`ContextModel::incoming`, `ContextModel::outgoing`).
- `src/protocol.rs` is what the pipelines leave to `src/srtp.rs` and `src/srtcp.rs`.
- `src/stream.rs` is the state of one source, with its replay window.
- `src/crypto.rs` builds key derivation and packet keystreams on AES, counter mode and HMAC-SHA1,
  which come from the RustCrypto crates; `src/bitset.rs` says what the replay window relies on of
  `fixedbitset`.
- `src/rtp.rs` reads and writes RTP headers; `src/bytes.rs` has the numbers on the wire.
- `src/packet_io.rs` wraps packet readers and writers.
- `src/pipeline.rs` states what holds over one packet after another, `src/replay.rs` what the
  replay window says of the packets received, and `src/admission.rs` how many unknown sources a
  context lets in.

Proof functions whose names begin with `law_` state what the library promises as a whole:
receiving gives back what was sent, no index is accepted twice, sources do not disturb each other,
no two packets of up to `2^16` blocks share a keystream block.

`app/` connects the readers and writers to `std::io`.
