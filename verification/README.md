# nafaq

The core of a peer-to-peer calling and messaging app built on iroh (QUIC),
written in Verus: the wire formats, the connection and direct-message
arbitration rules, the liveness ladder, the peer ticket cache, the video send
queue and receive reorder buffer, the send-quality controller, inbound file
transfer bookkeeping, input checks, and the identity and relay state machines.
Each public function carries a `requires`/`ensures` contract proved by Verus.
Properties over many calls are public proof functions (`lemma_*`) over
models of call sequences: the quality controller over ticks
(`quality_laws.rs`: every peer evolves as if alone, the shared level is the
worst peer's, one step per tick, cooldown and recovery) and the reorder
buffer over pushes (`video_transport.rs`: the released frames form an
unbroken reference chain, each pushed frame is released at most once, a
keyframe ahead of everything released resynchronises at once).

Layout:

- `src/` — the verified library (`nafaq`). Calls into outside crates
  (`blake3`, `base64`, `image`) go through small trusted wrappers whose
  doc comments say what is assumed of them.
- `tests/` — tests of the library on concrete values.
- `app/` — the Tauri shell around the library: the iroh endpoint, QUIC
  streams, codecs (Opus, OpenH264), stores, IPC commands and the background
  tasks. It performs the I/O that the library's decisions call for.
