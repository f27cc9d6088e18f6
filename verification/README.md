# cymru

Verified core of the CYMRU radio stack: RFC 0001 radio frames with
Reed-Solomon FEC and KISS framing, the strict-priority transmit queue,
deterministic CBOR and the CRCP robot-dispatch wire format (signing
pre-image, payload units, fragmentation and reassembly), the bridge broker
and the robot broker's safety gate, and the intent decisions of the vendor
adapters.

Layout:

- `src/` — the library, verified with Verus. Each public function states its
  result exactly over spec functions; the `law_*` proof functions state what
  holds across functions (round trips, order independence, reassembly in any
  order, the robot broker's signature and dead-man gate, subscription ids).
  Calls into `ed25519-dalek` and `reed-solomon` go through small trusted
  wrappers in `src/ed25519.rs` and `src/fec.rs`.
- `tests/` — tests run against the compiled library with the real outside
  crates.
- `app/` — the daemons around the library: the radio demo with a loopback
  radio, the bridge's JSON-over-stdio development bus, and the vendor
  adapters' floating-point command conversion.
