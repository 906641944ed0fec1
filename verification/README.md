# aegis_link

The logic of the aegis-link multiplayer game server — its UDP wire format,
HMAC-SHA256 authentication, replay protection, rate limiting, reliable
delivery and world snapshots — as a Verus library whose functions carry
contracts that Verus proves.

## Layout

- `src/packet.rs` — packet types, the header `[type | seq(4, BE) | flags | payload]`,
  `from_bytes` / `to_bytes`, and the encode/parse laws. Type bytes: 0
  Connection, 1 PlayerPosition, 2 GameEvent, 3 ChatMessages, 4 Snapshot,
  5 AuthChallenge, 6 AuthResponse.
- `src/auth.rs` — nonces, session keys, `sign` / `verify_and_strip`, and the
  law that verification accepts exactly the signed packets.
- `src/ack.rs` — plain-text acknowledgements `ACK:<seq>`, parsed as
  `str::trim` and `str::parse::<u32>` read them.
- `src/rate_limiter.rs` — a sliding one-second window over the times of the
  allowed packets, with strikes; the laws that no one-second span holds more
  allowed packets than the limit, that the first second allows exactly the
  limit, and that strikes count the refusals.
- `src/client.rs`, `src/server.rs` — clients, waiting reliable packets, the
  server state and its invariant; eviction, retransmission, snapshots.
- `src/receive.rs` — what the server does with one datagram: the handshake,
  tag checks, rate limits (every packet whose tag verifies: events and chat
  at 20 per second, any other packet at 120 per second), replay checks and
  dispatch, with the laws of the
  handshake, integrity, acknowledgement, replay protection and sequence
  numbers that never go down.
- `src/dashboard.rs`, `src/text.rs`, `src/clock.rs` — the event log, clock
  texts, and the clocks.
- `app/` — the program: sockets, timers, locks and the terminal dashboard.
- `tests/` — tests on concrete values.

Trusted items (contracts believed without proof) are marked
`#[verifier::external_body]` or `#[verifier::external_type_specification]`;
each names in its doc comment the outside function it calls.
