# dual

The networking, lobby and simulation core of a server-authoritative
multiplayer FPS engine, written in Verus.

- `src/` is the verified library:
  - `protocol` – packet header, payloads, client commands, wrapping sequence order;
  - `tracking` – receive-side duplicate filtering and acknowledgement bitfields,
    send-side acknowledgement tracking;
  - `connection` – per-peer reliability layer (reliable and ordered channels,
    resends, in-order delivery) and the server's connection table;
  - `endpoint` – the bookkeeping of a UDP endpoint, without the socket;
  - `server` – the server's handshake, command intake, kick and resend logic;
  - `delay` – release-time queues for simulated latency;
  - `session` – the client's side of the handshake;
  - `event` – game events with reliability modes and expiry;
  - `lobby` – lobbies, matchmaking queue and lobby manager;
  - `simulation` – integer fixed timestep and command buffer;
  - `history` – rollback snapshots and lag-compensation records;
  - `menu` – in-game menu entries.
- `app/` holds what touches the operating system, floating point or the
  serialization crates: the UDP socket, rkyv wire format, serde forms of the
  lobby settings, RTT smoothing, loss simulation, pose interpolation and the
  client's and server's run loops.
- `tests/` exercises the library.
