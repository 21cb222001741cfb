# fmc_protocol

The networking core of a voxel-game server, verified with Verus.

`src/` is the verified library:

- `framing`: packets travel as a 4-byte big-endian length and that many bytes;
  encoding, incremental parsing against a length limit, and the laws that tie
  them (a frame reads back as the payload it was built from; an unfinished
  frame is never taken for a whole one).
- `packet`: a packet is the pair (kind, data) in bincode's default encoding;
  encoding and decoding go through bincode, with the format stated in the
  contracts, and a frame of a packet is proved to read back as the same kind
  and data.
- `handshake`: the steps a new connection goes through (identification,
  server configuration, assets, ready) as a state machine, with the proof that
  a client is accepted only under the name it identified itself with.
- `receive`: the receiving side of an established connection as a state
  machine that queues decoded messages in the registry.
- `registry`: message kinds the server listens for, each with a queue of the
  messages received, in order of arrival.
- `connections`: the table of established connections and the server's
  decisions on it (who a message reaches, which connections a batch of
  disconnection notices ends, ending them all on stop, which entities to
  despawn).
- `assoc`: association lists with distinct keys, read as maps.
- `messages`: the plain message types.

`app/` holds the sockets, tokio tasks and bevy systems that drive the library,
copies of the message types with serde derives (converted both ways), and the
message types that carry floating-point data, which only it has.
