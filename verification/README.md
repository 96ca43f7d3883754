# nat_common

Two clients that want to reach each other first connect to a rendezvous
server, keep the connection alive, learn each other's address from it, and
punch a hole when the server tells both to.

`src/` is the verified library:

- `chat_protocol`: the wire frame. A frame is a 4-byte version, a 1-byte
  command, the payload length as a 4-byte big-endian integer, and the
  payload. A frame being received holds a prefix of these bytes.
- `session`: filling a frame from received bytes (`fill`), cutting received
  bytes into frames (`take_frames`), routing a frame to its handler, the
  client's settings and its login frame.
- `codec`: the login request as `bincode` writes it.
- `protocol_factory`: the table of handlers by command.
- `server`: the server's settings, paging defaults, the login answer and the
  web errors.

`app/` holds the programs: the client, the frame listener, and the server
with its database and web front.
