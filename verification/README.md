# ws_server

A small WebSocket server whose protocol logic is verified with Verus.

- `src/request.rs`: reading the opening handshake request (start line,
  header lines, upgrade headers).
- `src/response.rs`: the 101 response, its `Sec-WebSocket-Accept` value
  (SHA-1 from the `sha1` crate, base64 from the `base64` crate) and its text.
- `src/message.rs`: frame decoding and encoding, client messages and the
  server's replies (echo, close, pong).
- `src/text.rs`: string cutting and comparison used by the parser, and
  lenient UTF-8 decoding.
- `src/lib.rs`: one step of the handshake and of a session, as functions from
  what was read to what is sent.
- `app/lib.rs`: sockets (`nix`), threads and the connection table; it reads
  bytes, calls the library and sends what the library returns.
