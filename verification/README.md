# redis_lite

The core of a small Redis-compatible server, verified with Verus.

- `src/frame.rs`, `src/wire.rs`: RESP frames. `wire.rs` states the byte
  grammar as spec functions; `Frame::check`, `Frame::parse` and
  `Frame::encode` are proved against it.
- `src/connection.rs`: the bytes a connection has received, and the frames
  taken from them.
- `src/command.rs`, `src/commands/`: decoding a request into a command, and
  the executors that compute each reply; `src/db.rs` is the store they use.
- `src/session.rs`: what a connection handler does after each read.
- `src/laws.rs`, `src/roundtrip.rs`: properties that span several functions.
- `src/buffers.rs`, `src/decimal.rs`, `src/text.rs`: the trusted contracts of
  the calls into `bytes`, `atoi` and std's text functions.
- `app/`: the server program (sockets, the clock, the command line).
