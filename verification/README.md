# smtp

Streams that arrive as mail: accepting one message, and relaying one message.
Enough of RFC 5321 and no more, verified with Verus.

- `src/` is the protocol. It opens no connection: it is given raw lines and says
  what to say. Every function carries a contract over the bytes that went over the
  wire; `src/laws.rs` states what holds of sessions as a whole, up to a client and a
  server that understand each other.
- `app/` is the connection: sockets, timeouts, and the place of mail among the other
  transports of the `transport` crate.
- `tests/` runs the library.

Four facts about the standard library are taken on trust, each stated where it is
used: what `str::from_utf8`, `str::to_ascii_uppercase`, `String::from(&str)` and the
conversion of a type into itself give.
