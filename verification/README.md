# rust_raknet

A RakNet implementation whose protocol core is verified with Verus.

- `src/` — the verified library:
  - `codec` — the mathematical model of fixed-width integer encodings;
  - `datatype` — `RaknetWriter` / `RaknetReader`, addresses, strings, the offline magic;
  - `packet` — every RakNet message: layouts, readers, writers and round-trip laws;
  - `arq` — reliabilities, frames and frame-set datagrams, acknowledgement sets,
    the receive queue;
  - `fragment` — reassembly of split messages;
  - `send` — the send queue: numbering, splitting, acknowledgement, timeouts,
    retransmission;
  - `conn` — the decisions of a connection and of a listening server, taken one
    datagram at a time;
  - `utils`, `error` — constants, the clock, the error type;
  - `wire` — the calls into `bytes` that encode integers.
- `app/` — the tokio sockets, tasks and timers that drive the library
  (`RaknetSocket`, `RaknetListener`, logging).
- `tests/` — tests of the library on concrete values.
