# Durable WebSocket relay

A relay pairs two endpoints and durably forwards opaque JSON payloads between
them, at least once and in sequence order, across disconnects and restarts. The
rules of the relay and of its client are a Verus library; the sockets, the
SQLite file and the command line are ordinary Rust around it.

## Layout

- `src/` holds the verified library.
  - `frame`, `payload`, `digest`, `ids`, `text`, `config`, `clock`: the values
    that clients, operators and the system hand in.
  - `entity`, `table`, `tables`, `database`, `journal`: the rows that the relay
    keeps, what every operation makes of them, and which rows it changes.
  - `operation`, `consistency`, `delivery`, `replay`, `retention`, `isolation`,
    `durability`: what holds across operations. Unacknowledged messages survive,
    retries are idempotent, sequences are not reused, queues keep to their
    limits, channels do not touch each other, and the journal of an operation
    brings rows on disk to the same state.
  - `hub`, `keyed_lock`, `server`: live connections, the lock of a pairing id,
    and how a connection is admitted and served.
  - `client`: the outbox, the receive cursor, and reconnection.
- `app/` holds the server and the client around the library.
- `tests/` runs the library on concrete values.

## How the server uses the library

An operation is one transaction. The server loads the rows of the channel that
the operation is about (`isolation` states that no others are read), opens a
`database::Database` on them, runs the operation, writes the row changes of its
journal, commits, and only then sends the frames that go out.
