# quack_protocol

The client side of DuckDB's Quack remote protocol, with its logic verified by
Verus.

- `src/` is the library: the binary codec and the messages of protocol versions
  1 and 3, the handshake that chooses a version, leases and heartbeats, the
  reading of results batch by batch, the bookkeeping of a pool of sessions, Quack
  URIs, SQL with parameters, and rows. Every verified function states what it
  does in `requires` and `ensures`; the public proof functions whose names begin
  with `law_` state what holds across functions.
- `app/` is the asynchronous client around it: HTTP, tasks and streams.
- `tests/` runs the library.

## Versions

A client asks for version 3 first and for version 1 if an older server turns
that down. `QuackConnectionInfo::quack_version` is the version that was chosen.
Equal values of `min_supported_quack_version` and `max_supported_quack_version`
require that one version.

Version 3 has query identifiers, batches that are acknowledged, raw chunks and
heartbeats. Appending works with version 1 only.

## The wire format

The format follows the conventions of DuckDB's serializer: numbered fields, a
field number that ends an object, and integers of variable length. The proofs
show that the two halves of the codec agree: a message that can be written is
read back, and bytes that are no message are refused with an error that is
stated. They do not show that a DuckDB server uses the same numbers. The numbers
of the kinds of messages, in `src/messages.rs`, and those of the fields, in
`src/codec.rs`, `src/typecodec.rs`, `src/vector.rs`, `src/chunk.rs` and
`src/payload.rs`, are chosen here and have not been held against a server.

## What is trusted

The contracts of a few functions of `std`, `url`, `indexmap` and `reqwest` are
believed, not proved. Each stands on a small item with a doc comment that says
what is claimed: in `src/text.rs`, `src/binary.rs`, `src/time.rs`,
`src/uri.rs`, `src/rows.rs` and `src/transport.rs`.

## Columns

Columns of booleans, integers up to 128 bits, decimals, dates, timestamps,
intervals, text, bytes, lists, arrays and structs have a wire form. Other types
are refused as unsupported, and so is a struct with two fields of one name.

## Failed connections

A pool retires a connection after a transport failure, after a reply that cannot
be read (bytes that break the format, text that is not UTF-8, an answer out of
protocol), and after a server error that says the connection is gone. An error
about the arguments of a call on a connection retires none, and neither does a
type without a wire form.
