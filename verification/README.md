# socketutils

Lists the TCP, UDP and raw sockets of a Linux machine, as `/proc/net/*`
describes them, with the process that holds each one.

- `src/` is the library, verified with Verus: splitting records into
  fields (`text.rs`), matching hexadecimal fields the way a `sscanf` format
  does (`scan.rs`), reading a record into a `SocketInfo`, writing endpoints,
  and deciding which process holds which socket (`socketinfo/`).
- `app/main.rs` reads `/proc` and prints the table.
- `tests/` exercises the library on concrete records.
