# ec_core

The core of a client that carries TCP connections through a tunnel: route planning, the SOCKS5
listener's decisions, and the connections of a user-space TCP stack. It is written in Verus:
what each function does is stated in its contract and proved.

## Layout

- `src/` is the verified library. It decides and does no I/O. Decisions that depend on answers
  from outside are state machines: a step says what is to be done, and the next step takes what
  came of it.
  - `routing.rs`, `rules.rs`, `dns_index.rs`, `scopes.rs`, `route_table.rs`, `dns.rs`: which
    targets go through the tunnel, and why.
  - `session.rs`, `socks_wire.rs`, `socks.rs`, `relay.rs`, `output.rs`: serving a SOCKS client.
  - `netstack.rs`, `tcp.rs`: the connections of the stack, on smoltcp's sockets.
  - `runtime_state.rs`, `error.rs`: how the client fails.
  - `text.rs`, `addr.rs`, `list.rs`: texts, addresses and lists.
- `tests/` runs the library, with smoltcp's loopback device under the stack.
- `app/` is the running client: sockets, threads, channels and clocks around the library. The DNS
  resolver, the fallback proxy, the log output and the tunnel device are the embedding program's
  (`app/host.rs`).

## What is taken as given

Functions of smoltcp and of the standard library that the proofs rest on have their contracts in
`tcp.rs` (sockets, socket sets, interfaces), `addr.rs` (the text form of IPv6 addresses),
`socks_wire.rs` (decoding UTF-8) and `text.rs` (appending a character). Each says what it claims.

Functions named `law_...` state what holds across the library: nothing goes through the tunnel but
what the table lists; a payload enters its socket once and in order; a request is read back as it
was written; and more of that kind.
