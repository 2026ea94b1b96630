//! The core of a client that carries TCP connections through a tunnel.
//!
//! Programs talk to the client over SOCKS5. For each request the client plans a route: through the
//! tunnel, where a route table lists the target, or around it. Connections through the tunnel run
//! on a user-space TCP stack.
//!
//! This crate decides; it does not read, write, wait or look anything up. Where a decision needs
//! an answer from outside, it is made in steps, and the holder of the state hands the answers in.
//!
//! - [`routing`] plans routes, from the rules ([`rules`]), the DNS records and servers
//!   ([`dns_index`]) and the trusted scopes ([`scopes`]) of a route table ([`route_table`]).
//! - [`session`] serves a SOCKS client; [`socks_wire`] is the wire format, [`socks`] the choice of
//!   the transport and what is said of it, [`relay`] the passing on of bytes.
//! - [`netstack`] runs the connections of the stack, on smoltcp's sockets ([`tcp`]).
//! - [`runtime_state`] keeps the reason for which the client cannot go on.

pub mod addr;
pub mod dns;
pub mod dns_index;
pub mod error;
pub mod list;
pub mod netstack;
pub mod output;
pub mod relay;
pub mod route_table;
pub mod routing;
pub mod rules;
pub mod runtime_state;
pub mod scopes;
pub mod session;
pub mod socks;
pub mod socks_wire;
pub mod tcp;
pub mod text;
