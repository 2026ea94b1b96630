//! The user-space TCP stack: its connections, the messages that control them, and how payloads
//! move between them and their owners.
//!
//! Channels and packets are moved by the holder of the stack: every function says what is due, and
//! the holder reports how it went.

use crate::addr::SocketAddr;
use crate::error::{EcError, EcResult};
use crate::tcp::{
    add_address, add_socket, addresses_of, assignable, can_recv, can_send, close, closed_from,
    connect, has_ipv4, is_open, is_open_state, local_of, may_send, may_send_in, new_socket,
    new_socket_set, own_ipv4, received, recv_slice, remote_of, remove_socket, send_slice, sending,
    sending_limit, set_limit, smaller, socket_mut, socket_state, sockets_in, ConnectRefusal,
    HostAddress, InterfaceAddress, TcpState,
};
use crate::text::append;
use smoltcp::iface::{Interface, SocketHandle, SocketSet};
use smoltcp::socket::tcp::Socket;
use vstd::prelude::*;

verus! {

/// The size of a socket's buffer each way.
pub const SOCKET_BUFFER_CAPACITY: usize = 65536;

/// The number of control messages that are handled at one go.
pub const MAX_CONTROL_BATCH: usize = 64;

/// The size of the chunks in which received bytes are handed on.
pub const UPLINK_CHUNK_SIZE: usize = 4096;

/// The lowest local port.
pub const FIRST_LOCAL_PORT: u16 = 40000;

/// The highest local port.
pub const LAST_LOCAL_PORT: u16 = 60000;

/// The length of the prefix of the stack's own address: every address is its neighbour.
pub const ASSIGNED_PREFIX: u8 = 0;

/// The seed of the stack's random numbers where the clock gives none.
pub const FIXED_SEED: u64 = 0x6e65_7473_7461_636b;

/// Says that the stack can be started; it needs nothing.
pub fn validate_netstack_preconditions() -> (r: EcResult<()>)
    ensures
        r is Ok,
{
    Ok(())
}

/// A payload on its way into a socket.
#[derive(Debug)]
pub struct PendingSend {
    data: Vec<u8>,
    offset: usize,
}

/// A [`PendingSend`]: the payload, and how much of it the socket has taken.
#[verifier::ext_equal]
pub struct PendingView {
    pub data: Seq<u8>,
    pub offset: nat,
}

impl View for PendingSend {
    type V = PendingView;

    closed spec fn view(&self) -> PendingView {
        PendingView { data: self.data@, offset: self.offset as nat }
    }
}

impl PendingSend {
    /// A payload of which nothing has been taken.
    pub fn new(data: Vec<u8>) -> (r: PendingSend)
        ensures
            r@ == (PendingView { data: data@, offset: 0 }),
    {
        PendingSend { data, offset: 0 }
    }

    /// What has not been taken yet.
    pub fn remaining(&self) -> (r: &[u8])
        requires
            self@.offset <= self@.data.len(),
        ensures
            r@ == self@.data.skip(self@.offset as int),
    {
        let r = vstd::slice::slice_subrange(self.data.as_slice(), self.offset, self.data.len());
        assert(r@ == self.data@.skip(self.offset as int));
        r
    }

    /// Records that `sent` more bytes have been taken.
    pub fn advance(&mut self, sent: usize)
        requires
            old(self)@.offset + sent <= usize::MAX,
        ensures
            final(self)@ == (PendingView { offset: old(self)@.offset + sent as nat, ..old(self)@ }),
    {
        self.offset = self.offset + sent;
    }

    /// Whether all of the payload has been taken.
    pub fn is_complete(&self) -> (r: bool)
        ensures
            r == (self@.offset == self@.data.len()),
    {
        self.offset == self.data.len()
    }
}

/// What the stack keeps of a connection.
#[derive(Debug)]
pub struct Connection {
    id: u64,
    handle: SocketHandle,
    pending_send: Option<PendingSend>,
    close_requested: bool,
}

/// A [`Connection`].
#[verifier::ext_equal]
pub struct ConnectionView {
    pub id: u64,
    pub handle: SocketHandle,
    pub pending: Option<PendingView>,
    pub close_requested: bool,
}

impl View for Connection {
    type V = ConnectionView;

    closed spec fn view(&self) -> ConnectionView {
        ConnectionView {
            id: self.id,
            handle: self.handle,
            pending: match self.pending_send {
                Some(pending) => Some(pending@),
                None => None,
            },
            close_requested: self.close_requested,
        }
    }
}

/// What a socket holds, and its endpoints.
#[verifier::ext_equal]
pub struct SocketView {
    pub state: TcpState,
    pub sending: Seq<u8>,
    pub limit: nat,
    pub received: Seq<u8>,
    pub remote: Option<(HostAddress, u16)>,
    pub local: Option<(HostAddress, u16)>,
}

/// What a socket holds, and its endpoints.
pub open spec fn socket_view(socket: Socket<'static>) -> SocketView {
    SocketView {
        state: socket_state(socket),
        sending: sending(socket),
        limit: sending_limit(socket),
        received: received(socket),
        remote: remote_of(socket),
        local: local_of(socket),
    }
}

/// Whether a socket takes bytes for sending and has room for some.
pub open spec fn sends(s: SocketView) -> bool {
    may_send_in(s.state) && s.sending.len() < s.limit
}

/// The number of bytes of a pending payload that a socket takes now.
pub open spec fn admitted(s: SocketView, p: PendingView) -> nat {
    smaller((s.limit - s.sending.len()) as nat, (p.data.len() - p.offset) as nat)
}

/// A socket after it took what it can of a pending payload.
pub open spec fn socket_after_admission(s: SocketView, pending: Option<PendingView>) -> SocketView {
    match pending {
        Some(p) if sends(s) => {
            let n = admitted(s, p);
            SocketView {
                sending: s.sending + p.data.subrange(p.offset as int, (p.offset + n) as int),
                ..s
            }
        },
        _ => s,
    }
}

/// What is left pending after a socket took what it can of it: nothing once it has taken all.
pub open spec fn pending_after_admission(s: SocketView, pending: Option<PendingView>) -> Option<
    PendingView,
> {
    match pending {
        Some(p) if sends(s) => if p.offset + admitted(s, p) == p.data.len() {
            None
        } else {
            Some(PendingView { offset: p.offset + admitted(s, p), ..p })
        },
        other => other,
    }
}

/// Moves what the socket can take of the pending payload into it; says whether that completed it.
pub(crate) fn pump_pending_sends(socket: &mut Socket<'static>, conn: &mut Connection) -> (r: bool)
    requires
        pending_in_bounds(old(conn)@),
    ensures
        socket_view(*final(socket)) == socket_after_admission(
            socket_view(*old(socket)),
            old(conn)@.pending,
        ),
        final(conn)@ == (ConnectionView {
            pending: pending_after_admission(socket_view(*old(socket)), old(conn)@.pending),
            ..old(conn)@
        }),
        r == (old(conn)@.pending is Some && final(conn)@.pending is None),
        pending_in_bounds(final(conn)@),
{
    if !can_send(socket) {
        return false;
    }
    let mut pending = match conn.pending_send.take() {
        Some(pending) => pending,
        None => {
            return false;
        },
    };
    if pending.is_complete() {
        assert(pending@.data.subrange(pending@.offset as int, pending@.offset as int) == Seq::<
            u8,
        >::empty());
        assert(sending(*socket) + Seq::<u8>::empty() == sending(*socket));
        return true;
    }
    let ghost start = pending@;
    let ghost room = socket_view(*socket);
    // A socket that can send takes at least one byte.
    if let Some(sent) = send_slice(socket, pending.remaining()) {
        assert(start.data.skip(start.offset as int).take(sent as int) == start.data.subrange(
            start.offset as int,
            start.offset + sent,
        ));
        assert(sent == admitted(room, start));
        assert(pending.data.len() == start.data.len());
        pending.advance(sent);
    }
    if pending.is_complete() {
        return true;
    }
    conn.pending_send = Some(pending);
    false
}

/// The next chunk of what a socket has received, the oldest bytes first; `None` where there is
/// nothing.
pub(crate) fn next_uplink_chunk(socket: &mut Socket<'static>) -> (r: Option<Vec<u8>>)
    ensures
        match r {
            Some(chunk) => {
                let n = smaller(received(*old(socket)).len(), UPLINK_CHUNK_SIZE as nat) as int;
                &&& received(*old(socket)).len() > 0
                &&& chunk@ == received(*old(socket)).take(n)
                &&& socket_view(*final(socket)) == (SocketView {
                    received: received(*old(socket)).skip(n),
                    ..socket_view(*old(socket))
                })
            },
            None => received(*old(socket)).len() == 0 && *final(socket) == *old(socket),
        },
{
    if !can_recv(socket) {
        return None;
    }
    let mut buf: Vec<u8> = Vec::new();
    while buf.len() < UPLINK_CHUNK_SIZE
        invariant
            buf@.len() <= UPLINK_CHUNK_SIZE,
        decreases UPLINK_CHUNK_SIZE - buf@.len(),
    {
        buf.push(0);
    }
    match recv_slice(socket, &mut buf) {
        Some(n) => {
            let ghost filled = buf@;
            buf.truncate(n);
            assert(buf@ == filled.take(n as int));
            assert(filled.take(n as int) == received(*old(socket)).take(n as int));
            Some(buf)
        },
        None => None,
    }
}

/// A connection after it was settled: closing is begun where it is asked for and nothing is
/// pending.
pub open spec fn socket_after_settling(s: SocketView, c: ConnectionView) -> SocketView {
    if c.close_requested && c.pending is None && may_send_in(s.state) {
        SocketView { state: closed_from(s.state), ..s }
    } else {
        s
    }
}

/// The message for a payload whose connection closed before it was taken.
pub open spec fn closed_early() -> Seq<char> {
    "tcp connection closed before payload admission completed"@
}

/// The connections of the stack, with the sockets and the interface that carry them.
///
/// The holder of the stack lets the interface work on the sockets ([`Netstack::parts`]); that
/// leaves the sockets under their handles.
pub struct Netstack {
    iface: Interface,
    sockets: SocketSet<'static>,
    connections: Vec<Connection>,
    next_conn_id: u64,
    next_local_port: u16,
}

/// What a [`Netstack`] holds.
#[verifier::ext_equal]
pub struct NetstackView {
    pub addresses: Seq<InterfaceAddress>,
    pub sockets: Map<SocketHandle, SocketView>,
    /// The number of sockets that there is room for; `None` where there is always room.
    pub socket_limit: Option<nat>,
    pub connections: Seq<ConnectionView>,
    pub next_conn_id: u64,
    pub next_local_port: u16,
}

/// What the sockets hold.
pub open spec fn socket_views(sockets: Map<SocketHandle, Socket<'static>>) -> Map<
    SocketHandle,
    SocketView,
> {
    Map::new(|h: SocketHandle| sockets.contains_key(h), |h: SocketHandle| socket_view(sockets[h]))
}

proof fn lemma_socket_views(
    sockets: Map<SocketHandle, Socket<'static>>,
    h: SocketHandle,
    s: Socket<'static>,
)
    ensures
        socket_views(sockets.insert(h, s)) == socket_views(sockets).insert(h, socket_view(s)),
        socket_views(sockets.remove(h)) == socket_views(sockets).remove(h),
{
    assert(socket_views(sockets.insert(h, s)) =~= socket_views(sockets).insert(h, socket_view(s)));
    assert(socket_views(sockets.remove(h)) =~= socket_views(sockets).remove(h));
}

impl View for Netstack {
    type V = NetstackView;

    closed spec fn view(&self) -> NetstackView {
        NetstackView {
            addresses: addresses_of(self.iface),
            sockets: socket_views(sockets_in(self.sockets)),
            socket_limit: set_limit(self.sockets),
            connections: crate::list::views(self.connections@),
            next_conn_id: self.next_conn_id,
            next_local_port: self.next_local_port,
        }
    }
}

/// Whether the connections are in order: each has its own identifier and its own socket, no more
/// of a payload is taken than there is, local ports are in their range, and there is room for more
/// sockets.
pub open spec fn in_order(v: NetstackView) -> bool {
    &&& forall|i: int, j: int|
        0 <= i < j < v.connections.len() ==> (#[trigger] v.connections[i]).id != (
        #[trigger] v.connections[j]).id && v.connections[i].handle != v.connections[j].handle
    &&& forall|i: int|
        0 <= i < v.connections.len() ==> v.sockets.contains_key(
            (#[trigger] v.connections[i]).handle,
        ) && pending_in_bounds(v.connections[i])
    &&& FIRST_LOCAL_PORT <= v.next_local_port <= LAST_LOCAL_PORT
    &&& v.socket_limit is None
}

/// Whether no more of a connection's pending payload is taken than there is.
pub open spec fn pending_in_bounds(c: ConnectionView) -> bool {
    c.pending matches Some(p) ==> p.offset <= p.data.len()
}

/// The position of the connection with an identifier, or the number of connections.
pub open spec fn position_of(connections: Seq<ConnectionView>, id: u64) -> int
    decreases connections.len(),
{
    if connections.len() == 0 || connections[0].id == id {
        0
    } else {
        1 + position_of(connections.skip(1), id)
    }
}

proof fn lemma_position_of(connections: Seq<ConnectionView>, id: u64, k: int)
    requires
        0 <= k <= connections.len(),
        k < connections.len() ==> connections[k].id == id,
        forall|i: int| 0 <= i < k ==> (#[trigger] connections[i]).id != id,
    ensures
        position_of(connections, id) == k,
    decreases connections.len(),
{
    if k > 0 {
        let rest = connections.skip(1);
        assert forall|i: int| 0 <= i < k - 1 implies (#[trigger] rest[i]).id != id by {
            assert(rest[i] == connections[i + 1]);
        }
        lemma_position_of(rest, id, k - 1);
    }
}

/// The local port after `port`: the next one, or the first again after the last.
pub open spec fn next_port(port: u16) -> u16 {
    if port >= LAST_LOCAL_PORT {
        FIRST_LOCAL_PORT
    } else {
        (port + 1) as u16
    }
}

/// Takes a local port.
pub fn alloc_local_port(next: &mut u16) -> (r: u16)
    ensures
        r == *old(next),
        *final(next) == next_port(*old(next)),
{
    let port: u16 = *next;
    *next = if port >= LAST_LOCAL_PORT {
        FIRST_LOCAL_PORT
    } else {
        port + 1
    };
    port
}

/// The port that comes `n` takes after `port`.
pub open spec fn port_after(port: u16, n: nat) -> u16
    decreases n,
{
    if n == 0 {
        port
    } else {
        next_port(port_after(port, (n - 1) as nat))
    }
}

/// Local ports go round: they stay in their range, and every port of the range comes once before
/// one comes again.
pub proof fn law_local_ports_go_round(port: u16, n: nat)
    requires
        FIRST_LOCAL_PORT <= port <= LAST_LOCAL_PORT,
    ensures
        port_after(port, n) == FIRST_LOCAL_PORT + (port - FIRST_LOCAL_PORT + n) % 20001,
        FIRST_LOCAL_PORT <= port_after(port, n) <= LAST_LOCAL_PORT,
        0 < n < 20001 ==> port_after(port, n) != port,
        port_after(port, 20001) == port,
    decreases n,
{
    lemma_port_after(port, n);
    lemma_port_after(port, 20001);
}

proof fn lemma_port_after(port: u16, n: nat)
    requires
        FIRST_LOCAL_PORT <= port <= LAST_LOCAL_PORT,
    ensures
        port_after(port, n) == FIRST_LOCAL_PORT + (port - FIRST_LOCAL_PORT + n) % 20001,
    decreases n,
{
    if n > 0 {
        lemma_port_after(port, (n - 1) as nat);
    }
}

/// The seed of the stack's random numbers: the time since the epoch in nanoseconds, or a fixed
/// number where the clock stands before the epoch or the low bits of its time are all zero. It is
/// never zero.
pub fn netstack_random_seed(since_epoch: Option<u128>) -> (r: u64)
    ensures
        r != 0,
        r == match since_epoch {
            Some(nanos) if nanos as u64 != 0 => nanos as u64,
            _ => FIXED_SEED,
        },
{
    match since_epoch {
        Some(nanos) if nanos as u64 != 0 => nanos as u64,
        _ => FIXED_SEED,
    }
}

/// The reason for which a connection attempt is refused, as errors show it.
pub open spec fn refusal_text(refusal: ConnectRefusal) -> Seq<char> {
    match refusal {
        ConnectRefusal::InvalidState => "invalid state"@,
        ConnectRefusal::Unaddressable => "unaddressable destination"@,
    }
}

/// Whether a connection to an endpoint can be opened.
pub open spec fn reachable(addresses: Seq<InterfaceAddress>, ip: u32, port: u16) -> bool {
    ip != 0 && port != 0 && has_ipv4(addresses)
}

/// The socket of a connection that is being opened to an endpoint, from a port on the first address
/// of the interface.
pub open spec fn opening_socket(
    addresses: Seq<InterfaceAddress>,
    ip: u32,
    port: u16,
    local_port: u16,
) -> SocketView {
    SocketView {
        state: TcpState::SynSent,
        sending: Seq::empty(),
        limit: SOCKET_BUFFER_CAPACITY as nat,
        received: Seq::empty(),
        remote: Some((HostAddress::Ipv4(ip), port)),
        local: Some((own_ipv4(addresses), local_port)),
    }
}

/// A new connection.
pub open spec fn new_connection(id: u64, handle: SocketHandle) -> ConnectionView {
    ConnectionView { id, handle, pending: None, close_requested: false }
}

/// The connections with one more, which takes the place of one with its identifier.
pub open spec fn with_connection(
    connections: Seq<ConnectionView>,
    c: ConnectionView,
) -> Seq<ConnectionView> {
    let i = position_of(connections, c.id);
    if i < connections.len() {
        connections.update(i, c)
    } else {
        connections.push(c)
    }
}

/// How opening a connection turns a stack into another, and what is said of it: an endpoint that
/// can be reached gets a connection with the next identifier and a socket of its own, which is
/// being connected to that endpoint from the next local port; for any other one only the local
/// port is used up.
pub open spec fn connection_opened(
    v: NetstackView,
    ip: u32,
    port: u16,
    w: NetstackView,
    result: EcResult<u64>,
) -> bool {
    match result {
        Ok(id) => {
            &&& reachable(v.addresses, ip, port)
            &&& id == v.next_conn_id
            &&& exists|h: SocketHandle|
                {
                    &&& !v.sockets.contains_key(h)
                    &&& w == (NetstackView {
                        sockets: v.sockets.insert(
                            h,
                            opening_socket(v.addresses, ip, port, v.next_local_port),
                        ),
                        connections: with_connection(
                            v.connections,
                            #[trigger] new_connection(id, h),
                        ),
                        next_conn_id: id.wrapping_add(1),
                        next_local_port: next_port(v.next_local_port),
                        ..v
                    })
                }
        },
        Err(err) => {
            &&& !reachable(v.addresses, ip, port)
            &&& err.text() == "tcp connect failed: "@ + refusal_text(ConnectRefusal::Unaddressable)
            &&& w == (NetstackView { next_local_port: next_port(v.next_local_port), ..v })
        },
    }
}

impl Netstack {
    /// Whether the stack is as its functions leave it.
    pub open spec fn valid(&self) -> bool {
        in_order(self@)
    }

    /// A stack without connections on an interface.
    pub fn new(iface: Interface) -> (r: Netstack)
        ensures
            r.valid(),
            r@.addresses == addresses_of(iface),
            r@.connections.len() == 0,
            r@.sockets.dom() == Set::<SocketHandle>::empty(),
            r@.next_conn_id == 1,
            r@.next_local_port == FIRST_LOCAL_PORT,
    {
        let r = Netstack {
            iface,
            sockets: new_socket_set(),
            connections: Vec::new(),
            next_conn_id: 1,
            next_local_port: FIRST_LOCAL_PORT,
        };
        assert(r@.sockets.dom() =~= Set::<SocketHandle>::empty());
        r
    }

    /// The interface and the sockets, for the interface to work on them.
    pub fn parts(&mut self) -> (r: (&mut Interface, &mut SocketSet<'static>))
        ensures
            addresses_of(*r.0) == old(self)@.addresses,
            socket_views(sockets_in(*r.1)) == old(self)@.sockets,
            set_limit(*r.1) == old(self)@.socket_limit,
            final(self)@ == (NetstackView {
                addresses: addresses_of(*final(r.0)),
                sockets: socket_views(sockets_in(*final(r.1))),
                socket_limit: set_limit(*final(r.1)),
                ..old(self)@
            }),
    {
        (&mut self.iface, &mut self.sockets)
    }

    /// Gives the interface its address, with every address for a neighbour. An interface that has
    /// addresses may have no room for it.
    pub fn assign_address(&mut self, ip: u32)
        requires
            old(self).valid(),
            assignable(ip),
        ensures
            final(self).valid(),
            final(self)@ == (NetstackView {
                addresses: final(self)@.addresses,
                ..old(self)@
            }),
            final(self)@.addresses == old(self)@.addresses.push(
                (InterfaceAddress { host: HostAddress::Ipv4(ip), prefix: ASSIGNED_PREFIX }),
            ) || (final(self)@.addresses == old(self)@.addresses && old(self)@.addresses.len() > 0),
    {
        add_address(&mut self.iface, ip, ASSIGNED_PREFIX);
    }

    /// The position of the connection with an identifier, or the number of connections.
    fn find(&self, id: u64) -> (r: usize)
        ensures
            r == position_of(self@.connections, id),
            r <= self@.connections.len(),
            r < self@.connections.len() ==> self@.connections[r as int].id == id,
            r == self@.connections.len() ==> forall|i: int|
                0 <= i < self@.connections.len() ==> (#[trigger] self@.connections[i]).id != id,
    {
        let mut i: usize = 0;
        while i < self.connections.len()
            invariant
                i <= self.connections@.len(),
                forall|j: int|
                    0 <= j < i ==> (#[trigger] self@.connections[j]).id != id,
            decreases self.connections@.len() - i,
        {
            if self.connections[i].id == id {
                assert(self@.connections[i as int].id == id);
                proof {
                    lemma_position_of(self@.connections, id, i as int);
                }
                return i;
            }
            assert(self@.connections[i as int].id == self.connections@[i as int].id);
            i += 1;
        }
        proof {
            lemma_position_of(self@.connections, id, i as int);
        }
        i
    }

    /// Opens a connection; the local port is taken whether or not that succeeds.
    pub fn open_connection(&mut self, ip: u32, port: u16) -> (r: EcResult<u64>)
        requires
            old(self).valid(),
        ensures
            final(self).valid(),
            connection_opened(old(self)@, ip, port, final(self)@, r),
    {
        let ghost held = sockets_in(self.sockets);
        let handle = add_socket(&mut self.sockets, new_socket(SOCKET_BUFFER_CAPACITY));
        let local_port: u16 = alloc_local_port(&mut self.next_local_port);
        let connected = {
            let socket = socket_mut(&mut self.sockets, handle);
            connect(socket, &mut self.iface, ip, port, local_port)
        };
        match connected {
            Ok(()) => {
                let id: u64 = self.next_conn_id;
                self.next_conn_id = id.wrapping_add(1);
                let i: usize = self.find(id);
                let ghost before = self@.connections;
                let conn = Connection {
                    id,
                    handle,
                    pending_send: None,
                    close_requested: false,
                };
                if i < self.connections.len() {
                    self.connections.set(i, conn);
                } else {
                    self.connections.push(conn);
                }
                proof {
                    let s = sockets_in(self.sockets)[handle];
                    lemma_socket_views(held, handle, s);
                    assert(sockets_in(self.sockets) =~= held.insert(handle, s));
                    assert(socket_view(s) =~= opening_socket(
                        old(self)@.addresses,
                        ip,
                        port,
                        local_port,
                    ));
                    assert(self@.connections =~= with_connection(
                        before,
                        new_connection(id, handle),
                    ));
                    assert(before =~= old(self)@.connections);
                }
                Ok(id)
            },
            Err(refusal) => {
                remove_socket(&mut self.sockets, handle);
                assert(sockets_in(self.sockets) =~= held);
                let mut message = "tcp connect failed: ".to_string();
                match refusal {
                    ConnectRefusal::InvalidState => {
                        append(&mut message, "invalid state");
                    },
                    ConnectRefusal::Unaddressable => {
                        append(&mut message, "unaddressable destination");
                    },
                }
                Err(EcError::Runtime(message))
            },
        }
    }
}

/// A message that controls the stack.
#[derive(Debug)]
pub enum ControlMessage {
    /// A packet has come out of the tunnel.
    TunnelPacket(Vec<u8>),
    /// A connection to an endpoint is wanted.
    Open(u32, u16),
    /// A payload is to be sent on a connection.
    Send(u64, Vec<u8>),
    /// A connection is to be closed.
    Close(u64),
}

/// What is due after a control message.
#[derive(Debug)]
pub enum ControlEffect {
    /// Nothing.
    Nothing,
    /// The packet goes to the device.
    PushPacket(Vec<u8>),
    /// The requester of a connection is told how it went.
    Opened(EcResult<u64>),
    /// The owner of a connection is told that its payload failed.
    SendFailed(u64, EcError),
}

/// The message for a payload that comes while another one is pending.
pub open spec fn multiple_pending() -> Seq<char> {
    "multiple tcp payloads pending admission"@
}

/// A connection after it was asked to send a payload: the payload is pending, unless one was
/// already; then both are given up and the connection is to be closed.
pub open spec fn connection_after_send(c: ConnectionView, data: Seq<u8>) -> ConnectionView {
    if c.pending is None {
        ConnectionView { pending: Some(PendingView { data, offset: 0 }), ..c }
    } else {
        ConnectionView { pending: None, close_requested: true, ..c }
    }
}

/// How asking for a payload to be sent turns a stack into another, and what is due then.
pub open spec fn payload_accepted(
    v: NetstackView,
    id: u64,
    data: Seq<u8>,
    w: NetstackView,
    effect: ControlEffect,
) -> bool {
    let i = position_of(v.connections, id);
    if i < v.connections.len() {
        let c = v.connections[i];
        &&& w == (NetstackView {
            connections: v.connections.update(i, connection_after_send(c, data)),
            ..v
        })
        &&& if c.pending is None {
            effect == ControlEffect::Nothing
        } else {
            effect matches ControlEffect::SendFailed(to, err) && to == id && err.text()
                == multiple_pending()
        }
    } else {
        effect == ControlEffect::Nothing && w == v
    }
}

/// How a control message turns a stack into another, and what is due then. A message for a
/// connection that there is not changes nothing.
pub open spec fn message_handled(
    v: NetstackView,
    msg: ControlMessage,
    w: NetstackView,
    effect: ControlEffect,
) -> bool {
    match msg {
        ControlMessage::TunnelPacket(packet) => effect == ControlEffect::PushPacket(packet) && w
            == v,
        ControlMessage::Open(ip, port) => effect matches ControlEffect::Opened(result)
            && connection_opened(v, ip, port, w, result),
        ControlMessage::Send(id, data) => payload_accepted(v, id, data@, w, effect),
        ControlMessage::Close(id) => {
            let i = position_of(v.connections, id);
            &&& effect == ControlEffect::Nothing
            &&& w == if i < v.connections.len() {
                NetstackView {
                    connections: v.connections.update(
                        i,
                        ConnectionView { close_requested: true, ..v.connections[i] },
                    ),
                    ..v
                }
            } else {
                v
            }
        },
    }
}

impl Netstack {
    /// Handles a control message.
    pub fn handle_control_message(&mut self, msg: ControlMessage) -> (r: ControlEffect)
        requires
            old(self).valid(),
        ensures
            final(self).valid(),
            message_handled(old(self)@, msg, final(self)@, r),
    {
        match msg {
            ControlMessage::TunnelPacket(packet) => ControlEffect::PushPacket(packet),
            ControlMessage::Open(ip, port) => ControlEffect::Opened(self.open_connection(ip, port)),
            ControlMessage::Send(id, data) => self.accept_payload(id, data),
            ControlMessage::Close(id) => {
                let i: usize = self.find(id);
                if i < self.connections.len() {
                    self.connections[i].close_requested = true;
                    assert(self@.connections =~= old(self)@.connections.update(
                        i as int,
                        ConnectionView {
                            close_requested: true,
                            ..old(self)@.connections[i as int]
                        },
                    ));
                }
                ControlEffect::Nothing
            },
        }
    }

    /// Takes a payload for a connection.
    fn accept_payload(&mut self, id: u64, data: Vec<u8>) -> (r: ControlEffect)
        requires
            old(self).valid(),
        ensures
            final(self).valid(),
            payload_accepted(old(self)@, id, data@, final(self)@, r),
    {
        let i: usize = self.find(id);
        if i < self.connections.len() {
            let ghost c = self@.connections[i as int];
            let idle = self.connections[i].pending_send.is_none();
            if idle {
                self.connections[i].pending_send = Some(PendingSend::new(data));
                assert(self@.connections =~= old(self)@.connections.update(
                    i as int,
                    connection_after_send(c, data@),
                ));
                ControlEffect::Nothing
            } else {
                fail_pending_send(&mut self.connections[i]);
                assert(self@.connections =~= old(self)@.connections.update(
                    i as int,
                    connection_after_send(c, data@),
                ));
                ControlEffect::SendFailed(
                    id,
                    EcError::runtime("multiple tcp payloads pending admission"),
                )
            }
        } else {
            ControlEffect::Nothing
        }
    }
}

/// Gives up the pending payload and asks for the connection to be closed.
fn fail_pending_send(conn: &mut Connection)
    ensures
        final(conn)@ == (ConnectionView { pending: None, close_requested: true, ..old(conn)@ }),
{
    conn.pending_send = None;
    conn.close_requested = true;
}

/// Where the stack is in going through its connections.
#[derive(Debug, Clone, Copy, PartialEq, Eq, Structural)]
pub enum DrivePhase {
    /// The pending payload of the connection is to be moved on.
    Sends,
    /// The owner was told that its payload was taken.
    SendNotified,
    /// Received bytes are to be handed on.
    Reads,
    /// A chunk of received bytes was handed on.
    ChunkSent,
    /// The connection is to be closed or forgotten, where that is due.
    Settle,
}

/// The connection that is being driven, by its position, and what is to be done with it.
#[derive(Debug, Clone, Copy, PartialEq, Eq, Structural)]
pub struct DriveCursor {
    pub at: usize,
    pub phase: DrivePhase,
}

/// What is due while connections are driven.
#[derive(Debug)]
pub enum DriveAction {
    /// Nothing; driving goes on.
    Continue,
    /// The owner of a connection is told that its payload was taken.
    NotifySend(u64),
    /// The connection is forgotten. Its owner is told that its payload failed, where one was
    /// pending, and hears nothing more.
    Forgotten(u64, Option<EcError>),
    /// The owner of a connection gets a chunk of what was received.
    Uplink(u64, Vec<u8>),
    /// All connections have been driven.
    Done,
}

/// A [`DriveAction`] with its bytes and texts.
pub enum DriveActionView {
    Continue,
    NotifySend(u64),
    Forgotten(u64, Option<Seq<char>>),
    Uplink(u64, Seq<u8>),
    Done,
}

impl View for DriveAction {
    type V = DriveActionView;

    open spec fn view(&self) -> DriveActionView {
        match *self {
            DriveAction::Continue => DriveActionView::Continue,
            DriveAction::NotifySend(id) => DriveActionView::NotifySend(id),
            DriveAction::Forgotten(id, Some(err)) => DriveActionView::Forgotten(
                id,
                Some(err.text()),
            ),
            DriveAction::Forgotten(id, None) => DriveActionView::Forgotten(id, None),
            DriveAction::Uplink(id, chunk) => DriveActionView::Uplink(id, chunk@),
            DriveAction::Done => DriveActionView::Done,
        }
    }
}

/// A stack with the socket and the record of one connection replaced.
pub open spec fn replaced(
    v: NetstackView,
    i: int,
    socket: SocketView,
    c: ConnectionView,
) -> NetstackView {
    NetstackView {
        sockets: v.sockets.insert(c.handle, socket),
        connections: v.connections.update(i, c),
        ..v
    }
}

/// A stack with one connection and its socket forgotten.
pub open spec fn forgotten(v: NetstackView, i: int) -> NetstackView {
    NetstackView {
        sockets: v.sockets.remove(v.connections[i].handle),
        connections: v.connections.remove(i),
        ..v
    }
}

/// One step of driving the connections: the stack, the cursor and what is due after it.
///
/// `delivered` says whether what was due after the last step reached the connection's owner.
pub open spec fn driven(v: NetstackView, cursor: DriveCursor, delivered: bool) -> (
    NetstackView,
    DriveCursor,
    DriveActionView,
) {
    let i = cursor.at as int;
    if i >= v.connections.len() {
        (v, cursor, DriveActionView::Done)
    } else {
        let c = v.connections[i];
        let s = v.sockets[c.handle];
        let to = |phase: DrivePhase| DriveCursor { phase, ..cursor };
        let closing = ConnectionView { close_requested: true, ..c };
        match cursor.phase {
            DrivePhase::Sends => {
                let pending = pending_after_admission(s, c.pending);
                let moved = replaced(
                    v,
                    i,
                    socket_after_admission(s, c.pending),
                    ConnectionView { pending, ..c },
                );
                if c.pending is Some && pending is None {
                    (
                        moved,
                        to(DrivePhase::SendNotified),
                        DriveActionView::NotifySend(c.id),
                    )
                } else {
                    (moved, to(DrivePhase::Reads), DriveActionView::Continue)
                }
            },
            DrivePhase::SendNotified => (
                if delivered {
                    v
                } else {
                    replaced(v, i, s, closing)
                },
                to(DrivePhase::Reads),
                DriveActionView::Continue,
            ),
            DrivePhase::Reads => {
                let n = smaller(s.received.len(), UPLINK_CHUNK_SIZE as nat) as int;
                if n == 0 {
                    (v, to(DrivePhase::Settle), DriveActionView::Continue)
                } else {
                    (
                        replaced(v, i, SocketView { received: s.received.skip(n), ..s }, c),
                        to(DrivePhase::ChunkSent),
                        DriveActionView::Uplink(c.id, s.received.take(n)),
                    )
                }
            },
            DrivePhase::ChunkSent => if delivered {
                (v, to(DrivePhase::Reads), DriveActionView::Continue)
            } else {
                (replaced(v, i, s, closing), to(DrivePhase::Settle), DriveActionView::Continue)
            },
            DrivePhase::Settle => {
                let settled = socket_after_settling(s, c);
                if is_open_state(settled.state) {
                    (
                        replaced(v, i, settled, c),
                        DriveCursor { at: (i + 1) as usize, phase: DrivePhase::Sends },
                        DriveActionView::Continue,
                    )
                } else {
                    (
                        forgotten(v, i),
                        to(DrivePhase::Sends),
                        DriveActionView::Forgotten(
                            c.id,
                            if c.pending is Some {
                                Some(closed_early())
                            } else {
                                None
                            },
                        ),
                    )
                }
            },
        }
    }
}

impl DriveCursor {
    /// The start of going through the connections.
    pub fn start() -> (r: DriveCursor)
        ensures
            r == (DriveCursor { at: 0, phase: DrivePhase::Sends }),
    {
        DriveCursor { at: 0, phase: DrivePhase::Sends }
    }
}

impl Netstack {
    /// Makes one step in going through the connections.
    ///
    /// Each connection's pending payload is moved on, its received bytes are handed on, and it is
    /// closed or forgotten where that is due.
    pub fn drive_step(&mut self, cursor: DriveCursor, delivered: bool) -> (r: (
        DriveCursor,
        DriveAction,
    ))
        requires
            old(self).valid(),
        ensures
            final(self).valid(),
            (final(self)@, r.0, r.1@) == driven(old(self)@, cursor, delivered),
    {
        let i: usize = cursor.at;
        if i >= self.connections.len() {
            return (cursor, DriveAction::Done);
        }
        let id: u64 = self.connections[i].id;
        let ghost c = self@.connections[i as int];
        let ghost held = sockets_in(self.sockets);
        let ghost s = self@.sockets[c.handle];
        assert(held.contains_key(c.handle)) by {
            assert(self@.sockets.contains_key(c.handle));
        }
        match cursor.phase {
            DrivePhase::Sends => {
                let conn = &mut self.connections[i];
                let socket = socket_mut(&mut self.sockets, conn.handle);
                let completed = pump_pending_sends(socket, conn);
                proof {
                    lemma_socket_views(held, c.handle, sockets_in(self.sockets)[c.handle]);
                    assert(self@ =~= replaced(
                        old(self)@,
                        i as int,
                        socket_after_admission(s, c.pending),
                        ConnectionView { pending: pending_after_admission(s, c.pending), ..c },
                    ));
                    lemma_replaced(old(self)@, self@, i as int);
                }
                if completed {
                    (
                        DriveCursor { at: i, phase: DrivePhase::SendNotified },
                        DriveAction::NotifySend(id),
                    )
                } else {
                    (DriveCursor { at: i, phase: DrivePhase::Reads }, DriveAction::Continue)
                }
            },
            DrivePhase::SendNotified => {
                if !delivered {
                    self.request_close(i);
                }
                (DriveCursor { at: i, phase: DrivePhase::Reads }, DriveAction::Continue)
            },
            DrivePhase::Reads => {
                let socket = socket_mut(&mut self.sockets, self.connections[i].handle);
                match next_uplink_chunk(socket) {
                    Some(chunk) => {
                        proof {
                            lemma_socket_views(held, c.handle, sockets_in(self.sockets)[c.handle]);
                            let n = smaller(s.received.len(), UPLINK_CHUNK_SIZE as nat) as int;
                            assert(self@ =~= replaced(
                                old(self)@,
                                i as int,
                                SocketView { received: s.received.skip(n), ..s },
                                c,
                            ));
                            lemma_replaced(old(self)@, self@, i as int);
                        }
                        (
                            DriveCursor { at: i, phase: DrivePhase::ChunkSent },
                            DriveAction::Uplink(id, chunk),
                        )
                    },
                    None => {
                        assert(sockets_in(self.sockets) =~= held);
                        (DriveCursor { at: i, phase: DrivePhase::Settle }, DriveAction::Continue)
                    },
                }
            },
            DrivePhase::ChunkSent => {
                if delivered {
                    (DriveCursor { at: i, phase: DrivePhase::Reads }, DriveAction::Continue)
                } else {
                    self.request_close(i);
                    (DriveCursor { at: i, phase: DrivePhase::Settle }, DriveAction::Continue)
                }
            },
            DrivePhase::Settle => self.settle(i),
        }
    }

    /// Asks for a connection to be closed.
    fn request_close(&mut self, i: usize)
        requires
            old(self).valid(),
            i < old(self)@.connections.len(),
        ensures
            final(self).valid(),
            final(self)@ == replaced(
                old(self)@,
                i as int,
                old(self)@.sockets[old(self)@.connections[i as int].handle],
                ConnectionView { close_requested: true, ..old(self)@.connections[i as int] },
            ),
    {
        let ghost c = self@.connections[i as int];
        let ghost held = sockets_in(self.sockets);
        self.connections[i].close_requested = true;
        proof {
            assert(old(self)@.sockets.contains_key(c.handle));
            assert(self@ =~= replaced(
                old(self)@,
                i as int,
                old(self)@.sockets[c.handle],
                ConnectionView { close_requested: true, ..c },
            ));
            lemma_replaced(old(self)@, self@, i as int);
        }
    }

    /// Closes or forgets a connection, where that is due.
    fn settle(&mut self, i: usize) -> (r: (DriveCursor, DriveAction))
        requires
            old(self).valid(),
            i < old(self)@.connections.len(),
        ensures
            final(self).valid(),
            (final(self)@, r.0, r.1@) == driven(
                old(self)@,
                DriveCursor { at: i, phase: DrivePhase::Settle },
                true,
            ),
    {
        let ghost c = self@.connections[i as int];
        let ghost held = sockets_in(self.sockets);
        let ghost s = self@.sockets[c.handle];
        assert(held.contains_key(c.handle)) by {
            assert(self@.sockets.contains_key(c.handle));
        }
        let handle = self.connections[i].handle;
        let close_due = self.connections[i].close_requested
            && self.connections[i].pending_send.is_none();
        let open = {
            let socket = socket_mut(&mut self.sockets, handle);
            if close_due && may_send(socket) {
                close(socket);
            }
            is_open(socket)
        };
        proof {
            lemma_socket_views(held, handle, sockets_in(self.sockets)[handle]);
            assert(socket_view(sockets_in(self.sockets)[handle]) =~= socket_after_settling(s, c));
            assert(self@ =~= replaced(old(self)@, i as int, socket_after_settling(s, c), c));
            lemma_replaced(old(self)@, self@, i as int);
        }
        if open {
            assert(self.connections.len() == self@.connections.len());
            return (DriveCursor { at: i + 1, phase: DrivePhase::Sends }, DriveAction::Continue);
        }
        let ghost middle = self@;
        let ghost kept = sockets_in(self.sockets);
        let conn = self.connections.remove(i);
        remove_socket(&mut self.sockets, handle);
        proof {
            lemma_socket_views(kept, handle, kept[handle]);
            assert(self@ =~= forgotten(middle, i as int));
            assert(middle.connections =~= old(self)@.connections);
            assert(self@ =~= forgotten(old(self)@, i as int));
            lemma_forgotten(old(self)@, i as int);
        }
        let failed = if conn.pending_send.is_some() {
            Some(EcError::runtime("tcp connection closed before payload admission completed"))
        } else {
            None
        };
        (DriveCursor { at: i, phase: DrivePhase::Sends }, DriveAction::Forgotten(conn.id, failed))
    }
}

proof fn lemma_replaced(v: NetstackView, w: NetstackView, i: int)
    requires
        in_order(v),
        0 <= i < v.connections.len(),
        w.connections.len() == v.connections.len(),
        w == replaced(v, i, w.sockets[w.connections[i].handle], w.connections[i]),
        w.connections[i].id == v.connections[i].id,
        w.connections[i].handle == v.connections[i].handle,
        pending_in_bounds(w.connections[i]),
    ensures
        in_order(w),
{
    assert forall|a: int, b: int| 0 <= a < b < w.connections.len() implies (
    #[trigger] w.connections[a]).id != (#[trigger] w.connections[b]).id && w.connections[a].handle
        != w.connections[b].handle by {
        assert(w.connections[a].id == v.connections[a].id);
        assert(w.connections[b].id == v.connections[b].id);
    }
    assert forall|a: int| 0 <= a < w.connections.len() implies w.sockets.contains_key(
        (#[trigger] w.connections[a]).handle,
    ) && pending_in_bounds(w.connections[a]) by {
        assert(v.sockets.contains_key(v.connections[a].handle));
    }
}

proof fn lemma_forgotten(v: NetstackView, i: int)
    requires
        in_order(v),
        0 <= i < v.connections.len(),
    ensures
        in_order(forgotten(v, i)),
{
    let w = forgotten(v, i);
    let from = |a: int|
        if a < i {
            a
        } else {
            a + 1
        };
    assert forall|a: int| 0 <= a < w.connections.len() implies #[trigger] w.connections[a]
        == v.connections[from(a)] by {}
    assert forall|a: int, b: int| 0 <= a < b < w.connections.len() implies (
    #[trigger] w.connections[a]).id != (#[trigger] w.connections[b]).id && w.connections[a].handle
        != w.connections[b].handle by {
        assert(v.connections[from(a)].id != v.connections[from(b)].id);
    }
    assert forall|a: int| 0 <= a < w.connections.len() implies w.sockets.contains_key(
        (#[trigger] w.connections[a]).handle,
    ) && pending_in_bounds(w.connections[a]) by {
        let k = from(a);
        assert(v.sockets.contains_key(v.connections[k].handle));
        if k < i {
            assert(v.connections[k].handle != v.connections[i].handle);
        } else {
            assert(v.connections[i].handle != v.connections[k].handle);
        }
    }
}

/// The error for a control channel that has no sender left.
pub fn control_channel_disconnected_err() -> (r: EcError)
    ensures
        r.text() == disconnected_text(),
{
    EcError::runtime("netstack control channel disconnected")
}

/// The message for a control channel that has no sender left.
pub open spec fn disconnected_text() -> Seq<char> {
    "netstack control channel disconnected"@
}

/// Where the stack's loop is.
#[derive(Debug, Clone, Copy, PartialEq, Eq, Structural)]
pub enum LoopPhase {
    /// A control message is waited for.
    Waiting,
    /// That many control messages have been handled at one go.
    Batch(usize),
    /// The interface is at work.
    Polling,
    /// The connections are being driven.
    Driving(DriveCursor),
    /// The loop has ended.
    Ended,
}

/// What happened in the stack's loop.
#[derive(Debug)]
pub enum LoopEvent {
    /// A control message came.
    Received(ControlMessage),
    /// No control message came.
    NothingReceived,
    /// No sender of control messages is left.
    Disconnected,
    /// What was due after a control message has been done.
    EffectDone,
    /// The interface has worked.
    Polled,
    /// What was due for a connection reached its owner, or did not.
    Delivered(bool),
}

/// What the stack's loop does next.
#[derive(Debug)]
pub enum LoopAction {
    /// Wait for a control message, no longer than the interface can wait.
    Wait,
    /// Look for a control message that is there already.
    TryReceive,
    /// Do what is due after a control message.
    Effect(ControlEffect),
    /// Let the interface work.
    Poll,
    /// Do what is due for a connection.
    Drive(DriveAction),
    /// End with the error.
    Stop(EcError),
}

/// Whether an event is one that the phase waits for.
pub open spec fn loop_awaits(phase: LoopPhase, event: LoopEvent) -> bool {
    match phase {
        LoopPhase::Waiting => event is Received || event is NothingReceived || event is Disconnected,
        LoopPhase::Batch(n) => 1 <= n <= MAX_CONTROL_BATCH && match event {
            LoopEvent::EffectDone => true,
            LoopEvent::Received(_) => n < MAX_CONTROL_BATCH,
            LoopEvent::NothingReceived | LoopEvent::Disconnected => n < MAX_CONTROL_BATCH,
            _ => false,
        },
        LoopPhase::Polling => event is Polled,
        LoopPhase::Driving(_) => event is Delivered,
        LoopPhase::Ended => false,
    }
}

/// The number of control messages that have been handled at one go.
pub open spec fn handled_in(phase: LoopPhase) -> int {
    match phase {
        LoopPhase::Batch(n) => n as int,
        _ => 0,
    }
}

/// The step of driving the connections that a phase and an event lead to.
pub open spec fn drive_due(phase: LoopPhase, event: LoopEvent) -> Option<(DriveCursor, bool)> {
    match (phase, event) {
        (LoopPhase::Polling, LoopEvent::Polled) => Some(
            (DriveCursor { at: 0, phase: DrivePhase::Sends }, true),
        ),
        (LoopPhase::Driving(cursor), LoopEvent::Delivered(delivered)) => Some((cursor, delivered)),
        _ => None,
    }
}

/// How a step of the loop turns a stack into another, and what comes next.
///
/// Waiting ends with a message or without one. After a message, more are handled as long as they
/// are there and the batch has room; then the interface works, and after it every connection is
/// driven. The loop ends only when no sender of control messages is left.
pub open spec fn loop_stepped(
    v: NetstackView,
    phase: LoopPhase,
    event: LoopEvent,
    w: NetstackView,
    next: LoopPhase,
    action: LoopAction,
) -> bool {
    match event {
        LoopEvent::Received(msg) => {
            &&& action matches LoopAction::Effect(effect) && message_handled(v, msg, w, effect)
            &&& next == LoopPhase::Batch((handled_in(phase) + 1) as usize)
        },
        LoopEvent::NothingReceived => w == v && next == LoopPhase::Polling && action
            == LoopAction::Poll,
        LoopEvent::Disconnected => {
            &&& w == v && next == LoopPhase::Ended
            &&& action matches LoopAction::Stop(err) && err.text() == disconnected_text()
        },
        LoopEvent::EffectDone => {
            &&& w == v
            &&& if handled_in(phase) < MAX_CONTROL_BATCH {
                next == phase && action == LoopAction::TryReceive
            } else {
                next == LoopPhase::Polling && action == LoopAction::Poll
            }
        },
        LoopEvent::Polled | LoopEvent::Delivered(_) => drive_due(phase, event) matches Some(
            (cursor, delivered),
        ) && {
            let (driven_view, at, due) = driven(v, cursor, delivered);
            &&& w == driven_view
            &&& if due is Done {
                next == LoopPhase::Waiting && action == LoopAction::Wait
            } else {
                &&& next == LoopPhase::Driving(at)
                &&& action matches LoopAction::Drive(a) && a@ == due
            }
        },
    }
}

impl Netstack {
    /// Makes one step of the stack's loop, which starts by waiting.
    pub fn loop_step(&mut self, phase: LoopPhase, event: LoopEvent) -> (r: (LoopPhase, LoopAction))
        requires
            old(self).valid(),
            loop_awaits(phase, event),
        ensures
            final(self).valid(),
            loop_stepped(old(self)@, phase, event, final(self)@, r.0, r.1),
    {
        match event {
            LoopEvent::Received(msg) => {
                let handled: usize = match phase {
                    LoopPhase::Batch(n) => n,
                    _ => 0,
                };
                let effect = self.handle_control_message(msg);
                (LoopPhase::Batch(handled + 1), LoopAction::Effect(effect))
            },
            LoopEvent::NothingReceived => (LoopPhase::Polling, LoopAction::Poll),
            LoopEvent::Disconnected => (
                LoopPhase::Ended,
                LoopAction::Stop(control_channel_disconnected_err()),
            ),
            LoopEvent::EffectDone => match phase {
                LoopPhase::Batch(n) if n >= MAX_CONTROL_BATCH => (
                    LoopPhase::Polling,
                    LoopAction::Poll,
                ),
                _ => (phase, LoopAction::TryReceive),
            },
            LoopEvent::Polled => self.drive_on(DriveCursor::start(), true),
            LoopEvent::Delivered(delivered) => match phase {
                LoopPhase::Driving(cursor) => self.drive_on(cursor, delivered),
                _ => (phase, LoopAction::Wait),
            },
        }
    }

    /// Drives the connections by one step of the loop.
    fn drive_on(&mut self, cursor: DriveCursor, delivered: bool) -> (r: (LoopPhase, LoopAction))
        requires
            old(self).valid(),
        ensures
            final(self).valid(),
            ({
                let (driven_view, at, due) = driven(old(self)@, cursor, delivered);
                &&& final(self)@ == driven_view
                &&& if due is Done {
                    r == (LoopPhase::Waiting, LoopAction::Wait)
                } else {
                    &&& r.0 == LoopPhase::Driving(at)
                    &&& r.1 matches LoopAction::Drive(a) && a@ == due
                }
            }),
    {
        let (next, action) = self.drive_step(cursor, delivered);
        match action {
            DriveAction::Done => (LoopPhase::Waiting, LoopAction::Wait),
            action => (LoopPhase::Driving(next), LoopAction::Drive(action)),
        }
    }
}

/// The loop never leaves its course: after every step it awaits what its action leads to.
pub proof fn law_loop_stays_on_course(
    v: NetstackView,
    phase: LoopPhase,
    event: LoopEvent,
    w: NetstackView,
    next: LoopPhase,
    action: LoopAction,
)
    requires
        loop_awaits(phase, event),
        loop_stepped(v, phase, event, w, next, action),
    ensures
        match action {
            LoopAction::Wait => next is Waiting,
            LoopAction::TryReceive => next matches LoopPhase::Batch(n) && 1 <= n
                < MAX_CONTROL_BATCH,
            LoopAction::Effect(_) => next matches LoopPhase::Batch(n) && 1 <= n
                <= MAX_CONTROL_BATCH,
            LoopAction::Poll => next is Polling,
            LoopAction::Drive(_) => next is Driving,
            LoopAction::Stop(_) => next is Ended,
        },
        action is Stop ==> event is Disconnected,
{
}

/// A step of talking to the stack over its channels.
#[derive(Debug, Clone, Copy, PartialEq, Eq, Structural)]
pub enum ChannelStep {
    OpenRequest,
    PayloadRequest,
    PayloadAdmission,
    CloseRequest,
}

/// What a failed step is called.
pub open spec fn step_text(step: ChannelStep) -> Seq<char> {
    match step {
        ChannelStep::OpenRequest => "send open connection request failed: "@,
        ChannelStep::PayloadRequest => "send tcp payload request failed: "@,
        ChannelStep::PayloadAdmission => "wait tcp payload admission failed: "@,
        ChannelStep::CloseRequest => "send tcp close request failed: "@,
    }
}

/// The error for a step that failed.
pub fn channel_error(step: ChannelStep, detail: &str) -> (r: EcError)
    ensures
        r.text() == step_text(step) + detail@,
{
    let mut message = match step {
        ChannelStep::OpenRequest => "send open connection request failed: ".to_string(),
        ChannelStep::PayloadRequest => "send tcp payload request failed: ".to_string(),
        ChannelStep::PayloadAdmission => "wait tcp payload admission failed: ".to_string(),
        ChannelStep::CloseRequest => "send tcp close request failed: ".to_string(),
    };
    append(&mut message, detail);
    EcError::Runtime(message)
}

/// How far the owner of a connection has come with a payload or with closing.
#[derive(Debug, Clone, Copy, PartialEq, Eq, Structural)]
pub enum SenderPhase {
    /// A payload is being handed to the stack.
    Sending,
    /// A payload was handed over; the stack has not said what became of it.
    Admitting,
    /// Closing is being asked for.
    Closing,
    /// It is over.
    Over,
}

/// What the owner of a connection does next.
#[derive(Debug)]
pub enum SenderAction {
    /// Hand the message to the stack.
    Request(ControlMessage),
    /// Wait for the stack to say what became of the payload.
    AwaitAdmission,
    /// Return the result.
    Return(EcResult<()>),
}

/// How what the owner of a connection did went.
#[derive(Debug)]
pub enum SenderEvent {
    /// A message was handed over or could not be.
    Requested(Result<(), String>),
    /// The stack said what became of the payload, or can no longer say it.
    Answered(Result<EcResult<()>, String>),
}

/// Whether the event can come in the phase.
pub open spec fn sender_awaits(phase: SenderPhase, event: SenderEvent) -> bool {
    match event {
        SenderEvent::Requested(_) => phase is Sending || phase is Closing,
        SenderEvent::Answered(_) => phase is Admitting,
    }
}

/// Whether the action is to return the error of a step that failed.
pub open spec fn returns_failure(action: SenderAction, step: ChannelStep, detail: Seq<char>) -> bool {
    action matches SenderAction::Return(Err(err)) && err.text() == step_text(step) + detail
}

/// What follows an event: a payload that was handed over is waited for, and what the stack says of
/// it is returned; a request to close is not waited for; a step that fails ends the matter.
pub open spec fn sender_stepped(
    phase: SenderPhase,
    event: SenderEvent,
    next: SenderPhase,
    action: SenderAction,
) -> bool {
    match (phase, event) {
        (SenderPhase::Sending, SenderEvent::Requested(Ok(()))) => {
            next is Admitting && action is AwaitAdmission
        },
        (SenderPhase::Sending, SenderEvent::Requested(Err(detail))) => {
            next is Over && returns_failure(action, ChannelStep::PayloadRequest, detail@)
        },
        (SenderPhase::Admitting, SenderEvent::Answered(Ok(answer))) => {
            next is Over && action == SenderAction::Return(answer)
        },
        (SenderPhase::Admitting, SenderEvent::Answered(Err(detail))) => {
            next is Over && returns_failure(action, ChannelStep::PayloadAdmission, detail@)
        },
        (SenderPhase::Closing, SenderEvent::Requested(Ok(()))) => {
            next is Over && action == SenderAction::Return(Ok(()))
        },
        (SenderPhase::Closing, SenderEvent::Requested(Err(detail))) => {
            next is Over && returns_failure(action, ChannelStep::CloseRequest, detail@)
        },
        _ => false,
    }
}

/// Begins to send a payload on a connection.
pub fn begin_send(id: u64, data: Vec<u8>) -> (r: (SenderPhase, SenderAction))
    ensures
        r == (SenderPhase::Sending, SenderAction::Request(ControlMessage::Send(id, data))),
{
    (SenderPhase::Sending, SenderAction::Request(ControlMessage::Send(id, data)))
}

/// Begins to close a connection.
pub fn begin_close(id: u64) -> (r: (SenderPhase, SenderAction))
    ensures
        r == (SenderPhase::Closing, SenderAction::Request(ControlMessage::Close(id))),
{
    (SenderPhase::Closing, SenderAction::Request(ControlMessage::Close(id)))
}

impl SenderPhase {
    /// Takes an event and says what comes next.
    pub fn on_event(self, event: SenderEvent) -> (r: (SenderPhase, SenderAction))
        requires
            sender_awaits(self, event),
        ensures
            sender_stepped(self, event, r.0, r.1),
    {
        match (self, event) {
            (SenderPhase::Sending, SenderEvent::Requested(Ok(()))) => (
                SenderPhase::Admitting,
                SenderAction::AwaitAdmission,
            ),
            (SenderPhase::Sending, SenderEvent::Requested(Err(detail))) => (
                SenderPhase::Over,
                SenderAction::Return(
                    Err(channel_error(ChannelStep::PayloadRequest, detail.as_str())),
                ),
            ),
            (_, SenderEvent::Answered(Ok(answer))) => (
                SenderPhase::Over,
                SenderAction::Return(answer),
            ),
            (_, SenderEvent::Answered(Err(detail))) => (
                SenderPhase::Over,
                SenderAction::Return(
                    Err(channel_error(ChannelStep::PayloadAdmission, detail.as_str())),
                ),
            ),
            (_, SenderEvent::Requested(Ok(()))) => (
                SenderPhase::Over,
                SenderAction::Return(Ok(())),
            ),
            (_, SenderEvent::Requested(Err(detail))) => (
                SenderPhase::Over,
                SenderAction::Return(
                    Err(channel_error(ChannelStep::CloseRequest, detail.as_str())),
                ),
            ),
        }
    }
}

/// Sending waits for the stack: it ends well only once the stack said that the payload was taken,
/// what the stack says is returned as it is, and nothing more is handed over before that.
pub proof fn law_sending_waits_for_admission(
    phase: SenderPhase,
    event: SenderEvent,
    next: SenderPhase,
    action: SenderAction,
)
    requires
        sender_awaits(phase, event),
        sender_stepped(phase, event, next, action),
    ensures
        action !is Request,
        phase is Sending ==> action != SenderAction::Return(Ok(())),
        phase is Sending && action !is AwaitAdmission ==> action matches SenderAction::Return(
            Err(_),
        ),
        phase is Admitting && action == SenderAction::Return(Ok(())) ==> event
            == SenderEvent::Answered(Ok(Ok(()))),
        event matches SenderEvent::Answered(Ok(answer)) ==> action == SenderAction::Return(answer),
        action is Return <==> next is Over,
{
}

/// The error for a connection whose opening was not answered in time.
pub fn open_response_error(target: &str, detail: &str) -> (r: EcError)
    ensures
        r.text() == "wait open connection response failed for "@ + target@ + ": "@ + detail@,
{
    let mut message = "wait open connection response failed for ".to_string();
    append(&mut message, target);
    append(&mut message, ": ");
    append(&mut message, detail);
    EcError::Runtime(message)
}

/// The reason that the end of the stack's loop is recorded under.
pub fn netstack_closed_reason(err: EcError) -> (r: String)
    ensures
        r@ == "netstack closed: "@ + err.text(),
{
    let mut reason = "netstack closed: ".to_string();
    append(&mut reason, crate::error::concise_error(err).as_str());
    reason
}

/// The first IPv4 address among `addrs`.
pub open spec fn first_ipv4(addrs: Seq<SocketAddr>) -> Option<(u32, u16)>
    decreases addrs.len(),
{
    if addrs.len() == 0 {
        None
    } else {
        match addrs[0] {
            SocketAddr::V4 { ip, port } => Some((ip, port)),
            SocketAddr::V6 { .. } => first_ipv4(addrs.skip(1)),
        }
    }
}

/// Chooses the endpoint for a target from the addresses that it was resolved to.
pub fn resolve_ipv4_target(target: &str, resolved: Result<Vec<SocketAddr>, String>) -> (r: EcResult<
    (u32, u16),
>)
    ensures
        match resolved {
            Ok(addrs) => match r {
                Ok(endpoint) => first_ipv4(addrs@) == Some(endpoint),
                Err(err) => first_ipv4(addrs@) is None && err.text()
                    == "no ipv4 address resolved for "@ + target@,
            },
            Err(detail) => r matches Err(err) && err.text() == "resolve target failed: "@ + target@
                + ": "@ + detail@,
        },
{
    match resolved {
        Ok(addrs) => {
            let mut i: usize = 0;
            assert(addrs@.skip(0) == addrs@);
            while i < addrs.len()
                invariant
                    i <= addrs@.len(),
                    resolved == Ok::<Vec<SocketAddr>, String>(addrs),
                    first_ipv4(addrs@) == first_ipv4(addrs@.skip(i as int)),
                decreases addrs@.len() - i,
            {
                assert(addrs@.skip(i as int)[0] == addrs@[i as int]);
                assert(addrs@.skip(i as int).skip(1) == addrs@.skip(i + 1));
                if let SocketAddr::V4 { ip, port } = addrs[i] {
                    return Ok((ip, port));
                }
                i += 1;
            }
            let mut message = "no ipv4 address resolved for ".to_string();
            append(&mut message, target);
            Err(EcError::Runtime(message))
        },
        Err(detail) => {
            let mut message = "resolve target failed: ".to_string();
            append(&mut message, target);
            append(&mut message, ": ");
            append(&mut message, detail.as_str());
            Err(EcError::Runtime(message))
        },
    }
}

/// The bytes that sockets take of a pending payload, one after the other, and what is left of it.
///
/// The sockets are one and the same at the moments at which it is offered the payload.
pub open spec fn taken_by(pending: Option<PendingView>, sockets: Seq<SocketView>) -> (
    Seq<u8>,
    Option<PendingView>,
)
    decreases sockets.len(),
{
    if sockets.len() == 0 {
        (Seq::empty(), pending)
    } else {
        let (before, left) = taken_by(pending, sockets.drop_last());
        let s = sockets.last();
        let grown = socket_after_admission(s, left).sending;
        (before + grown.skip(s.sending.len() as int), pending_after_admission(s, left))
    }
}

/// A payload goes into its socket in order, each byte once: what the socket has taken of it is
/// what is no longer pending, and once nothing is pending it has taken exactly the payload.
pub proof fn law_payload_is_taken_once_in_order(data: Seq<u8>, sockets: Seq<SocketView>)
    requires
        forall|i: int|
            0 <= i < sockets.len() ==> (#[trigger] sockets[i]).sending.len() <= sockets[i].limit,
    ensures
        ({
            let (taken, left) = taken_by(Some(PendingView { data, offset: 0 }), sockets);
            match left {
                Some(p) => p.data == data && p.offset <= data.len() && taken == data.take(
                    p.offset as int,
                ),
                None => taken == data,
            }
        }),
    decreases sockets.len(),
{
    let start = Some(PendingView { data, offset: 0 });
    if sockets.len() > 0 {
        let rest = sockets.drop_last();
        assert forall|i: int| 0 <= i < rest.len() implies (#[trigger] rest[i]).sending.len()
            <= rest[i].limit by {
            assert(rest[i] == sockets[i]);
        }
        law_payload_is_taken_once_in_order(data, rest);
        let (before, left) = taken_by(start, rest);
        let s = sockets.last();
        let (taken, _) = taken_by(start, sockets);
        match left {
            Some(p) if sends(s) => {
                let n = admitted(s, p);
                let piece = data.subrange(p.offset as int, (p.offset + n) as int);
                assert((s.sending + piece).skip(s.sending.len() as int) == piece);
                assert(taken == data.take((p.offset + n) as int));
                assert(data.take(data.len() as int) == data);
            },
            _ => {
                assert(s.sending.skip(s.sending.len() as int) == Seq::<u8>::empty());
                assert(taken == before);
            },
        }
    } else {
        assert(data.take(0) == Seq::<u8>::empty());
    }
}

/// A payload that is asked to be sent becomes pending, none of it taken, where none is pending.
pub proof fn law_accepted_payload_is_pending(
    v: NetstackView,
    i: int,
    data: Vec<u8>,
    w: NetstackView,
    effect: ControlEffect,
)
    requires
        in_order(v),
        0 <= i < v.connections.len(),
        v.connections[i].pending is None,
        message_handled(v, ControlMessage::Send(v.connections[i].id, data), w, effect),
    ensures
        effect == ControlEffect::Nothing,
        w.connections == v.connections.update(
            i,
            (ConnectionView {
                pending: Some(PendingView { data: data@, offset: 0 }),
                ..v.connections[i]
            }),
        ),
        w.sockets == v.sockets,
{
    let id = v.connections[i].id;
    assert forall|j: int| 0 <= j < i implies (#[trigger] v.connections[j]).id != id by {
        assert(v.connections[i].id == id);
    }
    lemma_position_of(v.connections, id, i);
}

/// Driving offers a socket the pending payload in the sending phase, and what it takes is no longer
/// pending; no other step puts bytes into a socket that stays or changes what is pending.
pub proof fn law_driving_admits_the_pending_payload(
    v: NetstackView,
    cursor: DriveCursor,
    delivered: bool,
)
    requires
        in_order(v),
        cursor.at < v.connections.len(),
    ensures
        ({
            let c = v.connections[cursor.at as int];
            let s = v.sockets[c.handle];
            let (w, _, action) = driven(v, cursor, delivered);
            let pending = w.connections[cursor.at as int].pending;
            if cursor.phase is Sends {
                &&& w.sockets[c.handle] == socket_after_admission(s, c.pending)
                &&& pending == pending_after_admission(s, c.pending)
            } else {
                action is Forgotten || w.sockets[c.handle].sending == s.sending && pending
                    == c.pending
            }
        }),
{
}

/// The chunks in which received bytes are handed on.
pub open spec fn uplink_chunks(received: Seq<u8>) -> Seq<Seq<u8>>
    decreases received.len(),
{
    if received.len() == 0 {
        Seq::empty()
    } else {
        let n = smaller(received.len(), UPLINK_CHUNK_SIZE as nat) as int;
        seq![received.take(n)] + uplink_chunks(received.skip(n))
    }
}

/// The bytes of chunks, one after the other.
pub open spec fn joined(chunks: Seq<Seq<u8>>) -> Seq<u8>
    decreases chunks.len(),
{
    if chunks.len() == 0 {
        Seq::empty()
    } else {
        chunks[0] + joined(chunks.skip(1))
    }
}

/// Chunks hold the received bytes in order, each byte once, and none is empty or too large.
proof fn lemma_chunks(received: Seq<u8>)
    ensures
        joined(uplink_chunks(received)) == received,
        forall|i: int|
            0 <= i < uplink_chunks(received).len() ==> 0 < (#[trigger] uplink_chunks(
                received,
            )[i]).len() <= UPLINK_CHUNK_SIZE,
    decreases received.len(),
{
    if received.len() > 0 {
        let n = smaller(received.len(), UPLINK_CHUNK_SIZE as nat) as int;
        let rest = uplink_chunks(received.skip(n));
        lemma_chunks(received.skip(n));
        let all = uplink_chunks(received);
        assert(all.skip(1) == rest);
        assert(received.take(n) + received.skip(n) == received);
        assert forall|i: int| 0 <= i < all.len() implies 0 < (#[trigger] all[i]).len()
            <= UPLINK_CHUNK_SIZE by {
            if i > 0 {
                assert(all[i] == rest[i - 1]);
            }
        }
    }
}

/// Whether the cursor stands at a connection whose received bytes are due.
pub open spec fn at_reads(v: NetstackView, cursor: DriveCursor) -> bool {
    cursor.at < v.connections.len() && cursor.phase is Reads
}

/// The bytes that the connection at the cursor has received and that were not handed on yet.
pub open spec fn received_at(v: NetstackView, cursor: DriveCursor) -> Seq<u8> {
    v.sockets[v.connections[cursor.at as int].handle].received
}

/// Where received bytes are due, a step hands on the first of their chunks, to the owner of the
/// connection, and leaves the others for the following steps; without any it goes on to settling.
pub proof fn law_next_chunk_is_handed_on(v: NetstackView, cursor: DriveCursor, delivered: bool)
    requires
        in_order(v),
        at_reads(v, cursor),
    ensures
        ({
            let (w, next, action) = driven(v, cursor, delivered);
            let chunks = uplink_chunks(received_at(v, cursor));
            let c = v.connections[cursor.at as int];
            &&& next.at == cursor.at && w.connections == v.connections
            &&& chunks.len() == 0 ==> {
                &&& action == DriveActionView::Continue
                &&& next.phase is Settle
                &&& w == v
            }
            &&& chunks.len() > 0 ==> {
                &&& action == DriveActionView::Uplink(c.id, chunks[0])
                &&& next.phase is ChunkSent
                &&& uplink_chunks(received_at(w, cursor)) == chunks.skip(1)
                &&& received_at(v, cursor) == chunks[0] + received_at(w, cursor)
                &&& w.sockets == v.sockets.insert(
                    c.handle,
                    (SocketView {
                        received: received_at(v, cursor).skip(chunks[0].len() as int),
                        ..v.sockets[c.handle]
                    }),
                )
            }
        }),
{
    let i = cursor.at as int;
    let c = v.connections[i];
    let s = v.sockets[c.handle];
    let n = smaller(s.received.len(), UPLINK_CHUNK_SIZE as nat) as int;
    let w = driven(v, cursor, delivered).0;
    assert(w.connections =~= v.connections);
    if s.received.len() > 0 {
        assert(uplink_chunks(s.received).skip(1) == uplink_chunks(s.received.skip(n)));
        assert(s.received == s.received.take(n) + s.received.skip(n));
    }
}

/// After a chunk that reached the owner, reading goes on; after one that did not, it stops, and the
/// connection is to be closed. The socket stays as it is.
pub proof fn law_reading_goes_on_after_a_chunk(
    v: NetstackView,
    cursor: DriveCursor,
    delivered: bool,
)
    requires
        in_order(v),
        cursor.at < v.connections.len(),
        cursor.phase is ChunkSent,
    ensures
        ({
            let (w, next, action) = driven(v, cursor, delivered);
            &&& action == DriveActionView::Continue
            &&& next.at == cursor.at
            &&& w.sockets == v.sockets
            &&& delivered ==> next.phase is Reads && w == v
            &&& !delivered ==> next.phase is Settle && w.connections == v.connections.update(
                cursor.at as int,
                (ConnectionView { close_requested: true, ..v.connections[cursor.at as int] }),
            )
        }),
{
    let i = cursor.at as int;
    assert(v.sockets.contains_key(v.connections[i].handle));
    assert(driven(v, cursor, delivered).0.sockets =~= v.sockets);
}

/// What is handed on, of the connection at the cursor, in the next `n` chunks, all of which reach
/// the owner.
pub open spec fn handed_on(v: NetstackView, cursor: DriveCursor, n: nat) -> Seq<Seq<u8>>
    decreases n,
{
    if n == 0 {
        Seq::empty()
    } else {
        let (w, next, action) = driven(v, cursor, true);
        match action {
            DriveActionView::Uplink(_, chunk) => {
                let (x, again, _) = driven(w, next, true);
                seq![chunk] + handed_on(x, again, (n - 1) as nat)
            },
            _ => Seq::empty(),
        }
    }
}

/// What a connection received is handed on by the steps of driving in order, each byte once, in
/// chunks that are not empty, as long as the chunks reach the owner.
pub proof fn law_received_bytes_are_handed_on_in_order(
    v: NetstackView,
    cursor: DriveCursor,
    n: nat,
)
    requires
        in_order(v),
        at_reads(v, cursor),
        n >= received_at(v, cursor).len(),
    ensures
        handed_on(v, cursor, n) == uplink_chunks(received_at(v, cursor)),
        joined(handed_on(v, cursor, n)) == received_at(v, cursor),
        forall|i: int|
            0 <= i < handed_on(v, cursor, n).len() ==> 0 < (#[trigger] handed_on(
                v,
                cursor,
                n,
            )[i]).len() <= UPLINK_CHUNK_SIZE,
    decreases n,
{
    let received = received_at(v, cursor);
    let chunks = uplink_chunks(received);
    lemma_chunks(received);
    law_next_chunk_is_handed_on(v, cursor, true);
    if received.len() > 0 {
        let (w, next, _) = driven(v, cursor, true);
        law_driving_keeps_connections_in_order(v, cursor, true);
        law_reading_goes_on_after_a_chunk(w, next, true);
        assert(driven(w, next, true).1 =~= cursor);
        law_received_bytes_are_handed_on_in_order(w, cursor, (n - 1) as nat);
        assert(seq![chunks[0]] + chunks.skip(1) == chunks);
    }
}

/// A stack stays in order while the interface works on its sockets: its connections and ports stay,
/// every socket stays under its handle, and there is still room for more.
pub proof fn law_working_on_sockets_keeps_order(v: NetstackView, w: NetstackView)
    requires
        in_order(v),
        w.connections == v.connections,
        w.next_local_port == v.next_local_port,
        forall|h: SocketHandle| #[trigger] v.sockets.contains_key(h) ==> w.sockets.contains_key(h),
        w.socket_limit is None,
    ensures
        in_order(w),
{
    assert forall|i: int| 0 <= i < w.connections.len() implies w.sockets.contains_key(
        (#[trigger] w.connections[i]).handle,
    ) by {
        assert(v.sockets.contains_key(v.connections[i].handle));
    }
}

/// Going through the connections keeps them in order.
pub proof fn law_driving_keeps_connections_in_order(
    v: NetstackView,
    cursor: DriveCursor,
    delivered: bool,
)
    requires
        in_order(v),
    ensures
        in_order(driven(v, cursor, delivered).0),
{
    let i = cursor.at as int;
    if i < v.connections.len() {
        let c = v.connections[i];
        let w = driven(v, cursor, delivered).0;
        assert(v.sockets.contains_key(c.handle));
        lemma_forgotten(v, i);
        if w.connections.len() == v.connections.len() {
            assert(v =~= replaced(v, i, v.sockets[c.handle], c));
            lemma_replaced(v, w, i);
        }
    }
}

/// Driving keeps every connection where it goes: a socket that stays keeps its endpoints.
pub proof fn law_driving_keeps_endpoints(
    v: NetstackView,
    cursor: DriveCursor,
    delivered: bool,
    handle: SocketHandle,
)
    requires
        in_order(v),
        driven(v, cursor, delivered).0.sockets.contains_key(handle),
    ensures
        v.sockets.contains_key(handle),
        driven(v, cursor, delivered).0.sockets[handle].remote == v.sockets[handle].remote,
        driven(v, cursor, delivered).0.sockets[handle].local == v.sockets[handle].local,
{
    if cursor.at < v.connections.len() {
        assert(v.sockets.contains_key(v.connections[cursor.at as int].handle));
    }
}

/// Driving a connection leaves the others alone: their sockets and records stay as they are.
pub proof fn law_driving_leaves_others_alone(
    v: NetstackView,
    cursor: DriveCursor,
    delivered: bool,
    other: int,
)
    requires
        in_order(v),
        0 <= other < v.connections.len(),
        other != cursor.at,
    ensures
        ({
            let w = driven(v, cursor, delivered).0;
            let c = v.connections[other];
            &&& w.sockets.contains_key(c.handle) && w.sockets[c.handle] == v.sockets[c.handle]
            &&& w.connections.contains(c)
            &&& w.addresses == v.addresses && w.next_conn_id == v.next_conn_id
                && w.next_local_port == v.next_local_port
        }),
{
    let i = cursor.at as int;
    let c = v.connections[other];
    let w = driven(v, cursor, delivered).0;
    assert(v.sockets.contains_key(c.handle));
    if i < v.connections.len() {
        assert(v.connections[i].handle != c.handle) by {
            if i < other {
                assert(v.connections[i].id != v.connections[other].id);
            } else {
                assert(v.connections[other].id != v.connections[i].id);
            }
        }
        if w.connections.len() == v.connections.len() {
            assert(w.connections[other] == c);
        } else if other < i {
            assert(w.connections[other] == c);
        } else {
            assert(w.connections[other - 1] == c);
        }
    } else {
        assert(w.connections[other] == c);
    }
}

/// A connection is never closed while a payload of it is pending: closing begins in settling only,
/// and only where nothing is pending.
pub proof fn law_no_close_while_a_payload_is_pending(
    v: NetstackView,
    cursor: DriveCursor,
    delivered: bool,
)
    requires
        in_order(v),
        cursor.at < v.connections.len(),
        v.connections[cursor.at as int].pending is Some,
        is_open_state(v.sockets[v.connections[cursor.at as int].handle].state),
    ensures
        ({
            let h = v.connections[cursor.at as int].handle;
            let w = driven(v, cursor, delivered).0;
            w.sockets.contains_key(h) && w.sockets[h].state == v.sockets[h].state
        }),
{
    assert(v.sockets.contains_key(v.connections[cursor.at as int].handle));
}

/// The owner of a connection is told that its payload was taken exactly when the last byte of it
/// has been taken, and that it failed exactly when the connection is forgotten with the payload
/// pending; in either case nothing is pending after that.
pub proof fn law_notices_tell_the_payloads_fate(
    v: NetstackView,
    cursor: DriveCursor,
    delivered: bool,
)
    requires
        in_order(v),
        cursor.at < v.connections.len(),
    ensures
        ({
            let c = v.connections[cursor.at as int];
            let s = v.sockets[c.handle];
            let (w, _, action) = driven(v, cursor, delivered);
            match action {
                DriveActionView::NotifySend(id) => {
                    &&& id == c.id && cursor.phase == DrivePhase::Sends
                    &&& c.pending matches Some(p) && w.sockets[c.handle].sending == s.sending
                        + p.data.skip(p.offset as int)
                    &&& w.connections[cursor.at as int].pending is None
                },
                DriveActionView::Forgotten(id, failed) => {
                    &&& id == c.id && failed is Some == c.pending is Some
                    &&& !w.sockets.contains_key(c.handle)
                    &&& w.connections == v.connections.remove(cursor.at as int)
                },
                DriveActionView::Continue | DriveActionView::Uplink(_, _) => {
                    w.connections[cursor.at as int].pending is Some == c.pending is Some
                },
                DriveActionView::Done => false,
            }
        }),
{
    let c = v.connections[cursor.at as int];
    assert(v.sockets.contains_key(c.handle) && pending_in_bounds(c));
    if let Some(p) = c.pending {
        assert(p.data.subrange(p.offset as int, p.data.len() as int) == p.data.skip(
            p.offset as int,
        ));
    }
}

/// How far going through the connections is from its end: the connections left, and the work left
/// on the one that is being driven.
pub open spec fn work_left(v: NetstackView, cursor: DriveCursor) -> (int, int) {
    let left = v.connections.len() - cursor.at;
    if left <= 0 {
        (0, 0)
    } else {
        let unread = v.sockets[v.connections[cursor.at as int].handle].received.len() as int;
        (
            left,
            match cursor.phase {
                DrivePhase::Sends => 2 * unread + 5,
                DrivePhase::SendNotified => 2 * unread + 4,
                DrivePhase::ChunkSent => 2 * unread + 3,
                DrivePhase::Reads => 2 * unread + 2,
                DrivePhase::Settle => 1,
            },
        )
    }
}

/// Going through the connections comes to an end: every step but the last leaves fewer
/// connections, or as many and less work on the one that is being driven.
pub proof fn law_driving_ends(v: NetstackView, cursor: DriveCursor, delivered: bool)
    requires
        in_order(v),
        v.connections.len() <= usize::MAX,
    ensures
        ({
            let (w, next, action) = driven(v, cursor, delivered);
            let (a, b) = work_left(v, cursor);
            let (c, d) = work_left(w, next);
            if action is Done {
                cursor.at >= v.connections.len()
            } else {
                &&& 0 <= c && 0 <= d
                &&& c < a || c == a && d < b
            }
        }),
{
    if cursor.at < v.connections.len() {
        assert(v.sockets.contains_key(v.connections[cursor.at as int].handle));
    }
}

/// The sizes and ranges of the stack.
pub proof fn law_stack_sizes()
    ensures
        SOCKET_BUFFER_CAPACITY == 65536,
        MAX_CONTROL_BATCH == 64,
        UPLINK_CHUNK_SIZE == 4096,
        FIRST_LOCAL_PORT == 40000,
        LAST_LOCAL_PORT == 60000,
        ASSIGNED_PREFIX == 0,
        FIXED_SEED == 0x6e65_7473_7461_636b,
{
}

/// The sending phase: a socket that is established, or whose peer has closed, takes as much of the
/// pending payload as it has room for. Where that is the rest of it, nothing is pending any more and
/// the owner is told; otherwise the rest stays pending. Any other socket takes nothing.
pub proof fn law_sending_phase(v: NetstackView, cursor: DriveCursor, delivered: bool)
    requires
        in_order(v),
        cursor.at < v.connections.len(),
        cursor.phase is Sends,
    ensures
        ({
            let c = v.connections[cursor.at as int];
            let s = v.sockets[c.handle];
            let (w, next, action) = driven(v, cursor, delivered);
            let open = (s.state == TcpState::Established || s.state == TcpState::CloseWait)
                && s.sending.len() < s.limit;
            &&& next.at == cursor.at
            &&& !open || c.pending is None ==> {
                &&& w == v
                &&& action == DriveActionView::Continue && next.phase is Reads
            }
            &&& open ==> (c.pending matches Some(p) ==> {
                let room = s.limit - s.sending.len();
                let left = p.data.len() - p.offset;
                let n = if room < left {
                    room
                } else {
                    left
                };
                &&& w.sockets == v.sockets.insert(
                    c.handle,
                    (SocketView {
                        sending: s.sending + p.data.subrange(
                            p.offset as int,
                            p.offset as int + n,
                        ),
                        ..s
                    }),
                )
                &&& n == left ==> {
                    &&& w.connections == v.connections.update(
                        cursor.at as int,
                        (ConnectionView { pending: None, ..c }),
                    )
                    &&& action == DriveActionView::NotifySend(c.id) && next.phase is SendNotified
                }
                &&& n < left ==> {
                    &&& w.connections == v.connections.update(
                        cursor.at as int,
                        (ConnectionView {
                            pending: Some(
                                PendingView { data: p.data, offset: (p.offset + n) as nat },
                            ),
                            ..c
                        }),
                    )
                    &&& action == DriveActionView::Continue && next.phase is Reads
                }
            })
        }),
{
    let i = cursor.at as int;
    let c = v.connections[i];
    let s = v.sockets[c.handle];
    let w = driven(v, cursor, delivered).0;
    assert(v.sockets.contains_key(c.handle) && pending_in_bounds(c));
    if !sends(s) || c.pending is None {
        assert(w.sockets =~= v.sockets);
        assert(w.connections =~= v.connections);
    }
}

/// A notice that did not reach the owner of a connection has the connection closed; reading goes on
/// in either case.
pub proof fn law_after_a_notice(v: NetstackView, cursor: DriveCursor, delivered: bool)
    requires
        in_order(v),
        cursor.at < v.connections.len(),
        cursor.phase is SendNotified,
    ensures
        ({
            let c = v.connections[cursor.at as int];
            let (w, next, action) = driven(v, cursor, delivered);
            &&& action == DriveActionView::Continue
            &&& next.at == cursor.at && next.phase is Reads
            &&& w.sockets == v.sockets
            &&& w.connections == if delivered {
                v.connections
            } else {
                v.connections.update(
                    cursor.at as int,
                    (ConnectionView { close_requested: true, ..c }),
                )
            }
        }),
{
    let c = v.connections[cursor.at as int];
    assert(v.sockets.contains_key(c.handle));
    assert(driven(v, cursor, delivered).0.sockets =~= v.sockets);
}

/// Received bytes are handed on in chunks that are as large as they can be: 4096 bytes, or what
/// there is.
pub proof fn law_chunks_are_full(received: Seq<u8>)
    ensures
        received.len() == 0 ==> uplink_chunks(received).len() == 0,
        received.len() > 0 ==> {
            let n = if received.len() < 4096 {
                received.len() as int
            } else {
                4096
            };
            &&& uplink_chunks(received).len() > 0
            &&& uplink_chunks(received)[0] == received.take(n)
            &&& uplink_chunks(received).skip(1) == uplink_chunks(received.skip(n))
        },
{
    if received.len() > 0 {
        let n = smaller(received.len(), UPLINK_CHUNK_SIZE as nat) as int;
        assert(uplink_chunks(received).skip(1) =~= uplink_chunks(received.skip(n)));
    }
}

/// Settling a connection. Where its closing is asked for, nothing is pending, and its socket is
/// established or its peer has closed, the socket is closed: it then waits for the peer, in
/// FIN-WAIT-1 or in LAST-ACK. Any other socket stays as it is. A connection whose socket is closed or
/// lingers in TIME-WAIT is forgotten with its socket, and its owner is told of a payload that was
/// pending; every other one is kept, and the next connection follows.
pub proof fn law_settling_phase(v: NetstackView, cursor: DriveCursor, delivered: bool)
    requires
        in_order(v),
        cursor.at < v.connections.len(),
        cursor.at < usize::MAX,
        cursor.phase is Settle,
    ensures
        ({
            let c = v.connections[cursor.at as int];
            let s = v.sockets[c.handle];
            let (w, next, action) = driven(v, cursor, delivered);
            let due = c.close_requested && c.pending is None;
            let state = if due && s.state == TcpState::Established {
                TcpState::FinWait1
            } else if due && s.state == TcpState::CloseWait {
                TcpState::LastAck
            } else {
                s.state
            };
            &&& next.phase is Sends
            &&& state != TcpState::Closed && state != TcpState::TimeWait ==> {
                &&& w.sockets == v.sockets.insert(c.handle, (SocketView { state, ..s }))
                &&& w.connections == v.connections
                &&& action == DriveActionView::Continue
                &&& next.at == cursor.at + 1
            }
            &&& state == TcpState::Closed || state == TcpState::TimeWait ==> {
                &&& w.sockets == v.sockets.remove(c.handle)
                &&& w.connections == v.connections.remove(cursor.at as int)
                &&& action == DriveActionView::Forgotten(
                    c.id,
                    if c.pending is Some {
                        Some("tcp connection closed before payload admission completed"@)
                    } else {
                        None
                    },
                )
                &&& next.at == cursor.at
            }
        }),
{
    let i = cursor.at as int;
    let c = v.connections[i];
    assert(v.connections.update(i, c) =~= v.connections);
}

/// A connection that is asked to close ends: with nothing pending, a socket that can still send is
/// closed in the next settling of the connection, and a connection is forgotten once its socket has
/// closed.
pub proof fn law_requested_close_is_carried_out(
    v: NetstackView,
    cursor: DriveCursor,
    delivered: bool,
)
    requires
        in_order(v),
        cursor.at < v.connections.len(),
        cursor.at < usize::MAX,
        cursor.phase is Settle,
        v.connections[cursor.at as int].close_requested,
        v.connections[cursor.at as int].pending is None,
    ensures
        ({
            let c = v.connections[cursor.at as int];
            let w = driven(v, cursor, delivered).0;
            match v.sockets[c.handle].state {
                TcpState::Established => w.sockets.contains_key(c.handle)
                    && w.sockets[c.handle].state == TcpState::FinWait1,
                TcpState::CloseWait => w.sockets.contains_key(c.handle)
                    && w.sockets[c.handle].state == TcpState::LastAck,
                TcpState::Closed | TcpState::TimeWait => !w.sockets.contains_key(c.handle)
                    && !w.connections.contains(c),
                state => w.sockets.contains_key(c.handle) && w.sockets[c.handle].state == state,
            }
        }),
{
    let i = cursor.at as int;
    let c = v.connections[i];
    law_settling_phase(v, cursor, delivered);
    let w = driven(v, cursor, delivered).0;
    assert(v.sockets.contains_key(c.handle));
    if w.connections.contains(c) && w.connections.len() < v.connections.len() {
        let k = choose|k: int| 0 <= k < w.connections.len() && w.connections[k] == c;
        if k < i {
            assert(v.connections[k] == c);
            assert(v.connections[k].id != v.connections[i].id);
        } else {
            assert(v.connections[k + 1] == c);
            assert(v.connections[i].id != v.connections[k + 1].id);
        }
    }
}

/// Going through the connections is done once there is none left to drive, and not before.
pub proof fn law_driving_is_done_at_the_end(
    v: NetstackView,
    cursor: DriveCursor,
    delivered: bool,
)
    ensures
        driven(v, cursor, delivered).2 is Done <==> cursor.at >= v.connections.len(),
        cursor.at >= v.connections.len() ==> driven(v, cursor, delivered).0 == v,
{
}

/// Opening a connection succeeds exactly where the endpoint has an address and a port and the
/// interface has an IPv4 address. It then has the next identifier and a socket of its own with room
/// for 65536 bytes, which is being connected to the endpoint from the next local port; the other
/// connections and sockets stay.
pub proof fn law_opening(
    v: NetstackView,
    ip: u32,
    port: u16,
    w: NetstackView,
    result: EcResult<u64>,
)
    requires
        in_order(v),
        connection_opened(v, ip, port, w, result),
    ensures
        result is Ok <==> ip != 0 && port != 0 && exists|i: int|
            0 <= i < v.addresses.len() && (#[trigger] v.addresses[i]).host is Ipv4,
        w.next_local_port == if v.next_local_port == 60000 {
            40000
        } else {
            v.next_local_port + 1
        },
        w.addresses == v.addresses,
        result matches Ok(id) ==> {
            &&& id == v.next_conn_id
            &&& w.next_conn_id == id.wrapping_add(1)
            &&& exists|h: SocketHandle|
                {
                    &&& !v.sockets.contains_key(h)
                    &&& w.sockets == #[trigger] v.sockets.insert(
                        h,
                        (SocketView {
                            state: TcpState::SynSent,
                            sending: Seq::empty(),
                            limit: 65536,
                            received: Seq::empty(),
                            remote: Some((HostAddress::Ipv4(ip), port)),
                            local: Some((own_ipv4(v.addresses), v.next_local_port)),
                        }),
                    )
                    &&& (forall|k: int|
                        0 <= k < v.connections.len() ==> (#[trigger] v.connections[k]).id != id)
                        ==> w.connections == v.connections.push(
                        (ConnectionView { id, handle: h, pending: None, close_requested: false }),
                    )
                    &&& forall|k: int|
                        0 <= k < v.connections.len() && (#[trigger] v.connections[k]).id == id
                            ==> w.connections == v.connections.update(
                            k,
                            (ConnectionView {
                                id,
                                handle: h,
                                pending: None,
                                close_requested: false,
                            }),
                        )
                }
        },
        result matches Err(err) ==> {
            &&& err.text() == "tcp connect failed: unaddressable destination"@
            &&& w.sockets == v.sockets && w.connections == v.connections
            &&& w.next_conn_id == v.next_conn_id
        },
{
    match result {
        Ok(id) => {
            let h = choose|h: SocketHandle|
                {
                    &&& !v.sockets.contains_key(h)
                    &&& w == (NetstackView {
                        sockets: v.sockets.insert(
                            h,
                            opening_socket(v.addresses, ip, port, v.next_local_port),
                        ),
                        connections: with_connection(
                            v.connections,
                            #[trigger] new_connection(id, h),
                        ),
                        next_conn_id: id.wrapping_add(1),
                        next_local_port: next_port(v.next_local_port),
                        ..v
                    })
                };
            if forall|k: int|
                0 <= k < v.connections.len() ==> (#[trigger] v.connections[k]).id != id {
                lemma_position_of(v.connections, id, v.connections.len() as int);
            }
            assert forall|k: int|
                0 <= k < v.connections.len() && (#[trigger] v.connections[k]).id
                    == id implies w.connections == v.connections.update(
                k,
                new_connection(id, h),
            ) by {
                assert forall|j: int| 0 <= j < k implies (#[trigger] v.connections[j]).id != id by {
                    assert(v.connections[k].id == id);
                }
                lemma_position_of(v.connections, id, k);
            }
            assert(w.sockets == v.sockets.insert(
                h,
                (SocketView {
                    state: TcpState::SynSent,
                    sending: Seq::empty(),
                    limit: 65536,
                    received: Seq::empty(),
                    remote: Some((HostAddress::Ipv4(ip), port)),
                    local: Some((own_ipv4(v.addresses), v.next_local_port)),
                }),
            ));
        },
        Err(err) => {
            reveal_strlit("tcp connect failed: ");
            reveal_strlit("unaddressable destination");
            reveal_strlit("tcp connect failed: unaddressable destination");
            assert("tcp connect failed: "@ + "unaddressable destination"@
                =~= "tcp connect failed: unaddressable destination"@);
        },
    }
}

/// A payload for a connection that has one pending already fails: both are given up, the owner is
/// told, and the connection is to be closed.
pub proof fn law_second_payload_fails(
    v: NetstackView,
    i: int,
    data: Vec<u8>,
    w: NetstackView,
    effect: ControlEffect,
)
    requires
        in_order(v),
        0 <= i < v.connections.len(),
        v.connections[i].pending is Some,
        message_handled(v, ControlMessage::Send(v.connections[i].id, data), w, effect),
    ensures
        effect matches ControlEffect::SendFailed(id, err) && id == v.connections[i].id
            && err.text() == "multiple tcp payloads pending admission"@,
        w == (NetstackView {
            connections: v.connections.update(
                i,
                (ConnectionView { pending: None, close_requested: true, ..v.connections[i] }),
            ),
            ..v
        }),
{
    let id = v.connections[i].id;
    assert forall|j: int| 0 <= j < i implies (#[trigger] v.connections[j]).id != id by {
        assert(v.connections[i].id == id);
    }
    lemma_position_of(v.connections, id, i);
}

/// A connection that is asked to close is marked so, and nothing else changes.
pub proof fn law_close_message(v: NetstackView, i: int, w: NetstackView, effect: ControlEffect)
    requires
        in_order(v),
        0 <= i < v.connections.len(),
        message_handled(v, ControlMessage::Close(v.connections[i].id), w, effect),
    ensures
        effect == ControlEffect::Nothing,
        w == (NetstackView {
            connections: v.connections.update(
                i,
                (ConnectionView { close_requested: true, ..v.connections[i] }),
            ),
            ..v
        }),
{
    let id = v.connections[i].id;
    assert forall|j: int| 0 <= j < i implies (#[trigger] v.connections[j]).id != id by {
        assert(v.connections[i].id == id);
    }
    lemma_position_of(v.connections, id, i);
}

/// A message for a connection that there is not changes nothing, and a packet goes to the device as
/// it is.
pub proof fn law_other_messages(
    v: NetstackView,
    msg: ControlMessage,
    w: NetstackView,
    effect: ControlEffect,
)
    requires
        message_handled(v, msg, w, effect),
        match msg {
            ControlMessage::Send(id, _) => forall|k: int|
                0 <= k < v.connections.len() ==> (#[trigger] v.connections[k]).id != id,
            ControlMessage::Close(id) => forall|k: int|
                0 <= k < v.connections.len() ==> (#[trigger] v.connections[k]).id != id,
            ControlMessage::TunnelPacket(_) => true,
            ControlMessage::Open(_, _) => false,
        },
    ensures
        w == v,
        match msg {
            ControlMessage::TunnelPacket(packet) => effect == ControlEffect::PushPacket(packet),
            _ => effect == ControlEffect::Nothing,
        },
{
    let n = v.connections.len() as int;
    match msg {
        ControlMessage::Send(id, _) => {
            lemma_position_of(v.connections, id, n);
        },
        ControlMessage::Close(id) => {
            lemma_position_of(v.connections, id, n);
        },
        _ => {},
    }
}

/// The course of the loop. A message is handled as it comes, and after it more that are there, until
/// none is there or 64 were handled; the interface then works, every connection is driven from the
/// first on, and the loop waits again. A message that does not come within the wait leads to the
/// interface too. A channel without senders ends the loop.
pub proof fn law_course_of_the_loop(
    v: NetstackView,
    n: usize,
    phase: LoopPhase,
    event: LoopEvent,
    w: NetstackView,
    next: LoopPhase,
    action: LoopAction,
)
    requires
        loop_awaits(phase, event),
        loop_stepped(v, phase, event, w, next, action),
    ensures
        event matches LoopEvent::Received(msg) ==> {
            &&& action matches LoopAction::Effect(effect) && message_handled(v, msg, w, effect)
            &&& phase is Waiting ==> next == LoopPhase::Batch(1)
            &&& phase == LoopPhase::Batch(n) ==> next == LoopPhase::Batch((n + 1) as usize)
        },
        event is NothingReceived ==> w == v && next is Polling && action is Poll,
        event is EffectDone && phase == LoopPhase::Batch(n) ==> w == v && if n < 64 {
            next == phase && action is TryReceive
        } else {
            next is Polling && action is Poll
        },
        event is Disconnected ==> w == v && next is Ended && (action matches LoopAction::Stop(err)
            && err.text() == "netstack control channel disconnected"@),
        event is Polled ==> {
            let start = DriveCursor { at: 0, phase: DrivePhase::Sends };
            let (driven_view, at, due) = driven(v, start, true);
            &&& w == driven_view
            &&& due is Done ==> next is Waiting && action is Wait
            &&& !(due is Done) ==> next == LoopPhase::Driving(at) && (
            action matches LoopAction::Drive(a) && a@ == due)
        },
        event matches LoopEvent::Delivered(delivered) ==> (phase matches LoopPhase::Driving(cursor)
            ==> {
            let (driven_view, at, due) = driven(v, cursor, delivered);
            &&& w == driven_view
            &&& due is Done ==> next is Waiting && action is Wait
            &&& !(due is Done) ==> next == LoopPhase::Driving(at) && (
            action matches LoopAction::Drive(a) && a@ == due)
        }),
{
}

/// What the loop waits for in each of its phases.
pub proof fn law_loop_awaits(phase: LoopPhase, event: LoopEvent)
    ensures
        loop_awaits(phase, event) <==> match event {
            LoopEvent::Received(_) | LoopEvent::NothingReceived | LoopEvent::Disconnected => {
                phase is Waiting || (phase matches LoopPhase::Batch(n) && 1 <= n && n < 64)
            },
            LoopEvent::EffectDone => phase matches LoopPhase::Batch(n) && 1 <= n && n <= 64,
            LoopEvent::Polled => phase is Polling,
            LoopEvent::Delivered(_) => phase is Driving,
        },
{
}

/// The endpoint for a target is the first IPv4 address among those that it was resolved to.
pub proof fn law_first_ipv4(addrs: Seq<SocketAddr>)
    ensures
        match first_ipv4(addrs) {
            Some((ip, port)) => exists|k: int|
                {
                    &&& 0 <= k < addrs.len()
                    &&& #[trigger] addrs[k] == SocketAddr::V4 { ip, port }
                    &&& forall|i: int| 0 <= i < k ==> (#[trigger] addrs[i]) is V6
                },
            None => forall|i: int| 0 <= i < addrs.len() ==> (#[trigger] addrs[i]) is V6,
        },
    decreases addrs.len(),
{
    if addrs.len() > 0 {
        let rest = addrs.skip(1);
        law_first_ipv4(rest);
        assert forall|i: int| 0 < i < addrs.len() implies #[trigger] addrs[i] == rest[i - 1] by {}
        if let SocketAddr::V6 { .. } = addrs[0] {
            if let Some((ip, port)) = first_ipv4(rest) {
                let k = choose|k: int|
                    {
                        &&& 0 <= k < rest.len()
                        &&& #[trigger] rest[k] == SocketAddr::V4 { ip, port }
                        &&& forall|i: int| 0 <= i < k ==> (#[trigger] rest[i]) is V6
                    };
                assert(addrs[k + 1] == SocketAddr::V4 { ip, port });
            }
        } else {
            assert(addrs[0] is V4);
        }
    }
}

/// What the steps of talking to the stack are called when they fail.
pub proof fn law_step_texts()
    ensures
        step_text(ChannelStep::OpenRequest) == "send open connection request failed: "@,
        step_text(ChannelStep::PayloadRequest) == "send tcp payload request failed: "@,
        step_text(ChannelStep::PayloadAdmission) == "wait tcp payload admission failed: "@,
        step_text(ChannelStep::CloseRequest) == "send tcp close request failed: "@,
{
}

/// How the owner of a connection sends and closes: a payload that was handed over is waited for, and
/// what the stack says of it is returned; closing is done once it was asked for; and a step that
/// fails is returned as its error.
pub proof fn law_course_of_the_sender(
    phase: SenderPhase,
    event: SenderEvent,
    next: SenderPhase,
    action: SenderAction,
)
    requires
        sender_stepped(phase, event, next, action),
    ensures
        sender_awaits(phase, event),
        match event {
            SenderEvent::Requested(Ok(())) => {
                &&& phase is Sending ==> next is Admitting && action is AwaitAdmission
                &&& phase is Closing ==> next is Over && action == SenderAction::Return(Ok(()))
            },
            SenderEvent::Requested(Err(detail)) => {
                &&& next is Over
                &&& action matches SenderAction::Return(Err(err)) && err.text() == (if phase
                    is Sending {
                    "send tcp payload request failed: "@
                } else {
                    "send tcp close request failed: "@
                }) + detail@
            },
            SenderEvent::Answered(Ok(answer)) => next is Over && action == SenderAction::Return(
                answer,
            ),
            SenderEvent::Answered(Err(detail)) => {
                &&& next is Over
                &&& action matches SenderAction::Return(Err(err)) && err.text()
                    == "wait tcp payload admission failed: "@ + detail@
            },
        },
{
}

/// The views of what is due for a connection, and of a socket, keep what they hold.
pub proof fn law_drive_views(id: u64, err: EcError, chunk: Vec<u8>, socket: Socket<'static>)
    ensures
        DriveAction::Continue@ == DriveActionView::Continue,
        DriveAction::NotifySend(id)@ == DriveActionView::NotifySend(id),
        DriveAction::Forgotten(id, Some(err))@ == DriveActionView::Forgotten(id, Some(err.text())),
        DriveAction::Forgotten(id, None)@ == DriveActionView::Forgotten(id, None),
        DriveAction::Uplink(id, chunk)@ == DriveActionView::Uplink(id, chunk@),
        DriveAction::Done@ == DriveActionView::Done,
        socket_view(socket).state == socket_state(socket),
        socket_view(socket).sending == sending(socket),
        socket_view(socket).limit == sending_limit(socket),
        socket_view(socket).received == received(socket),
        socket_view(socket).remote == remote_of(socket),
        socket_view(socket).local == local_of(socket),
{
}

/// A connection is found by its identifier: the first with it, or none where there is none.
pub proof fn law_position_of(connections: Seq<ConnectionView>, id: u64)
    ensures
        ({
            let k = position_of(connections, id);
            &&& 0 <= k <= connections.len()
            &&& k < connections.len() ==> connections[k].id == id
            &&& forall|i: int| 0 <= i < k ==> (#[trigger] connections[i]).id != id
        }),
    decreases connections.len(),
{
    if connections.len() > 0 && connections[0].id != id {
        let rest = connections.skip(1);
        law_position_of(rest, id);
        let k = position_of(connections, id);
        assert forall|i: int| 0 <= i < k implies (#[trigger] connections[i]).id != id by {
            if i > 0 {
                assert(connections[i] == rest[i - 1]);
            }
        }
        if k < connections.len() {
            assert(connections[k] == rest[k - 1]);
        }
    }
}

/// Driving the connections leaves the rest of the stack alone: its addresses, the next identifier
/// and local port, and the room for sockets.
pub proof fn law_driving_keeps_the_rest(v: NetstackView, cursor: DriveCursor, delivered: bool)
    ensures
        ({
            let w = driven(v, cursor, delivered).0;
            &&& w.addresses == v.addresses && w.socket_limit == v.socket_limit
            &&& w.next_conn_id == v.next_conn_id && w.next_local_port == v.next_local_port
        }),
{
}

} // verus!
