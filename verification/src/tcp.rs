//! The TCP sockets of the user-space stack.
//!
//! The sockets, the set that holds them and the interface are smoltcp's. What they hold is named
//! here, and each smoltcp function that the stack calls has its contract here.

use smoltcp::iface::{Interface, SocketHandle, SocketSet};
use smoltcp::socket::tcp::{ConnectError, Socket, SocketBuffer};
use smoltcp::wire::{IpAddress, IpCidr, Ipv4Address};
use vstd::prelude::*;

verus! {

#[verifier::external_type_specification]
#[verifier::external_body]
pub struct ExSocket<'a>(Socket<'a>);

#[verifier::external_type_specification]
#[verifier::external_body]
pub struct ExSocketSet<'a>(SocketSet<'a>);

#[verifier::external_type_specification]
#[verifier::external_body]
pub struct ExSocketHandle(SocketHandle);

#[verifier::external_type_specification]
#[verifier::external_body]
pub struct ExInterface(Interface);

/// The state of a TCP connection.
#[derive(Debug, Clone, Copy, PartialEq, Eq, Structural)]
pub enum TcpState {
    Closed,
    Listen,
    SynSent,
    SynReceived,
    Established,
    FinWait1,
    FinWait2,
    CloseWait,
    Closing,
    LastAck,
    TimeWait,
}

/// The reason for which a connection attempt is refused.
#[derive(Debug, Clone, Copy, PartialEq, Eq, Structural)]
pub enum ConnectRefusal {
    InvalidState,
    Unaddressable,
}

/// An IP address.
#[derive(Debug, Clone, Copy, PartialEq, Eq, Structural)]
pub enum HostAddress {
    Ipv4(u32),
    Ipv6(u128),
}

/// An address of an interface, with the length of the prefix that its neighbours share.
#[derive(Debug, Clone, Copy, PartialEq, Eq, Structural)]
pub struct InterfaceAddress {
    pub host: HostAddress,
    pub prefix: u8,
}

/// The state that a socket is in.
pub uninterp spec fn socket_state(socket: Socket<'static>) -> TcpState;

/// The bytes that a socket holds for sending, the oldest first.
pub uninterp spec fn sending(socket: Socket<'static>) -> Seq<u8>;

/// The number of bytes that a socket was made to hold for sending.
pub uninterp spec fn sending_limit(socket: Socket<'static>) -> nat;

/// The bytes that a socket has received and that were not taken yet, the oldest first.
pub uninterp spec fn received(socket: Socket<'static>) -> Seq<u8>;

/// The address and port that a socket is connected to, or being connected to.
pub uninterp spec fn remote_of(socket: Socket<'static>) -> Option<(HostAddress, u16)>;

/// The address and port that a socket is connected from, or being connected from.
pub uninterp spec fn local_of(socket: Socket<'static>) -> Option<(HostAddress, u16)>;

/// The sockets that a set holds, by their handles.
pub uninterp spec fn sockets_in(set: SocketSet<'static>) -> Map<SocketHandle, Socket<'static>>;

/// The number of sockets that a set was made to hold; `None` where it grows.
pub uninterp spec fn set_limit(set: SocketSet<'static>) -> Option<nat>;

/// The addresses that an interface holds, in order.
pub uninterp spec fn addresses_of(iface: Interface) -> Seq<InterfaceAddress>;

/// Whether a socket in the state is open.
pub open spec fn is_open_state(state: TcpState) -> bool {
    state != TcpState::Closed && state != TcpState::TimeWait
}

/// Whether a socket in the state takes bytes for sending.
pub open spec fn may_send_in(state: TcpState) -> bool {
    state == TcpState::Established || state == TcpState::CloseWait
}

/// Whether a socket in the state may still receive.
pub open spec fn receives_in(state: TcpState) -> bool {
    state == TcpState::Established || state == TcpState::FinWait1 || state == TcpState::FinWait2
}

/// The state after the sending half of a connection is closed.
pub open spec fn closed_from(state: TcpState) -> TcpState {
    match state {
        TcpState::Listen | TcpState::SynSent => TcpState::Closed,
        TcpState::SynReceived | TcpState::Established => TcpState::FinWait1,
        TcpState::CloseWait => TcpState::LastAck,
        other => other,
    }
}

/// Whether there is an IPv4 address among the addresses of an interface.
pub open spec fn has_ipv4(addresses: Seq<InterfaceAddress>) -> bool {
    exists|i: int| 0 <= i < addresses.len() && (#[trigger] addresses[i]).host is Ipv4
}

/// The first IPv4 address among the addresses of an interface that has one.
pub open spec fn own_ipv4(addresses: Seq<InterfaceAddress>) -> HostAddress
    recommends
        has_ipv4(addresses),
    decreases addresses.len(),
{
    if addresses.len() == 0 || addresses[0].host is Ipv4 {
        addresses[0].host
    } else {
        own_ipv4(addresses.skip(1))
    }
}

/// The smaller of two numbers.
pub open spec fn smaller(a: nat, b: nat) -> nat {
    if a < b {
        a
    } else {
        b
    }
}

/// Whether an interface can be given the address: it is no multicast and no broadcast address.
pub open spec fn assignable(ip: u32) -> bool {
    !(0xe000_0000 <= ip <= 0xefff_ffff) && ip != 0xffff_ffff
}

/// `tcp::Socket::new`, with owned buffers of `capacity` bytes each way.
///
/// Taken as given: the socket is closed, holds nothing, has no endpoints, and takes `capacity`
/// bytes for sending.
#[verifier::external_body]
pub(crate) fn new_socket(capacity: usize) -> (r: Socket<'static>)
    requires
        capacity <= 0x4000_0000,
    ensures
        socket_state(r) == TcpState::Closed,
        sending(r) == Seq::<u8>::empty(),
        sending_limit(r) == capacity,
        received(r) == Seq::<u8>::empty(),
        remote_of(r) is None,
        local_of(r) is None,
{
    Socket::new(SocketBuffer::new(vec![0; capacity]), SocketBuffer::new(vec![0; capacity]))
}

/// `tcp::Socket::connect` to an IPv4 endpoint, from `local_port` on the interface's own address.
///
/// Taken as given: it is refused as an invalid state where the socket is open, and as
/// unaddressable where the remote port, the remote address or the local port is zero or the
/// interface has no IPv4 address; a refusal changes nothing. Otherwise the socket holds nothing,
/// is in the state SYN-SENT, and its endpoints are the remote one that was given and, on this
/// side, the first IPv4 address of the interface with `local_port`. The interface keeps its
/// addresses. The sequence number that is chosen is not stated.
#[verifier::external_body]
pub(crate) fn connect(
    socket: &mut Socket<'static>,
    iface: &mut Interface,
    ip: u32,
    port: u16,
    local_port: u16,
) -> (r: Result<(), ConnectRefusal>)
    ensures
        addresses_of(*final(iface)) == addresses_of(*old(iface)),
        match r {
            Err(refusal) => {
                &&& *final(socket) == *old(socket)
                &&& if is_open_state(socket_state(*old(socket))) {
                    refusal == ConnectRefusal::InvalidState
                } else {
                    refusal == ConnectRefusal::Unaddressable && (port == 0 || ip == 0 || local_port
                        == 0 || !has_ipv4(addresses_of(*old(iface))))
                }
            },
            Ok(()) => {
                &&& !is_open_state(socket_state(*old(socket)))
                &&& port != 0 && ip != 0 && local_port != 0
                &&& has_ipv4(addresses_of(*old(iface)))
                &&& socket_state(*final(socket)) == TcpState::SynSent
                &&& sending(*final(socket)) == Seq::<u8>::empty()
                &&& sending_limit(*final(socket)) == sending_limit(*old(socket))
                &&& received(*final(socket)) == Seq::<u8>::empty()
                &&& remote_of(*final(socket)) == Some((HostAddress::Ipv4(ip), port))
                &&& local_of(*final(socket)) == Some(
                    (own_ipv4(addresses_of(*old(iface))), local_port),
                )
            },
        },
{
    let remote = (IpAddress::Ipv4(Ipv4Address::from(ip)), port);
    match socket.connect(iface.context(), remote, local_port) {
        Ok(()) => Ok(()),
        Err(ConnectError::InvalidState) => Err(ConnectRefusal::InvalidState),
        Err(ConnectError::Unaddressable) => Err(ConnectRefusal::Unaddressable),
    }
}

/// `tcp::Socket::can_send`.
///
/// Taken as given: it says whether the socket takes bytes for sending and has room for some.
#[verifier::external_body]
pub(crate) fn can_send(socket: &Socket<'static>) -> (r: bool)
    ensures
        r == (may_send_in(socket_state(*socket)) && sending(*socket).len() < sending_limit(
            *socket,
        )),
{
    socket.can_send()
}

/// `tcp::Socket::may_send`.
///
/// Taken as given: it says whether the socket is in the state ESTABLISHED or CLOSE-WAIT.
#[verifier::external_body]
pub(crate) fn may_send(socket: &Socket<'static>) -> (r: bool)
    ensures
        r == may_send_in(socket_state(*socket)),
{
    socket.may_send()
}

/// `tcp::Socket::can_recv`.
///
/// Taken as given: it says whether the socket holds received bytes.
#[verifier::external_body]
pub(crate) fn can_recv(socket: &Socket<'static>) -> (r: bool)
    ensures
        r == (received(*socket).len() > 0),
{
    socket.can_recv()
}

/// `tcp::Socket::is_open`.
///
/// Taken as given: it says whether the socket is in another state than CLOSED and TIME-WAIT.
#[verifier::external_body]
pub(crate) fn is_open(socket: &Socket<'static>) -> (r: bool)
    ensures
        r == is_open_state(socket_state(*socket)),
{
    socket.is_open()
}

/// `tcp::Socket::close`.
///
/// Taken as given: the state changes as closing the sending half of a connection does; what the
/// socket holds stays, and so do its endpoints.
#[verifier::external_body]
pub(crate) fn close(socket: &mut Socket<'static>)
    ensures
        socket_state(*final(socket)) == closed_from(socket_state(*old(socket))),
        sending(*final(socket)) == sending(*old(socket)),
        sending_limit(*final(socket)) == sending_limit(*old(socket)),
        received(*final(socket)) == received(*old(socket)),
        remote_of(*final(socket)) == remote_of(*old(socket)),
        local_of(*final(socket)) == local_of(*old(socket)),
{
    socket.close();
}

/// `tcp::Socket::send_slice`.
///
/// Taken as given: a socket that takes bytes for sending takes as many of `data`, from the front,
/// as it has room for, says how many, and keeps its endpoints; another one refuses and stays as it
/// is.
#[verifier::external_body]
pub(crate) fn send_slice(socket: &mut Socket<'static>, data: &[u8]) -> (r: Option<usize>)
    requires
        sending(*old(socket)).len() <= sending_limit(*old(socket)),
    ensures
        match r {
            Some(n) => {
                &&& may_send_in(socket_state(*old(socket)))
                &&& n == smaller(
                    (sending_limit(*old(socket)) - sending(*old(socket)).len()) as nat,
                    data@.len(),
                )
                &&& sending(*final(socket)) == sending(*old(socket)) + data@.take(n as int)
                &&& socket_state(*final(socket)) == socket_state(*old(socket))
                &&& sending_limit(*final(socket)) == sending_limit(*old(socket))
                &&& received(*final(socket)) == received(*old(socket))
                &&& remote_of(*final(socket)) == remote_of(*old(socket))
                &&& local_of(*final(socket)) == local_of(*old(socket))
            },
            None => !may_send_in(socket_state(*old(socket))) && *final(socket) == *old(socket),
        },
{
    socket.send_slice(data).ok()
}

/// `tcp::Socket::recv_slice`.
///
/// Taken as given: a socket that may receive or holds received bytes moves as many of them, from
/// the front, as there are and fit into the front of `buf`, says how many, and keeps its endpoints;
/// another one refuses and nothing changes.
#[verifier::external_body]
pub(crate) fn recv_slice(socket: &mut Socket<'static>, buf: &mut Vec<u8>) -> (r: Option<usize>)
    requires
        old(buf)@.len() <= 0x7fff_ffff,
    ensures
        match r {
            Some(n) => {
                &&& receives_in(socket_state(*old(socket))) || received(*old(socket)).len() > 0
                &&& n == smaller(received(*old(socket)).len(), old(buf)@.len())
                &&& final(buf)@ == received(*old(socket)).take(n as int) + old(buf)@.skip(n as int)
                &&& received(*final(socket)) == received(*old(socket)).skip(n as int)
                &&& socket_state(*final(socket)) == socket_state(*old(socket))
                &&& sending(*final(socket)) == sending(*old(socket))
                &&& sending_limit(*final(socket)) == sending_limit(*old(socket))
                &&& remote_of(*final(socket)) == remote_of(*old(socket))
                &&& local_of(*final(socket)) == local_of(*old(socket))
            },
            None => {
                &&& !receives_in(socket_state(*old(socket))) && received(*old(socket)).len() == 0
                &&& *final(socket) == *old(socket)
                &&& final(buf)@ == old(buf)@
            },
        },
{
    socket.recv_slice(buf.as_mut_slice()).ok()
}

/// `SocketSet::new` over owned storage.
///
/// Taken as given: the set is empty and grows.
#[verifier::external_body]
pub(crate) fn new_socket_set() -> (r: SocketSet<'static>)
    ensures
        sockets_in(r).dom() == Set::<SocketHandle>::empty(),
        set_limit(r) is None,
{
    SocketSet::new(vec![])
}

/// `SocketSet::add` on a set that grows.
///
/// Taken as given: the set then holds the socket under the handle that is given back, which it did
/// not use before, and what it held before.
#[verifier::external_body]
pub(crate) fn add_socket(set: &mut SocketSet<'static>, socket: Socket<'static>) -> (r: SocketHandle)
    requires
        set_limit(*old(set)) is None,
    ensures
        !sockets_in(*old(set)).contains_key(r),
        sockets_in(*final(set)) == sockets_in(*old(set)).insert(r, socket),
        set_limit(*final(set)) is None,
{
    set.add(socket)
}

/// `SocketSet::get_mut`.
///
/// Taken as given: it gives access to the socket that the set holds under the handle; the set then
/// holds under it what the socket becomes.
#[verifier::external_body]
pub(crate) fn socket_mut<'b>(set: &'b mut SocketSet<'static>, handle: SocketHandle) -> (r:
    &'b mut Socket<'static>)
    requires
        sockets_in(*old(set)).contains_key(handle),
    ensures
        *r == sockets_in(*old(set))[handle],
        sockets_in(*final(set)) == sockets_in(*old(set)).insert(handle, *final(r)),
        set_limit(*final(set)) == set_limit(*old(set)),
{
    set.get_mut::<Socket<'static>>(handle)
}

/// `SocketSet::remove`.
///
/// Taken as given: the set no longer holds a socket under the handle, and holds what it held under
/// the others.
#[verifier::external_body]
pub(crate) fn remove_socket(set: &mut SocketSet<'static>, handle: SocketHandle)
    requires
        sockets_in(*old(set)).contains_key(handle),
    ensures
        sockets_in(*final(set)) == sockets_in(*old(set)).remove(handle),
        set_limit(*final(set)) == set_limit(*old(set)),
{
    set.remove(handle);
}

/// `Interface::update_ip_addrs`, adding an IPv4 address with the length of its prefix.
///
/// Taken as given: the interface then holds the address after those that it held, unless it had no
/// room for one more; where it held none it had room. How many addresses it has room for is
/// settled when smoltcp is built (two, unless the build is told otherwise), and is not stated.
#[verifier::external_body]
pub(crate) fn add_address(iface: &mut Interface, ip: u32, prefix: u8)
    requires
        assignable(ip),
        prefix <= 32,
    ensures
        addresses_of(*final(iface)) == addresses_of(*old(iface)).push(
            (InterfaceAddress { host: HostAddress::Ipv4(ip), prefix }),
        ) || (addresses_of(*final(iface)) == addresses_of(*old(iface)) && addresses_of(
            *old(iface),
        ).len() > 0),
{
    iface.update_ip_addrs(|addrs| {
        let _ = addrs.push(IpCidr::new(IpAddress::Ipv4(Ipv4Address::from(ip)), prefix));
    });
}

/// What a socket can do in each state, and where closing its sending half leads.
pub proof fn law_tcp_states(state: TcpState)
    ensures
        match state {
            TcpState::Closed => !is_open_state(state) && !may_send_in(state) && !receives_in(state)
                && closed_from(state) == TcpState::Closed,
            TcpState::Listen => is_open_state(state) && !may_send_in(state) && !receives_in(state)
                && closed_from(state) == TcpState::Closed,
            TcpState::SynSent => is_open_state(state) && !may_send_in(state) && !receives_in(state)
                && closed_from(state) == TcpState::Closed,
            TcpState::SynReceived => is_open_state(state) && !may_send_in(state) && !receives_in(
                state,
            ) && closed_from(state) == TcpState::FinWait1,
            TcpState::Established => is_open_state(state) && may_send_in(state) && receives_in(
                state,
            ) && closed_from(state) == TcpState::FinWait1,
            TcpState::FinWait1 => is_open_state(state) && !may_send_in(state) && receives_in(state)
                && closed_from(state) == TcpState::FinWait1,
            TcpState::FinWait2 => is_open_state(state) && !may_send_in(state) && receives_in(state)
                && closed_from(state) == TcpState::FinWait2,
            TcpState::CloseWait => is_open_state(state) && may_send_in(state) && !receives_in(state)
                && closed_from(state) == TcpState::LastAck,
            TcpState::Closing => is_open_state(state) && !may_send_in(state) && !receives_in(state)
                && closed_from(state) == TcpState::Closing,
            TcpState::LastAck => is_open_state(state) && !may_send_in(state) && !receives_in(state)
                && closed_from(state) == TcpState::LastAck,
            TcpState::TimeWait => !is_open_state(state) && !may_send_in(state) && !receives_in(
                state,
            ) && closed_from(state) == TcpState::TimeWait,
        },
{
}

/// The address that connections go out from is the first IPv4 address of the interface.
pub proof fn law_own_ipv4(addresses: Seq<InterfaceAddress>, k: int)
    requires
        0 <= k < addresses.len(),
        addresses[k].host is Ipv4,
        forall|i: int| 0 <= i < k ==> (#[trigger] addresses[i]).host is Ipv6,
    ensures
        has_ipv4(addresses),
        own_ipv4(addresses) == addresses[k].host,
    decreases k,
{
    if k > 0 {
        let rest = addresses.skip(1);
        assert(addresses[0].host is Ipv6);
        assert forall|i: int| 0 <= i < k - 1 implies (#[trigger] rest[i]).host is Ipv6 by {
            assert(rest[i] == addresses[i + 1]);
        }
        law_own_ipv4(rest, k - 1);
    }
}

/// An interface that holds no IPv4 address has none to connect from, and one can be given every
/// address but those of multicast and broadcast.
pub proof fn law_interface_addresses(addresses: Seq<InterfaceAddress>, ip: u32)
    ensures
        has_ipv4(addresses) <==> exists|i: int|
            0 <= i < addresses.len() && (#[trigger] addresses[i]).host is Ipv4,
        assignable(ip) <==> ip != 0xffff_ffff && !(224 <= ip / 0x100_0000 <= 239),
{
}

} // verus!
