//! Relaying bytes one way between a client and its upstream.
//!
//! A relay takes bytes from its source and passes them on before it takes more. When its source
//! ends, it closes its destination. A relay says what is to be done next; its holder does it and
//! reports back how it went.

use crate::error::{EcError, EcResult};
use crate::socks::{
    after_read, after_shutdown, after_write, both, expected, IoFailure, IoKind, RelayStep,
};
use vstd::prelude::*;

verus! {

/// From where to where a relay goes.
#[derive(Debug, Clone, Copy, PartialEq, Eq, Structural)]
pub enum RelayRoute {
    ClientToTunnel,
    TunnelToClient,
    ClientToUpstream,
    UpstreamToClient,
}

/// How far a relay is.
#[derive(Debug)]
pub enum RelayState {
    /// Bytes are being taken from the source.
    Taking,
    /// Bytes are being passed on.
    Passing,
    /// The destination is being closed; the result is that of the relay so far.
    Finishing(EcResult<()>),
    /// The relay is over.
    Over,
}

/// What a relay does next.
#[derive(Debug)]
pub enum RelayAction {
    /// Take bytes from the source.
    Take,
    /// Pass on that many bytes, which were taken last.
    Pass(usize),
    /// Close the destination.
    Finish,
    /// Nothing; the relay has ended.
    End(EcResult<()>),
}

/// How what a relay did went.
#[derive(Debug)]
pub enum RelayEvent {
    /// That many bytes were taken, or taking failed.
    Taken(Result<usize, IoFailure>),
    /// The tunnel has nothing more.
    TunnelEnded,
    /// Bytes were written to a stream, or writing failed.
    Written(Result<(), IoFailure>),
    /// Bytes were sent into the tunnel, or sending failed.
    Sent(EcResult<()>),
    /// The writing side of a stream was shut down, or that failed.
    Shut(Result<(), IoFailure>),
    /// The tunnel was asked to close, or that failed.
    TunnelClosed(EcResult<()>),
}

/// A result, by its error's message.
pub open spec fn result_view(result: EcResult<()>) -> Result<(), Seq<char>> {
    match result {
        Ok(()) => Ok(()),
        Err(err) => Err(err.text()),
    }
}

/// A [`RelayState`] by the messages of its errors.
pub enum RelayStateView {
    Taking,
    Passing,
    Finishing(Result<(), Seq<char>>),
    Over,
}

/// A [`RelayAction`] by the messages of its errors.
pub enum RelayActionView {
    Take,
    Pass(usize),
    Finish,
    End(Result<(), Seq<char>>),
}

impl View for RelayState {
    type V = RelayStateView;

    open spec fn view(&self) -> RelayStateView {
        match *self {
            RelayState::Taking => RelayStateView::Taking,
            RelayState::Passing => RelayStateView::Passing,
            RelayState::Finishing(result) => RelayStateView::Finishing(result_view(result)),
            RelayState::Over => RelayStateView::Over,
        }
    }
}

impl View for RelayAction {
    type V = RelayActionView;

    open spec fn view(&self) -> RelayActionView {
        match *self {
            RelayAction::Take => RelayActionView::Take,
            RelayAction::Pass(n) => RelayActionView::Pass(n),
            RelayAction::Finish => RelayActionView::Finish,
            RelayAction::End(result) => RelayActionView::End(result_view(result)),
        }
    }
}

impl RelayRoute {
    /// The name of the route.
    pub open spec fn name(self) -> Seq<char> {
        match self {
            RelayRoute::ClientToTunnel => "client to tunnel"@,
            RelayRoute::TunnelToClient => "tunnel to client"@,
            RelayRoute::ClientToUpstream => "client to upstream"@,
            RelayRoute::UpstreamToClient => "upstream to client"@,
        }
    }

    /// The name of the route.
    pub fn direction(self) -> (r: &'static str)
        ensures
            r@ == self.name(),
    {
        match self {
            RelayRoute::ClientToTunnel => "client to tunnel",
            RelayRoute::TunnelToClient => "tunnel to client",
            RelayRoute::ClientToUpstream => "client to upstream",
            RelayRoute::UpstreamToClient => "upstream to client",
        }
    }

    /// What an error in shutting down the destination names.
    pub open spec fn shut_name(self) -> Seq<char> {
        if self == RelayRoute::TunnelToClient {
            "client"@
        } else {
            self.name()
        }
    }
}

/// The result of an I/O operation, where an expected error counts as success.
pub open spec fn io_result(
    name: Seq<char>,
    operation: Seq<char>,
    failure: IoFailure,
) -> Result<(), Seq<char>> {
    if expected(failure.kind) {
        Ok(())
    } else {
        Err(name + operation + failure.detail@)
    }
}

/// The result of shutting down a stream.
pub open spec fn shut_result(name: Seq<char>, shut: Result<(), IoFailure>) -> Result<(), Seq<char>> {
    match shut {
        Ok(()) => Ok(()),
        Err(failure) => io_result(name, " write shutdown failed: "@, failure),
    }
}

/// The first error of two results.
pub open spec fn first_error(
    first: Result<(), Seq<char>>,
    second: Result<(), Seq<char>>,
) -> Result<(), Seq<char>> {
    match first {
        Ok(()) => second,
        Err(message) => Err(message),
    }
}

/// Whether an event is one that the relay waits for.
pub open spec fn relay_awaits(
    route: RelayRoute,
    state: RelayStateView,
    event: RelayEvent,
) -> bool {
    let tunnel_source = route == RelayRoute::TunnelToClient;
    let tunnel_target = route == RelayRoute::ClientToTunnel;
    match state {
        RelayStateView::Taking => match event {
            RelayEvent::Taken(taken) => tunnel_source ==> taken is Ok,
            RelayEvent::TunnelEnded => tunnel_source,
            _ => false,
        },
        RelayStateView::Passing => if tunnel_target {
            event is Sent
        } else {
            event is Written
        },
        RelayStateView::Finishing(_) => if tunnel_target {
            event is TunnelClosed
        } else {
            event is Shut
        },
        RelayStateView::Over => false,
    }
}

/// The relay after an event, and what it does next.
pub open spec fn relay_after(
    route: RelayRoute,
    state: RelayStateView,
    event: RelayEvent,
) -> (RelayStateView, RelayActionView) {
    let finish = |result: Result<(), Seq<char>>|
        (RelayStateView::Finishing(result), RelayActionView::Finish);
    let end = |result: Result<(), Seq<char>>| (RelayStateView::Over, RelayActionView::End(result));
    let take = (RelayStateView::Taking, RelayActionView::Take);
    match event {
        RelayEvent::Taken(Ok(n)) => if n > 0 {
            (RelayStateView::Passing, RelayActionView::Pass(n))
        } else if route == RelayRoute::TunnelToClient {
            take
        } else {
            finish(Ok(()))
        },
        RelayEvent::Taken(Err(failure)) => finish(
            io_result(route.name(), " read failed: "@, failure),
        ),
        RelayEvent::TunnelEnded => finish(Ok(())),
        RelayEvent::Written(Ok(())) => take,
        RelayEvent::Written(Err(failure)) => {
            let result = io_result(route.name(), " write failed: "@, failure);
            if route == RelayRoute::TunnelToClient {
                end(result)
            } else {
                finish(result)
            }
        },
        RelayEvent::Sent(Ok(())) => take,
        RelayEvent::Sent(Err(err)) => end(Err(err.text())),
        RelayEvent::Shut(shut) => end(
            first_error(state->Finishing_0, shut_result(route.shut_name(), shut)),
        ),
        RelayEvent::TunnelClosed(result) => end(
            first_error(state->Finishing_0, result_view(result)),
        ),
    }
}

impl RelayState {
    /// Takes an event and says what comes next. A relay starts by taking.
    pub fn on_event(self, route: RelayRoute, event: RelayEvent) -> (r: (RelayState, RelayAction))
        requires
            relay_awaits(route, self@, event),
        ensures
            (r.0@, r.1@) == relay_after(route, self@, event),
    {
        let so_far: EcResult<()> = match self {
            RelayState::Finishing(result) => result,
            _ => Ok(()),
        };
        match event {
            RelayEvent::Taken(taken) => {
                if let (RelayRoute::TunnelToClient, Ok(0)) = (route, &taken) {
                    return (RelayState::Taking, RelayAction::Take);
                }
                match after_read(route.direction(), taken) {
                    RelayStep::Forward(n) => (RelayState::Passing, RelayAction::Pass(n)),
                    RelayStep::Stop(result) => (RelayState::Finishing(result), RelayAction::Finish),
                }
            },
            RelayEvent::TunnelEnded => (RelayState::Finishing(Ok(())), RelayAction::Finish),
            RelayEvent::Written(written) => match after_write(route.direction(), written) {
                None => (RelayState::Taking, RelayAction::Take),
                Some(result) => match route {
                    RelayRoute::TunnelToClient => (RelayState::Over, RelayAction::End(result)),
                    _ => (RelayState::Finishing(result), RelayAction::Finish),
                },
            },
            RelayEvent::Sent(Ok(())) => (RelayState::Taking, RelayAction::Take),
            RelayEvent::Sent(Err(err)) => (RelayState::Over, RelayAction::End(Err(err))),
            RelayEvent::Shut(shut) => {
                let peer = match route {
                    RelayRoute::TunnelToClient => "client",
                    _ => route.direction(),
                };
                (RelayState::Over, RelayAction::End(both(so_far, after_shutdown(peer, shut))))
            },
            RelayEvent::TunnelClosed(result) => (
                RelayState::Over,
                RelayAction::End(both(so_far, result)),
            ),
        }
    }
}

/// What was taken is passed on before more is taken: bytes that were taken are passed on at once,
/// all of them, and taking goes on only once they have been passed on.
pub proof fn law_taken_bytes_are_passed_on_first(
    route: RelayRoute,
    state: RelayStateView,
    event: RelayEvent,
)
    requires
        relay_awaits(route, state, event),
    ensures
        ({
            let (next, action) = relay_after(route, state, event);
            &&& event matches RelayEvent::Taken(Ok(n)) ==> (n > 0 ==> action
                == RelayActionView::Pass(n) && next is Passing)
            &&& action matches RelayActionView::Pass(n) ==> event == RelayEvent::Taken(Ok(n))
            &&& state is Passing && action is Take ==> match event {
                RelayEvent::Written(written) => written is Ok,
                RelayEvent::Sent(sent) => sent is Ok,
                _ => false,
            }
        }),
{
}

/// A relay that sees nothing but expected errors ends well.
pub proof fn law_expected_errors_end_well(
    route: RelayRoute,
    state: RelayStateView,
    event: RelayEvent,
)
    requires
        relay_awaits(route, state, event),
        state matches RelayStateView::Finishing(result) ==> result is Ok,
        match event {
            RelayEvent::Taken(Err(failure)) => expected(failure.kind),
            RelayEvent::Written(Err(failure)) => expected(failure.kind),
            RelayEvent::Shut(Err(failure)) => expected(failure.kind),
            RelayEvent::Sent(result) => result is Ok,
            RelayEvent::TunnelClosed(result) => result is Ok,
            _ => true,
        },
    ensures
        match relay_after(route, state, event) {
            (RelayStateView::Finishing(result), _) => result is Ok,
            (_, RelayActionView::End(result)) => result is Ok,
            _ => true,
        },
{
}

/// The first error of a relay is the one that it ends with.
pub proof fn law_first_relay_error_stays(route: RelayRoute, message: Seq<char>, event: RelayEvent)
    requires
        relay_awaits(route, RelayStateView::Finishing(Err(message)), event),
    ensures
        relay_after(route, RelayStateView::Finishing(Err(message)), event).1
            == RelayActionView::End(Err(message)),
{
}

/// The end of the source ends the relay well: a stream that gives no bytes has ended, and so has a
/// tunnel that says so; the destination is closed then. An empty chunk out of the tunnel is no end:
/// more is taken.
pub proof fn law_end_of_source_ends_the_relay(route: RelayRoute, state: RelayStateView)
    ensures
        route != RelayRoute::TunnelToClient ==> relay_after(
            route,
            state,
            RelayEvent::Taken(Ok(0)),
        ) == (RelayStateView::Finishing(Ok(())), RelayActionView::Finish),
        relay_after(RelayRoute::TunnelToClient, state, RelayEvent::TunnelEnded) == (
            RelayStateView::Finishing(Ok(())),
            RelayActionView::Finish,
        ),
        relay_after(RelayRoute::TunnelToClient, state, RelayEvent::Taken(Ok(0))) == (
            RelayStateView::Taking,
            RelayActionView::Take,
        ),
{
}

/// Bytes that were taken are passed on, all of them; once they are passed on, more is taken.
pub proof fn law_relay_goes_round(route: RelayRoute, state: RelayStateView, n: usize)
    requires
        n > 0,
    ensures
        relay_after(route, state, RelayEvent::Taken(Ok(n))) == (
            RelayStateView::Passing,
            RelayActionView::Pass(n),
        ),
        relay_after(route, state, RelayEvent::Written(Ok(()))) == (
            RelayStateView::Taking,
            RelayActionView::Take,
        ),
        relay_after(route, state, RelayEvent::Sent(Ok(()))) == (
            RelayStateView::Taking,
            RelayActionView::Take,
        ),
{
}

/// A read that fails ends the relay and closes its destination: well where the error is one of the
/// ways in which connections end, with the error otherwise.
pub proof fn law_read_error_ends_the_relay(
    route: RelayRoute,
    state: RelayStateView,
    failure: IoFailure,
)
    ensures
        ({
            let normal = failure.kind == IoKind::BrokenPipe || failure.kind
                == IoKind::ConnectionAborted || failure.kind == IoKind::ConnectionReset
                || failure.kind == IoKind::NotConnected || failure.kind == IoKind::UnexpectedEof;
            relay_after(route, state, RelayEvent::Taken(Err(failure))) == (
                RelayStateView::Finishing(
                    if normal {
                        Ok(())
                    } else {
                        Err(route.name() + " read failed: "@ + failure.detail@)
                    },
                ),
                RelayActionView::Finish,
            )
        }),
{
}

/// A write that fails ends the relay in the same way; where the destination is the client of a
/// tunnel, it is not closed any more.
pub proof fn law_write_error_ends_the_relay(
    route: RelayRoute,
    state: RelayStateView,
    failure: IoFailure,
)
    ensures
        ({
            let normal = failure.kind == IoKind::BrokenPipe || failure.kind
                == IoKind::ConnectionAborted || failure.kind == IoKind::ConnectionReset
                || failure.kind == IoKind::NotConnected || failure.kind == IoKind::UnexpectedEof;
            let result = if normal {
                Ok(())
            } else {
                Err(route.name() + " write failed: "@ + failure.detail@)
            };
            relay_after(route, state, RelayEvent::Written(Err(failure))) == if route
                == RelayRoute::TunnelToClient {
                (RelayStateView::Over, RelayActionView::End(result))
            } else {
                (RelayStateView::Finishing(result), RelayActionView::Finish)
            }
        }),
{
}

/// A payload that the tunnel does not take ends the relay with the tunnel's error.
pub proof fn law_tunnel_error_ends_the_relay(
    route: RelayRoute,
    state: RelayStateView,
    err: EcError,
)
    ensures
        relay_after(route, state, RelayEvent::Sent(Err(err))) == (
            RelayStateView::Over,
            RelayActionView::End(Err(err.text())),
        ),
{
}

/// Once its destination is closed a relay is over. It ends well where neither the relaying nor the
/// closing failed, otherwise with the first of the two errors; a way in which connections end is no
/// failure of closing.
pub proof fn law_relay_result(
    route: RelayRoute,
    so_far: Result<(), Seq<char>>,
    failure: IoFailure,
    err: EcError,
)
    ensures
        ({
            let state = RelayStateView::Finishing(so_far);
            let normal = failure.kind == IoKind::BrokenPipe || failure.kind
                == IoKind::ConnectionAborted || failure.kind == IoKind::ConnectionReset
                || failure.kind == IoKind::NotConnected || failure.kind == IoKind::UnexpectedEof;
            let peer = if route == RelayRoute::TunnelToClient {
                "client"@
            } else {
                route.name()
            };
            let over = |result: Result<(), Seq<char>>|
                (RelayStateView::Over, RelayActionView::End(result));
            &&& relay_after(route, state, RelayEvent::Shut(Ok(()))) == over(so_far)
            &&& relay_after(route, state, RelayEvent::TunnelClosed(Ok(()))) == over(so_far)
            &&& relay_after(route, state, RelayEvent::Shut(Err(failure))) == over(
                if so_far is Err || normal {
                    so_far
                } else {
                    Err(peer + " write shutdown failed: "@ + failure.detail@)
                },
            )
            &&& relay_after(route, state, RelayEvent::TunnelClosed(Err(err))) == over(
                if so_far is Err {
                    so_far
                } else {
                    Err(err.text())
                },
            )
        }),
{
    if let Ok(unit) = so_far {
        assert(unit == ());
    }
}

/// The names of the routes.
pub proof fn law_relay_names()
    ensures
        RelayRoute::ClientToTunnel.name() == "client to tunnel"@,
        RelayRoute::TunnelToClient.name() == "tunnel to client"@,
        RelayRoute::ClientToUpstream.name() == "client to upstream"@,
        RelayRoute::UpstreamToClient.name() == "upstream to client"@,
{
}

/// What a relay waits for: bytes of its source while it takes, to be told of what it passed on while
/// it passes on, and of the closing of its destination while it finishes. Only a tunnel says that it
/// has ended, and only a tunnel is sent to and closed as one; nothing comes once the relay is over.
pub proof fn law_relay_waits_for_its_own_ends(
    route: RelayRoute,
    state: RelayStateView,
    event: RelayEvent,
)
    ensures
        relay_awaits(route, state, event) <==> match event {
            RelayEvent::Taken(taken) => state is Taking && (route == RelayRoute::TunnelToClient
                ==> taken is Ok),
            RelayEvent::TunnelEnded => state is Taking && route == RelayRoute::TunnelToClient,
            RelayEvent::Written(_) => state is Passing && route != RelayRoute::ClientToTunnel,
            RelayEvent::Sent(_) => state is Passing && route == RelayRoute::ClientToTunnel,
            RelayEvent::Shut(_) => state is Finishing && route != RelayRoute::ClientToTunnel,
            RelayEvent::TunnelClosed(_) => state is Finishing && route
                == RelayRoute::ClientToTunnel,
        },
{
}

/// The views of a relay keep what they hold.
pub proof fn law_relay_views(n: usize, err: EcError)
    ensures
        RelayState::Taking@ == RelayStateView::Taking,
        RelayState::Passing@ == RelayStateView::Passing,
        RelayState::Finishing(Ok(()))@ == RelayStateView::Finishing(Ok(())),
        RelayState::Finishing(Err(err))@ == RelayStateView::Finishing(Err(err.text())),
        RelayState::Over@ == RelayStateView::Over,
        RelayAction::Take@ == RelayActionView::Take,
        RelayAction::Pass(n)@ == RelayActionView::Pass(n),
        RelayAction::Finish@ == RelayActionView::Finish,
        RelayAction::End(Ok(()))@ == RelayActionView::End(Ok(())),
        RelayAction::End(Err(err))@ == RelayActionView::End(Err(err.text())),
{
}

} // verus!
