//! Serving one SOCKS client, from its greeting to the end of the relay.
//!
//! A session says what is to be done next; its holder does it and reports back how it went.

use crate::error::{concise_error, EcError, EcResult};
use crate::list::views;
use crate::output::{Scope, Span, SpanView};
use crate::routing::{
    first_step_in, law_ipv6_stays_out_of_the_tunnel, PlanStepView, RouteModeView, RoutePlan,
    RoutePlanView,
};
use crate::rules::target_of;
use crate::socks::{
    decide_route, decision_for, dialled_host, planned_view, proxy_view, resolution_line,
    route_runtime_error, target_text, udp_associate_warning, ClientFailure, RouteTransport, RouteTransportView,
};
use crate::socks_wire::{
    reply, reply_bytes, reply_write_error, socket_target, unsupported_command_error, ConnectTarget,
    ConnectTargetView, Negotiation, NegotiationStep, NegotiationStepView, RequestReader,
    RequestReaderView, RequestStep, RequestStepView, SocksCommand, SOCKS_REP_CMD_NOT_SUPPORTED,
    SOCKS_REP_SUCCEEDED,
};
use crate::text::decimal;
use vstd::prelude::*;

verus! {

/// How far a session is.
#[derive(Debug)]
pub enum Session {
    /// The method is being chosen.
    Negotiating(Negotiation),
    /// The request is being read.
    Reading(RequestReader),
    /// A refusal is being written; the session ends with the error however that goes.
    Refusing(EcError),
    /// The rejection of a UDP association is being written.
    RejectingUdp,
    /// The route to the target is being planned.
    Planning(ConnectTarget),
    /// The upstream is being connected; the texts name the target and the route.
    Dialling(String, String),
    /// The success reply is being written.
    Replying(String, String),
    /// Client and upstream are being relayed.
    Relaying(String, String),
    /// The session is over.
    Over,
}

/// What is to be done next.
#[derive(Debug)]
pub enum SessionAction {
    /// Read that many bytes from the client.
    Read(usize),
    /// Write the bytes to the client.
    Write(Vec<u8>),
    /// Plan the route to the target that the session holds.
    Plan,
    /// Connect the upstream.
    Dial(RouteTransport),
    /// Relay between client and upstream.
    Relay,
    /// Nothing; the session has ended.
    End(Result<(), ClientFailure>),
}

/// The severity of a log line.
#[derive(Debug, Clone, Copy, PartialEq, Eq, Structural)]
pub enum LogLevel {
    Info,
    Warn,
}

/// A line to log.
#[derive(Debug)]
pub struct LogLine {
    pub level: LogLevel,
    pub scope: Scope,
    pub line: Vec<Span>,
}

/// A step of a session: lines to log, where the session is, what is to be done next.
#[derive(Debug)]
pub struct SessionStep {
    pub logs: Vec<LogLine>,
    pub state: Session,
    pub action: SessionAction,
}

/// How what was to be done went.
#[derive(Debug)]
pub enum SessionEvent {
    /// A read gave the bytes that were asked for, or failed.
    Read(Result<Vec<u8>, String>),
    /// A write succeeded or failed.
    Written(Result<(), String>),
    /// The route was planned or could not be.
    Planned(EcResult<RoutePlan>),
    /// The upstream was connected or could not be.
    Dialled(Result<(), String>),
    /// The relay ended.
    Relayed(EcResult<()>),
}

/// A [`Session`] with its texts as characters.
pub enum SessionView {
    Negotiating(Negotiation),
    Reading(RequestReaderView),
    Refusing(Seq<char>),
    RejectingUdp,
    Planning(ConnectTargetView),
    Dialling(Seq<char>, Seq<char>),
    Replying(Seq<char>, Seq<char>),
    Relaying(Seq<char>, Seq<char>),
    Over,
}

/// A [`SessionAction`] with its bytes and texts.
pub enum SessionActionView {
    Read(nat),
    Write(Seq<u8>),
    Plan,
    Dial(RouteTransportView),
    Relay,
    End(SessionEndView),
}

/// How a session ends: well, or with a failure of the request or on the way to the target.
pub enum SessionEndView {
    Well,
    Request(Seq<char>),
    Upstream(Seq<char>),
}

/// A [`LogLine`] with its texts as characters.
pub struct LogLineView {
    pub level: LogLevel,
    pub scope: Scope,
    pub line: Seq<SpanView>,
}

/// A [`SessionStep`] with its texts as characters.
#[verifier::ext_equal]
pub struct SessionStepView {
    pub logs: Seq<LogLineView>,
    pub state: SessionView,
    pub action: SessionActionView,
}

/// A [`SessionEvent`] with its texts as characters.
pub enum SessionEventView {
    Read(Result<Seq<u8>, Seq<char>>),
    Written(Result<(), Seq<char>>),
    Planned(Result<RoutePlanView, Seq<char>>),
    Dialled(Result<(), Seq<char>>),
    Relayed(Result<(), Seq<char>>),
}

impl View for Session {
    type V = SessionView;

    open spec fn view(&self) -> SessionView {
        match *self {
            Session::Negotiating(state) => SessionView::Negotiating(state),
            Session::Reading(reader) => SessionView::Reading(reader@),
            Session::Refusing(err) => SessionView::Refusing(err.text()),
            Session::RejectingUdp => SessionView::RejectingUdp,
            Session::Planning(target) => SessionView::Planning(target@),
            Session::Dialling(target, path) => SessionView::Dialling(target@, path@),
            Session::Replying(target, path) => SessionView::Replying(target@, path@),
            Session::Relaying(target, path) => SessionView::Relaying(target@, path@),
            Session::Over => SessionView::Over,
        }
    }
}

impl View for SessionAction {
    type V = SessionActionView;

    open spec fn view(&self) -> SessionActionView {
        match *self {
            SessionAction::Read(n) => SessionActionView::Read(n as nat),
            SessionAction::Write(bytes) => SessionActionView::Write(bytes@),
            SessionAction::Plan => SessionActionView::Plan,
            SessionAction::Dial(transport) => SessionActionView::Dial(transport@),
            SessionAction::Relay => SessionActionView::Relay,
            SessionAction::End(Ok(())) => SessionActionView::End(SessionEndView::Well),
            SessionAction::End(Err(ClientFailure::Request(err))) => SessionActionView::End(
                SessionEndView::Request(err.text()),
            ),
            SessionAction::End(Err(ClientFailure::Upstream(err))) => SessionActionView::End(
                SessionEndView::Upstream(err.text()),
            ),
        }
    }
}

impl View for LogLine {
    type V = LogLineView;

    open spec fn view(&self) -> LogLineView {
        LogLineView { level: self.level, scope: self.scope, line: views(self.line@) }
    }
}

impl View for SessionStep {
    type V = SessionStepView;

    open spec fn view(&self) -> SessionStepView {
        SessionStepView { logs: views(self.logs@), state: self.state@, action: self.action@ }
    }
}

impl View for SessionEvent {
    type V = SessionEventView;

    open spec fn view(&self) -> SessionEventView {
        match *self {
            SessionEvent::Read(Ok(bytes)) => SessionEventView::Read(Ok(bytes@)),
            SessionEvent::Read(Err(detail)) => SessionEventView::Read(Err(detail@)),
            SessionEvent::Written(Ok(())) => SessionEventView::Written(Ok(())),
            SessionEvent::Written(Err(detail)) => SessionEventView::Written(Err(detail@)),
            SessionEvent::Planned(Ok(plan)) => SessionEventView::Planned(Ok(plan@)),
            SessionEvent::Planned(Err(err)) => SessionEventView::Planned(Err(err.text())),
            SessionEvent::Dialled(Ok(())) => SessionEventView::Dialled(Ok(())),
            SessionEvent::Dialled(Err(detail)) => SessionEventView::Dialled(Err(detail@)),
            SessionEvent::Relayed(Ok(())) => SessionEventView::Relayed(Ok(())),
            SessionEvent::Relayed(Err(err)) => SessionEventView::Relayed(Err(err.text())),
        }
    }
}

/// A step without log lines.
pub open spec fn quiet(state: SessionView, action: SessionActionView) -> SessionStepView {
    SessionStepView { logs: Seq::empty(), state, action }
}

/// The end of a session.
pub open spec fn ended(end: SessionEndView) -> SessionStepView {
    quiet(SessionView::Over, SessionActionView::End(end))
}

/// The error for a route that failed.
pub open spec fn route_failure(
    target: Seq<char>,
    path: Seq<char>,
    cause: Seq<char>,
) -> SessionEndView {
    SessionEndView::Upstream(target + " -> "@ + path + "; error: "@ + cause)
}

/// The step after a step of the negotiation.
pub open spec fn after_negotiation(step: NegotiationStepView) -> SessionStepView {
    match step {
        NegotiationStepView::Read(state) => quiet(
            SessionView::Negotiating(state),
            SessionActionView::Read(state.wants()),
        ),
        NegotiationStepView::Write(bytes, state) => quiet(
            SessionView::Negotiating(state),
            SessionActionView::Write(bytes),
        ),
        NegotiationStepView::Failed(message) => ended(SessionEndView::Request(message)),
    }
}

/// The step after a step of reading the request.
pub open spec fn after_request(step: RequestStepView) -> SessionStepView {
    match step {
        RequestStepView::Read(reader) => quiet(
            SessionView::Reading(reader),
            SessionActionView::Read(reader.wants()),
        ),
        RequestStepView::Refused(Some(rep), message) => quiet(
            SessionView::Refusing(message),
            SessionActionView::Write(reply(rep)),
        ),
        RequestStepView::Refused(None, message) => ended(SessionEndView::Request(message)),
        RequestStepView::Done(request) => match request.command {
            SocksCommand::Connect => quiet(
                SessionView::Planning(request.target),
                SessionActionView::Plan,
            ),
            SocksCommand::UdpAssociate => quiet(
                SessionView::RejectingUdp,
                SessionActionView::Write(reply(SOCKS_REP_CMD_NOT_SUPPORTED)),
            ),
            SocksCommand::Other(_) => quiet(
                SessionView::Refusing("unsupported socks command: "@ + request.command.text()),
                SessionActionView::Write(reply(SOCKS_REP_CMD_NOT_SUPPORTED)),
            ),
        },
    }
}

/// The line to log of a plan's resolution, where there is one.
pub open spec fn plan_log(host: Seq<char>, plan: Result<RoutePlanView, Seq<char>>) -> Seq<
    LogLineView,
> {
    match plan {
        Ok(RoutePlanView::Remote { dial, rc_id, rc_name, source, dns_lookup }) => {
            match resolution_line(host, dialled_host(dial), source, dns_lookup) {
                Some(line) => seq![
                    LogLineView { level: LogLevel::Info, scope: Scope::Upstream, line },
                ],
                None => Seq::empty(),
            }
        },
        _ => Seq::empty(),
    }
}

/// The step after the route was planned.
pub open spec fn after_plan(
    target: ConnectTargetView,
    plan: Result<RoutePlanView, Seq<char>>,
    proxy: Option<Seq<char>>,
) -> SessionStepView {
    let decision = decision_for(target, plan, proxy);
    let display = target_text(target);
    let logs = plan_log(target.host, plan).push(
        LogLineView { level: LogLevel::Info, scope: Scope::Req, line: decision.line },
    );
    match decision.transport {
        RouteTransportView::Unsupported(reason) => SessionStepView {
            logs,
            state: SessionView::Over,
            action: SessionActionView::End(route_failure(display, decision.path, reason)),
        },
        transport => SessionStepView {
            logs,
            state: SessionView::Dialling(display, decision.path),
            action: SessionActionView::Dial(transport),
        },
    }
}

/// Whether an event is one that the session waits for: a read gives as many bytes as were asked
/// for.
pub open spec fn awaits(state: SessionView, event: SessionEventView) -> bool {
    match (state, event) {
        (SessionView::Negotiating(n), SessionEventView::Read(read)) => !(n is Reply) && (
        read matches Ok(bytes) ==> bytes.len() == n.wants()),
        (SessionView::Negotiating(n), SessionEventView::Written(_)) => n is Reply,
        (SessionView::Reading(reader), SessionEventView::Read(read)) => read matches Ok(bytes)
            ==> bytes.len() == reader.wants(),
        (SessionView::Refusing(_), SessionEventView::Written(_)) => true,
        (SessionView::RejectingUdp, SessionEventView::Written(_)) => true,
        (SessionView::Planning(_), SessionEventView::Planned(_)) => true,
        (SessionView::Dialling(_, _), SessionEventView::Dialled(_)) => true,
        (SessionView::Replying(_, _), SessionEventView::Written(_)) => true,
        (SessionView::Relaying(_, _), SessionEventView::Relayed(_)) => true,
        _ => false,
    }
}

/// The warning for a rejected UDP association.
pub open spec fn udp_warning() -> LogLineView {
    LogLineView {
        level: LogLevel::Warn,
        scope: Scope::Req,
        line: seq![SpanView::Text("UDP ASSOCIATE rejected: listener supports TCP CONNECT only"@)],
    }
}

/// What a failed read is called.
pub open spec fn read_failure(state: SessionView) -> Seq<char> {
    match state {
        SessionView::Negotiating(Negotiation::Head) => "socks hello read failed: "@,
        SessionView::Negotiating(_) => "socks methods read failed: "@,
        SessionView::Reading(reader) => match reader {
            RequestReaderView::Head => "socks request head read failed: "@,
            RequestReaderView::Ipv4(_) => "read ipv4 failed: "@,
            RequestReaderView::DomainLength(_) => "read domain length failed: "@,
            RequestReaderView::Domain(_, _) => "read domain failed: "@,
            RequestReaderView::Ipv6(_) => "read ipv6 failed: "@,
            RequestReaderView::Port(_, _) => "read target port failed: "@,
        },
        _ => Seq::empty(),
    }
}

/// The step after an event.
pub open spec fn session_after(
    state: SessionView,
    event: SessionEventView,
    proxy: Option<Seq<char>>,
) -> SessionStepView {
    match (state, event) {
        (SessionView::Negotiating(n), SessionEventView::Read(Ok(bytes))) => after_negotiation(
            n.after(bytes),
        ),
        (SessionView::Reading(reader), SessionEventView::Read(Ok(bytes))) => after_request(
            reader.after(bytes),
        ),
        (_, SessionEventView::Read(Err(detail))) => ended(
            SessionEndView::Request(read_failure(state) + detail),
        ),
        (SessionView::Negotiating(n), SessionEventView::Written(written)) => match (n, written) {
            (Negotiation::Reply(true), Ok(())) => quiet(
                SessionView::Reading(RequestReaderView::Head),
                SessionActionView::Read(4),
            ),
            (Negotiation::Reply(true), Err(detail)) => ended(
                SessionEndView::Request("socks method reply failed: "@ + detail),
            ),
            (_, Ok(())) => ended(
                SessionEndView::Request("client does not support no-auth method"@),
            ),
            (_, Err(detail)) => ended(
                SessionEndView::Request("socks method reject reply failed: "@ + detail),
            ),
        },
        (SessionView::Refusing(message), _) => ended(SessionEndView::Request(message)),
        (SessionView::RejectingUdp, SessionEventView::Written(Ok(()))) => SessionStepView {
            logs: seq![udp_warning()],
            ..ended(SessionEndView::Well)
        },
        (SessionView::RejectingUdp, SessionEventView::Written(Err(detail))) => ended(
            SessionEndView::Request("socks reply write failed: "@ + detail),
        ),
        (SessionView::Planning(target), SessionEventView::Planned(plan)) => after_plan(
            target,
            plan,
            proxy,
        ),
        (SessionView::Dialling(target, path), SessionEventView::Dialled(Ok(()))) => quiet(
            SessionView::Replying(target, path),
            SessionActionView::Write(reply(SOCKS_REP_SUCCEEDED)),
        ),
        (SessionView::Dialling(target, path), SessionEventView::Dialled(Err(cause))) => ended(
            route_failure(target, path, cause),
        ),
        (SessionView::Replying(target, path), SessionEventView::Written(Ok(()))) => quiet(
            SessionView::Relaying(target, path),
            SessionActionView::Relay,
        ),
        (SessionView::Replying(target, path), SessionEventView::Written(Err(detail))) => ended(
            route_failure(target, path, "socks reply write failed: "@ + detail),
        ),
        (SessionView::Relaying(_, _), SessionEventView::Relayed(Ok(()))) => ended(
            SessionEndView::Well,
        ),
        (SessionView::Relaying(target, path), SessionEventView::Relayed(Err(cause))) => ended(
            route_failure(target, path, cause),
        ),
        _ => ended(SessionEndView::Well),
    }
}

/// A step without log lines.
fn quiet_step(state: Session, action: SessionAction) -> (r: SessionStep)
    ensures
        r@ == quiet(state@, action@),
{
    let r = SessionStep { logs: Vec::new(), state, action };
    assert(r@ =~= quiet(state@, action@));
    r
}

/// The end of a session.
fn end(result: Result<(), ClientFailure>) -> (r: SessionStep)
    ensures
        r@ == quiet(SessionView::Over, SessionAction::End(result)@),
{
    quiet_step(Session::Over, SessionAction::End(result))
}

/// The end of a session whose request failed.
fn end_request(err: EcError) -> (r: SessionStep)
    ensures
        r@ == ended(SessionEndView::Request(err.text())),
{
    end(Err(ClientFailure::Request(err)))
}

/// The end of a session whose route failed.
fn end_route(target: &str, path: &str, cause: &str) -> (r: SessionStep)
    ensures
        r@ == ended(route_failure(target@, path@, cause@)),
{
    end(Err(ClientFailure::Upstream(route_runtime_error(target, path, cause))))
}

/// The step after a step of the negotiation.
fn take_negotiation(step: NegotiationStep) -> (r: SessionStep)
    ensures
        r@ == after_negotiation(step@),
{
    match step {
        NegotiationStep::Read(state) => {
            let n: usize = state.wanted();
            quiet_step(Session::Negotiating(state), SessionAction::Read(n))
        },
        NegotiationStep::Write(bytes, state) => quiet_step(
            Session::Negotiating(state),
            SessionAction::Write(bytes),
        ),
        NegotiationStep::Failed(err) => end_request(err),
    }
}

/// The step after a step of reading the request.
fn take_request(step: RequestStep) -> (r: SessionStep)
    ensures
        r@ == after_request(step@),
{
    match step {
        RequestStep::Read(reader) => {
            let n: usize = reader.wanted();
            quiet_step(Session::Reading(reader), SessionAction::Read(n))
        },
        RequestStep::Refused(Some(rep), err) => quiet_step(
            Session::Refusing(err),
            SessionAction::Write(reply_bytes(rep)),
        ),
        RequestStep::Refused(None, err) => end_request(err),
        RequestStep::Done(request) => match request.command {
            SocksCommand::Connect => quiet_step(
                Session::Planning(request.target),
                SessionAction::Plan,
            ),
            SocksCommand::UdpAssociate => quiet_step(
                Session::RejectingUdp,
                SessionAction::Write(reply_bytes(SOCKS_REP_CMD_NOT_SUPPORTED)),
            ),
            SocksCommand::Other(_) => quiet_step(
                Session::Refusing(unsupported_command_error(request.command)),
                SessionAction::Write(reply_bytes(SOCKS_REP_CMD_NOT_SUPPORTED)),
            ),
        },
    }
}

/// The step after the route was planned.
fn take_plan(target: ConnectTarget, plan: EcResult<RoutePlan>, fallback_proxy: Option<&str>) -> (r:
    SessionStep)
    ensures
        r@ == after_plan(target@, planned_view(plan), proxy_view(fallback_proxy)),
{
    let ghost planned = planned_view(plan);
    let display = target.to_text();
    let (resolution, decision) = decide_route(&target, plan, fallback_proxy);
    let ghost decided = decision@;
    let mut logs: Vec<LogLine> = Vec::new();
    if let Some(line) = resolution {
        logs.push(LogLine { level: LogLevel::Info, scope: Scope::Upstream, line });
    }
    assert(views(logs@) =~= plan_log(target@.host, planned));
    logs.push(LogLine { level: LogLevel::Info, scope: Scope::Req, line: decision.line });
    assert(views(logs@) =~= plan_log(target@.host, planned).push(
        LogLineView { level: LogLevel::Info, scope: Scope::Req, line: decided.line },
    ));
    match decision.transport {
        RouteTransport::Unsupported(reason) => {
            let failure = route_runtime_error(
                display.as_str(),
                decision.path.as_str(),
                reason.as_str(),
            );
            SessionStep {
                logs,
                state: Session::Over,
                action: SessionAction::End(Err(ClientFailure::Upstream(failure))),
            }
        },
        transport => SessionStep {
            logs,
            state: Session::Dialling(display, decision.path),
            action: SessionAction::Dial(transport),
        },
    }
}

impl Session {
    /// The start of a session.
    pub fn start() -> (r: SessionStep)
        ensures
            r@ == quiet(
                SessionView::Negotiating(Negotiation::Head),
                SessionActionView::Read(2),
            ),
    {
        quiet_step(Session::Negotiating(Negotiation::Head), SessionAction::Read(2))
    }

    /// Takes an event and says what comes next.
    pub fn on_event(self, event: SessionEvent, fallback_proxy: Option<&str>) -> (r: SessionStep)
        requires
            awaits(self@, event@),
        ensures
            r@ == session_after(self@, event@, proxy_view(fallback_proxy)),
    {
        match (self, event) {
            (Session::Negotiating(n), SessionEvent::Read(Ok(bytes))) => take_negotiation(
                n.on_bytes(&bytes),
            ),
            (Session::Negotiating(n), SessionEvent::Read(Err(detail))) => end_request(
                n.on_read_error(detail.as_str()),
            ),
            (Session::Negotiating(n), SessionEvent::Written(Ok(()))) => match n.on_written() {
                Ok(()) => quiet_step(Session::Reading(RequestReader::Head), SessionAction::Read(4)),
                Err(err) => end_request(err),
            },
            (Session::Negotiating(n), SessionEvent::Written(Err(detail))) => end_request(
                n.on_write_error(detail.as_str()),
            ),
            (Session::Reading(reader), SessionEvent::Read(Ok(bytes))) => take_request(
                reader.on_bytes(bytes),
            ),
            (Session::Reading(reader), SessionEvent::Read(Err(detail))) => end_request(
                reader.on_read_error(detail.as_str()),
            ),
            (Session::Refusing(err), _) => end_request(err),
            (Session::RejectingUdp, SessionEvent::Written(Ok(()))) => {
                let warning = LogLine {
                    level: LogLevel::Warn,
                    scope: Scope::Req,
                    line: udp_associate_warning(),
                };
                let r = SessionStep {
                    logs: vec![warning],
                    state: Session::Over,
                    action: SessionAction::End(Ok(())),
                };
                assert(r@.logs =~= seq![udp_warning()]);
                r
            },
            (Session::RejectingUdp, SessionEvent::Written(Err(detail))) => end_request(
                reply_write_error(detail.as_str()),
            ),
            (Session::Planning(target), SessionEvent::Planned(plan)) => take_plan(
                target,
                plan,
                fallback_proxy,
            ),
            (Session::Dialling(target, path), SessionEvent::Dialled(Ok(()))) => quiet_step(
                Session::Replying(target, path),
                SessionAction::Write(reply_bytes(SOCKS_REP_SUCCEEDED)),
            ),
            (Session::Dialling(target, path), SessionEvent::Dialled(Err(cause))) => end_route(
                target.as_str(),
                path.as_str(),
                cause.as_str(),
            ),
            (Session::Replying(target, path), SessionEvent::Written(Ok(()))) => quiet_step(
                Session::Relaying(target, path),
                SessionAction::Relay,
            ),
            (Session::Replying(target, path), SessionEvent::Written(Err(detail))) => {
                let cause = concise_error(reply_write_error(detail.as_str()));
                end_route(target.as_str(), path.as_str(), cause.as_str())
            },
            (Session::Relaying(_, _), SessionEvent::Relayed(Ok(()))) => end(Ok(())),
            (Session::Relaying(target, path), SessionEvent::Relayed(Err(err))) => {
                let cause = concise_error(err);
                end_route(target.as_str(), path.as_str(), cause.as_str())
            },
            _ => end(Ok(())),
        }
    }
}

/// The client is told of success only once its upstream is connected.
pub proof fn law_success_is_told_once_connected(
    state: SessionView,
    event: SessionEventView,
    proxy: Option<Seq<char>>,
)
    requires
        awaits(state, event),
        session_after(state, event, proxy).action == SessionActionView::Write(
            reply(SOCKS_REP_SUCCEEDED),
        ),
    ensures
        state is Dialling,
        event matches SessionEventView::Dialled(Ok(_)),
{
    let told = reply(SOCKS_REP_SUCCEEDED);
    assert(told.len() == 10 && told[1] == SOCKS_REP_SUCCEEDED);
    assert(reply(SOCKS_REP_CMD_NOT_SUPPORTED)[1] == SOCKS_REP_CMD_NOT_SUPPORTED);
    if let (SessionView::Reading(reader), SessionEventView::Read(Ok(bytes))) = (state, event) {
        if let RequestStepView::Refused(Some(rep), _) = reader.after(bytes) {
            assert(reply(rep)[1] == rep);
        }
    }
}

/// Only a CONNECT request is planned, and only for the target that it names.
pub proof fn law_only_connect_is_planned(
    state: SessionView,
    event: SessionEventView,
    proxy: Option<Seq<char>>,
)
    requires
        awaits(state, event),
        session_after(state, event, proxy).state is Planning,
    ensures
        state matches SessionView::Reading(reader) && event matches SessionEventView::Read(
            Ok(bytes),
        ) && reader.after(bytes) matches RequestStepView::Done(request) && request.command
            == SocksCommand::Connect && session_after(state, event, proxy).state
            == SessionView::Planning(request.target),
{
}

/// An upstream is connected only for a planned target, and through the tunnel only where the plan
/// says so.
pub proof fn law_dialling_follows_the_plan(
    state: SessionView,
    event: SessionEventView,
    proxy: Option<Seq<char>>,
)
    requires
        awaits(state, event),
        session_after(state, event, proxy).action is Dial,
    ensures
        state is Planning,
        event matches SessionEventView::Planned(Ok(plan)) && {
            let transport = session_after(state, event, proxy).action->Dial_0;
            match plan {
                RoutePlanView::Remote { dial, .. } => transport == RouteTransportView::Tunnel(dial),
                RoutePlanView::Fallback { .. } => !(transport is Tunnel),
            }
        },
{
}

/// A failure before the request is planned is the request's; a failure after that is the
/// upstream's.
pub proof fn law_failures_are_told_apart(
    state: SessionView,
    event: SessionEventView,
    proxy: Option<Seq<char>>,
)
    requires
        awaits(state, event),
    ensures
        ({
            let early = state is Negotiating || state is Reading || state is Refusing
                || state is RejectingUdp;
            match session_after(state, event, proxy).action {
                SessionActionView::End(SessionEndView::Request(_)) => early,
                SessionActionView::End(SessionEndView::Upstream(_)) => !early,
                _ => true,
            }
        }),
{
}

/// A UDP association is answered "command not supported"; once that is written, the session ends
/// well.
pub proof fn law_udp_associate_is_rejected(
    target: ConnectTargetView,
    proxy: Option<Seq<char>>,
)
    ensures
        after_request(
            RequestStepView::Done(
                crate::socks_wire::SocksRequestView {
                    command: SocksCommand::UdpAssociate,
                    target,
                },
            ),
        ) == quiet(
            SessionView::RejectingUdp,
            SessionActionView::Write(reply(SOCKS_REP_CMD_NOT_SUPPORTED)),
        ),
        session_after(
            SessionView::RejectingUdp,
            SessionEventView::Written(Ok(())),
            proxy,
        ).action == SessionActionView::End(SessionEndView::Well),
{
}

/// A request for an IPv6 target is never carried through the tunnel, whatever is installed.
pub proof fn law_ipv6_request_is_not_tunnelled(
    mode: RouteModeView,
    target: ConnectTargetView,
    proxy: Option<Seq<char>>,
)
    requires
        target_of(target.host) is Ipv6,
    ensures
        first_step_in(mode, target.host, target.port) matches Some(step) ==> {
            &&& step matches PlanStepView::Done(plan) && !(decision_for(
                target,
                Ok(plan),
                proxy,
            ).transport is Tunnel)
        },
{
    law_ipv6_stays_out_of_the_tunnel(mode, target.host, target.port);
}

/// How the negotiation goes on: the methods are read, then answered; a client that offers no
/// authentication is then asked for its request, and any other one is let go.
pub proof fn law_session_negotiates(
    version: u8,
    count: u8,
    methods: Seq<u8>,
    proxy: Option<Seq<char>>,
)
    ensures
        session_after(
            SessionView::Negotiating(Negotiation::Head),
            SessionEventView::Read(Ok(seq![version, count])),
            proxy,
        ) == (SessionStepView {
            logs: Seq::empty(),
            state: if version == 5 {
                SessionView::Negotiating(Negotiation::Methods(count))
            } else {
                SessionView::Over
            },
            action: if version == 5 {
                SessionActionView::Read(count as nat)
            } else {
                SessionActionView::End(SessionEndView::Request("unsupported socks version"@))
            },
        }),
        session_after(
            SessionView::Negotiating(Negotiation::Methods(count)),
            SessionEventView::Read(Ok(methods)),
            proxy,
        ) == (SessionStepView {
            logs: Seq::empty(),
            state: SessionView::Negotiating(Negotiation::Reply(methods.contains(0u8))),
            action: SessionActionView::Write(
                if methods.contains(0u8) {
                    seq![5u8, 0u8]
                } else {
                    seq![5u8, 255u8]
                },
            ),
        }),
        session_after(
            SessionView::Negotiating(Negotiation::Reply(true)),
            SessionEventView::Written(Ok(())),
            proxy,
        ) == (SessionStepView {
            logs: Seq::empty(),
            state: SessionView::Reading(RequestReaderView::Head),
            action: SessionActionView::Read(4),
        }),
        session_after(
            SessionView::Negotiating(Negotiation::Reply(false)),
            SessionEventView::Written(Ok(())),
            proxy,
        ) == (SessionStepView {
            logs: Seq::empty(),
            state: SessionView::Over,
            action: SessionActionView::End(
                SessionEndView::Request("client does not support no-auth method"@),
            ),
        }),
{
}

/// How reading a request goes on: the next stage is read, a refusal is answered with its code where
/// it has one and ends the session, a CONNECT request is planned, and a UDP association is answered
/// "command not supported".
pub proof fn law_session_reads_the_request(
    reader: RequestReaderView,
    bytes: Seq<u8>,
    proxy: Option<Seq<char>>,
)
    ensures
        ({
            let step = session_after(
                SessionView::Reading(reader),
                SessionEventView::Read(Ok(bytes)),
                proxy,
            );
            &&& step.logs == Seq::<LogLineView>::empty()
            &&& match reader.after(bytes) {
                RequestStepView::Read(next) => {
                    &&& step.state == SessionView::Reading(next)
                    &&& step.action == SessionActionView::Read(next.wants())
                },
                RequestStepView::Refused(Some(rep), message) => {
                    &&& step.state == SessionView::Refusing(message)
                    &&& step.action == SessionActionView::Write(
                        seq![5u8, rep, 0, 1, 0, 0, 0, 0, 0, 0],
                    )
                },
                RequestStepView::Refused(None, message) => {
                    &&& step.state == SessionView::Over
                    &&& step.action == SessionActionView::End(SessionEndView::Request(message))
                },
                RequestStepView::Done(request) => {
                    &&& request.command is Connect ==> {
                        &&& step.state == SessionView::Planning(request.target)
                        &&& step.action == SessionActionView::Plan
                    }
                    &&& request.command is UdpAssociate ==> {
                        &&& step.state == SessionView::RejectingUdp
                        &&& step.action == SessionActionView::Write(
                            seq![5u8, 7, 0, 1, 0, 0, 0, 0, 0, 0],
                        )
                    }
                    &&& request.command is Other ==> {
                        &&& step.state == SessionView::Refusing(
                            "unsupported socks command: "@ + request.command.text(),
                        )
                        &&& step.action == SessionActionView::Write(
                            seq![5u8, 7, 0, 1, 0, 0, 0, 0, 0, 0],
                        )
                    }
                },
            }
        }),
{
}

/// A refused request ends the session with its error, whether or not the refusal could be written;
/// a UDP association that was told so ends it well, with a warning.
pub proof fn law_session_after_a_refusal(
    message: Seq<char>,
    written: Result<(), Seq<char>>,
    detail: Seq<char>,
    proxy: Option<Seq<char>>,
)
    ensures
        session_after(
            SessionView::Refusing(message),
            SessionEventView::Written(written),
            proxy,
        ) == (SessionStepView {
            logs: Seq::empty(),
            state: SessionView::Over,
            action: SessionActionView::End(SessionEndView::Request(message)),
        }),
        session_after(
            SessionView::RejectingUdp,
            SessionEventView::Written(Ok(())),
            proxy,
        ) == (SessionStepView {
            logs: seq![
                LogLineView {
                    level: LogLevel::Warn,
                    scope: Scope::Req,
                    line: seq![
                        SpanView::Text(
                            "UDP ASSOCIATE rejected: listener supports TCP CONNECT only"@,
                        ),
                    ],
                },
            ],
            state: SessionView::Over,
            action: SessionActionView::End(SessionEndView::Well),
        }),
        session_after(
            SessionView::RejectingUdp,
            SessionEventView::Written(Err(detail)),
            proxy,
        ) == (SessionStepView {
            logs: Seq::empty(),
            state: SessionView::Over,
            action: SessionActionView::End(
                SessionEndView::Request("socks reply write failed: "@ + detail),
            ),
        }),
{
}

/// A planned request is dialled by its transport; one that has none ends the session. The route is
/// logged, after the resolution that led to it, where there is one.
pub proof fn law_session_dials_the_plan(
    target: ConnectTargetView,
    plan: Result<RoutePlanView, Seq<char>>,
    proxy: Option<Seq<char>>,
)
    ensures
        ({
            let step = session_after(
                SessionView::Planning(target),
                SessionEventView::Planned(plan),
                proxy,
            );
            let decision = decision_for(target, plan, proxy);
            let shown = socket_target(target.host, decimal(target.port as nat));
            let route = LogLineView {
                level: LogLevel::Info,
                scope: Scope::Req,
                line: decision.line,
            };
            &&& step.logs.len() > 0 && step.logs.last() == route
            &&& match plan {
                Ok(RoutePlanView::Remote { dial, rc_id, rc_name, source, dns_lookup }) => {
                    match resolution_line(target.host, dialled_host(dial), source, dns_lookup) {
                        Some(line) => step.logs == seq![
                            LogLineView { level: LogLevel::Info, scope: Scope::Upstream, line },
                            route,
                        ],
                        None => step.logs == seq![route],
                    }
                },
                _ => step.logs == seq![route],
            }
            &&& plan is Ok ==> {
                &&& step.state == SessionView::Dialling(shown, decision.path)
                &&& step.action == SessionActionView::Dial(decision.transport)
            }
            &&& plan matches Err(message) ==> {
                &&& step.state == SessionView::Over
                &&& step.action == SessionActionView::End(
                    SessionEndView::Upstream(
                        shown + " -> fallback -> unavailable; reason: "@ + message
                            + "; error: no route transport available"@,
                    ),
                )
            }
        }),
{
    let step = session_after(SessionView::Planning(target), SessionEventView::Planned(plan), proxy);
    let decision = decision_for(target, plan, proxy);
    let shown = socket_target(target.host, decimal(target.port as nat));
    let route = LogLineView { level: LogLevel::Info, scope: Scope::Req, line: decision.line };
    assert(Seq::<LogLineView>::empty().push(route) =~= seq![route]);
    if let Ok(RoutePlanView::Remote { dial, rc_id, rc_name, source, dns_lookup }) = plan {
        if let Some(line) = resolution_line(target.host, dialled_host(dial), source, dns_lookup) {
            let first = LogLineView { level: LogLevel::Info, scope: Scope::Upstream, line };
            assert(seq![first].push(route) =~= seq![first, route]);
        }
    }
    if let Err(message) = plan {
        reveal_strlit(" -> ");
        reveal_strlit("fallback -> unavailable; reason: ");
        reveal_strlit(" -> fallback -> unavailable; reason: ");
        reveal_strlit("; error: ");
        reveal_strlit("no route transport available");
        reveal_strlit("; error: no route transport available");
        assert(shown + " -> "@ + decision.path + "; error: "@ + "no route transport available"@
            =~= shown + " -> fallback -> unavailable; reason: "@ + message
            + "; error: no route transport available"@);
    }
}

/// Once its upstream is connected the client is told of success, and once that is written bytes are
/// relayed; the session ends as the relaying does. What fails on the way ends the session with an
/// error that names the target, the route and the cause.
pub proof fn law_session_serves_the_client(
    target: Seq<char>,
    path: Seq<char>,
    cause: Seq<char>,
    proxy: Option<Seq<char>>,
)
    ensures
        ({
            let failed = |cause: Seq<char>|
                SessionStepView {
                    logs: Seq::<LogLineView>::empty(),
                    state: SessionView::Over,
                    action: SessionActionView::End(
                        SessionEndView::Upstream(
                            target + " -> "@ + path + "; error: "@ + cause,
                        ),
                    ),
                };
            let dialling = SessionView::Dialling(target, path);
            let replying = SessionView::Replying(target, path);
            let relaying = SessionView::Relaying(target, path);
            &&& session_after(dialling, SessionEventView::Dialled(Ok(())), proxy)
                == (SessionStepView {
                logs: Seq::empty(),
                state: replying,
                action: SessionActionView::Write(seq![5u8, 0, 0, 1, 0, 0, 0, 0, 0, 0]),
            })
            &&& session_after(dialling, SessionEventView::Dialled(Err(cause)), proxy) == failed(
                cause,
            )
            &&& session_after(replying, SessionEventView::Written(Ok(())), proxy)
                == (SessionStepView {
                logs: Seq::empty(),
                state: relaying,
                action: SessionActionView::Relay,
            })
            &&& session_after(replying, SessionEventView::Written(Err(cause)), proxy) == failed(
                "socks reply write failed: "@ + cause,
            )
            &&& session_after(relaying, SessionEventView::Relayed(Ok(())), proxy)
                == (SessionStepView {
                logs: Seq::empty(),
                state: SessionView::Over,
                action: SessionActionView::End(SessionEndView::Well),
            })
            &&& session_after(relaying, SessionEventView::Relayed(Err(cause)), proxy) == failed(
                cause,
            )
        }),
{
}

/// A read that fails, and an answer to the methods that cannot be written, end the session with an
/// error that says what failed.
pub proof fn law_session_after_an_io_error(
    count: u8,
    command: SocksCommand,
    host: Seq<char>,
    detail: Seq<char>,
    proxy: Option<Seq<char>>,
)
    ensures
        ({
            let ends = |state: SessionView, event: SessionEventView, message: Seq<char>|
                session_after(state, event, proxy) == (SessionStepView {
                    logs: Seq::<LogLineView>::empty(),
                    state: SessionView::Over,
                    action: SessionActionView::End(SessionEndView::Request(message + detail)),
                });
            let read = SessionEventView::Read(Err(detail));
            let written = SessionEventView::Written(Err(detail));
            let negotiating = |n: Negotiation| SessionView::Negotiating(n);
            let reading = |r: RequestReaderView| SessionView::Reading(r);
            &&& ends(negotiating(Negotiation::Head), read, "socks hello read failed: "@)
            &&& ends(negotiating(Negotiation::Methods(count)), read, "socks methods read failed: "@)
            &&& ends(negotiating(Negotiation::Reply(true)), written, "socks method reply failed: "@)
            &&& ends(
                negotiating(Negotiation::Reply(false)),
                written,
                "socks method reject reply failed: "@,
            )
            &&& ends(reading(RequestReaderView::Head), read, "socks request head read failed: "@)
            &&& ends(reading(RequestReaderView::Ipv4(command)), read, "read ipv4 failed: "@)
            &&& ends(
                reading(RequestReaderView::DomainLength(command)),
                read,
                "read domain length failed: "@,
            )
            &&& ends(
                reading(RequestReaderView::Domain(command, count)),
                read,
                "read domain failed: "@,
            )
            &&& ends(reading(RequestReaderView::Ipv6(command)), read, "read ipv6 failed: "@)
            &&& ends(
                reading(RequestReaderView::Port(command, host)),
                read,
                "read target port failed: "@,
            )
        }),
{
}

/// The views of the steps of a session keep what they hold.
pub proof fn law_session_views(
    n: usize,
    bytes: Vec<u8>,
    transport: RouteTransport,
    err: EcError,
    line: LogLine,
    target: ConnectTarget,
    text: String,
    path: String,
    plan: RoutePlan,
    step: SessionStep,
    i: int,
)
    ensures
        SessionAction::Read(n)@ == SessionActionView::Read(n as nat),
        SessionAction::Write(bytes)@ == SessionActionView::Write(bytes@),
        SessionAction::Plan@ == SessionActionView::Plan,
        SessionAction::Dial(transport)@ == SessionActionView::Dial(transport@),
        SessionAction::Relay@ == SessionActionView::Relay,
        SessionAction::End(Ok(()))@ == SessionActionView::End(SessionEndView::Well),
        SessionAction::End(Err(ClientFailure::Request(err)))@ == SessionActionView::End(
            SessionEndView::Request(err.text()),
        ),
        SessionAction::End(Err(ClientFailure::Upstream(err)))@ == SessionActionView::End(
            SessionEndView::Upstream(err.text()),
        ),
        Session::Refusing(err)@ == SessionView::Refusing(err.text()),
        Session::RejectingUdp@ == SessionView::RejectingUdp,
        Session::Planning(target)@ == SessionView::Planning(target@),
        Session::Dialling(text, path)@ == SessionView::Dialling(text@, path@),
        Session::Replying(text, path)@ == SessionView::Replying(text@, path@),
        Session::Relaying(text, path)@ == SessionView::Relaying(text@, path@),
        Session::Over@ == SessionView::Over,
        SessionEvent::Read(Ok(bytes))@ == SessionEventView::Read(Ok(bytes@)),
        SessionEvent::Read(Err(text))@ == SessionEventView::Read(Err(text@)),
        SessionEvent::Written(Ok(()))@ == SessionEventView::Written(Ok(())),
        SessionEvent::Written(Err(text))@ == SessionEventView::Written(Err(text@)),
        SessionEvent::Planned(Ok(plan))@ == SessionEventView::Planned(Ok(plan@)),
        SessionEvent::Planned(Err(err))@ == SessionEventView::Planned(Err(err.text())),
        SessionEvent::Dialled(Ok(()))@ == SessionEventView::Dialled(Ok(())),
        SessionEvent::Dialled(Err(text))@ == SessionEventView::Dialled(Err(text@)),
        SessionEvent::Relayed(Ok(()))@ == SessionEventView::Relayed(Ok(())),
        SessionEvent::Relayed(Err(err))@ == SessionEventView::Relayed(Err(err.text())),
        line@.level == line.level && line@.scope == line.scope,
        line@.line.len() == line.line@.len(),
        0 <= i < line.line@.len() ==> line@.line[i] == line.line@[i]@,
        step@.state == step.state@ && step@.action == step.action@,
        step@.logs.len() == step.logs@.len(),
        0 <= i < step.logs@.len() ==> step@.logs[i] == step.logs@[i]@,
{
}

/// What a session waits for: the bytes that it asked for, in the number that it asked for, or to be
/// told how what it asked for went; and nothing once it is over.
pub proof fn law_session_awaits(
    n: Negotiation,
    reader: RequestReaderView,
    target: ConnectTargetView,
    text: Seq<char>,
    path: Seq<char>,
    bytes: Seq<u8>,
    detail: Seq<char>,
    written: Result<(), Seq<char>>,
    plan: Result<RoutePlanView, Seq<char>>,
    event: SessionEventView,
)
    ensures
        awaits(SessionView::Negotiating(n), SessionEventView::Read(Ok(bytes))) <==> match n {
            Negotiation::Head => bytes.len() == 2,
            Negotiation::Methods(count) => bytes.len() == count,
            Negotiation::Reply(_) => false,
        },
        awaits(SessionView::Negotiating(n), SessionEventView::Read(Err(detail))) <==> !(
        n is Reply),
        awaits(SessionView::Negotiating(n), SessionEventView::Written(written)) <==> n is Reply,
        awaits(SessionView::Reading(reader), SessionEventView::Read(Ok(bytes))) <==> bytes.len()
            == reader.wants(),
        awaits(SessionView::Reading(reader), SessionEventView::Read(Err(detail))),
        awaits(SessionView::Refusing(text), SessionEventView::Written(written)),
        awaits(SessionView::RejectingUdp, SessionEventView::Written(written)),
        awaits(SessionView::Planning(target), SessionEventView::Planned(plan)),
        awaits(SessionView::Dialling(text, path), SessionEventView::Dialled(written)),
        awaits(SessionView::Replying(text, path), SessionEventView::Written(written)),
        awaits(SessionView::Relaying(text, path), SessionEventView::Relayed(written)),
        !awaits(SessionView::Over, event),
{
}

} // verus!
