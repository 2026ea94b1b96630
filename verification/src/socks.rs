//! What the SOCKS listener does with a client: which route a request takes, what is logged of it,
//! and how the relays between client and upstream end.

use crate::addr::{
    ipv4_of, ipv4_text, ipv6_of, law_ipv4_of, law_ipv4_socket_addr_of, lemma_ipv4_text_chars,
    parse_ipv4, parse_ipv6, socket_addr_of, socket_addr_text, SocketAddr,
};
use crate::dns::ResolveSource;
use crate::error::{concise_error, EcError, EcResult};
use crate::list::views;
use crate::output::{route_label, text, value, weak, RouteKind, Scope, Span, SpanView};
use crate::routing::{RoutePlan, RoutePlanView, RouteSource};
use crate::socks_wire::{
    join_socket_target, socket_target, ConnectTarget, ConnectTargetView,
};
use crate::text::{
    append, chars_of, decimal, is_empty_text, law_decimal, law_number_of, law_split,
    law_split_parts, lemma_trimmed_already, rsplit_once, split_last, trim, trimmed,
};
use vstd::prelude::*;

verus! {

/// The size of a relay's buffer.
pub const RELAY_BUFFER_SIZE: usize = 4096;

/// The address to listen on: a port alone means every IPv4 interface.
pub open spec fn bind_addr_of(bind_addr: Seq<char>) -> Seq<char> {
    if bind_addr.len() > 0 && bind_addr[0] == ':' {
        "0.0.0.0"@ + bind_addr
    } else {
        bind_addr
    }
}

/// The address to listen on.
pub fn normalize_bind_addr(bind_addr: &str) -> (r: String)
    ensures
        r@ == bind_addr_of(bind_addr@),
{
    let chars = chars_of(bind_addr);
    if chars.len() > 0 && chars[0] == ':' {
        let mut r = "0.0.0.0".to_string();
        append(&mut r, bind_addr);
        r
    } else {
        bind_addr.to_string()
    }
}

/// The lines that say how the listener was started.
pub fn startup_lines(bind_addr: &str, fallback_proxy: Option<&str>) -> (r: (Vec<Span>, Vec<Span>))
    ensures
        views(r.0@) == match fallback_proxy {
            Some(url) => seq![SpanView::Text("fallback: proxy to "@), SpanView::Value(url@)],
            None => seq![SpanView::Text("fallback: direct"@)],
        },
        views(r.1@) == seq![SpanView::Text("listening on "@), SpanView::Value(bind_addr@)],
{
    let fallback = match fallback_proxy {
        Some(url) => vec![text("fallback: proxy to "), value(url)],
        None => vec![text("fallback: direct")],
    };
    let listening = vec![text("listening on "), value(bind_addr)];
    (fallback, listening)
}

/// The error for an address that could not be listened on.
pub fn bind_error(bind_addr: &str, detail: &str) -> (r: EcError)
    ensures
        r.text() == "socks bind failed on "@ + bind_addr@ + ": "@ + detail@,
{
    let mut message = "socks bind failed on ".to_string();
    append(&mut message, bind_addr);
    append(&mut message, ": ");
    append(&mut message, detail);
    EcError::Runtime(message)
}

/// The error that serving ends in once the client has failed for good.
pub fn runtime_closed() -> (r: EcError)
    ensures
        r.text() == "runtime closed"@,
{
    EcError::runtime("runtime closed")
}

/// The kinds of I/O errors that are told apart.
#[derive(Debug, Clone, Copy, PartialEq, Eq, Structural)]
pub enum IoKind {
    Interrupted,
    ConnectionAborted,
    ConnectionReset,
    BrokenPipe,
    NotConnected,
    UnexpectedEof,
    Other,
}

/// An I/O error: its kind and its displayed form.
#[derive(Debug)]
pub struct IoFailure {
    pub kind: IoKind,
    pub detail: String,
}

/// Whether accepting a client may go on after an error.
pub open spec fn retryable(kind: IoKind) -> bool {
    kind == IoKind::Interrupted || kind == IoKind::ConnectionAborted || kind
        == IoKind::ConnectionReset
}

/// Whether an error is how a relayed connection normally ends.
pub open spec fn expected(kind: IoKind) -> bool {
    kind == IoKind::BrokenPipe || kind == IoKind::ConnectionAborted || kind
        == IoKind::ConnectionReset || kind == IoKind::NotConnected || kind == IoKind::UnexpectedEof
}

/// Whether accepting a client may go on after an error.
pub fn is_retryable_accept_error(kind: IoKind) -> (r: bool)
    ensures
        r == retryable(kind),
{
    matches!(kind, IoKind::Interrupted | IoKind::ConnectionAborted | IoKind::ConnectionReset)
}

/// Whether an error is how a relayed connection normally ends.
pub fn is_expected_relay_io_error(kind: IoKind) -> (r: bool)
    ensures
        r == expected(kind),
{
    matches!(
        kind,
        IoKind::BrokenPipe | IoKind::ConnectionAborted | IoKind::ConnectionReset
            | IoKind::NotConnected | IoKind::UnexpectedEof
    )
}

/// The reason for which the listener closes after an accept error; `None` where it goes on.
pub fn on_accept_error(failure: &IoFailure) -> (r: Option<String>)
    ensures
        match r {
            Some(reason) => !retryable(failure.kind) && reason@ == "listener closed: "@
                + failure.detail@,
            None => retryable(failure.kind),
        },
{
    if is_retryable_accept_error(failure.kind) {
        return None;
    }
    let mut reason = "listener closed: ".to_string();
    append(&mut reason, failure.detail.as_str());
    Some(reason)
}

/// The warning for a rejected UDP association.
pub fn udp_associate_warning() -> (r: Vec<Span>)
    ensures
        views(r@) == seq![
            SpanView::Text("UDP ASSOCIATE rejected: listener supports TCP CONNECT only"@),
        ],
{
    vec![text("UDP ASSOCIATE rejected: listener supports TCP CONNECT only")]
}

/// How serving a client failed.
#[derive(Debug)]
pub enum ClientFailure {
    /// In the client's own request.
    Request(EcError),
    /// On the way to the target.
    Upstream(EcError),
}

impl ClientFailure {
    /// The scope to log the failure under, and the error.
    pub fn into_log_parts(self) -> (r: (Scope, EcError))
        ensures
            match self {
                ClientFailure::Request(err) => r == (Scope::Req, err),
                ClientFailure::Upstream(err) => r == (Scope::Upstream, err),
            },
    {
        match self {
            ClientFailure::Request(err) => (Scope::Req, err),
            ClientFailure::Upstream(err) => (Scope::Upstream, err),
        }
    }
}

/// How a route is carried.
#[derive(Debug)]
pub enum RouteTransport {
    /// Through the tunnel, to the given address.
    Tunnel(String),
    /// Directly, to the given address.
    Direct(String),
    /// Through the proxy with the given URL, to the target.
    Proxy(String, ConnectTarget),
    /// Not at all, for the given reason.
    Unsupported(String),
}

/// The route that a request takes: the line to log, the path to name in errors, the transport.
#[derive(Debug)]
pub struct RouteDecision {
    pub line: Vec<Span>,
    pub path: String,
    pub transport: RouteTransport,
}

/// A [`RouteTransport`] with its texts as characters.
pub enum RouteTransportView {
    Tunnel(Seq<char>),
    Direct(Seq<char>),
    Proxy(Seq<char>, ConnectTargetView),
    Unsupported(Seq<char>),
}

/// A [`RouteDecision`] with its texts as characters.
#[verifier::ext_equal]
pub struct RouteDecisionView {
    pub line: Seq<SpanView>,
    pub path: Seq<char>,
    pub transport: RouteTransportView,
}

impl View for RouteTransport {
    type V = RouteTransportView;

    open spec fn view(&self) -> RouteTransportView {
        match *self {
            RouteTransport::Tunnel(dial) => RouteTransportView::Tunnel(dial@),
            RouteTransport::Direct(dial) => RouteTransportView::Direct(dial@),
            RouteTransport::Proxy(url, target) => RouteTransportView::Proxy(url@, target@),
            RouteTransport::Unsupported(reason) => RouteTransportView::Unsupported(reason@),
        }
    }
}

impl View for RouteDecision {
    type V = RouteDecisionView;

    open spec fn view(&self) -> RouteDecisionView {
        RouteDecisionView {
            line: views(self.line@),
            path: self.path@,
            transport: self.transport@,
        }
    }
}

/// The arrow between the parts of a route.
pub open spec fn arrow() -> SpanView {
    SpanView::Weak(" -> "@)
}

/// What led to a remote plan, as errors name it.
pub open spec fn source_description(
    source: RouteSource,
    dns_lookup: Option<ResolveSource>,
) -> Seq<char> {
    match dns_lookup {
        None => source.name(),
        Some(ResolveSource::Cache) => match source {
            RouteSource::DnsServer => "dns-cache"@,
            RouteSource::CnameDnsServer => "cname-dns-cache"@,
            RouteSource::DnsServerIpRule => "dns-server-ip-rule-cache"@,
            _ => source.name() + " via dns-cache"@,
        },
        Some(ResolveSource::Server(server)) => match source {
            RouteSource::DnsServer | RouteSource::CnameDnsServer | RouteSource::DnsServerIpRule => {
                source.name() + "("@ + socket_addr_text(server) + ")"@
            },
            _ => source.name() + " via dns-server("@ + socket_addr_text(server) + ")"@,
        },
    }
}

/// What led to a remote plan, as errors name it.
pub fn describe_route_source(source: RouteSource, dns_lookup: Option<ResolveSource>) -> (r: String)
    ensures
        r@ == source_description(source, dns_lookup),
{
    let mut r = source.label().to_string();
    match dns_lookup {
        None => {},
        Some(ResolveSource::Cache) => {
            match source {
                RouteSource::DnsServer => {
                    return "dns-cache".to_string();
                },
                RouteSource::CnameDnsServer => {
                    return "cname-dns-cache".to_string();
                },
                RouteSource::DnsServerIpRule => {
                    return "dns-server-ip-rule-cache".to_string();
                },
                _ => {
                    append(&mut r, " via dns-cache");
                },
            }
        },
        Some(ResolveSource::Server(server)) => {
            match source {
                RouteSource::DnsServer | RouteSource::CnameDnsServer
                | RouteSource::DnsServerIpRule => {
                    append(&mut r, "(");
                },
                _ => {
                    append(&mut r, " via dns-server(");
                },
            }
            append(&mut r, server.to_text().as_str());
            append(&mut r, ")");
        },
    }
    r
}

/// The line that says how a name was resolved for its route, where there is something to say.
pub open spec fn resolution_line(
    host: Seq<char>,
    ip: Seq<char>,
    source: RouteSource,
    dns_lookup: Option<ResolveSource>,
) -> Option<Seq<SpanView>> {
    let resolved = |verb: Seq<char>|
        seq![SpanView::Text(verb), SpanView::Value(host), arrow(), SpanView::Value(ip)];
    match dns_lookup {
        Some(ResolveSource::Cache) => Some(resolved("route DNS cache hit "@)),
        Some(ResolveSource::Server(server)) => Some(
            resolved("route DNS resolved "@) + seq![
                SpanView::Text(" via "@),
                SpanView::Value(socket_addr_text(server)),
            ],
        ),
        None => if source == RouteSource::DnsDataIpRule {
            Some(resolved("route dns.data resolved "@))
        } else {
            None
        },
    }
}

/// The line that says how a name was resolved for its route.
pub fn log_resolved_route_source(
    host: &str,
    resolved_ip: &str,
    source: RouteSource,
    dns_lookup: Option<ResolveSource>,
) -> (r: Option<Vec<Span>>)
    ensures
        match r {
            Some(line) => resolution_line(host@, resolved_ip@, source, dns_lookup) == Some(
                views(line@),
            ),
            None => resolution_line(host@, resolved_ip@, source, dns_lookup) is None,
        },
{
    let verb = match dns_lookup {
        Some(ResolveSource::Cache) => "route DNS cache hit ",
        Some(ResolveSource::Server(_)) => "route DNS resolved ",
        None => {
            match source {
                RouteSource::DnsDataIpRule => "route dns.data resolved ",
                _ => {
                    return None;
                },
            }
        },
    };
    let mut line = vec![text(verb), value(host), weak(" -> "), value(resolved_ip)];
    if let Some(ResolveSource::Server(server)) = dns_lookup {
        line.push(text(" via "));
        line.push(value(server.to_text().as_str()));
    }
    assert(Some(views(line@)) =~~= resolution_line(host@, resolved_ip@, source, dns_lookup));
    Some(line)
}

/// The name of a resource, as routes show it.
pub open spec fn shown_name(rc_name: Seq<char>) -> Seq<char> {
    if trimmed(rc_name).len() == 0 {
        "unknown"@
    } else {
        rc_name
    }
}

/// The route through the tunnel.
pub open spec fn remote_decision(
    target_display: Seq<char>,
    target_is_ip: bool,
    dial: Seq<char>,
    rc_name: Seq<char>,
    source: RouteSource,
    dns_lookup: Option<ResolveSource>,
) -> RouteDecisionView {
    let name = shown_name(rc_name);
    let route = seq![
        SpanView::Text(target_display),
        arrow(),
        SpanView::Label(RouteKind::Remote),
        arrow(),
        SpanView::Text(name),
    ];
    RouteDecisionView {
        line: if target_is_ip {
            route
        } else {
            route + seq![SpanView::Weak("("@), SpanView::Text(dial), SpanView::Weak(")"@)]
        },
        path: "remote -> "@ + name + "("@ + dial + "); source: "@ + source_description(
            source,
            dns_lookup,
        ),
        transport: RouteTransportView::Tunnel(dial),
    }
}

/// The route through the tunnel.
pub fn route_decision_remote(
    target_display: &str,
    target_is_ip: bool,
    dial: String,
    rc_name: String,
    source: RouteSource,
    dns_lookup: Option<ResolveSource>,
) -> (r: RouteDecision)
    ensures
        r@ == remote_decision(target_display@, target_is_ip, dial@, rc_name@, source, dns_lookup),
{
    let name = if is_empty_text(trim(rc_name.as_str()).as_str()) {
        "unknown".to_string()
    } else {
        rc_name
    };
    let mut line = vec![
        text(target_display),
        weak(" -> "),
        route_label(RouteKind::Remote),
        weak(" -> "),
        text(name.as_str()),
    ];
    if !target_is_ip {
        line.push(weak("("));
        line.push(text(dial.as_str()));
        line.push(weak(")"));
    }
    let mut path = "remote -> ".to_string();
    append(&mut path, name.as_str());
    append(&mut path, "(");
    append(&mut path, dial.as_str());
    append(&mut path, "); source: ");
    append(&mut path, describe_route_source(source, dns_lookup).as_str());
    let r = RouteDecision { line, path, transport: RouteTransport::Tunnel(dial) };
    assert(r@.line =~= remote_decision(
        target_display@,
        target_is_ip,
        dial@,
        rc_name@,
        source,
        dns_lookup,
    ).line);
    r
}

/// The route around the tunnel: through the proxy where there is one, else directly.
pub open spec fn fallback_decision(
    target: ConnectTargetView,
    target_display: Seq<char>,
    dial: Seq<char>,
    reason: Seq<char>,
    proxy: Option<Seq<char>>,
) -> RouteDecisionView {
    let route = seq![
        SpanView::Text(target_display),
        arrow(),
        SpanView::Label(RouteKind::Fallback),
        arrow(),
    ];
    match proxy {
        Some(url) => RouteDecisionView {
            line: route.push(SpanView::Value(url)),
            path: "fallback -> "@ + url + "; reason: "@ + reason,
            transport: RouteTransportView::Proxy(url, target),
        },
        None => RouteDecisionView {
            line: route.push(SpanView::Label(RouteKind::Direct)),
            path: "fallback -> direct; dial: "@ + dial + "; reason: "@ + reason,
            transport: RouteTransportView::Direct(dial),
        },
    }
}

/// The route around the tunnel.
pub fn route_decision_fallback(
    target: ConnectTarget,
    target_display: &str,
    dial: String,
    reason: String,
    fallback_proxy: Option<&str>,
) -> (r: RouteDecision)
    ensures
        r@ == fallback_decision(
            target@,
            target_display@,
            dial@,
            reason@,
            proxy_view(fallback_proxy),
        ),
{
    let mut line = vec![
        text(target_display),
        weak(" -> "),
        route_label(RouteKind::Fallback),
        weak(" -> "),
    ];
    match fallback_proxy {
        Some(url) => {
            line.push(value(url));
            let mut path = "fallback -> ".to_string();
            append(&mut path, url);
            append(&mut path, "; reason: ");
            append(&mut path, reason.as_str());
            let r = RouteDecision {
                line,
                path,
                transport: RouteTransport::Proxy(url.to_string(), target),
            };
            assert(r@.line =~= fallback_decision(
                target@,
                target_display@,
                dial@,
                reason@,
                Some(url@),
            ).line);
            r
        },
        None => {
            line.push(route_label(RouteKind::Direct));
            let mut path = "fallback -> direct; dial: ".to_string();
            append(&mut path, dial.as_str());
            append(&mut path, "; reason: ");
            append(&mut path, reason.as_str());
            let r = RouteDecision { line, path, transport: RouteTransport::Direct(dial) };
            assert(r@.line =~= fallback_decision(
                target@,
                target_display@,
                dial@,
                reason@,
                None,
            ).line);
            r
        },
    }
}

/// The route of a request that could not be planned: none.
pub open spec fn planner_error_decision(
    target_display: Seq<char>,
    reason: Seq<char>,
) -> RouteDecisionView {
    RouteDecisionView {
        line: seq![
            SpanView::Text(target_display),
            arrow(),
            SpanView::Label(RouteKind::Fallback),
            arrow(),
            SpanView::Text("route planner unavailable"@),
        ],
        path: "fallback -> unavailable; reason: "@ + reason,
        transport: RouteTransportView::Unsupported("no route transport available"@),
    }
}

/// The route of a request that could not be planned.
pub fn route_decision_planner_error(target_display: &str, err: EcError) -> (r: RouteDecision)
    ensures
        r@ == planner_error_decision(target_display@, err.text()),
{
    let line = vec![
        text(target_display),
        weak(" -> "),
        route_label(RouteKind::Fallback),
        weak(" -> "),
        text("route planner unavailable"),
    ];
    let mut path = "fallback -> unavailable; reason: ".to_string();
    append(&mut path, concise_error(err).as_str());
    let r = RouteDecision {
        line,
        path,
        transport: RouteTransport::Unsupported("no route transport available".to_string()),
    };
    assert(r@.line =~= planner_error_decision(target_display@, err.text()).line);
    r
}

/// The address to dial for a planned target.
pub open spec fn dial_target(target: Seq<char>) -> Seq<char> {
    match split_last(target, ':') {
        Some((host, port)) => socket_target(host, port),
        None => target,
    }
}

/// The address to dial for a planned target.
pub fn target_addr(target: &str) -> (r: String)
    ensures
        r@ == dial_target(target@),
{
    match rsplit_once(target, ':') {
        Some((host, port)) => join_socket_target(host.as_str(), port.as_str()),
        None => target.to_string(),
    }
}

/// Whether a host is an IP address.
pub open spec fn is_ip(host: Seq<char>) -> bool {
    ipv4_of(trimmed(host)) is Some || ipv6_of(trimmed(host)) is Some
}

/// Whether a host is an IP address.
pub fn is_ip_host(host: &str) -> (r: bool)
    ensures
        r == is_ip(host@),
{
    let host = trim(host);
    parse_ipv4(host.as_str()).is_some() || parse_ipv6(host.as_str()).is_some()
}

/// The part of a dialled address before its port.
pub open spec fn dialled_host(dial: Seq<char>) -> Seq<char> {
    match split_last(dial, ':') {
        Some((ip, _)) => ip,
        None => dial,
    }
}

/// The displayed form of a target.
pub open spec fn target_text(target: ConnectTargetView) -> Seq<char> {
    socket_target(target.host, decimal(target.port as nat))
}

/// The route that a planned request takes.
pub open spec fn decision_for(
    target: ConnectTargetView,
    plan: Result<RoutePlanView, Seq<char>>,
    proxy: Option<Seq<char>>,
) -> RouteDecisionView {
    match plan {
        Ok(RoutePlanView::Remote { dial, rc_id, rc_name, source, dns_lookup }) => remote_decision(
            target_text(target),
            is_ip(target.host),
            dial,
            rc_name,
            source,
            dns_lookup,
        ),
        Ok(RoutePlanView::Fallback { target: planned, reason }) => fallback_decision(
            target,
            target_text(target),
            dial_target(planned),
            reason,
            proxy,
        ),
        Err(message) => planner_error_decision(target_text(target), message),
    }
}

/// A plan, or the message of the error in its place.
pub open spec fn planned_view(plan: EcResult<RoutePlan>) -> Result<RoutePlanView, Seq<char>> {
    match plan {
        Ok(p) => Ok(p@),
        Err(err) => Err(err.text()),
    }
}

/// The URL of a proxy, where there is one.
pub open spec fn proxy_view(proxy: Option<&str>) -> Option<Seq<char>> {
    match proxy {
        Some(url) => Some(url@),
        None => None,
    }
}

/// Decides the route of a planned request, and gives the line to log of its resolution, if any.
pub fn decide_route(
    target: &ConnectTarget,
    plan: EcResult<RoutePlan>,
    fallback_proxy: Option<&str>,
) -> (r: (Option<Vec<Span>>, RouteDecision))
    ensures
        r.1@ == decision_for(target@, planned_view(plan), proxy_view(fallback_proxy)),
        match plan {
            Ok(RoutePlan::Remote { dial, rc_id, rc_name, source, dns_lookup }) => match r.0 {
                Some(line) => resolution_line(
                    target@.host,
                    dialled_host(dial@),
                    source,
                    dns_lookup,
                ) == Some(views(line@)),
                None => resolution_line(
                    target@.host,
                    dialled_host(dial@),
                    source,
                    dns_lookup,
                ) is None,
            },
            _ => r.0 is None,
        },
{
    let target_display = target.to_text();
    match plan {
        Ok(RoutePlan::Remote { dial, rc_id: _, rc_name, source, dns_lookup }) => {
            let resolved_ip = match rsplit_once(dial.as_str(), ':') {
                Some((ip, _)) => ip,
                None => dial.clone(),
            };
            let line = log_resolved_route_source(
                target.host(),
                resolved_ip.as_str(),
                source,
                dns_lookup,
            );
            let target_is_ip = is_ip_host(target.host());
            let decision = route_decision_remote(
                target_display.as_str(),
                target_is_ip,
                dial,
                rc_name,
                source,
                dns_lookup,
            );
            (line, decision)
        },
        Ok(RoutePlan::Fallback { target: planned_target, reason }) => {
            let dial = target_addr(planned_target.as_str());
            let decision = route_decision_fallback(
                target.copy(),
                target_display.as_str(),
                dial,
                reason,
                fallback_proxy,
            );
            (None, decision)
        },
        Err(err) => (None, route_decision_planner_error(target_display.as_str(), err)),
    }
}

/// A route goes through the tunnel exactly where the plan says so, and then to the planned
/// address; otherwise it goes through the proxy where there is one; and a request that could not
/// be planned goes nowhere.
pub proof fn law_transport_follows_plan(
    target: ConnectTargetView,
    plan: Result<RoutePlanView, Seq<char>>,
    proxy: Option<Seq<char>>,
)
    ensures
        match decision_for(target, plan, proxy).transport {
            RouteTransportView::Tunnel(dial) => plan matches Ok(
                RoutePlanView::Remote { dial: planned, .. },
            ) && planned == dial,
            RouteTransportView::Proxy(url, t) => plan matches Ok(RoutePlanView::Fallback { .. })
                && proxy == Some(url) && t == target,
            RouteTransportView::Direct(dial) => plan matches Ok(
                RoutePlanView::Fallback { target: planned, .. },
            ) && proxy is None && dial == dial_target(planned),
            RouteTransportView::Unsupported(_) => plan is Err,
        },
{
}

/// The error for a route that failed.
pub fn route_runtime_error(target_display: &str, route_path: &str, cause: &str) -> (r: EcError)
    ensures
        r.text() == target_display@ + " -> "@ + route_path@ + "; error: "@ + cause@,
{
    let mut message = target_display.to_string();
    append(&mut message, " -> ");
    append(&mut message, route_path);
    append(&mut message, "; error: ");
    append(&mut message, cause);
    EcError::Runtime(message)
}

/// The error for a stream that could not be cloned.
pub fn clone_error(stream: &str, detail: &str) -> (r: EcError)
    ensures
        r.text() == "clone "@ + stream@ + " stream failed: "@ + detail@,
{
    let mut message = "clone ".to_string();
    append(&mut message, stream);
    append(&mut message, " stream failed: ");
    append(&mut message, detail);
    EcError::Runtime(message)
}

/// A direction, what was done in it, and a detail.
fn relay_error(direction: &str, operation: &str, detail: &str) -> (r: EcError)
    ensures
        r.text() == direction@ + operation@ + detail@,
{
    let mut message = direction.to_string();
    append(&mut message, operation);
    append(&mut message, detail);
    EcError::Runtime(message)
}

/// What a relay does after a read.
#[derive(Debug)]
pub enum RelayStep {
    /// Pass on that many bytes.
    Forward(usize),
    /// Stop, with the given result.
    Stop(EcResult<()>),
}

/// What a relay does after a read: it passes on what was read, stops well at the end of the stream
/// or at an expected error, and stops with an error otherwise.
pub fn after_read(direction: &str, read: Result<usize, IoFailure>) -> (r: RelayStep)
    ensures
        match r {
            RelayStep::Forward(n) => n > 0 && read == Ok::<usize, IoFailure>(n),
            RelayStep::Stop(Ok(())) => match read {
                Ok(n) => n == 0,
                Err(failure) => expected(failure.kind),
            },
            RelayStep::Stop(Err(err)) => read matches Err(failure) && !expected(failure.kind)
                && err.text() == direction@ + " read failed: "@ + failure.detail@,
        },
{
    match read {
        Ok(0) => RelayStep::Stop(Ok(())),
        Ok(n) => RelayStep::Forward(n),
        Err(failure) => {
            if is_expected_relay_io_error(failure.kind) {
                RelayStep::Stop(Ok(()))
            } else {
                RelayStep::Stop(
                    Err(relay_error(direction, " read failed: ", failure.detail.as_str())),
                )
            }
        },
    }
}

/// What a relay does after a write: `None` where it goes on, else the result that it stops with.
pub fn after_write(direction: &str, written: Result<(), IoFailure>) -> (r: Option<EcResult<()>>)
    ensures
        match r {
            None => written is Ok,
            Some(Ok(())) => written matches Err(failure) && expected(failure.kind),
            Some(Err(err)) => written matches Err(failure) && !expected(failure.kind) && err.text()
                == direction@ + " write failed: "@ + failure.detail@,
        },
{
    match written {
        Ok(()) => None,
        Err(failure) => {
            if is_expected_relay_io_error(failure.kind) {
                Some(Ok(()))
            } else {
                Some(Err(relay_error(direction, " write failed: ", failure.detail.as_str())))
            }
        },
    }
}

/// The result of shutting down the writing side of a stream.
pub fn after_shutdown(peer: &str, shut: Result<(), IoFailure>) -> (r: EcResult<()>)
    ensures
        match r {
            Ok(()) => match shut {
                Ok(()) => true,
                Err(failure) => expected(failure.kind),
            },
            Err(err) => shut matches Err(failure) && !expected(failure.kind) && err.text() == peer@
                + " write shutdown failed: "@ + failure.detail@,
        },
{
    match shut {
        Ok(()) => Ok(()),
        Err(failure) => {
            if is_expected_relay_io_error(failure.kind) {
                Ok(())
            } else {
                Err(relay_error(peer, " write shutdown failed: ", failure.detail.as_str()))
            }
        },
    }
}

/// The first error of two results.
pub fn both(first: EcResult<()>, second: EcResult<()>) -> (r: EcResult<()>)
    ensures
        r == match first {
            Ok(()) => second,
            Err(err) => Err(err),
        },
{
    match first {
        Ok(()) => second,
        Err(err) => Err(err),
    }
}

/// The result of a relay's worker; `None` stands for one that panicked.
pub fn join_relay_worker(direction: &str, joined: Option<EcResult<()>>) -> (r: EcResult<()>)
    ensures
        match joined {
            Some(result) => r == result,
            None => r matches Err(err) && err.text() == direction@ + " relay worker panicked"@,
        },
{
    match joined {
        Some(result) => result,
        None => {
            let mut message = direction.to_string();
            append(&mut message, " relay worker panicked");
            Err(EcError::Runtime(message))
        },
    }
}

/// The errors after which accepting goes on, and those that are how a relayed connection ends.
pub proof fn law_io_kinds(kind: IoKind)
    ensures
        retryable(kind) <==> match kind {
            IoKind::Interrupted | IoKind::ConnectionAborted | IoKind::ConnectionReset => true,
            IoKind::BrokenPipe | IoKind::NotConnected | IoKind::UnexpectedEof | IoKind::Other => {
                false
            },
        },
        expected(kind) <==> match kind {
            IoKind::BrokenPipe | IoKind::ConnectionAborted | IoKind::ConnectionReset
            | IoKind::NotConnected | IoKind::UnexpectedEof => true,
            IoKind::Interrupted | IoKind::Other => false,
        },
{
}

/// An address to listen on is taken as it is; only a port alone is completed, and then every IPv4
/// interface is meant.
pub proof fn law_bind_addr(port: Seq<char>, other: Seq<char>)
    requires
        other.len() == 0 || other[0] != ':',
    ensures
        bind_addr_of(seq![':'] + port) == "0.0.0.0:"@ + port,
        bind_addr_of(other) == other,
{
    reveal_strlit("0.0.0.0");
    reveal_strlit("0.0.0.0:");
    let addr = seq![':'] + port;
    assert(addr[0] == ':');
    assert("0.0.0.0"@ + addr =~= "0.0.0.0:"@ + port);
}

/// A host and a port are joined by a colon; only a host that reads as an IPv6 address is put in
/// brackets.
pub proof fn law_socket_target(host: Seq<char>, port: Seq<char>)
    ensures
        ({
            let bracketed = ipv6_of(trimmed(host)) is Some && forall|ip: u32|
                trimmed(host) != #[trigger] ipv4_text(ip);
            &&& bracketed ==> socket_target(host, port) == seq!['['] + trimmed(host) + seq![
                ']',
                ':',
            ] + port
            &&& !bracketed ==> socket_target(host, port) == trimmed(host) + seq![':'] + port
        }),
{
    match ipv4_of(trimmed(host)) {
        Some(ip) => {
            law_ipv4_of(trimmed(host), ip);
        },
        None => {
            law_ipv4_of(trimmed(host), 0);
        },
    }
}

/// A planned target is split at its last colon for dialling, and joined again: it stays as it is,
/// but for whitespace around the host, and for brackets around a host that reads as an IPv6
/// address. A target without a colon stays as it is.
pub proof fn law_dial_target(host: Seq<char>, port: Seq<char>, other: Seq<char>)
    requires
        !port.contains(':'),
        !other.contains(':'),
    ensures
        dial_target(other) == other,
        ({
            let bracketed = ipv6_of(trimmed(host)) is Some && forall|ip: u32|
                trimmed(host) != #[trigger] ipv4_text(ip);
            &&& bracketed ==> dial_target(host + seq![':'] + port) == seq!['['] + trimmed(host)
                + seq![']', ':'] + port
            &&& !bracketed ==> dial_target(host + seq![':'] + port) == trimmed(host) + seq![':']
                + port
        }),
{
    law_split_parts(host, ':', port);
    law_socket_target(host, port);
    law_split(other, ':');
    if let Some((a, b)) = split_last(other, ':') {
        assert(other[a.len() as int] == ':');
    }
}

/// An IPv4 address with a port is dialled directly as it is planned, and reads back as that address
/// and port.
pub proof fn law_ipv4_target_is_dialled_as_it_is(
    target: ConnectTargetView,
    ip: u32,
    port: u16,
    reason: Seq<char>,
)
    ensures
        ({
            let planned = ipv4_text(ip) + seq![':'] + decimal(port as nat);
            &&& dial_target(planned) == planned
            &&& socket_addr_of(dial_target(planned)) == Some(SocketAddr::V4 { ip, port })
            &&& decision_for(
                target,
                Ok(RoutePlanView::Fallback { target: planned, reason }),
                None,
            ).transport == RouteTransportView::Direct(planned)
        }),
{
    let host = ipv4_text(ip);
    let digits = decimal(port as nat);
    lemma_ipv4_text_chars(ip);
    lemma_trimmed_already(host);
    law_decimal(port as nat);
    assert(!digits.contains(':'));
    law_dial_target(host, digits, Seq::empty());
    law_number_of(digits, u16::MAX as nat, port as nat);
    law_ipv4_socket_addr_of(host + seq![':'] + digits, ip, port);
}

/// A name with a port is dialled directly as it is planned, where it is no IPv6 address.
pub proof fn law_name_is_dialled_as_it_is(
    target: ConnectTargetView,
    host: Seq<char>,
    port: u16,
    reason: Seq<char>,
)
    requires
        trimmed(host) == host,
        ipv6_of(host) is None,
    ensures
        ({
            let planned = host + seq![':'] + decimal(port as nat);
            decision_for(
                target,
                Ok(RoutePlanView::Fallback { target: planned, reason }),
                None,
            ).transport == RouteTransportView::Direct(planned)
        }),
{
    law_decimal(port as nat);
    assert(!decimal(port as nat).contains(':'));
    law_dial_target(host, decimal(port as nat), Seq::empty());
}

/// How a planned request is carried: a remote plan through the tunnel to the address that it dials;
/// a fallback through the proxy to the requested target where there is a proxy, and directly to the
/// planned target where there is none; and a request that could not be planned, not at all.
pub proof fn law_transport_of_a_plan(
    target: ConnectTargetView,
    dial: Seq<char>,
    rc_id: i32,
    rc_name: Seq<char>,
    source: RouteSource,
    dns_lookup: Option<ResolveSource>,
    planned: Seq<char>,
    reason: Seq<char>,
    url: Seq<char>,
    proxy: Option<Seq<char>>,
)
    ensures
        decision_for(
            target,
            Ok(RoutePlanView::Remote { dial, rc_id, rc_name, source, dns_lookup }),
            proxy,
        ).transport == RouteTransportView::Tunnel(dial),
        decision_for(
            target,
            Ok(RoutePlanView::Fallback { target: planned, reason }),
            Some(url),
        ).transport == RouteTransportView::Proxy(url, target),
        decision_for(
            target,
            Ok(RoutePlanView::Fallback { target: planned, reason }),
            None,
        ).transport == RouteTransportView::Direct(dial_target(planned)),
        decision_for(target, Err(reason), proxy).transport == RouteTransportView::Unsupported(
            "no route transport available"@,
        ),
{
}

/// What errors say of a route: the resource and the dialled address with what led to it; or the way
/// around the tunnel with the reason for it.
pub proof fn law_path_of_a_plan(
    target: ConnectTargetView,
    dial: Seq<char>,
    rc_id: i32,
    rc_name: Seq<char>,
    source: RouteSource,
    dns_lookup: Option<ResolveSource>,
    planned: Seq<char>,
    reason: Seq<char>,
    url: Seq<char>,
    proxy: Option<Seq<char>>,
)
    ensures
        decision_for(
            target,
            Ok(RoutePlanView::Remote { dial, rc_id, rc_name, source, dns_lookup }),
            proxy,
        ).path == "remote -> "@ + (if trimmed(rc_name) == Seq::<char>::empty() {
            "unknown"@
        } else {
            rc_name
        }) + "("@ + dial + "); source: "@ + source_description(source, dns_lookup),
        decision_for(
            target,
            Ok(RoutePlanView::Fallback { target: planned, reason }),
            Some(url),
        ).path == "fallback -> "@ + url + "; reason: "@ + reason,
        decision_for(
            target,
            Ok(RoutePlanView::Fallback { target: planned, reason }),
            None,
        ).path == "fallback -> direct; dial: "@ + dial_target(planned) + "; reason: "@ + reason,
        decision_for(target, Err(reason), proxy).path == "fallback -> unavailable; reason: "@
            + reason,
{
    assert(trimmed(rc_name).len() == 0 ==> trimmed(rc_name) =~= Seq::<char>::empty());
}

/// What is logged of a route: the target as it is displayed, the kind of the route, and where it
/// leads; for a target that is a name, also the address that is dialled.
pub proof fn law_line_of_a_plan(
    target: ConnectTargetView,
    dial: Seq<char>,
    rc_id: i32,
    rc_name: Seq<char>,
    source: RouteSource,
    dns_lookup: Option<ResolveSource>,
    planned: Seq<char>,
    reason: Seq<char>,
    url: Seq<char>,
    proxy: Option<Seq<char>>,
)
    ensures
        ({
            let shown = SpanView::Text(socket_target(target.host, decimal(target.port as nat)));
            let arrow = SpanView::Weak(" -> "@);
            let name = SpanView::Text(
                if trimmed(rc_name) == Seq::<char>::empty() {
                    "unknown"@
                } else {
                    rc_name
                },
            );
            let named = seq![shown, arrow, SpanView::Label(RouteKind::Remote), arrow, name];
            let is_ip = ipv6_of(trimmed(target.host)) is Some || exists|ip: u32|
                trimmed(target.host) == #[trigger] ipv4_text(ip);
            &&& decision_for(
                target,
                Ok(RoutePlanView::Remote { dial, rc_id, rc_name, source, dns_lookup }),
                proxy,
            ).line == if is_ip {
                named
            } else {
                named + seq![SpanView::Weak("("@), SpanView::Text(dial), SpanView::Weak(")"@)]
            }
            &&& decision_for(
                target,
                Ok(RoutePlanView::Fallback { target: planned, reason }),
                Some(url),
            ).line == seq![
                shown,
                arrow,
                SpanView::Label(RouteKind::Fallback),
                arrow,
                SpanView::Value(url),
            ]
            &&& decision_for(
                target,
                Ok(RoutePlanView::Fallback { target: planned, reason }),
                None,
            ).line == seq![
                shown,
                arrow,
                SpanView::Label(RouteKind::Fallback),
                arrow,
                SpanView::Label(RouteKind::Direct),
            ]
            &&& decision_for(target, Err(reason), proxy).line == seq![
                shown,
                arrow,
                SpanView::Label(RouteKind::Fallback),
                arrow,
                SpanView::Text("route planner unavailable"@),
            ]
        }),
{
    let host = trimmed(target.host);
    match ipv4_of(host) {
        Some(ip) => {
            law_ipv4_of(host, ip);
        },
        None => {
            law_ipv4_of(host, 0);
        },
    }
    assert(trimmed(rc_name).len() == 0 ==> trimmed(rc_name) =~= Seq::<char>::empty());
    let shown = SpanView::Text(socket_target(target.host, decimal(target.port as nat)));
    let arrow = SpanView::Weak(" -> "@);
    let around = seq![shown, arrow, SpanView::Label(RouteKind::Fallback), arrow];
    assert(around.push(SpanView::Value(url)) =~= seq![
        shown,
        arrow,
        SpanView::Label(RouteKind::Fallback),
        arrow,
        SpanView::Value(url),
    ]);
    assert(around.push(SpanView::Label(RouteKind::Direct)) =~= seq![
        shown,
        arrow,
        SpanView::Label(RouteKind::Fallback),
        arrow,
        SpanView::Label(RouteKind::Direct),
    ]);
}

/// What led to a remote plan is named by its source; where a DNS answer led to it, also by where the
/// answer came from. Sources that are DNS answers themselves are named by where they came from.
pub proof fn law_source_description(source: RouteSource, server: SocketAddr)
    ensures
        ({
            let answer = source == RouteSource::DnsServer || source == RouteSource::CnameDnsServer
                || source == RouteSource::DnsServerIpRule;
            let asked = Some(ResolveSource::Server(server));
            let cached = Some(ResolveSource::Cache);
            &&& source_description(source, None) == source.name()
            &&& answer ==> source_description(source, asked) == source.name() + "("@
                + socket_addr_text(server) + ")"@
            &&& !answer ==> source_description(source, asked) == source.name()
                + " via dns-server("@ + socket_addr_text(server) + ")"@
            &&& !answer ==> source_description(source, cached) == source.name()
                + " via dns-cache"@
            &&& source_description(RouteSource::DnsServer, cached) == "dns-cache"@
            &&& source_description(RouteSource::CnameDnsServer, cached) == "cname-dns-cache"@
            &&& source_description(RouteSource::DnsServerIpRule, cached)
                == "dns-server-ip-rule-cache"@
        }),
{
}

/// What is logged of how a name was resolved: the name and the address, with the server that was
/// asked or the cache that was hit; for an address out of the DNS records only where an address rule
/// led to it; and otherwise nothing.
pub proof fn law_resolution_line(
    host: Seq<char>,
    ip: Seq<char>,
    source: RouteSource,
    server: SocketAddr,
)
    ensures
        ({
            let arrow = SpanView::Weak(" -> "@);
            &&& resolution_line(host, ip, source, Some(ResolveSource::Cache)) == Some(
                seq![
                    SpanView::Text("route DNS cache hit "@),
                    SpanView::Value(host),
                    arrow,
                    SpanView::Value(ip),
                ],
            )
            &&& resolution_line(host, ip, source, Some(ResolveSource::Server(server))) == Some(
                seq![
                    SpanView::Text("route DNS resolved "@),
                    SpanView::Value(host),
                    arrow,
                    SpanView::Value(ip),
                    SpanView::Text(" via "@),
                    SpanView::Value(socket_addr_text(server)),
                ],
            )
            &&& resolution_line(host, ip, source, None) == if source
                == RouteSource::DnsDataIpRule {
                Some(
                    seq![
                        SpanView::Text("route dns.data resolved "@),
                        SpanView::Value(host),
                        arrow,
                        SpanView::Value(ip),
                    ],
                )
            } else {
                None
            }
        }),
{
    let arrow = SpanView::Weak(" -> "@);
    assert(resolution_line(host, ip, source, Some(ResolveSource::Server(server)))->Some_0 =~= seq![
        SpanView::Text("route DNS resolved "@),
        SpanView::Value(host),
        arrow,
        SpanView::Value(ip),
        SpanView::Text(" via "@),
        SpanView::Value(socket_addr_text(server)),
    ]);
}

/// The resolved address that is logged is what stands before the port of the dialled address.
pub proof fn law_dialled_host(ip: u32, port: u16)
    ensures
        dialled_host(ipv4_text(ip) + seq![':'] + decimal(port as nat)) == ipv4_text(ip),
{
    law_decimal(port as nat);
    assert(!decimal(port as nat).contains(':'));
    law_split_parts(ipv4_text(ip), ':', decimal(port as nat));
}

/// The views of a route, of a planned request and of a proxy keep what they hold.
pub proof fn law_route_views(
    dial: String,
    target: ConnectTarget,
    decision: RouteDecision,
    plan: RoutePlan,
    err: EcError,
    i: int,
)
    ensures
        RouteTransport::Tunnel(dial)@ == RouteTransportView::Tunnel(dial@),
        RouteTransport::Direct(dial)@ == RouteTransportView::Direct(dial@),
        RouteTransport::Proxy(dial, target)@ == RouteTransportView::Proxy(dial@, target@),
        RouteTransport::Unsupported(dial)@ == RouteTransportView::Unsupported(dial@),
        decision@.path == decision.path@ && decision@.transport == decision.transport@,
        decision@.line.len() == decision.line@.len(),
        0 <= i < decision.line@.len() ==> decision@.line[i] == decision.line@[i]@,
        planned_view(Ok(plan)) == Ok::<RoutePlanView, Seq<char>>(plan@),
        planned_view(Err(err)) == Err::<RoutePlanView, Seq<char>>(err.text()),
        EcError::Runtime(dial).text() == dial@,
        proxy_view(None) is None,
{
}

} // verus!
