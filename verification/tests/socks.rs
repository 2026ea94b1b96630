use ec_core::addr::parse_socket_addr;
use ec_core::dns::ResolveSource;
use ec_core::error::{concise_error, EcError};
use ec_core::output::{RouteKind, Scope, Span};
use ec_core::routing::{RoutePlan, RouteSource};
use ec_core::socks::{
    after_read, after_shutdown, after_write, bind_error, both, clone_error, decide_route,
    describe_route_source, is_expected_relay_io_error, is_ip_host, is_retryable_accept_error,
    join_relay_worker, log_resolved_route_source, normalize_bind_addr, on_accept_error,
    route_decision_fallback, route_decision_planner_error, route_decision_remote,
    route_runtime_error, runtime_closed, startup_lines, target_addr, ClientFailure, IoFailure,
    IoKind, RelayStep, RouteTransport,
};
use ec_core::socks_wire::ConnectTarget;

fn shown(line: &[Span]) -> String {
    line.iter()
        .map(|span| match span {
            Span::Text(s) => s.clone(),
            Span::Weak(s) => format!("<{s}>"),
            Span::Value(s) => format!("'{s}'"),
            Span::Label(RouteKind::Remote) => "REMOTE".to_string(),
            Span::Label(RouteKind::Fallback) => "FALLBACK".to_string(),
            Span::Label(RouteKind::Direct) => "DIRECT".to_string(),
        })
        .collect()
}

fn failure(kind: IoKind) -> IoFailure {
    IoFailure {
        kind,
        detail: "details".to_string(),
    }
}

fn message(result: Result<(), EcError>) -> String {
    match result {
        Ok(()) => "ok".to_string(),
        Err(err) => concise_error(err),
    }
}

#[test]
fn normalize_bind_addr_expands_port_only() {
    assert_eq!(normalize_bind_addr(":1080"), "0.0.0.0:1080");
}

#[test]
fn normalize_bind_addr_keeps_explicit_host() {
    assert_eq!(normalize_bind_addr("127.0.0.1:1080"), "127.0.0.1:1080");
    assert_eq!(normalize_bind_addr(""), "");
}

#[test]
fn listener_retries_only_transient_accept_errors() {
    assert!(is_retryable_accept_error(IoKind::Interrupted));
    assert!(is_retryable_accept_error(IoKind::ConnectionAborted));
    assert!(!is_retryable_accept_error(IoKind::Other));
}

#[test]
fn relay_treats_connection_teardown_as_expected() {
    assert!(is_expected_relay_io_error(IoKind::ConnectionReset));
    assert!(is_expected_relay_io_error(IoKind::BrokenPipe));
    assert!(!is_expected_relay_io_error(IoKind::Other));
}

#[test]
fn io_kinds_are_told_apart() {
    assert!(is_retryable_accept_error(IoKind::ConnectionReset));
    assert!(!is_retryable_accept_error(IoKind::BrokenPipe));
    assert!(is_expected_relay_io_error(IoKind::ConnectionAborted));
    assert!(is_expected_relay_io_error(IoKind::NotConnected));
    assert!(is_expected_relay_io_error(IoKind::UnexpectedEof));
    assert!(!is_expected_relay_io_error(IoKind::Interrupted));
}

#[test]
fn listener_closes_on_other_accept_errors() {
    assert!(on_accept_error(&failure(IoKind::Interrupted)).is_none());
    assert_eq!(
        on_accept_error(&failure(IoKind::Other)).unwrap(),
        "listener closed: details"
    );
}

#[test]
fn relay_worker_panics_are_reported() {
    let err = join_relay_worker("uplink", None).unwrap_err();
    assert_eq!(concise_error(err), "uplink relay worker panicked");
    assert!(join_relay_worker("uplink", Some(Ok(()))).is_ok());
}

#[test]
fn direct_fallback_keeps_ipv6_target_bracketed() {
    assert_eq!(target_addr("[2001:db8::1]:443"), "[2001:db8::1]:443");
}

#[test]
fn target_addr_brackets_a_bare_ipv6_host() {
    assert_eq!(target_addr("2001:db8::1:443"), "[2001:db8::1]:443");
    assert_eq!(target_addr(" example.com :443"), "example.com:443");
    assert_eq!(target_addr("example.com"), "example.com");
}

#[test]
fn remote_error_path_uses_consistent_key_separator() {
    let route = route_decision_remote(
        "example.com:443",
        false,
        "192.0.2.1:443".to_string(),
        "Example".to_string(),
        RouteSource::DnsMap,
        None,
    );

    assert_eq!(
        route.path,
        "remote -> Example(192.0.2.1:443); source: dns-map"
    );
}

#[test]
fn remote_line_names_the_resource() {
    let route = route_decision_remote(
        "example.com:443",
        false,
        "192.0.2.1:443".to_string(),
        "Example".to_string(),
        RouteSource::DnsMap,
        None,
    );
    assert_eq!(
        shown(&route.line),
        "example.com:443< -> >REMOTE< -> >Example<(>192.0.2.1:443<)>"
    );
    let route = route_decision_remote(
        "192.0.2.1:443",
        true,
        "192.0.2.1:443".to_string(),
        " ".to_string(),
        RouteSource::RuleIp,
        None,
    );
    assert_eq!(shown(&route.line), "192.0.2.1:443< -> >REMOTE< -> >unknown");
    assert_eq!(
        route.path,
        "remote -> unknown(192.0.2.1:443); source: rule-ip"
    );
}

#[test]
fn cname_dns_map_source_keeps_lookup_provenance() {
    let server = parse_socket_addr("192.0.2.53:53").unwrap();

    assert_eq!(
        describe_route_source(RouteSource::CnameDnsMap, Some(ResolveSource::Server(server))),
        "cname-dns-map via dns-server(192.0.2.53:53)"
    );
}

#[test]
fn sources_are_described_with_their_lookups() {
    let server = Some(ResolveSource::Server(
        parse_socket_addr("[2001:db8::53]:53").unwrap(),
    ));
    let cache = Some(ResolveSource::Cache);
    assert_eq!(describe_route_source(RouteSource::DnsServer, cache), "dns-cache");
    assert_eq!(
        describe_route_source(RouteSource::CnameDnsServer, cache),
        "cname-dns-cache"
    );
    assert_eq!(
        describe_route_source(RouteSource::DnsServerIpRule, cache),
        "dns-server-ip-rule-cache"
    );
    assert_eq!(
        describe_route_source(RouteSource::CnameDnsMap, cache),
        "cname-dns-map via dns-cache"
    );
    assert_eq!(
        describe_route_source(RouteSource::DnsServer, server),
        "dns-server([2001:db8::53]:53)"
    );
    assert_eq!(
        describe_route_source(RouteSource::CnameDnsServer, server),
        "cname-dns-server([2001:db8::53]:53)"
    );
    assert_eq!(
        describe_route_source(RouteSource::DnsServerIpRule, server),
        "dns-server-ip-rule([2001:db8::53]:53)"
    );
    assert_eq!(describe_route_source(RouteSource::DnsMap, None), "dns-map");
}

#[test]
fn planner_error_path_does_not_repeat_planner_unavailable() {
    let route = route_decision_planner_error(
        "example.com:443",
        EcError::Runtime("route matcher is not initialized".to_string()),
    );

    assert_eq!(
        route.path,
        "fallback -> unavailable; reason: route matcher is not initialized"
    );
    assert_eq!(
        shown(&route.line),
        "example.com:443< -> >FALLBACK< -> >route planner unavailable"
    );
    match route.transport {
        RouteTransport::Unsupported(reason) => assert_eq!(reason, "no route transport available"),
        _ => panic!("expected no transport"),
    }
}

#[test]
fn fallback_goes_through_the_proxy_where_there_is_one() {
    let target = || ConnectTarget::new("example.com".to_string(), 443);
    let route = route_decision_fallback(
        target(),
        "example.com:443",
        "example.com:443".to_string(),
        "no rule".to_string(),
        Some("http://127.0.0.1:8080"),
    );
    assert_eq!(
        shown(&route.line),
        "example.com:443< -> >FALLBACK< -> >'http://127.0.0.1:8080'"
    );
    assert_eq!(
        route.path,
        "fallback -> http://127.0.0.1:8080; reason: no rule"
    );
    match route.transport {
        RouteTransport::Proxy(url, target) => {
            assert_eq!(url, "http://127.0.0.1:8080");
            assert_eq!(target.host(), "example.com");
            assert_eq!(target.port(), 443);
        }
        _ => panic!("expected the proxy"),
    }
    let route = route_decision_fallback(
        target(),
        "example.com:443",
        "example.com:443".to_string(),
        "no rule".to_string(),
        None,
    );
    assert_eq!(shown(&route.line), "example.com:443< -> >FALLBACK< -> >DIRECT");
    assert_eq!(
        route.path,
        "fallback -> direct; dial: example.com:443; reason: no rule"
    );
    match route.transport {
        RouteTransport::Direct(dial) => assert_eq!(dial, "example.com:443"),
        _ => panic!("expected the direct way"),
    }
}

#[test]
fn decisions_follow_the_plan() {
    let target = ConnectTarget::new("a.b".to_string(), 80);
    let plan = RoutePlan::Remote {
        dial: "10.0.0.1:80".to_string(),
        rc_id: 1,
        rc_name: "A".to_string(),
        source: RouteSource::DnsDataIpRule,
        dns_lookup: None,
    };
    let (line, decision) = decide_route(&target, Ok(plan), Some("http://p"));
    assert_eq!(
        shown(&line.unwrap()),
        "route dns.data resolved 'a.b'< -> >'10.0.0.1'"
    );
    match decision.transport {
        RouteTransport::Tunnel(dial) => assert_eq!(dial, "10.0.0.1:80"),
        _ => panic!("expected the tunnel"),
    }
    let plan = RoutePlan::Fallback {
        target: "2001:db8::1:80".to_string(),
        reason: "r".to_string(),
    };
    let (line, decision) = decide_route(&target, Ok(plan), None);
    assert!(line.is_none());
    match decision.transport {
        RouteTransport::Direct(dial) => assert_eq!(dial, "[2001:db8::1]:80"),
        _ => panic!("expected the direct way"),
    }
    let (line, decision) = decide_route(&target, Err(EcError::Runtime("e".to_string())), None);
    assert!(line.is_none());
    assert!(matches!(decision.transport, RouteTransport::Unsupported(_)));
}

#[test]
fn resolutions_are_logged_with_their_source() {
    let line = |source, lookup| {
        log_resolved_route_source("a.b", "10.0.0.1", source, lookup).map(|line| shown(&line))
    };
    assert_eq!(
        line(RouteSource::DnsServer, Some(ResolveSource::Cache)).unwrap(),
        "route DNS cache hit 'a.b'< -> >'10.0.0.1'"
    );
    let server = ResolveSource::Server(parse_socket_addr("127.0.0.1:53").unwrap());
    assert_eq!(
        line(RouteSource::DnsServer, Some(server)).unwrap(),
        "route DNS resolved 'a.b'< -> >'10.0.0.1' via '127.0.0.1:53'"
    );
    assert!(line(RouteSource::DnsMap, None).is_none());
}

#[test]
fn ip_hosts_are_recognized() {
    assert!(is_ip_host(" 10.0.0.1 "));
    assert!(is_ip_host("::1"));
    assert!(!is_ip_host("10.0.0.1.example"));
    assert!(!is_ip_host("[::1]"));
}

#[test]
fn startup_says_how_the_listener_runs() {
    let (fallback, listening) = startup_lines("0.0.0.0:1080", None);
    assert_eq!(shown(&fallback), "fallback: direct");
    assert_eq!(shown(&listening), "listening on '0.0.0.0:1080'");
    let (fallback, _) = startup_lines("0.0.0.0:1080", Some("http://p"));
    assert_eq!(shown(&fallback), "fallback: proxy to 'http://p'");
}

#[test]
fn relays_end_well_or_with_the_first_error() {
    assert!(matches!(after_read("up", Ok(0)), RelayStep::Stop(Ok(()))));
    assert!(matches!(after_read("up", Ok(7)), RelayStep::Forward(7)));
    assert!(matches!(
        after_read("up", Err(failure(IoKind::UnexpectedEof))),
        RelayStep::Stop(Ok(()))
    ));
    match after_read("up", Err(failure(IoKind::Other))) {
        RelayStep::Stop(result) => assert_eq!(message(result), "up read failed: details"),
        _ => panic!("expected the relay to stop"),
    }
    assert!(after_write("up", Ok(())).is_none());
    assert_eq!(
        message(after_write("up", Err(failure(IoKind::BrokenPipe))).unwrap()),
        "ok"
    );
    assert_eq!(
        message(after_write("up", Err(failure(IoKind::Other))).unwrap()),
        "up write failed: details"
    );
    assert_eq!(message(after_shutdown("client", Ok(()))), "ok");
    assert_eq!(
        message(after_shutdown("client", Err(failure(IoKind::NotConnected)))),
        "ok"
    );
    assert_eq!(
        message(after_shutdown("client", Err(failure(IoKind::Other)))),
        "client write shutdown failed: details"
    );
    let first = || Err(EcError::Runtime("first".to_string()));
    let second = || Err(EcError::Runtime("second".to_string()));
    assert_eq!(message(both(first(), second())), "first");
    assert_eq!(message(both(Ok(()), second())), "second");
    assert_eq!(message(both(Ok(()), Ok(()))), "ok");
}

#[test]
fn errors_say_what_failed() {
    assert_eq!(
        concise_error(bind_error(":1080", "in use")),
        "socks bind failed on :1080: in use"
    );
    assert_eq!(concise_error(runtime_closed()), "runtime closed");
    assert_eq!(
        concise_error(clone_error("client", "e")),
        "clone client stream failed: e"
    );
    assert_eq!(
        concise_error(route_runtime_error("a:1", "remote -> x", "e")),
        "a:1 -> remote -> x; error: e"
    );
}

#[test]
fn failures_are_logged_under_their_scope() {
    let err = || EcError::Runtime("e".to_string());
    assert_eq!(ClientFailure::Request(err()).into_log_parts().0, Scope::Req);
    let (scope, err) = ClientFailure::Upstream(err()).into_log_parts();
    assert_eq!(scope, Scope::Upstream);
    assert_eq!(concise_error(err), "e");
}
