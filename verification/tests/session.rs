use ec_core::error::{concise_error, EcError};
use ec_core::output::Scope;
use ec_core::routing::{RoutePlan, RouteSource};
use ec_core::session::{LogLevel, Session, SessionAction, SessionEvent, SessionStep};
use ec_core::socks::{ClientFailure, RouteTransport};

/// Feeds `input` to a session until it asks for something else than bytes; gives the step and all
/// that was written on the way.
fn feed(input: &[u8]) -> (SessionStep, Vec<u8>) {
    let mut step = Session::start();
    let mut at = 0;
    let mut written = vec![];
    loop {
        let event = match &step.action {
            SessionAction::Read(n) => {
                if input.len() < at + n {
                    SessionEvent::Read(Err("cut".to_string()))
                } else {
                    at += n;
                    SessionEvent::Read(Ok(input[at - n..at].to_vec()))
                }
            }
            SessionAction::Write(bytes) => {
                written.extend_from_slice(bytes);
                SessionEvent::Written(Ok(()))
            }
            _ => return (step, written),
        };
        step = step.state.on_event(event, None);
    }
}

const CONNECT: [u8; 13] = [5, 1, 0, 5, 1, 0, 1, 10, 0, 0, 1, 0, 80];

fn planned(plan: Result<RoutePlan, EcError>, proxy: Option<&str>) -> SessionStep {
    let (step, written) = feed(&CONNECT);
    assert_eq!(written, vec![5, 0]);
    assert!(matches!(step.action, SessionAction::Plan));
    match &step.state {
        Session::Planning(target) => {
            assert_eq!(target.host(), "10.0.0.1");
            assert_eq!(target.port(), 80);
        }
        _ => panic!("expected to plan"),
    }
    step.state.on_event(SessionEvent::Planned(plan), proxy)
}

fn remote() -> RoutePlan {
    RoutePlan::Remote {
        dial: "10.0.0.1:80".to_string(),
        rc_id: 1,
        rc_name: "A".to_string(),
        source: RouteSource::RuleIp,
        dns_lookup: None,
    }
}

fn upstream_failure(step: SessionStep) -> String {
    match step.action {
        SessionAction::End(Err(ClientFailure::Upstream(err))) => concise_error(err),
        _ => panic!("expected an upstream failure"),
    }
}

fn request_failure(step: SessionStep) -> String {
    match step.action {
        SessionAction::End(Err(ClientFailure::Request(err))) => concise_error(err),
        _ => panic!("expected a request failure"),
    }
}

#[test]
fn udp_associate_is_rejected_at_the_socks_boundary() {
    let (step, written) = feed(&[
        0x05, 0x01, 0x00, 0x05, 0x03, 0x00, 0x01, 0, 0, 0, 0, 0, 0,
    ]);
    assert_eq!(written[..2], [0x05, 0x00]);
    assert_eq!(written.len(), 12);
    assert_eq!(written[3], 0x07);
    assert!(matches!(step.action, SessionAction::End(Ok(()))));
    assert_eq!(step.logs.len(), 1);
    assert_eq!(step.logs[0].level, LogLevel::Warn);
    assert_eq!(step.logs[0].scope, Scope::Req);
}

#[test]
fn invalid_socks_handshake_is_a_request_failure() {
    let (step, written) = feed(&[0x04, 0x00]);
    assert!(written.is_empty());
    assert!(matches!(
        step.action,
        SessionAction::End(Err(ClientFailure::Request(_)))
    ));
}

#[test]
fn refused_requests_get_their_reply_and_end() {
    let (step, written) = feed(&[5, 1, 0, 5, 9, 0, 1]);
    assert_eq!(written, vec![5, 0, 5, 7, 0, 1, 0, 0, 0, 0, 0, 0]);
    assert_eq!(request_failure(step), "unsupported socks command: 0x09");
    let (step, written) = feed(&[5, 1, 0, 4, 1, 0, 1]);
    assert_eq!(written, vec![5, 0]);
    assert_eq!(request_failure(step), "invalid socks request version");
    let (step, written) = feed(&[5, 1, 2]);
    assert_eq!(written, vec![5, 0xff]);
    assert_eq!(request_failure(step), "client does not support no-auth method");
    let (step, _) = feed(&[5]);
    assert_eq!(request_failure(step), "socks hello read failed: cut");
    let (step, _) = feed(&[5, 1, 0, 5]);
    assert_eq!(request_failure(step), "socks request head read failed: cut");
}

#[test]
fn a_remote_plan_is_dialled_answered_and_relayed() {
    let step = planned(Ok(remote()), Some("http://p"));
    assert_eq!(step.logs.len(), 1);
    assert_eq!(step.logs[0].scope, Scope::Req);
    assert_eq!(step.logs[0].level, LogLevel::Info);
    match &step.action {
        SessionAction::Dial(RouteTransport::Tunnel(dial)) => assert_eq!(dial, "10.0.0.1:80"),
        _ => panic!("expected the tunnel"),
    }
    let step = step.state.on_event(SessionEvent::Dialled(Ok(())), None);
    match &step.action {
        SessionAction::Write(bytes) => assert_eq!(*bytes, vec![5, 0, 0, 1, 0, 0, 0, 0, 0, 0]),
        _ => panic!("expected the reply"),
    }
    let step = step.state.on_event(SessionEvent::Written(Ok(())), None);
    assert!(matches!(step.action, SessionAction::Relay));
    let step = step.state.on_event(SessionEvent::Relayed(Ok(())), None);
    assert!(matches!(step.action, SessionAction::End(Ok(()))));
}

#[test]
fn route_failures_name_target_and_path() {
    let path = "remote -> A(10.0.0.1:80); source: rule-ip";
    let step = planned(Ok(remote()), None);
    let step = step
        .state
        .on_event(SessionEvent::Dialled(Err("refused".to_string())), None);
    assert_eq!(
        upstream_failure(step),
        format!("10.0.0.1:80 -> {path}; error: refused")
    );
    let step = planned(Ok(remote()), None);
    let step = step.state.on_event(SessionEvent::Dialled(Ok(())), None);
    let step = step
        .state
        .on_event(SessionEvent::Written(Err("gone".to_string())), None);
    assert_eq!(
        upstream_failure(step),
        format!("10.0.0.1:80 -> {path}; error: socks reply write failed: gone")
    );
    let step = planned(Ok(remote()), None);
    let step = step.state.on_event(SessionEvent::Dialled(Ok(())), None);
    let step = step.state.on_event(SessionEvent::Written(Ok(())), None);
    let step = step.state.on_event(
        SessionEvent::Relayed(Err(EcError::Runtime("broken".to_string()))),
        None,
    );
    assert_eq!(
        upstream_failure(step),
        format!("10.0.0.1:80 -> {path}; error: broken")
    );
}

#[test]
fn a_request_without_a_plan_ends_upstream() {
    let step = planned(Err(EcError::Runtime("no".to_string())), None);
    assert_eq!(step.logs.len(), 1);
    assert_eq!(
        upstream_failure(step),
        "10.0.0.1:80 -> fallback -> unavailable; reason: no; error: no route transport available"
    );
}

#[test]
fn a_fallback_plan_stays_out_of_the_tunnel() {
    let fallback = || RoutePlan::Fallback {
        target: "10.0.0.1:80".to_string(),
        reason: "r".to_string(),
    };
    let step = planned(Ok(fallback()), Some("http://p"));
    assert!(matches!(
        step.action,
        SessionAction::Dial(RouteTransport::Proxy(_, _))
    ));
    let step = planned(Ok(fallback()), None);
    assert!(matches!(
        step.action,
        SessionAction::Dial(RouteTransport::Direct(_))
    ));
}
