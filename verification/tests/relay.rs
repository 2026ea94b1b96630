use ec_core::error::{concise_error, EcError};
use ec_core::relay::{RelayAction, RelayEvent, RelayRoute, RelayState};
use ec_core::socks::{IoFailure, IoKind};

fn failure(kind: IoKind) -> IoFailure {
    IoFailure {
        kind,
        detail: "details".to_string(),
    }
}

/// Runs a relay on events; gives the names of its actions, and how it ended.
fn run(route: RelayRoute, events: Vec<RelayEvent>) -> (Vec<String>, Option<String>) {
    let mut state = RelayState::Taking;
    let mut actions = vec![];
    for event in events {
        let (next, action) = state.on_event(route, event);
        state = next;
        match action {
            RelayAction::Take => actions.push("take".to_string()),
            RelayAction::Pass(n) => actions.push(format!("pass {n}")),
            RelayAction::Finish => actions.push("finish".to_string()),
            RelayAction::End(Ok(())) => return (actions, Some("ok".to_string())),
            RelayAction::End(Err(err)) => return (actions, Some(concise_error(err))),
        }
    }
    (actions, None)
}

fn ended(route: RelayRoute, events: Vec<RelayEvent>) -> String {
    run(route, events).1.unwrap()
}

#[test]
fn bytes_are_passed_on_before_more_are_taken() {
    let (actions, end) = run(
        RelayRoute::ClientToUpstream,
        vec![
            RelayEvent::Taken(Ok(7)),
            RelayEvent::Written(Ok(())),
            RelayEvent::Taken(Ok(0)),
            RelayEvent::Shut(Ok(())),
        ],
    );
    assert_eq!(actions, vec!["pass 7", "take", "finish"]);
    assert_eq!(end.unwrap(), "ok");
}

#[test]
fn the_tunnel_gets_what_the_client_sends_and_is_closed_after_it() {
    let (actions, end) = run(
        RelayRoute::ClientToTunnel,
        vec![
            RelayEvent::Taken(Ok(7)),
            RelayEvent::Sent(Ok(())),
            RelayEvent::Taken(Ok(0)),
            RelayEvent::TunnelClosed(Ok(())),
        ],
    );
    assert_eq!(actions, vec!["pass 7", "take", "finish"]);
    assert_eq!(end.unwrap(), "ok");
}

#[test]
fn the_client_gets_what_the_tunnel_receives() {
    let (actions, end) = run(
        RelayRoute::TunnelToClient,
        vec![
            RelayEvent::Taken(Ok(0)),
            RelayEvent::Taken(Ok(3)),
            RelayEvent::Written(Ok(())),
            RelayEvent::TunnelEnded,
            RelayEvent::Shut(Err(failure(IoKind::NotConnected))),
        ],
    );
    assert_eq!(actions, vec!["take", "pass 3", "take", "finish"]);
    assert_eq!(end.unwrap(), "ok");
}

#[test]
fn a_failed_send_ends_at_once() {
    let sent = RelayEvent::Sent(Err(EcError::Runtime("refused".to_string())));
    let (actions, end) = run(
        RelayRoute::ClientToTunnel,
        vec![RelayEvent::Taken(Ok(1)), sent],
    );
    assert_eq!(actions, vec!["pass 1"]);
    assert_eq!(end.unwrap(), "refused");
}

#[test]
fn a_failed_write_to_the_client_ends_at_once() {
    let written = |kind| RelayEvent::Written(Err(failure(kind)));
    let route = RelayRoute::TunnelToClient;
    assert_eq!(
        ended(route, vec![RelayEvent::Taken(Ok(1)), written(IoKind::BrokenPipe)]),
        "ok"
    );
    assert_eq!(
        ended(route, vec![RelayEvent::Taken(Ok(1)), written(IoKind::Other)]),
        "tunnel to client write failed: details"
    );
}

#[test]
fn streams_are_shut_down_after_errors_and_the_first_error_stays() {
    let shut = || RelayEvent::Shut(Err(failure(IoKind::Other)));
    let route = RelayRoute::UpstreamToClient;
    assert_eq!(
        ended(route, vec![RelayEvent::Taken(Err(failure(IoKind::Other))), shut()]),
        "upstream to client read failed: details"
    );
    assert_eq!(
        ended(
            route,
            vec![
                RelayEvent::Taken(Ok(1)),
                RelayEvent::Written(Err(failure(IoKind::Other))),
                shut()
            ]
        ),
        "upstream to client write failed: details"
    );
    assert_eq!(
        ended(
            route,
            vec![RelayEvent::Taken(Err(failure(IoKind::ConnectionReset))), shut()]
        ),
        "upstream to client write shutdown failed: details"
    );
    assert_eq!(
        ended(RelayRoute::TunnelToClient, vec![RelayEvent::TunnelEnded, shut()]),
        "client write shutdown failed: details"
    );
    let closed = RelayEvent::TunnelClosed(Err(EcError::Runtime("late".to_string())));
    assert_eq!(
        ended(
            RelayRoute::ClientToTunnel,
            vec![RelayEvent::Taken(Err(failure(IoKind::Other))), closed]
        ),
        "client to tunnel read failed: details"
    );
    let closed = RelayEvent::TunnelClosed(Err(EcError::Runtime("late".to_string())));
    assert_eq!(
        ended(RelayRoute::ClientToTunnel, vec![RelayEvent::Taken(Ok(0)), closed]),
        "late"
    );
}

#[test]
fn routes_have_their_directions() {
    assert_eq!(RelayRoute::ClientToTunnel.direction(), "client to tunnel");
    assert_eq!(RelayRoute::TunnelToClient.direction(), "tunnel to client");
    assert_eq!(RelayRoute::ClientToUpstream.direction(), "client to upstream");
    assert_eq!(RelayRoute::UpstreamToClient.direction(), "upstream to client");
}
