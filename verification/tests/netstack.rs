use ec_core::addr::parse_socket_addr;
use ec_core::error::{concise_error, EcError, EcResult};
use ec_core::netstack::{
    alloc_local_port, begin_close, begin_send, channel_error, netstack_closed_reason,
    netstack_random_seed, open_response_error, resolve_ipv4_target,
    validate_netstack_preconditions, ChannelStep, ControlEffect, ControlMessage, DriveAction,
    DriveCursor, LoopAction, LoopEvent, LoopPhase, Netstack, PendingSend, SenderAction, SenderEvent,
    SenderPhase,
};
use smoltcp::iface::{Config, Interface, SocketHandle};
use smoltcp::phy::{Loopback, Medium};
use smoltcp::socket::tcp;
use smoltcp::time::Instant;
use smoltcp::wire::{HardwareAddress, IpAddress, IpEndpoint, Ipv4Address};

const LOCAL: u32 = 0x0a00_0001;

/// A stack on a loopback device, with a server socket that listens on port 80.
struct Loop {
    stack: Netstack,
    device: Loopback,
    server: SocketHandle,
    now: i64,
    notices: Vec<(u64, Result<(), String>)>,
    forgotten: Vec<u64>,
    uplink: Vec<u8>,
    chunks: usize,
    deliver: bool,
}

fn interface(device: &mut Loopback) -> Interface {
    Interface::new(
        Config::new(HardwareAddress::Ip),
        device,
        Instant::from_millis(0),
    )
}

fn start(buffer: usize) -> Loop {
    let mut device = Loopback::new(Medium::Ip);
    let iface = interface(&mut device);
    let mut stack = Netstack::new(iface);
    stack.assign_address(LOCAL);
    let mut socket = tcp::Socket::new(
        tcp::SocketBuffer::new(vec![0; buffer]),
        tcp::SocketBuffer::new(vec![0; buffer]),
    );
    socket.listen(80).unwrap();
    let server = stack.parts().1.add(socket);
    Loop {
        stack,
        device,
        server,
        now: 0,
        notices: vec![],
        forgotten: vec![],
        uplink: vec![],
        chunks: 0,
        deliver: true,
    }
}

impl Loop {
    fn server(&mut self) -> &mut tcp::Socket<'static> {
        self.stack.parts().1.get_mut::<tcp::Socket>(self.server)
    }

    fn open(&mut self) -> u64 {
        match self
            .stack
            .handle_control_message(ControlMessage::Open(LOCAL, 80))
        {
            ControlEffect::Opened(Ok(id)) => id,
            other => panic!("expected a connection, got {other:?}"),
        }
    }

    fn drive(&mut self) {
        let mut cursor = DriveCursor::start();
        loop {
            let (next, action) = self.stack.drive_step(cursor, self.deliver);
            cursor = next;
            match action {
                DriveAction::Continue => {}
                DriveAction::Done => return,
                DriveAction::NotifySend(id) => self.notices.push((id, Ok(()))),
                DriveAction::Forgotten(id, failed) => {
                    self.forgotten.push(id);
                    if let Some(err) = failed {
                        self.notices.push((id, Err(concise_error(err))));
                    }
                }
                DriveAction::Uplink(_, chunk) => {
                    self.chunks += 1;
                    self.uplink.extend_from_slice(&chunk);
                }
            }
        }
    }

    fn run(&mut self, rounds: usize) {
        for _ in 0..rounds {
            self.now += 20;
            let (iface, sockets) = self.stack.parts();
            iface.poll(Instant::from_millis(self.now), &mut self.device, sockets);
            self.drive();
        }
    }

    fn send(&mut self, id: u64, data: &[u8]) -> ControlEffect {
        self.stack
            .handle_control_message(ControlMessage::Send(id, data.to_vec()))
    }

    fn received_by_server(&mut self) -> Vec<u8> {
        let mut all = vec![];
        let mut buf = [0u8; 1024];
        while self.server().can_recv() {
            let n = self.server().recv_slice(&mut buf).unwrap();
            all.extend_from_slice(&buf[..n]);
        }
        all
    }
}

#[test]
fn alloc_local_port_wraps_after_60000() {
    let mut next = 60000;
    let p1 = alloc_local_port(&mut next);
    let p2 = alloc_local_port(&mut next);
    assert_eq!(p1, 60000);
    assert_eq!(p2, 40000);
}

#[test]
fn local_ports_go_round() {
    let mut next = 40017;
    for _ in 0..20001 {
        let port = alloc_local_port(&mut next);
        assert!((40000..=60000).contains(&port));
    }
    assert_eq!(next, 40017);
}

#[test]
fn random_seed_is_non_zero() {
    let since_epoch = std::time::SystemTime::now()
        .duration_since(std::time::UNIX_EPOCH)
        .map(|d| d.as_nanos())
        .ok();
    assert_ne!(netstack_random_seed(since_epoch), 0);
}

#[test]
fn random_seed_has_a_fixed_stand_in() {
    assert_eq!(netstack_random_seed(None), 0x6e6574737461636b);
    assert_eq!(netstack_random_seed(Some(7)), 7);
    assert_eq!(netstack_random_seed(Some((1 << 64) + 9)), 9);
    assert_eq!(netstack_random_seed(Some(0)), 0x6e6574737461636b);
    assert_eq!(netstack_random_seed(Some(3 << 64)), 0x6e6574737461636b);
}

const TEST_CONN_ID: u64 = 7;

fn expect_send(action: SenderAction, expected: &[u8]) {
    match action {
        SenderAction::Request(ControlMessage::Send(id, data)) => {
            assert_eq!(id, TEST_CONN_ID);
            assert_eq!(data, expected);
        }
        other => panic!("expected tunnel payload, got {other:?}"),
    }
}

/// Begins to send a payload, and hands it over.
fn handed_over(payload: &[u8]) -> SenderPhase {
    let (phase, action) = begin_send(TEST_CONN_ID, payload.to_vec());
    expect_send(action, payload);
    let (phase, action) = phase.on_event(SenderEvent::Requested(Ok(())));
    assert!(matches!(action, SenderAction::AwaitAdmission));
    phase
}

fn returned(step: (SenderPhase, SenderAction)) -> EcResult<()> {
    assert_eq!(step.0, SenderPhase::Over);
    match step.1 {
        SenderAction::Return(result) => result,
        other => panic!("expected a result, got {other:?}"),
    }
}

#[test]
fn sender_waits_for_payload_admission() {
    let phase = handed_over(&[1, 2, 3]);
    assert!(returned(phase.on_event(SenderEvent::Answered(Ok(Ok(()))))).is_ok());
}

#[test]
fn sender_serializes_payloads_and_close_after_admission() {
    for payload in [[1], [2]] {
        let phase = handed_over(&payload);
        assert!(returned(phase.on_event(SenderEvent::Answered(Ok(Ok(()))))).is_ok());
    }
    let (phase, action) = begin_close(TEST_CONN_ID);
    match action {
        SenderAction::Request(ControlMessage::Close(id)) => assert_eq!(id, TEST_CONN_ID),
        other => panic!("expected tunnel close, got {other:?}"),
    }
    assert!(returned(phase.on_event(SenderEvent::Requested(Ok(())))).is_ok());
}

#[test]
fn sender_propagates_payload_admission_failure() {
    let phase = handed_over(&[1]);
    let failure = EcError::Runtime("tcp send buffer closed".to_string());
    let err = returned(phase.on_event(SenderEvent::Answered(Ok(Err(failure))))).unwrap_err();
    assert_eq!(concise_error(err), "tcp send buffer closed");
}

#[test]
fn sender_wakes_when_admission_channel_closes() {
    let phase = handed_over(&[1]);
    let event = SenderEvent::Answered(Err("receiving on a closed channel".to_string()));
    let err = returned(phase.on_event(event)).unwrap_err();
    assert!(concise_error(err).starts_with("wait tcp payload admission failed:"));
}

#[test]
fn sender_requests_that_fail_are_told() {
    let gone = || SenderEvent::Requested(Err("gone".to_string()));
    let (phase, _) = begin_send(TEST_CONN_ID, vec![1]);
    assert_eq!(
        concise_error(returned(phase.on_event(gone())).unwrap_err()),
        "send tcp payload request failed: gone"
    );
    let (phase, _) = begin_close(TEST_CONN_ID);
    assert_eq!(
        concise_error(returned(phase.on_event(gone())).unwrap_err()),
        "send tcp close request failed: gone"
    );
}

#[test]
fn pending_send_tracks_partial_admission() {
    let mut pending = PendingSend::new(vec![1, 2, 3, 4]);

    pending.advance(2);
    assert_eq!(pending.remaining(), &[3, 4]);
    assert!(!pending.is_complete());

    pending.advance(2);
    assert!(pending.remaining().is_empty());
    assert!(pending.is_complete());
}

#[test]
fn preconditions_always_hold() {
    assert!(validate_netstack_preconditions().is_ok());
}

#[test]
fn payloads_reach_the_peer_in_order() {
    let mut l = start(65536);
    let id = l.open();
    assert_eq!(id, 1);
    l.run(5);
    assert!(matches!(l.send(id, b"hello "), ControlEffect::Nothing));
    l.run(5);
    assert_eq!(l.notices, vec![(id, Ok(()))]);
    assert!(matches!(l.send(id, b"world"), ControlEffect::Nothing));
    l.run(5);
    assert_eq!(l.notices.len(), 2);
    assert_eq!(l.received_by_server(), b"hello world");
}

#[test]
fn an_empty_payload_is_taken_at_once() {
    let mut l = start(65536);
    let id = l.open();
    l.run(5);
    l.send(id, b"");
    l.run(1);
    assert_eq!(l.notices, vec![(id, Ok(()))]);
}

#[test]
fn a_large_payload_is_taken_piece_by_piece() {
    let mut l = start(4096);
    let id = l.open();
    l.run(5);
    let payload: Vec<u8> = (0..200_000u32).map(|i| (i % 251) as u8).collect();
    l.send(id, &payload);
    l.run(1);
    assert!(l.notices.is_empty());
    let mut all = vec![];
    for _ in 0..2000 {
        l.run(1);
        all.extend(l.received_by_server());
    }
    assert_eq!(l.notices, vec![(id, Ok(()))]);
    assert_eq!(all, payload);
}

#[test]
fn received_bytes_are_handed_on_in_order() {
    let mut l = start(65536);
    l.open();
    l.run(5);
    let payload: Vec<u8> = (0..10_000u32).map(|i| (i % 241) as u8).collect();
    assert_eq!(l.server().send_slice(&payload).unwrap(), payload.len());
    l.run(50);
    assert_eq!(l.uplink, payload);
    assert!(l.chunks >= 3);
}

#[test]
fn an_owner_that_is_gone_closes_its_connection() {
    let mut l = start(65536);
    l.open();
    l.run(5);
    l.deliver = false;
    l.server().send_slice(b"bytes").unwrap();
    l.run(10);
    assert_eq!(l.server().state(), tcp::State::CloseWait);
}

#[test]
fn a_close_waits_for_the_pending_payload() {
    let mut l = start(65536);
    let id = l.open();
    l.send(id, b"last words");
    l.stack.handle_control_message(ControlMessage::Close(id));
    l.run(10);
    assert_eq!(l.notices, vec![(id, Ok(()))]);
    assert_eq!(l.received_by_server(), b"last words");
    assert_eq!(l.server().state(), tcp::State::CloseWait);
}

#[test]
fn a_connection_that_ends_well_is_forgotten() {
    let mut l = start(65536);
    let id = l.open();
    l.run(5);
    l.stack.handle_control_message(ControlMessage::Close(id));
    l.run(5);
    l.server().close();
    l.run(10);
    assert_eq!(l.forgotten, vec![id]);
    assert!(l.notices.is_empty());
}

#[test]
fn a_second_payload_fails_the_first() {
    let mut l = start(65536);
    let id = l.open();
    l.send(id, b"one");
    match l.send(id, b"two") {
        ControlEffect::SendFailed(to, err) => {
            assert_eq!(to, id);
            assert_eq!(
                concise_error(err),
                "multiple tcp payloads pending admission"
            );
        }
        other => panic!("expected a failure, got {other:?}"),
    }
    l.run(10);
    assert!(l.notices.is_empty());
    assert_eq!(l.server().state(), tcp::State::CloseWait);
}

#[test]
fn a_lost_connection_fails_its_payload_and_is_forgotten() {
    let mut l = start(65536);
    let id = l.open();
    // Nobody listens once the server socket is gone, so the connection is reset.
    l.server().abort();
    l.send(id, b"never taken");
    l.run(10);
    assert_eq!(
        l.notices,
        vec![(
            id,
            Err("tcp connection closed before payload admission completed".to_string())
        )]
    );
    assert_eq!(l.forgotten, vec![id]);
    assert!(matches!(l.send(id, b"x"), ControlEffect::Nothing));
    assert_eq!(l.stack.parts().1.iter().count(), 1);
}

#[test]
fn chunks_of_received_bytes_come_in_order() {
    let mut l = start(65536);
    let id = l.open();
    l.run(5);
    let sent: Vec<u8> = (0..9000).map(|n| (n % 251) as u8).collect();
    assert_eq!(l.server().send_slice(&sent).unwrap(), sent.len());
    for _ in 0..40 {
        l.now += 20;
        let (iface, sockets) = l.stack.parts();
        iface.poll(Instant::from_millis(l.now), &mut l.device, sockets);
    }
    let mut lengths = vec![];
    let mut all = vec![];
    let mut cursor = DriveCursor::start();
    loop {
        let (next, action) = l.stack.drive_step(cursor, true);
        cursor = next;
        match action {
            DriveAction::Uplink(to, chunk) => {
                assert_eq!(to, id);
                lengths.push(chunk.len());
                all.extend(chunk);
            }
            DriveAction::Done => break,
            _ => {}
        }
    }
    assert_eq!(lengths, vec![4096, 4096, 808]);
    assert_eq!(all, sent);
}

#[test]
fn connections_have_their_own_identifiers() {
    let mut l = start(65536);
    assert_eq!(l.open(), 1);
    assert_eq!(l.open(), 2);
    assert_eq!(l.stack.parts().1.iter().count(), 3);
}

#[test]
fn connections_do_not_mix() {
    let mut l = start(65536);
    let mut socket = tcp::Socket::new(
        tcp::SocketBuffer::new(vec![0; 4096]),
        tcp::SocketBuffer::new(vec![0; 4096]),
    );
    socket.listen(81).unwrap();
    let second = l.stack.parts().1.add(socket);
    let a = l.open();
    let b = l.stack.open_connection(LOCAL, 81).unwrap();
    l.run(5);
    l.send(a, b"for the first");
    l.send(b, b"for the second");
    l.run(5);
    assert_eq!(l.notices, vec![(a, Ok(())), (b, Ok(()))]);
    assert_eq!(l.received_by_server(), b"for the first");
    l.server = second;
    assert_eq!(l.received_by_server(), b"for the second");
    l.stack.handle_control_message(ControlMessage::Close(a));
    l.run(5);
    assert_eq!(l.server().state(), tcp::State::Established);
}

#[test]
fn connections_go_to_their_endpoint_from_the_next_local_port() {
    let mut device = Loopback::new(Medium::Ip);
    let iface = interface(&mut device);
    let mut stack = Netstack::new(iface);
    stack.assign_address(LOCAL);
    assert_eq!(stack.parts().0.ip_addrs()[0].prefix_len(), 0);
    let endpoint = |ip: u32, port| IpEndpoint::new(IpAddress::Ipv4(Ipv4Address::from(ip)), port);
    for (ip, port) in [(0xc0a8_0105, 443), (LOCAL, 80)] {
        assert!(stack.open_connection(ip, port).is_ok());
    }
    let mut endpoints = vec![];
    for (_, socket) in stack.parts().1.iter() {
        let smoltcp::socket::Socket::Tcp(socket) = socket;
        endpoints.push((socket.remote_endpoint(), socket.local_endpoint()));
    }
    assert_eq!(
        endpoints,
        vec![
            (Some(endpoint(0xc0a8_0105, 443)), Some(endpoint(LOCAL, 40000))),
            (Some(endpoint(LOCAL, 80)), Some(endpoint(LOCAL, 40001))),
        ]
    );
}

#[test]
fn driving_keeps_endpoints() {
    let mut l = start(65536);
    let id = l.open();
    l.run(5);
    l.send(id, b"x");
    l.run(5);
    assert_eq!(l.received_by_server(), b"x");
    let local = IpAddress::Ipv4(Ipv4Address::from(LOCAL));
    assert_eq!(
        l.server().remote_endpoint(),
        Some(IpEndpoint::new(local, 40000))
    );
    assert_eq!(l.server().local_endpoint(), Some(IpEndpoint::new(local, 80)));
}

#[test]
fn unreachable_endpoints_are_refused() {
    let mut l = start(65536);
    for (ip, port) in [(0, 80), (LOCAL, 0)] {
        match l
            .stack
            .handle_control_message(ControlMessage::Open(ip, port))
        {
            ControlEffect::Opened(Err(err)) => assert_eq!(
                concise_error(err),
                "tcp connect failed: unaddressable destination"
            ),
            other => panic!("expected a refusal, got {other:?}"),
        }
    }
    assert_eq!(l.stack.parts().1.iter().count(), 1);
    assert_eq!(l.open(), 1);
}

#[test]
fn an_interface_without_address_reaches_nothing() {
    let mut device = Loopback::new(Medium::Ip);
    let iface = interface(&mut device);
    let mut stack = Netstack::new(iface);
    assert!(stack.open_connection(LOCAL, 80).is_err());
    stack.assign_address(LOCAL);
    assert!(stack.open_connection(LOCAL, 80).is_ok());
}

#[test]
fn packets_and_unknown_connections_leave_the_stack_alone() {
    let mut l = start(65536);
    match l
        .stack
        .handle_control_message(ControlMessage::TunnelPacket(vec![1, 2]))
    {
        ControlEffect::PushPacket(packet) => assert_eq!(packet, vec![1, 2]),
        other => panic!("expected the packet, got {other:?}"),
    }
    assert!(matches!(
        l.stack.handle_control_message(ControlMessage::Close(99)),
        ControlEffect::Nothing
    ));
    assert!(matches!(l.send(99, b"x"), ControlEffect::Nothing));
}

#[test]
fn a_batch_is_bounded_and_followed_by_polling_and_driving() {
    let mut l = start(65536);
    let mut phase = LoopPhase::Waiting;
    for n in 1..=64 {
        let message = ControlMessage::Open(LOCAL, 80);
        let (next, action) = l.stack.loop_step(phase, LoopEvent::Received(message));
        match action {
            LoopAction::Effect(ControlEffect::Opened(Ok(id))) => assert_eq!(id, n),
            other => panic!("expected a connection, got {other:?}"),
        }
        let (next, action) = l.stack.loop_step(next, LoopEvent::EffectDone);
        if n < 64 {
            assert!(matches!(action, LoopAction::TryReceive));
        } else {
            assert!(matches!(action, LoopAction::Poll));
            assert_eq!(next, LoopPhase::Polling);
        }
        phase = next;
    }
    let (mut phase, mut action) = l.stack.loop_step(phase, LoopEvent::Polled);
    let mut steps = 1;
    while let LoopAction::Drive(_) = action {
        (phase, action) = l.stack.loop_step(phase, LoopEvent::Delivered(true));
        steps += 1;
    }
    assert!(matches!(action, LoopAction::Wait));
    assert_eq!(phase, LoopPhase::Waiting);
    assert_eq!(steps, 3 * 64 + 1);
}

#[test]
fn an_idle_loop_polls_and_waits_again() {
    let mut l = start(65536);
    let (phase, action) = l
        .stack
        .loop_step(LoopPhase::Waiting, LoopEvent::NothingReceived);
    assert!(matches!(action, LoopAction::Poll));
    let (phase, action) = l.stack.loop_step(phase, LoopEvent::Polled);
    assert!(matches!(action, LoopAction::Wait));
    assert_eq!(phase, LoopPhase::Waiting);
    let (phase, _) = l
        .stack
        .loop_step(phase, LoopEvent::Received(ControlMessage::Close(1)));
    let (phase, _) = l.stack.loop_step(phase, LoopEvent::EffectDone);
    let (phase, action) = l.stack.loop_step(phase, LoopEvent::NothingReceived);
    assert!(matches!(action, LoopAction::Poll));
    assert_eq!(phase, LoopPhase::Polling);
}

#[test]
fn the_loop_ends_when_nobody_controls_it() {
    let mut l = start(65536);
    for phase in [LoopPhase::Waiting, LoopPhase::Batch(3)] {
        let (next, action) = l.stack.loop_step(phase, LoopEvent::Disconnected);
        assert_eq!(next, LoopPhase::Ended);
        match action {
            LoopAction::Stop(err) => {
                assert_eq!(concise_error(err), "netstack control channel disconnected")
            }
            other => panic!("expected the end, got {other:?}"),
        }
    }
}

#[test]
fn targets_resolve_to_their_first_ipv4_address() {
    let addrs = vec![
        parse_socket_addr("[::1]:80").unwrap(),
        parse_socket_addr("10.0.0.1:80").unwrap(),
        parse_socket_addr("10.0.0.2:80").unwrap(),
    ];
    assert_eq!(resolve_ipv4_target("a:80", Ok(addrs)).unwrap(), (LOCAL, 80));
    let none = vec![parse_socket_addr("[::1]:80").unwrap()];
    assert_eq!(
        concise_error(resolve_ipv4_target("a:80", Ok(none)).unwrap_err()),
        "no ipv4 address resolved for a:80"
    );
    assert_eq!(
        concise_error(resolve_ipv4_target("a:80", Err("e".to_string())).unwrap_err()),
        "resolve target failed: a:80: e"
    );
}

#[test]
fn channel_errors_say_what_failed() {
    let text = |step| concise_error(channel_error(step, "e"));
    assert_eq!(
        text(ChannelStep::OpenRequest),
        "send open connection request failed: e"
    );
    assert_eq!(
        text(ChannelStep::PayloadRequest),
        "send tcp payload request failed: e"
    );
    assert_eq!(
        text(ChannelStep::PayloadAdmission),
        "wait tcp payload admission failed: e"
    );
    assert_eq!(
        text(ChannelStep::CloseRequest),
        "send tcp close request failed: e"
    );
    assert_eq!(
        concise_error(open_response_error("a:1", "e")),
        "wait open connection response failed for a:1: e"
    );
    assert_eq!(
        netstack_closed_reason(channel_error(ChannelStep::CloseRequest, "e")),
        "netstack closed: send tcp close request failed: e"
    );
}
