use ec_core::error::concise_error;
use ec_core::socks_wire::{
    format_socket_target, reply_bytes, reply_write_error, unsupported_command_error, ConnectTarget,
    Negotiation, NegotiationStep, RequestReader, RequestStep, SocksCommand, SocksRequest,
};

/// Reads a request from `input`; gives it with what is left, or the reply and error of a refusal.
fn read(input: &[u8]) -> Result<(SocksRequest, Vec<u8>), (Option<u8>, String)> {
    let mut reader = RequestReader::Head;
    let mut at = 0;
    loop {
        let n = reader.wanted();
        if input.len() < at + n {
            return Err((None, concise_error(reader.on_read_error("cut"))));
        }
        let bytes = input[at..at + n].to_vec();
        at += n;
        match reader.on_bytes(bytes) {
            RequestStep::Read(next) => reader = next,
            RequestStep::Done(request) => return Ok((request, input[at..].to_vec())),
            RequestStep::Refused(rep, err) => return Err((rep, concise_error(err))),
        }
    }
}

#[test]
fn socks_command_maps_known_values() {
    assert_eq!(SocksCommand::from_byte(0x01), SocksCommand::Connect);
    assert_eq!(SocksCommand::from_byte(0x03), SocksCommand::UdpAssociate);
    assert_eq!(SocksCommand::from_byte(0x02), SocksCommand::Other(0x02));
}

#[test]
fn ipv6_targets_use_bracketed_socket_format() {
    let target = ConnectTarget::new("2001:db8::1".to_string(), 443);

    assert_eq!(target.to_text(), "[2001:db8::1]:443");
    assert_eq!(format_socket_target("example.com", 443), "example.com:443");
}

#[test]
fn commands_are_displayed() {
    assert_eq!(SocksCommand::Connect.to_text(), "CONNECT");
    assert_eq!(SocksCommand::UdpAssociate.to_text(), "UDP ASSOCIATE");
    assert_eq!(SocksCommand::Other(0x02).to_text(), "0x02");
    assert_eq!(SocksCommand::Other(0xaf).to_text(), "0xaf");
    assert_eq!(
        concise_error(unsupported_command_error(SocksCommand::Other(9))),
        "unsupported socks command: 0x09"
    );
}

#[test]
fn domain_requests_are_read_back() {
    let mut input = vec![5, 1, 0, 3, 11];
    input.extend_from_slice(b"example.com");
    input.extend_from_slice(&443u16.to_be_bytes());
    input.extend_from_slice(b"rest");
    let (request, rest) = read(&input).unwrap();
    assert_eq!(request.command, SocksCommand::Connect);
    assert_eq!(request.target.host(), "example.com");
    assert_eq!(request.target.port(), 443);
    assert_eq!(rest, b"rest");
}

#[test]
fn domains_may_be_empty_or_beyond_ascii() {
    let (request, _) = read(&[5, 1, 0, 3, 0, 0, 80]).unwrap();
    assert_eq!(request.target.host(), "");
    assert_eq!(request.target.port(), 80);
    let name = "b\u{fc}cher.example";
    let mut input = vec![5, 3, 0, 3, name.len() as u8];
    input.extend_from_slice(name.as_bytes());
    input.extend_from_slice(&[0xff, 0xff]);
    let (request, _) = read(&input).unwrap();
    assert_eq!(request.command, SocksCommand::UdpAssociate);
    assert_eq!(request.target.host(), name);
    assert_eq!(request.target.port(), 65535);
}

#[test]
fn ipv4_requests_are_read_back() {
    let (request, rest) = read(&[5, 1, 0, 1, 192, 0, 2, 1, 0x1f, 0x90]).unwrap();
    assert_eq!(request.target.host(), "192.0.2.1");
    assert_eq!(request.target.port(), 8080);
    assert!(rest.is_empty());
}

#[test]
fn ipv6_requests_are_read_back() {
    let mut input = vec![5, 1, 0, 4];
    input.extend_from_slice(&[0x20, 1, 0x0d, 0xb8, 0, 0, 0, 0, 0, 0, 0, 0, 0, 0, 0, 1]);
    input.extend_from_slice(&[1, 0xbb]);
    let (request, _) = read(&input).unwrap();
    assert_eq!(request.target.host(), "2001:db8::1");
    assert_eq!(request.target.to_text(), "[2001:db8::1]:443");
}

#[test]
fn refused_requests_are_answered() {
    assert_eq!(
        read(&[4, 1, 0, 1]).unwrap_err(),
        (None, "invalid socks request version".to_string())
    );
    assert_eq!(
        read(&[5, 2, 0, 1]).unwrap_err(),
        (Some(7), "unsupported socks command: 0x02".to_string())
    );
    assert_eq!(
        read(&[5, 1, 1, 1]).unwrap_err(),
        (Some(1), "invalid socks reserved byte".to_string())
    );
    assert_eq!(
        read(&[5, 1, 0, 0x1c]).unwrap_err(),
        (Some(8), "unsupported socks atyp: 0x1c".to_string())
    );
    let bytes = vec![0x61, 0xff];
    let detail = String::from_utf8(bytes).unwrap_err().to_string();
    assert_eq!(
        read(&[5, 1, 0, 3, 2, 0x61, 0xff, 0, 80]).unwrap_err(),
        (None, format!("invalid domain utf8: {detail}"))
    );
}

#[test]
fn cut_requests_say_what_was_being_read() {
    let cut = |input: &[u8]| read(input).unwrap_err().1;
    assert_eq!(cut(&[5, 1]), "socks request head read failed: cut");
    assert_eq!(cut(&[5, 1, 0, 1, 1]), "read ipv4 failed: cut");
    assert_eq!(cut(&[5, 1, 0, 3]), "read domain length failed: cut");
    assert_eq!(cut(&[5, 1, 0, 3, 2, 65]), "read domain failed: cut");
    assert_eq!(cut(&[5, 1, 0, 4, 65]), "read ipv6 failed: cut");
    assert_eq!(cut(&[5, 1, 0, 3, 1, 65, 0]), "read target port failed: cut");
}

#[test]
fn replies_carry_their_code() {
    assert_eq!(reply_bytes(7), vec![5, 7, 0, 1, 0, 0, 0, 0, 0, 0]);
    assert_eq!(
        concise_error(reply_write_error("e")),
        "socks reply write failed: e"
    );
}

#[test]
fn negotiation_accepts_no_authentication_only() {
    assert_eq!(Negotiation::Head.wanted(), 2);
    let state = match Negotiation::Head.on_bytes(&vec![5, 2]) {
        NegotiationStep::Read(state) => state,
        _ => panic!("expected to read the methods"),
    };
    assert_eq!(state.wanted(), 2);
    match state.on_bytes(&vec![2, 0]) {
        NegotiationStep::Write(bytes, next) => {
            assert_eq!(bytes, vec![5, 0]);
            assert!(next.on_written().is_ok());
            assert_eq!(
                concise_error(next.on_write_error("e")),
                "socks method reply failed: e"
            );
        }
        _ => panic!("expected an answer"),
    }
    match state.on_bytes(&vec![1, 2]) {
        NegotiationStep::Write(bytes, next) => {
            assert_eq!(bytes, vec![5, 0xff]);
            assert_eq!(
                concise_error(next.on_written().unwrap_err()),
                "client does not support no-auth method"
            );
            assert_eq!(
                concise_error(next.on_write_error("e")),
                "socks method reject reply failed: e"
            );
        }
        _ => panic!("expected an answer"),
    }
    match Negotiation::Head.on_bytes(&vec![4, 1]) {
        NegotiationStep::Failed(err) => assert_eq!(concise_error(err), "unsupported socks version"),
        _ => panic!("expected a failure"),
    }
    assert_eq!(
        concise_error(Negotiation::Head.on_read_error("e")),
        "socks hello read failed: e"
    );
    assert_eq!(
        concise_error(Negotiation::Methods(1).on_read_error("e")),
        "socks methods read failed: e"
    );
}
