//! The SOCKS5 wire format.
//!
//! Reading from a client is a matter of steps: a reader says how many bytes it wants, takes them,
//! and says what comes next. It never reads itself.

use crate::addr::{
    format_ipv4, format_ipv6, ipv4_of, ipv4_text, ipv6_of, ipv6_text,
    law_ipv4_text_is_dotted_decimal, parse_ipv4, parse_ipv6,
};
use crate::error::EcError;
use crate::text::{append, append_decimal, decimal, trim, trimmed};
use std::string::FromUtf8Error;
use vstd::prelude::*;
use vstd::utf8::{decode_utf8, encode_utf8, valid_utf8};

verus! {

pub const SOCKS_VERSION_5: u8 = 0x05;

pub const SOCKS_METHOD_NO_AUTH: u8 = 0x00;

pub const SOCKS_METHOD_NOT_ACCEPTABLE: u8 = 0xff;

pub const SOCKS_CMD_CONNECT: u8 = 0x01;

pub const SOCKS_CMD_UDP_ASSOCIATE: u8 = 0x03;

pub const SOCKS_RSV: u8 = 0x00;

pub const SOCKS_ATYP_IPV4: u8 = 0x01;

pub const SOCKS_ATYP_DOMAIN: u8 = 0x03;

pub const SOCKS_ATYP_IPV6: u8 = 0x04;

pub const SOCKS_REP_SUCCEEDED: u8 = 0x00;

pub const SOCKS_REP_GENERAL_FAILURE: u8 = 0x01;

pub const SOCKS_REP_CMD_NOT_SUPPORTED: u8 = 0x07;

pub const SOCKS_REP_ATYP_NOT_SUPPORTED: u8 = 0x08;

/// What a client asks for.
#[derive(Clone, Copy, Debug, PartialEq, Eq, Structural)]
pub enum SocksCommand {
    Connect,
    UdpAssociate,
    Other(u8),
}

/// The lower-case hexadecimal digit for `n`.
pub open spec fn hex_digit(n: int) -> char {
    if n < 10 {
        (48 + n) as char
    } else {
        (87 + n) as char
    }
}

/// `0x` and two hexadecimal digits.
pub open spec fn hex_byte(b: u8) -> Seq<char> {
    seq!['0', 'x', hex_digit(b as int / 16), hex_digit(b as int % 16)]
}

/// The lower-case hexadecimal digit for `n`.
fn to_hex_digit(n: u8) -> (r: char)
    requires
        n < 16,
    ensures
        r == hex_digit(n as int),
{
    if n < 10 {
        (48 + n) as char
    } else {
        (87 + n) as char
    }
}

/// Appends `0x` and the two hexadecimal digits of `b`.
fn append_hex(s: &mut String, b: u8)
    ensures
        final(s)@ == old(s)@ + hex_byte(b),
{
    s.push('0');
    s.push('x');
    s.push(to_hex_digit(b / 16));
    s.push(to_hex_digit(b % 16));
    assert(s@ =~= old(s)@ + hex_byte(b));
}

impl SocksCommand {
    /// The command that a byte stands for.
    pub open spec fn of(value: u8) -> SocksCommand {
        if value == SOCKS_CMD_CONNECT {
            SocksCommand::Connect
        } else if value == SOCKS_CMD_UDP_ASSOCIATE {
            SocksCommand::UdpAssociate
        } else {
            SocksCommand::Other(value)
        }
    }

    /// The displayed form of the command.
    pub open spec fn text(self) -> Seq<char> {
        match self {
            SocksCommand::Connect => "CONNECT"@,
            SocksCommand::UdpAssociate => "UDP ASSOCIATE"@,
            SocksCommand::Other(value) => hex_byte(value),
        }
    }

    /// The command that a byte stands for.
    pub fn from_byte(value: u8) -> (r: SocksCommand)
        ensures
            r == SocksCommand::of(value),
    {
        match value {
            SOCKS_CMD_CONNECT => SocksCommand::Connect,
            SOCKS_CMD_UDP_ASSOCIATE => SocksCommand::UdpAssociate,
            other => SocksCommand::Other(other),
        }
    }

    /// The displayed form of the command.
    pub fn to_text(self) -> (r: String)
        ensures
            r@ == self.text(),
    {
        match self {
            SocksCommand::Connect => "CONNECT".to_string(),
            SocksCommand::UdpAssociate => "UDP ASSOCIATE".to_string(),
            SocksCommand::Other(value) => {
                let mut r = String::new();
                append_hex(&mut r, value);
                assert(Seq::<char>::empty() + hex_byte(value) == hex_byte(value));
                r
            },
        }
    }
}

/// The host and port that a client asks for.
#[derive(Debug)]
pub struct ConnectTarget {
    host: String,
    port: u16,
}

/// What a client asks for, and of whom.
#[derive(Debug)]
pub struct SocksRequest {
    pub command: SocksCommand,
    pub target: ConnectTarget,
}

/// A [`ConnectTarget`] with its host as characters.
pub struct ConnectTargetView {
    pub host: Seq<char>,
    pub port: u16,
}

/// A [`SocksRequest`] with its host as characters.
pub struct SocksRequestView {
    pub command: SocksCommand,
    pub target: ConnectTargetView,
}

impl View for ConnectTarget {
    type V = ConnectTargetView;

    closed spec fn view(&self) -> ConnectTargetView {
        ConnectTargetView { host: self.host@, port: self.port }
    }
}

impl View for SocksRequest {
    type V = SocksRequestView;

    open spec fn view(&self) -> SocksRequestView {
        SocksRequestView { command: self.command, target: self.target@ }
    }
}

/// A host and a port as one text, an IPv6 address in brackets.
pub open spec fn socket_target(host: Seq<char>, port: Seq<char>) -> Seq<char> {
    let h = trimmed(host);
    if ipv4_of(h) is None && ipv6_of(h) is Some {
        seq!['['] + h + seq![']', ':'] + port
    } else {
        h + seq![':'] + port
    }
}

/// A host and a port, given as text, as one text.
pub(crate) fn join_socket_target(host: &str, port: &str) -> (r: String)
    ensures
        r@ == socket_target(host@, port@),
{
    let h = trim(host);
    let mut r = String::new();
    if parse_ipv4(h.as_str()).is_none() && parse_ipv6(h.as_str()).is_some() {
        r.push('[');
        append(&mut r, h.as_str());
        r.push(']');
    } else {
        append(&mut r, h.as_str());
    }
    r.push(':');
    append(&mut r, port);
    assert(r@ =~= socket_target(host@, port@));
    r
}

/// A host and a port as one text.
pub fn format_socket_target(host: &str, port: u16) -> (r: String)
    ensures
        r@ == socket_target(host@, decimal(port as nat)),
{
    let mut digits = String::new();
    append_decimal(&mut digits, port as u64);
    assert(digits@ =~= decimal(port as nat));
    join_socket_target(host, digits.as_str())
}

impl ConnectTarget {
    /// The target with the given host and port.
    pub fn new(host: String, port: u16) -> (r: ConnectTarget)
        ensures
            r@ == (ConnectTargetView { host: host@, port }),
    {
        ConnectTarget { host, port }
    }

    /// A copy of the target.
    pub fn copy(&self) -> (r: ConnectTarget)
        ensures
            r@ == self@,
    {
        ConnectTarget { host: self.host.clone(), port: self.port }
    }

    pub fn host(&self) -> (r: &str)
        ensures
            r@ == self@.host,
    {
        self.host.as_str()
    }

    pub fn port(&self) -> (r: u16)
        ensures
            r == self@.port,
    {
        self.port
    }

    /// The displayed form of the target.
    pub fn to_text(&self) -> (r: String)
        ensures
            r@ == socket_target(self@.host, decimal(self@.port as nat)),
    {
        format_socket_target(self.host.as_str(), self.port)
    }
}

/// A reply to a request.
pub open spec fn reply(rep: u8) -> Seq<u8> {
    seq![SOCKS_VERSION_5, rep, SOCKS_RSV, SOCKS_ATYP_IPV4, 0, 0, 0, 0, 0, 0]
}

/// A reply to a request.
pub fn reply_bytes(rep: u8) -> (r: Vec<u8>)
    ensures
        r@ == reply(rep),
{
    vec![SOCKS_VERSION_5, rep, SOCKS_RSV, SOCKS_ATYP_IPV4, 0, 0, 0, 0, 0, 0]
}

/// A message and a detail after it.
fn detailed(message: &str, detail: &str) -> (r: EcError)
    ensures
        r.text() == message@ + detail@,
{
    let mut text = message.to_string();
    append(&mut text, detail);
    EcError::Runtime(text)
}

/// The error for a reply that could not be written.
pub fn reply_write_error(detail: &str) -> (r: EcError)
    ensures
        r.text() == "socks reply write failed: "@ + detail@,
{
    detailed("socks reply write failed: ", detail)
}

/// Choosing the authentication method with a client.
#[derive(Clone, Copy, Debug, PartialEq, Eq, Structural)]
pub enum Negotiation {
    /// The version and the number of methods are to be read.
    Head,
    /// That many methods are to be read.
    Methods(u8),
    /// The answer is being written; it accepts the client or refuses it.
    Reply(bool),
}

/// What comes next in a negotiation.
#[derive(Debug)]
pub enum NegotiationStep {
    /// Read what the state wants.
    Read(Negotiation),
    /// Write the bytes, then go on from the state.
    Write(Vec<u8>, Negotiation),
    /// Give up.
    Failed(EcError),
}

/// A [`NegotiationStep`] with its bytes and texts.
pub enum NegotiationStepView {
    Read(Negotiation),
    Write(Seq<u8>, Negotiation),
    Failed(Seq<char>),
}

impl View for NegotiationStep {
    type V = NegotiationStepView;

    open spec fn view(&self) -> NegotiationStepView {
        match *self {
            NegotiationStep::Read(state) => NegotiationStepView::Read(state),
            NegotiationStep::Write(bytes, state) => NegotiationStepView::Write(bytes@, state),
            NegotiationStep::Failed(err) => NegotiationStepView::Failed(err.text()),
        }
    }
}

/// The answer to the methods that a client offers: no authentication, or none acceptable.
pub open spec fn method_answer(methods: Seq<u8>) -> Seq<u8> {
    if methods.contains(SOCKS_METHOD_NO_AUTH) {
        seq![SOCKS_VERSION_5, SOCKS_METHOD_NO_AUTH]
    } else {
        seq![SOCKS_VERSION_5, SOCKS_METHOD_NOT_ACCEPTABLE]
    }
}

impl Negotiation {
    /// The number of bytes that the state wants.
    pub open spec fn wants(self) -> nat {
        match self {
            Negotiation::Head => 2,
            Negotiation::Methods(count) => count as nat,
            Negotiation::Reply(_) => 0,
        }
    }

    /// What comes after the bytes that the state wants.
    pub open spec fn after(self, bytes: Seq<u8>) -> NegotiationStepView {
        match self {
            Negotiation::Head => if bytes[0] == SOCKS_VERSION_5 {
                NegotiationStepView::Read(Negotiation::Methods(bytes[1]))
            } else {
                NegotiationStepView::Failed("unsupported socks version"@)
            },
            Negotiation::Methods(_) => NegotiationStepView::Write(
                method_answer(bytes),
                Negotiation::Reply(bytes.contains(SOCKS_METHOD_NO_AUTH)),
            ),
            Negotiation::Reply(_) => NegotiationStepView::Read(self),
        }
    }

    /// The number of bytes that the state wants.
    pub fn wanted(self) -> (r: usize)
        ensures
            r == self.wants(),
    {
        match self {
            Negotiation::Head => 2,
            Negotiation::Methods(count) => count as usize,
            Negotiation::Reply(_) => 0,
        }
    }

    /// Takes the bytes that the state wants.
    pub fn on_bytes(self, bytes: &Vec<u8>) -> (r: NegotiationStep)
        requires
            !(self is Reply),
            bytes@.len() == self.wants(),
        ensures
            r@ == self.after(bytes@),
    {
        match self {
            Negotiation::Head => {
                if bytes[0] != SOCKS_VERSION_5 {
                    return NegotiationStep::Failed(EcError::runtime("unsupported socks version"));
                }
                NegotiationStep::Read(Negotiation::Methods(bytes[1]))
            },
            _ => {
                let accepted = contains_byte(bytes, SOCKS_METHOD_NO_AUTH);
                let method: u8 = if accepted {
                    SOCKS_METHOD_NO_AUTH
                } else {
                    SOCKS_METHOD_NOT_ACCEPTABLE
                };
                let answer = vec![SOCKS_VERSION_5, method];
                assert(answer@ =~= method_answer(bytes@));
                NegotiationStep::Write(answer, Negotiation::Reply(accepted))
            },
        }
    }

    /// The error for bytes that could not be read.
    pub fn on_read_error(self, detail: &str) -> (r: EcError)
        requires
            !(self is Reply),
        ensures
            r.text() == (match self {
                Negotiation::Head => "socks hello read failed: "@,
                _ => "socks methods read failed: "@,
            }) + detail@,
    {
        match self {
            Negotiation::Head => detailed("socks hello read failed: ", detail),
            _ => detailed("socks methods read failed: ", detail),
        }
    }

    /// The error for an answer that could not be written.
    pub fn on_write_error(self, detail: &str) -> (r: EcError)
        requires
            self is Reply,
        ensures
            r.text() == (if self == Negotiation::Reply(true) {
                "socks method reply failed: "@
            } else {
                "socks method reject reply failed: "@
            }) + detail@,
    {
        match self {
            Negotiation::Reply(true) => detailed("socks method reply failed: ", detail),
            _ => detailed("socks method reject reply failed: ", detail),
        }
    }

    /// The end of the negotiation, once the answer is written.
    pub fn on_written(self) -> (r: Result<(), EcError>)
        requires
            self is Reply,
        ensures
            match r {
                Ok(()) => self == Negotiation::Reply(true),
                Err(err) => self == Negotiation::Reply(false) && err.text()
                    == "client does not support no-auth method"@,
            },
    {
        match self {
            Negotiation::Reply(true) => Ok(()),
            _ => Err(EcError::runtime("client does not support no-auth method")),
        }
    }
}

/// Whether `b` is among `bytes`.
fn contains_byte(bytes: &Vec<u8>, b: u8) -> (r: bool)
    ensures
        r == bytes@.contains(b),
{
    let mut i: usize = 0;
    while i < bytes.len()
        invariant
            i <= bytes@.len(),
            forall|j: int| 0 <= j < i ==> bytes@[j] != b,
        decreases bytes@.len() - i,
    {
        if bytes[i] == b {
            return true;
        }
        i += 1;
    }
    false
}

#[verifier::external_type_specification]
#[verifier::external_body]
pub struct ExFromUtf8Error(FromUtf8Error);

/// The bytes that a decoding error holds: those that could not be decoded.
pub uninterp spec fn undecoded(err: FromUtf8Error) -> Seq<u8>;

/// The displayed form of the error that decoding the bytes as UTF-8 ends in.
pub uninterp spec fn utf8_error_text(bytes: Seq<u8>) -> Seq<char>;

/// `String::from_utf8`.
///
/// Taken as given: it gives the text that the bytes encode where they are valid UTF-8, and
/// otherwise an error that holds the bytes.
pub assume_specification[ String::from_utf8 ](bytes: Vec<u8>) -> (r: Result<String, FromUtf8Error>)
    ensures
        match r {
            Ok(text) => valid_utf8(bytes@) && text@ == decode_utf8(bytes@),
            Err(err) => !valid_utf8(bytes@) && undecoded(err) == bytes@,
        },
;

/// `ToString::to_string` of `std::string::FromUtf8Error`.
///
/// Taken as given: the displayed form of the error depends on the bytes that it holds alone.
#[verifier::external_body]
fn utf8_error_message(err: FromUtf8Error) -> (r: String)
    ensures
        r@ == utf8_error_text(undecoded(err)),
{
    err.to_string()
}

/// Reading a request.
#[derive(Debug)]
pub enum RequestReader {
    /// Version, command, a reserved byte and the kind of address are to be read.
    Head,
    /// The four bytes of an IPv4 address are to be read.
    Ipv4(SocksCommand),
    /// The length of a domain is to be read.
    DomainLength(SocksCommand),
    /// A domain of that many bytes is to be read.
    Domain(SocksCommand, u8),
    /// The sixteen bytes of an IPv6 address are to be read.
    Ipv6(SocksCommand),
    /// The port is to be read, the last thing after the host.
    Port(SocksCommand, String),
}

/// What comes next in reading a request.
#[derive(Debug)]
pub enum RequestStep {
    /// Read what the reader wants.
    Read(RequestReader),
    /// The request is read.
    Done(SocksRequest),
    /// The request is refused; a reply with the given code, if any, is due first.
    Refused(Option<u8>, EcError),
}

/// A [`RequestReader`] with its host as characters.
pub enum RequestReaderView {
    Head,
    Ipv4(SocksCommand),
    DomainLength(SocksCommand),
    Domain(SocksCommand, u8),
    Ipv6(SocksCommand),
    Port(SocksCommand, Seq<char>),
}

/// A [`RequestStep`] with its texts as characters.
pub enum RequestStepView {
    Read(RequestReaderView),
    Done(SocksRequestView),
    Refused(Option<u8>, Seq<char>),
}

impl View for RequestReader {
    type V = RequestReaderView;

    open spec fn view(&self) -> RequestReaderView {
        match *self {
            RequestReader::Head => RequestReaderView::Head,
            RequestReader::Ipv4(command) => RequestReaderView::Ipv4(command),
            RequestReader::DomainLength(command) => RequestReaderView::DomainLength(command),
            RequestReader::Domain(command, len) => RequestReaderView::Domain(command, len),
            RequestReader::Ipv6(command) => RequestReaderView::Ipv6(command),
            RequestReader::Port(command, host) => RequestReaderView::Port(command, host@),
        }
    }
}

impl View for RequestStep {
    type V = RequestStepView;

    open spec fn view(&self) -> RequestStepView {
        match *self {
            RequestStep::Read(reader) => RequestStepView::Read(reader@),
            RequestStep::Done(request) => RequestStepView::Done(request@),
            RequestStep::Refused(rep, err) => RequestStepView::Refused(rep, err.text()),
        }
    }
}

/// The number that bytes stand for, the first being the most significant.
pub open spec fn big_endian(bytes: Seq<u8>) -> nat
    decreases bytes.len(),
{
    if bytes.len() == 0 {
        0
    } else {
        big_endian(bytes.drop_last()) * 256 + bytes.last() as nat
    }
}

/// What follows the first four bytes of a request.
pub open spec fn after_head(head: Seq<u8>) -> RequestStepView {
    let command = SocksCommand::of(head[1]);
    if head[0] != SOCKS_VERSION_5 {
        RequestStepView::Refused(None, "invalid socks request version"@)
    } else if command is Other {
        RequestStepView::Refused(
            Some(SOCKS_REP_CMD_NOT_SUPPORTED),
            "unsupported socks command: "@ + command.text(),
        )
    } else if head[2] != SOCKS_RSV {
        RequestStepView::Refused(Some(SOCKS_REP_GENERAL_FAILURE), "invalid socks reserved byte"@)
    } else if head[3] == SOCKS_ATYP_IPV4 {
        RequestStepView::Read(RequestReaderView::Ipv4(command))
    } else if head[3] == SOCKS_ATYP_DOMAIN {
        RequestStepView::Read(RequestReaderView::DomainLength(command))
    } else if head[3] == SOCKS_ATYP_IPV6 {
        RequestStepView::Read(RequestReaderView::Ipv6(command))
    } else {
        RequestStepView::Refused(
            Some(SOCKS_REP_ATYP_NOT_SUPPORTED),
            "unsupported socks atyp: "@ + hex_byte(head[3]),
        )
    }
}

impl RequestReaderView {
    /// The number of bytes that the reader wants.
    pub open spec fn wants(self) -> nat {
        match self {
            RequestReaderView::Head => 4,
            RequestReaderView::Ipv4(_) => 4,
            RequestReaderView::DomainLength(_) => 1,
            RequestReaderView::Domain(_, len) => len as nat,
            RequestReaderView::Ipv6(_) => 16,
            RequestReaderView::Port(_, _) => 2,
        }
    }

    /// What comes after the bytes that the reader wants.
    pub open spec fn after(self, bytes: Seq<u8>) -> RequestStepView {
        match self {
            RequestReaderView::Head => after_head(bytes),
            RequestReaderView::Ipv4(command) => RequestStepView::Read(
                RequestReaderView::Port(command, ipv4_text(big_endian(bytes) as u32)),
            ),
            RequestReaderView::DomainLength(command) => RequestStepView::Read(
                RequestReaderView::Domain(command, bytes[0]),
            ),
            RequestReaderView::Domain(command, _) => if valid_utf8(bytes) {
                RequestStepView::Read(RequestReaderView::Port(command, decode_utf8(bytes)))
            } else {
                RequestStepView::Refused(None, "invalid domain utf8: "@ + utf8_error_text(bytes))
            },
            RequestReaderView::Ipv6(command) => RequestStepView::Read(
                RequestReaderView::Port(command, ipv6_text(big_endian(bytes) as u128)),
            ),
            RequestReaderView::Port(command, host) => RequestStepView::Done(
                SocksRequestView {
                    command,
                    target: ConnectTargetView { host, port: big_endian(bytes) as u16 },
                },
            ),
        }
    }
}

/// The number that at most sixteen bytes stand for.
fn from_big_endian(bytes: &Vec<u8>) -> (r: u128)
    requires
        bytes@.len() <= 16,
    ensures
        r == big_endian(bytes@),
{
    let mut value: u128 = 0;
    let mut i: usize = 0;
    while i < bytes.len()
        invariant
            i <= bytes@.len() <= 16,
            value == big_endian(bytes@.take(i as int)),
        decreases bytes@.len() - i,
    {
        assert(bytes@.take(i + 1).drop_last() == bytes@.take(i as int));
        proof {
            lemma_big_endian_bound(bytes@.take(i + 1));
            lemma_power_bound((i + 1) as nat);
        }
        value = value * 256 + bytes[i] as u128;
        i += 1;
    }
    assert(bytes@.take(i as int) == bytes@);
    value
}

/// 256 to the power of `n`.
spec fn pow256(n: nat) -> nat
    decreases n,
{
    if n == 0 {
        1
    } else {
        256 * pow256((n - 1) as nat)
    }
}

proof fn lemma_big_endian_bound(bytes: Seq<u8>)
    ensures
        big_endian(bytes) < pow256(bytes.len()),
    decreases bytes.len(),
{
    if bytes.len() > 0 {
        lemma_big_endian_bound(bytes.drop_last());
    }
}

proof fn lemma_power_bound(n: nat)
    requires
        n <= 16,
    ensures
        pow256(n) <= 0x1_0000_0000_0000_0000_0000_0000_0000_0000,
        n <= 4 ==> pow256(n) <= 0x1_0000_0000,
        n <= 2 ==> pow256(n) <= 0x1_0000,
{
    reveal_with_fuel(pow256, 17);
}

impl RequestReader {
    /// The number of bytes that the reader wants.
    pub fn wanted(&self) -> (r: usize)
        ensures
            r == self@.wants(),
    {
        match self {
            RequestReader::Head => 4,
            RequestReader::Ipv4(_) => 4,
            RequestReader::DomainLength(_) => 1,
            RequestReader::Domain(_, len) => *len as usize,
            RequestReader::Ipv6(_) => 16,
            RequestReader::Port(_, _) => 2,
        }
    }

    /// Takes the bytes that the reader wants.
    pub fn on_bytes(self, bytes: Vec<u8>) -> (r: RequestStep)
        requires
            bytes@.len() == self@.wants(),
        ensures
            r@ == self@.after(bytes@),
    {
        proof {
            lemma_big_endian_bound(bytes@);
            if bytes@.len() <= 16 {
                lemma_power_bound(bytes@.len());
            }
        }
        match self {
            RequestReader::Head => read_head(&bytes),
            RequestReader::Ipv4(command) => {
                let ip: u32 = from_big_endian(&bytes) as u32;
                RequestStep::Read(RequestReader::Port(command, format_ipv4(ip)))
            },
            RequestReader::DomainLength(command) => RequestStep::Read(
                RequestReader::Domain(command, bytes[0]),
            ),
            RequestReader::Domain(command, _) => match String::from_utf8(bytes) {
                Ok(host) => RequestStep::Read(RequestReader::Port(command, host)),
                Err(err) => RequestStep::Refused(
                    None,
                    detailed("invalid domain utf8: ", utf8_error_message(err).as_str()),
                ),
            },
            RequestReader::Ipv6(command) => {
                let host = format_ipv6(from_big_endian(&bytes));
                RequestStep::Read(RequestReader::Port(command, host))
            },
            RequestReader::Port(command, host) => {
                let port: u16 = from_big_endian(&bytes) as u16;
                RequestStep::Done(SocksRequest { command, target: ConnectTarget { host, port } })
            },
        }
    }

    /// The error for bytes that could not be read.
    pub fn on_read_error(&self, detail: &str) -> (r: EcError)
        ensures
            r.text() == (match self@ {
                RequestReaderView::Head => "socks request head read failed: "@,
                RequestReaderView::Ipv4(_) => "read ipv4 failed: "@,
                RequestReaderView::DomainLength(_) => "read domain length failed: "@,
                RequestReaderView::Domain(_, _) => "read domain failed: "@,
                RequestReaderView::Ipv6(_) => "read ipv6 failed: "@,
                RequestReaderView::Port(_, _) => "read target port failed: "@,
            }) + detail@,
    {
        match self {
            RequestReader::Head => detailed("socks request head read failed: ", detail),
            RequestReader::Ipv4(_) => detailed("read ipv4 failed: ", detail),
            RequestReader::DomainLength(_) => detailed("read domain length failed: ", detail),
            RequestReader::Domain(_, _) => detailed("read domain failed: ", detail),
            RequestReader::Ipv6(_) => detailed("read ipv6 failed: ", detail),
            RequestReader::Port(_, _) => detailed("read target port failed: ", detail),
        }
    }
}

/// Takes the first four bytes of a request.
fn read_head(head: &Vec<u8>) -> (r: RequestStep)
    requires
        head@.len() == 4,
    ensures
        r@ == after_head(head@),
{
    if head[0] != SOCKS_VERSION_5 {
        return RequestStep::Refused(None, EcError::runtime("invalid socks request version"));
    }
    let command = SocksCommand::from_byte(head[1]);
    if let SocksCommand::Other(_) = command {
        return RequestStep::Refused(
            Some(SOCKS_REP_CMD_NOT_SUPPORTED),
            unsupported_command_error(command),
        );
    }
    if head[2] != SOCKS_RSV {
        return RequestStep::Refused(
            Some(SOCKS_REP_GENERAL_FAILURE),
            EcError::runtime("invalid socks reserved byte"),
        );
    }
    match head[3] {
        SOCKS_ATYP_IPV4 => RequestStep::Read(RequestReader::Ipv4(command)),
        SOCKS_ATYP_DOMAIN => RequestStep::Read(RequestReader::DomainLength(command)),
        SOCKS_ATYP_IPV6 => RequestStep::Read(RequestReader::Ipv6(command)),
        atyp => {
            let mut text = "unsupported socks atyp: ".to_string();
            append_hex(&mut text, atyp);
            RequestStep::Refused(Some(SOCKS_REP_ATYP_NOT_SUPPORTED), EcError::Runtime(text))
        },
    }
}

/// The error for a command that is not supported.
pub fn unsupported_command_error(command: SocksCommand) -> (r: EcError)
    ensures
        r.text() == "unsupported socks command: "@ + command.text(),
{
    detailed("unsupported socks command: ", command.to_text().as_str())
}

/// How reading a request from a given input ends.
pub enum RequestEnd {
    /// With a request, and what is left of the input.
    Done(SocksRequestView, Seq<u8>),
    /// With a refusal, after the given reply, if any.
    Refused(Option<u8>, Seq<char>),
    /// With too little input for the reader.
    Cut(RequestReaderView),
}

/// How far a reader is from the end of the request.
pub open spec fn stages_left(reader: RequestReaderView) -> nat {
    match reader {
        RequestReaderView::Head => 4,
        RequestReaderView::DomainLength(_) => 3,
        RequestReaderView::Ipv4(_) => 2,
        RequestReaderView::Domain(_, _) => 2,
        RequestReaderView::Ipv6(_) => 2,
        RequestReaderView::Port(_, _) => 1,
    }
}

/// How reading on from `reader` ends on `input`.
pub open spec fn read_request(reader: RequestReaderView, input: Seq<u8>) -> RequestEnd
    decreases stages_left(reader),
{
    let n = reader.wants() as int;
    if input.len() < n {
        RequestEnd::Cut(reader)
    } else {
        match reader.after(input.take(n)) {
            RequestStepView::Done(request) => RequestEnd::Done(request, input.skip(n)),
            RequestStepView::Refused(rep, error) => RequestEnd::Refused(rep, error),
            RequestStepView::Read(next) => read_request(next, input.skip(n)),
        }
    }
}

/// The two bytes of a port, the more significant first.
pub open spec fn port_bytes(port: u16) -> Seq<u8> {
    seq![(port / 256) as u8, (port % 256) as u8]
}

/// The four bytes of an IPv4 address, the most significant first.
pub open spec fn ipv4_bytes(ip: u32) -> Seq<u8> {
    seq![
        (ip / 0x100_0000) as u8,
        ((ip / 0x1_0000) % 0x100) as u8,
        ((ip / 0x100) % 0x100) as u8,
        (ip % 0x100) as u8,
    ]
}

proof fn lemma_big_endian_two(bytes: Seq<u8>)
    requires
        bytes.len() == 2,
    ensures
        big_endian(bytes) == bytes[0] * 256 + bytes[1],
{
    reveal_with_fuel(big_endian, 3);
    assert(bytes.drop_last().drop_last().len() == 0);
}

proof fn lemma_big_endian_four(bytes: Seq<u8>)
    requires
        bytes.len() == 4,
    ensures
        big_endian(bytes) == bytes[0] * 0x100_0000 + bytes[1] * 0x1_0000 + bytes[2] * 0x100
            + bytes[3],
{
    let three = bytes.drop_last();
    let two = three.drop_last();
    lemma_big_endian_two(two);
    assert(big_endian(three) == big_endian(two) * 256 + three.last());
    assert(big_endian(bytes) == big_endian(three) * 256 + bytes.last());
}

proof fn lemma_ipv4_value(ip: u32)
    ensures
        big_endian(ipv4_bytes(ip)) == ip,
{
    lemma_big_endian_four(ipv4_bytes(ip));
}

proof fn lemma_ipv4_read(command: SocksCommand, ip: u32)
    ensures
        RequestReaderView::Ipv4(command).after(ipv4_bytes(ip)) == RequestStepView::Read(
            RequestReaderView::Port(command, ipv4_text(ip)),
        ),
        ipv4_bytes(ip).len() == RequestReaderView::Ipv4(command).wants(),
{
    lemma_ipv4_value(ip);
}

proof fn lemma_read_port(command: SocksCommand, host: Seq<char>, port: u16, rest: Seq<u8>)
    ensures
        read_request(RequestReaderView::Port(command, host), port_bytes(port) + rest)
            == RequestEnd::Done(
            SocksRequestView { command, target: ConnectTargetView { host, port } },
            rest,
        ),
{
    let input = port_bytes(port) + rest;
    assert(input.take(2) == port_bytes(port));
    assert(input.skip(2) == rest);
    lemma_big_endian_two(port_bytes(port));
    let reader = RequestReaderView::Port(command, host);
    assert(reader.wants() == 2);
    assert(big_endian(port_bytes(port)) == port);
}

proof fn lemma_read_step(reader: RequestReaderView, bytes: Seq<u8>, input: Seq<u8>)
    requires
        bytes.len() == reader.wants(),
        reader.after(bytes) is Read,
    ensures
        read_request(reader, bytes + input) == read_request(
            reader.after(bytes)->Read_0,
            input,
        ),
{
    assert((bytes + input).take(bytes.len() as int) == bytes);
    assert((bytes + input).skip(bytes.len() as int) == input);
}

/// A head that is in order leads to the reader for its kind of address.
proof fn lemma_head_read(command: u8, atyp: u8)
    requires
        !(SocksCommand::of(command) is Other),
    ensures
        ({
            let head = seq![SOCKS_VERSION_5, command, SOCKS_RSV, atyp];
            let cmd = SocksCommand::of(command);
            let after = RequestReaderView::Head.after(head);
            &&& head.len() == RequestReaderView::Head.wants()
            &&& atyp == SOCKS_ATYP_IPV4 ==> after == RequestStepView::Read(
                RequestReaderView::Ipv4(cmd),
            )
            &&& atyp == SOCKS_ATYP_DOMAIN ==> after == RequestStepView::Read(
                RequestReaderView::DomainLength(cmd),
            )
            &&& atyp == SOCKS_ATYP_IPV6 ==> after == RequestStepView::Read(
                RequestReaderView::Ipv6(cmd),
            )
        }),
{
}

/// The encoded form of a host is read as that host.
proof fn lemma_domain_read(command: SocksCommand, host: Seq<char>)
    requires
        encode_utf8(host).len() <= 255,
    ensures
        ({
            let reader = RequestReaderView::Domain(command, encode_utf8(host).len() as u8);
            &&& encode_utf8(host).len() == reader.wants()
            &&& reader.after(encode_utf8(host)) == RequestStepView::Read(
                RequestReaderView::Port(command, host),
            )
        }),
{
    vstd::utf8::encode_utf8_valid_utf8(host);
    vstd::utf8::encode_utf8_decode_utf8(host);
}

/// What follows the head of a request with a domain is read to its end.
proof fn lemma_read_domain(command: SocksCommand, host: Seq<char>, port: u16, rest: Seq<u8>)
    requires
        encode_utf8(host).len() <= 255,
    ensures
        read_request(
            RequestReaderView::DomainLength(command),
            seq![encode_utf8(host).len() as u8] + (encode_utf8(host) + (port_bytes(port) + rest)),
        ) == RequestEnd::Done(
            SocksRequestView { command, target: ConnectTargetView { host, port } },
            rest,
        ),
{
    let name = encode_utf8(host);
    let len = seq![name.len() as u8];
    let tail = port_bytes(port) + rest;
    lemma_read_step(RequestReaderView::DomainLength(command), len, name + tail);
    lemma_domain_read(command, host);
    lemma_read_step(RequestReaderView::Domain(command, name.len() as u8), name, tail);
    lemma_read_port(command, host, port, rest);
}

/// A request that names its host by a domain is read back as it was written: the command, the
/// name and the port, and nothing beyond them.
pub proof fn law_domain_request_is_read_back(
    command: u8,
    host: Seq<char>,
    port: u16,
    rest: Seq<u8>,
)
    requires
        !(SocksCommand::of(command) is Other),
        encode_utf8(host).len() <= 255,
    ensures
        read_request(
            RequestReaderView::Head,
            seq![SOCKS_VERSION_5, command, SOCKS_RSV, SOCKS_ATYP_DOMAIN] + (seq![
                encode_utf8(host).len() as u8,
            ] + (encode_utf8(host) + (port_bytes(port) + rest))),
        ) == RequestEnd::Done(
            SocksRequestView {
                command: SocksCommand::of(command),
                target: ConnectTargetView { host, port },
            },
            rest,
        ),
{
    let head = seq![SOCKS_VERSION_5, command, SOCKS_RSV, SOCKS_ATYP_DOMAIN];
    let body = seq![encode_utf8(host).len() as u8] + (encode_utf8(host) + (port_bytes(port) + rest));
    lemma_head_read(command, SOCKS_ATYP_DOMAIN);
    lemma_read_step(RequestReaderView::Head, head, body);
    lemma_read_domain(SocksCommand::of(command), host, port, rest);
}

/// A request that names its host by an IPv4 address is read as that address, written out.
pub proof fn law_ipv4_request_is_read_back(command: u8, ip: u32, port: u16, rest: Seq<u8>)
    requires
        !(SocksCommand::of(command) is Other),
    ensures
        read_request(
            RequestReaderView::Head,
            seq![SOCKS_VERSION_5, command, SOCKS_RSV, SOCKS_ATYP_IPV4] + (ipv4_bytes(ip) + (
            port_bytes(port) + rest)),
        ) == RequestEnd::Done(
            SocksRequestView {
                command: SocksCommand::of(command),
                target: ConnectTargetView { host: ipv4_text(ip), port },
            },
            rest,
        ),
{
    let cmd = SocksCommand::of(command);
    let head = seq![SOCKS_VERSION_5, command, SOCKS_RSV, SOCKS_ATYP_IPV4];
    let tail = port_bytes(port) + rest;
    let host = ipv4_text(ip);
    lemma_head_read(command, SOCKS_ATYP_IPV4);
    lemma_read_step(RequestReaderView::Head, head, ipv4_bytes(ip) + tail);
    lemma_ipv4_read(cmd, ip);
    lemma_read_step(RequestReaderView::Ipv4(cmd), ipv4_bytes(ip), tail);
    lemma_read_port(cmd, host, port, rest);
}

/// A request that names its host by an IPv6 address is read as that address, written out.
pub proof fn law_ipv6_request_is_read_back(command: u8, ip: Seq<u8>, port: u16, rest: Seq<u8>)
    requires
        !(SocksCommand::of(command) is Other),
        ip.len() == 16,
    ensures
        read_request(
            RequestReaderView::Head,
            seq![SOCKS_VERSION_5, command, SOCKS_RSV, SOCKS_ATYP_IPV6] + (ip + (port_bytes(port)
                + rest)),
        ) == RequestEnd::Done(
            SocksRequestView {
                command: SocksCommand::of(command),
                target: ConnectTargetView { host: ipv6_text(big_endian(ip) as u128), port },
            },
            rest,
        ),
{
    let cmd = SocksCommand::of(command);
    let head = seq![SOCKS_VERSION_5, command, SOCKS_RSV, SOCKS_ATYP_IPV6];
    let tail = port_bytes(port) + rest;
    lemma_head_read(command, SOCKS_ATYP_IPV6);
    lemma_read_step(RequestReaderView::Head, head, ip + tail);
    lemma_read_step(RequestReaderView::Ipv6(cmd), ip, tail);
    lemma_read_port(cmd, ipv6_text(big_endian(ip) as u128), port, rest);
}

/// What a refused request is answered, whatever follows its first four bytes: nothing for a wrong
/// version; "command not supported" for a command other than CONNECT and UDP ASSOCIATE; a general
/// failure for a reserved byte that is not zero; "address type not supported" for an unknown kind
/// of address. No other request is refused at its head.
pub proof fn law_refused_requests_are_answered(input: Seq<u8>)
    requires
        input.len() >= 4,
    ensures
        ({
            let end = read_request(RequestReaderView::Head, input);
            let reply_due = |rep: Option<u8>| end matches RequestEnd::Refused(r, _) && r == rep;
            if input[0] != SOCKS_VERSION_5 {
                reply_due(None)
            } else if SocksCommand::of(input[1]) is Other {
                reply_due(Some(SOCKS_REP_CMD_NOT_SUPPORTED))
            } else if input[2] != SOCKS_RSV {
                reply_due(Some(SOCKS_REP_GENERAL_FAILURE))
            } else if input[3] != SOCKS_ATYP_IPV4 && input[3] != SOCKS_ATYP_DOMAIN && input[3]
                != SOCKS_ATYP_IPV6 {
                reply_due(Some(SOCKS_REP_ATYP_NOT_SUPPORTED))
            } else {
                end matches RequestEnd::Refused(r, _) ==> r is None && input[3]
                    == SOCKS_ATYP_DOMAIN
            }
        }),
{
    let head = input.take(4);
    assert(head[0] == input[0] && head[1] == input[1] && head[2] == input[2] && head[3]
        == input[3]);
    if let RequestStepView::Read(next) = after_head(head) {
        reveal_with_fuel(read_request, 5);
    }
}

/// A client that offers a list of methods is told "no authentication" and accepted where that is
/// among them, and is told "none acceptable" and refused otherwise.
pub proof fn law_negotiation(methods: Seq<u8>)
    requires
        methods.len() <= 255,
    ensures
        Negotiation::Head.after(seq![SOCKS_VERSION_5, methods.len() as u8])
            == NegotiationStepView::Read(Negotiation::Methods(methods.len() as u8)),
        Negotiation::Methods(methods.len() as u8).wants() == methods.len(),
        Negotiation::Methods(methods.len() as u8).after(methods) == NegotiationStepView::Write(
            seq![
                SOCKS_VERSION_5,
                if methods.contains(SOCKS_METHOD_NO_AUTH) {
                    SOCKS_METHOD_NO_AUTH
                } else {
                    SOCKS_METHOD_NOT_ACCEPTABLE
                },
            ],
            Negotiation::Reply(methods.contains(SOCKS_METHOD_NO_AUTH)),
        ),
{
}

/// The numbers of the protocol.
pub proof fn law_socks_numbers()
    ensures
        SOCKS_VERSION_5 == 5,
        SOCKS_METHOD_NO_AUTH == 0,
        SOCKS_METHOD_NOT_ACCEPTABLE == 0xff,
        SOCKS_RSV == 0,
        SOCKS_ATYP_IPV4 == 1 && SOCKS_ATYP_DOMAIN == 3 && SOCKS_ATYP_IPV6 == 4,
        SOCKS_REP_SUCCEEDED == 0,
        SOCKS_REP_GENERAL_FAILURE == 1,
        SOCKS_REP_CMD_NOT_SUPPORTED == 7,
        SOCKS_REP_ATYP_NOT_SUPPORTED == 8,
{
}

/// The commands: 1 is CONNECT, 3 is UDP ASSOCIATE, any other byte stands for itself and is displayed
/// in hexadecimal.
pub proof fn law_commands(value: u8)
    ensures
        SocksCommand::of(value) == match value {
            1u8 => SocksCommand::Connect,
            3u8 => SocksCommand::UdpAssociate,
            other => SocksCommand::Other(other),
        },
        SocksCommand::Connect.text() == "CONNECT"@,
        SocksCommand::UdpAssociate.text() == "UDP ASSOCIATE"@,
        SocksCommand::Other(value).text() == "0x"@ + seq![
            "0123456789abcdef"@[value as int / 16],
            "0123456789abcdef"@[value as int % 16],
        ],
{
    reveal_strlit("0x");
    reveal_strlit("0123456789abcdef");
    assert(SocksCommand::Other(value).text() =~= "0x"@ + seq![
        "0123456789abcdef"@[value as int / 16],
        "0123456789abcdef"@[value as int % 16],
    ]);
}

/// A reply is ten bytes: the version, the code, and the address 0.0.0.0 with port 0.
pub proof fn law_reply(rep: u8)
    ensures
        reply(rep) == seq![5u8, rep, 0, 1, 0, 0, 0, 0, 0, 0],
{
}

/// What each stage of a request reads.
pub proof fn law_stages_read(command: SocksCommand, len: u8, host: Seq<char>)
    ensures
        RequestReaderView::Head.wants() == 4,
        RequestReaderView::Ipv4(command).wants() == 4,
        RequestReaderView::DomainLength(command).wants() == 1,
        RequestReaderView::Domain(command, len).wants() == len,
        RequestReaderView::Ipv6(command).wants() == 16,
        RequestReaderView::Port(command, host).wants() == 2,
        Negotiation::Head.wants() == 2,
        Negotiation::Methods(len).wants() == len,
        Negotiation::Reply(true).wants() == 0 && Negotiation::Reply(false).wants() == 0,
{
}

/// The number that bytes stand for: one more byte multiplies it by 256 and adds the byte.
pub proof fn law_big_endian(bytes: Seq<u8>, b: u8)
    ensures
        big_endian(Seq::empty()) == 0,
        big_endian(bytes.push(b)) == big_endian(bytes) * 256 + b,
{
    assert(bytes.push(b).drop_last() == bytes);
}

/// What the head of a request leads to, in the order in which it is looked at: the version, the
/// command, the reserved byte, the kind of address.
pub proof fn law_head_of_a_request(version: u8, command: u8, reserved: u8, atyp: u8)
    ensures
        ({
            let cmd = SocksCommand::of(command);
            let known = command == 1 || command == 3;
            RequestReaderView::Head.after(seq![version, command, reserved, atyp]) == if version
                != 5 {
                RequestStepView::Refused(None, "invalid socks request version"@)
            } else if !known {
                RequestStepView::Refused(Some(7), "unsupported socks command: "@ + cmd.text())
            } else if reserved != 0 {
                RequestStepView::Refused(Some(1), "invalid socks reserved byte"@)
            } else if atyp == 1 {
                RequestStepView::Read(RequestReaderView::Ipv4(cmd))
            } else if atyp == 3 {
                RequestStepView::Read(RequestReaderView::DomainLength(cmd))
            } else if atyp == 4 {
                RequestStepView::Read(RequestReaderView::Ipv6(cmd))
            } else {
                RequestStepView::Refused(
                    Some(8),
                    "unsupported socks atyp: 0x"@ + seq![
                        "0123456789abcdef"@[atyp as int / 16],
                        "0123456789abcdef"@[atyp as int % 16],
                    ],
                )
            }
        }),
{
    reveal_strlit("unsupported socks atyp: ");
    reveal_strlit("unsupported socks atyp: 0x");
    reveal_strlit("0123456789abcdef");
    assert("unsupported socks atyp: "@ + hex_byte(atyp) =~= "unsupported socks atyp: 0x"@ + seq![
        "0123456789abcdef"@[atyp as int / 16],
        "0123456789abcdef"@[atyp as int % 16],
    ]);
}

/// What the later stages of a request lead to: an address is written out, a domain is decoded, and
/// the port completes the request. A domain that is no UTF-8 is refused without a reply.
pub proof fn law_rest_of_a_request(command: SocksCommand, len: u8, host: Seq<char>, bytes: Seq<u8>)
    ensures
        bytes.len() == 4 ==> RequestReaderView::Ipv4(command).after(bytes)
            == RequestStepView::Read(
            RequestReaderView::Port(
                command,
                decimal(bytes[0] as nat) + seq!['.'] + decimal(bytes[1] as nat) + seq!['.']
                    + decimal(bytes[2] as nat) + seq!['.'] + decimal(bytes[3] as nat),
            ),
        ),
        bytes.len() == 1 ==> RequestReaderView::DomainLength(command).after(bytes)
            == RequestStepView::Read(RequestReaderView::Domain(command, bytes[0])),
        RequestReaderView::Domain(command, len).after(bytes) == if valid_utf8(bytes) {
            RequestStepView::Read(RequestReaderView::Port(command, decode_utf8(bytes)))
        } else {
            RequestStepView::Refused(None, "invalid domain utf8: "@ + utf8_error_text(bytes))
        },
        bytes.len() == 16 ==> RequestReaderView::Ipv6(command).after(bytes)
            == RequestStepView::Read(
            RequestReaderView::Port(command, ipv6_text(big_endian(bytes) as u128)),
        ),
        bytes.len() == 2 ==> RequestReaderView::Port(command, host).after(bytes)
            == RequestStepView::Done(
            SocksRequestView {
                command,
                target: ConnectTargetView { host, port: (bytes[0] * 256 + bytes[1]) as u16 },
            },
        ),
{
    if bytes.len() == 4 {
        lemma_big_endian_four(bytes);
        law_ipv4_text_is_dotted_decimal(
            big_endian(bytes) as u32,
            bytes[0] as nat,
            bytes[1] as nat,
            bytes[2] as nat,
            bytes[3] as nat,
        );
    }
    if bytes.len() == 2 {
        lemma_big_endian_two(bytes);
    }
}

/// A hello of another version is refused, and one of version 5 leads to its methods; no answer is
/// given before they are read.
pub proof fn law_hello(version: u8, count: u8)
    ensures
        Negotiation::Head.after(seq![version, count]) == if version == 5 {
            NegotiationStepView::Read(Negotiation::Methods(count))
        } else {
            NegotiationStepView::Failed("unsupported socks version"@)
        },
{
}

/// The answer to the methods: 0 where it is among them, in whatever place, and 255 otherwise.
pub proof fn law_method_answer(count: u8, methods: Seq<u8>)
    ensures
        (exists|i: int| 0 <= i < methods.len() && #[trigger] methods[i] == 0)
            ==> Negotiation::Methods(count).after(methods) == NegotiationStepView::Write(
            seq![5u8, 0u8],
            Negotiation::Reply(true),
        ),
        (forall|i: int| 0 <= i < methods.len() ==> #[trigger] methods[i] != 0)
            ==> Negotiation::Methods(count).after(methods) == NegotiationStepView::Write(
            seq![5u8, 255u8],
            Negotiation::Reply(false),
        ),
{
}

/// The views of the steps of a negotiation and of a request keep what they hold.
pub proof fn law_wire_views(
    state: Negotiation,
    bytes: Vec<u8>,
    err: EcError,
    reader: RequestReader,
    request: SocksRequest,
    rep: Option<u8>,
    command: SocksCommand,
    len: u8,
    host: String,
)
    ensures
        NegotiationStep::Read(state)@ == NegotiationStepView::Read(state),
        NegotiationStep::Write(bytes, state)@ == NegotiationStepView::Write(bytes@, state),
        NegotiationStep::Failed(err)@ == NegotiationStepView::Failed(err.text()),
        RequestStep::Read(reader)@ == RequestStepView::Read(reader@),
        RequestStep::Done(request)@ == RequestStepView::Done(request@),
        RequestStep::Refused(rep, err)@ == RequestStepView::Refused(rep, err.text()),
        RequestReader::Head@ == RequestReaderView::Head,
        RequestReader::Ipv4(command)@ == RequestReaderView::Ipv4(command),
        RequestReader::DomainLength(command)@ == RequestReaderView::DomainLength(command),
        RequestReader::Domain(command, len)@ == RequestReaderView::Domain(command, len),
        RequestReader::Ipv6(command)@ == RequestReaderView::Ipv6(command),
        RequestReader::Port(command, host)@ == RequestReaderView::Port(command, host@),
        request@.command == request.command && request@.target == request.target@,
{
}

} // verus!
