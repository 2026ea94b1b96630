//! Network addresses and their text forms.
//!
//! An IPv4 address is its 32-bit number, an IPv6 address its 128-bit number.

use crate::text::{
    append, append_decimal, chars_of, decimal, digit, digits_value, is_digit, number_of, parse_number,
    split_first, split_once, text_of,
};
use vstd::arithmetic::div_mod::lemma_fundamental_div_mod_converse;
use vstd::prelude::*;

verus! {

/// A transport address: an IP address with a port, and for IPv6 a scope.
#[derive(Debug, Clone, Copy, PartialEq, Eq, Structural)]
pub enum SocketAddr {
    V4 { ip: u32, port: u16 },
    V6 { ip6: u128, scope_id: u32, port: u16 },
}

/// The IPv6 address that a text reads as, where it does.
pub uninterp spec fn ipv6_of(text: Seq<char>) -> Option<u128>;

/// The text that an IPv6 address is displayed as.
pub uninterp spec fn ipv6_text(ip: u128) -> Seq<char>;

/// `FromStr` of `smoltcp::wire::Ipv6Address`, which is `core::net::Ipv6Addr`.
///
/// Taken as given: whether the text reads as an address, and which, depends on the text alone.
#[verifier::external_body]
pub(crate) fn parse_ipv6(s: &str) -> (r: Option<u128>)
    ensures
        r == ipv6_of(s@),
{
    s.parse::<smoltcp::wire::Ipv6Address>().ok().map(u128::from)
}

/// `Display` of `smoltcp::wire::Ipv6Address`, which is `core::net::Ipv6Addr`.
///
/// Taken as given: the text depends on the address alone.
#[verifier::external_body]
pub(crate) fn format_ipv6(ip: u128) -> (r: String)
    ensures
        r@ == ipv6_text(ip),
{
    smoltcp::wire::Ipv6Address::from(ip).to_string()
}

/// The text `x`, a dot, the text `y`.
pub open spec fn dotted(x: Seq<char>, y: Seq<char>) -> Seq<char> {
    x.push('.') + y
}

/// Octet `i` of an IPv4 address, the first being the most significant.
pub open spec fn octet(ip: u32, i: int) -> nat {
    if i == 0 {
        (ip / 0x100_0000) as nat
    } else if i == 1 {
        ((ip / 0x1_0000) % 0x100) as nat
    } else if i == 2 {
        ((ip / 0x100) % 0x100) as nat
    } else {
        (ip % 0x100) as nat
    }
}

/// The dotted decimal form of an IPv4 address.
pub open spec fn ipv4_text(ip: u32) -> Seq<char> {
    dotted(
        decimal(octet(ip, 0)),
        dotted(decimal(octet(ip, 1)), dotted(decimal(octet(ip, 2)), decimal(octet(ip, 3)))),
    )
}

/// The IPv4 address that `s` is the dotted decimal form of.
pub open spec fn ipv4_of(s: Seq<char>) -> Option<u32> {
    if exists|ip: u32| ipv4_text(ip) == s {
        Some(choose|ip: u32| ipv4_text(ip) == s)
    } else {
        None
    }
}

pub(crate) proof fn lemma_decimal(n: nat)
    ensures
        decimal(n).len() > 0,
        digits_value(decimal(n)) == n,
        forall|i: int| 0 <= i < decimal(n).len() ==> is_digit(#[trigger] decimal(n)[i]),
    decreases n,
{
    if n >= 10 {
        lemma_decimal(n / 10);
        assert(decimal(n).drop_last() == decimal(n / 10));
    } else {
        assert(decimal(n).drop_last() == Seq::<char>::empty());
        assert(digits_value(Seq::<char>::empty()) == 0);
    }
}

proof fn lemma_split_dotted(x: Seq<char>, y: Seq<char>)
    requires
        forall|i: int| 0 <= i < x.len() ==> is_digit(#[trigger] x[i]),
    ensures
        split_first(dotted(x, y), '.') == Some((x, y)),
{
    crate::text::lemma_first_index_at(dotted(x, y), '.', x.len() as int);
    assert(dotted(x, y).take(x.len() as int) == x);
    assert(dotted(x, y).skip(x.len() as int + 1) == y);
}

/// Reading back the displayed form of an IPv4 address gives that address.
pub proof fn law_ipv4_text_round_trip(ip: u32)
    ensures
        ipv4_of(ipv4_text(ip)) == Some(ip),
{
    let other = choose|other: u32| ipv4_text(other) == ipv4_text(ip);
    lemma_ipv4_text_injective(other, ip);
}

proof fn lemma_ipv4_text_injective(a: u32, b: u32)
    requires
        ipv4_text(a) == ipv4_text(b),
    ensures
        a == b,
{
    lemma_ipv4_parts(a);
    lemma_ipv4_parts(b);
}

proof fn lemma_ipv4_parts(a: u32)
    ensures
        ({
            let r3 = decimal(octet(a, 3));
            let r2 = dotted(decimal(octet(a, 2)), r3);
            let r1 = dotted(decimal(octet(a, 1)), r2);
            &&& split_first(ipv4_text(a), '.') == Some((decimal(octet(a, 0)), r1))
            &&& split_first(r1, '.') == Some((decimal(octet(a, 1)), r2))
            &&& split_first(r2, '.') == Some((decimal(octet(a, 2)), r3))
        }),
        forall|i: int| #![trigger octet(a, i)] octet(a, i) < 256 && digits_value(decimal(octet(a, i))) == octet(a, i),
        a == octet(a, 0) * 0x100_0000 + octet(a, 1) * 0x1_0000 + octet(a, 2) * 0x100 + octet(a, 3),
{
    assert forall|i: int| #![trigger octet(a, i)]
        octet(a, i) < 256 && digits_value(decimal(octet(a, i))) == octet(a, i) by {
        lemma_decimal(octet(a, i));
    }
    lemma_decimal(octet(a, 0));
    lemma_decimal(octet(a, 1));
    lemma_decimal(octet(a, 2));
    let r3 = decimal(octet(a, 3));
    let r2 = dotted(decimal(octet(a, 2)), r3);
    let r1 = dotted(decimal(octet(a, 1)), r2);
    lemma_split_dotted(decimal(octet(a, 0)), r1);
    lemma_split_dotted(decimal(octet(a, 1)), r2);
    lemma_split_dotted(decimal(octet(a, 2)), r3);
}

/// The octet that `s` writes: a number below 256 without leading zeros.
spec fn octet_of(s: Seq<char>) -> Option<nat> {
    if 1 <= s.len() <= 3 && !(s.len() > 1 && s[0] == '0') {
        number_of(s, 255)
    } else {
        None
    }
}

proof fn lemma_octet_of_decimal(v: nat)
    requires
        v < 256,
    ensures
        octet_of(decimal(v)) == Some(v),
{
    lemma_decimal(v);
    reveal_with_fuel(decimal, 3);
    if v >= 100 {
        assert(decimal(v)[0] == digit(v / 100));
    } else if v >= 10 {
        assert(decimal(v)[0] == digit(v / 10));
    }
}

proof fn lemma_octet_canonical(s: Seq<char>)
    ensures
        octet_of(s) matches Some(v) ==> v < 256 && s == decimal(v),
{
    if let Some(v) = octet_of(s) {
        reveal_with_fuel(decimal, 3);
        let t = s.drop_last();
        assert(is_digit(s.last()));
        assert(is_digit(s[0]));
        assert(v == digits_value(t) * 10 + (s.last() as int - 48));
        if s.len() == 1 {
            assert(digits_value(t) == 0);
            assert(s =~= decimal(v));
        } else {
            let u = t.drop_last();
            assert(t.last() == s[s.len() - 2]);
            assert(is_digit(t.last()));
            assert(digits_value(t) == digits_value(u) * 10 + (t.last() as int - 48));
            if s.len() == 2 {
                assert(digits_value(u) == 0);
                assert(s =~= decimal(v));
            } else {
                assert(u.last() == s[0]);
                assert(digits_value(u.drop_last()) == 0);
                assert(digits_value(u) == u.last() as int - 48);
                assert(v / 10 == digits_value(t));
                assert(s =~= decimal(v));
            }
        }
    }
}

/// Reads one octet.
fn parse_octet(s: &str) -> (r: Option<u32>)
    ensures
        match r {
            Some(v) => octet_of(s@) == Some(v as nat),
            None => octet_of(s@) is None,
        },
{
    let chars = chars_of(s);
    let n: usize = chars.len();
    if n == 0 || n > 3 || (n > 1 && chars[0] == '0') {
        return None;
    }
    parse_number(s, 255)
}

/// The four parts between the dots of `s`, the last with any further dots.
spec fn dot_parts(s: Seq<char>) -> Option<(Seq<char>, Seq<char>, Seq<char>, Seq<char>)> {
    match split_first(s, '.') {
        Some((p0, r1)) => match split_first(r1, '.') {
            Some((p1, r2)) => match split_first(r2, '.') {
                Some((p2, p3)) => Some((p0, p1, p2, p3)),
                None => None,
            },
            None => None,
        },
        None => None,
    }
}

/// The address that four octets make up.
spec fn from_octets(a: nat, b: nat, c: nat, d: nat) -> u32 {
    (a * 0x100_0000 + b * 0x1_0000 + c * 0x100 + d) as u32
}

proof fn lemma_ipv4_text_parts(ip: u32)
    ensures
        dot_parts(ipv4_text(ip)) == Some(
            (
                decimal(octet(ip, 0)),
                decimal(octet(ip, 1)),
                decimal(octet(ip, 2)),
                decimal(octet(ip, 3)),
            ),
        ),
        octet_of(decimal(octet(ip, 0))) == Some(octet(ip, 0)),
        octet_of(decimal(octet(ip, 1))) == Some(octet(ip, 1)),
        octet_of(decimal(octet(ip, 2))) == Some(octet(ip, 2)),
        octet_of(decimal(octet(ip, 3))) == Some(octet(ip, 3)),
{
    lemma_ipv4_parts(ip);
    lemma_octet_of_decimal(octet(ip, 0));
    lemma_octet_of_decimal(octet(ip, 1));
    lemma_octet_of_decimal(octet(ip, 2));
    lemma_octet_of_decimal(octet(ip, 3));
}

proof fn lemma_octets_of(a: nat, b: nat, c: nat, d: nat)
    requires
        a < 256 && b < 256 && c < 256 && d < 256,
    ensures
        octet(from_octets(a, b, c, d), 0) == a,
        octet(from_octets(a, b, c, d), 1) == b,
        octet(from_octets(a, b, c, d), 2) == c,
        octet(from_octets(a, b, c, d), 3) == d,
{
    let (a, b, c, d) = (a as int, b as int, c as int, d as int);
    let two = a * 0x100 + b;
    let three = two * 0x100 + c;
    let ip = three * 0x100 + d;
    assert(from_octets(a as nat, b as nat, c as nat, d as nat) == ip);
    lemma_fundamental_div_mod_converse(ip, 0x100_0000, a, b * 0x1_0000 + c * 0x100 + d);
    lemma_fundamental_div_mod_converse(ip, 0x1_0000, two, c * 0x100 + d);
    lemma_fundamental_div_mod_converse(two, 0x100, a, b);
    lemma_fundamental_div_mod_converse(ip, 0x100, three, d);
    lemma_fundamental_div_mod_converse(three, 0x100, two, c);
}

proof fn lemma_rejoin_parts(s: Seq<char>)
    ensures
        dot_parts(s) matches Some((p0, p1, p2, p3)) ==> s == dotted(
            p0,
            dotted(p1, dotted(p2, p3)),
        ),
{
    if dot_parts(s) is Some {
        let r1 = split_first(s, '.').unwrap().1;
        let r2 = split_first(r1, '.').unwrap().1;
        lemma_rejoin(s);
        lemma_rejoin(r1);
        lemma_rejoin(r2);
    }
}

proof fn lemma_parts_ipv4_text(s: Seq<char>, a: nat, b: nat, c: nat, d: nat)
    requires
        dot_parts(s) matches Some((p0, p1, p2, p3)) && octet_of(p0) == Some(a) && octet_of(p1)
            == Some(b) && octet_of(p2) == Some(c) && octet_of(p3) == Some(d),
    ensures
        a < 256 && b < 256 && c < 256 && d < 256,
        ipv4_text(from_octets(a, b, c, d)) == s,
{
    let (p0, p1, p2, p3) = dot_parts(s).unwrap();
    assert(a < 256 && p0 == decimal(a)) by {
        lemma_octet_canonical(p0);
    }
    assert(b < 256 && p1 == decimal(b)) by {
        lemma_octet_canonical(p1);
    }
    assert(c < 256 && p2 == decimal(c)) by {
        lemma_octet_canonical(p2);
    }
    assert(d < 256 && p3 == decimal(d)) by {
        lemma_octet_canonical(p3);
    }
    lemma_rejoin_parts(s);
    lemma_octets_of(a, b, c, d);
}

/// Reads an IPv4 address in dotted decimal.
pub fn parse_ipv4(s: &str) -> (r: Option<u32>)
    ensures
        r == ipv4_of(s@),
{
    proof {
        if ipv4_of(s@) is Some {
            lemma_ipv4_text_parts(choose|ip: u32| ipv4_text(ip) == s@);
        }
    }
    let (p0, r1) = match split_once(s, '.') {
        Some(v) => v,
        None => {
            return None;
        },
    };
    let (p1, r2) = match split_once(r1.as_str(), '.') {
        Some(v) => v,
        None => {
            return None;
        },
    };
    let (p2, p3) = match split_once(r2.as_str(), '.') {
        Some(v) => v,
        None => {
            return None;
        },
    };
    match (
        parse_octet(p0.as_str()),
        parse_octet(p1.as_str()),
        parse_octet(p2.as_str()),
        parse_octet(p3.as_str()),
    ) {
        (Some(a), Some(b), Some(c), Some(d)) => {
            proof {
                lemma_parts_ipv4_text(s@, a as nat, b as nat, c as nat, d as nat);
                law_ipv4_text_round_trip(from_octets(a as nat, b as nat, c as nat, d as nat));
            }
            Some(a * 0x100_0000 + b * 0x1_0000 + c * 0x100 + d)
        },
        _ => None,
    }
}

proof fn lemma_rejoin(s: Seq<char>)
    ensures
        split_first(s, '.') matches Some((x, y)) ==> s == dotted(x, y),
{
    crate::text::lemma_first_index(s, '.');
    if let Some((x, y)) = split_first(s, '.') {
        assert(s =~= dotted(x, y));
    }
}

/// The displayed form of a transport address.
pub open spec fn socket_addr_text(addr: SocketAddr) -> Seq<char> {
    match addr {
        SocketAddr::V4 { ip, port } => ipv4_text(ip).push(':') + decimal(port as nat),
        SocketAddr::V6 { ip6, scope_id, port } => {
            let scope = if scope_id == 0 {
                Seq::<char>::empty()
            } else {
                seq!['%'] + decimal(scope_id as nat)
            };
            seq!['['] + ipv6_text(ip6) + scope + seq![']', ':'] + decimal(port as nat)
        },
    }
}

/// The address inside the brackets of an IPv6 transport address: an IPv6 address, then
/// optionally a percent sign and a decimal scope.
pub open spec fn scoped_ipv6_of(s: Seq<char>) -> Option<(u128, u32)> {
    match split_first(s, '%') {
        None => match ipv6_of(s) {
            Some(ip) => Some((ip, 0)),
            None => None,
        },
        Some((addr, scope)) => match (ipv6_of(addr), number_of(scope, u32::MAX as nat)) {
            (Some(ip), Some(scope)) => Some((ip, scope as u32)),
            _ => None,
        },
    }
}

/// The transport address that `s` reads as: `ipv4:port`, or `[ipv6]:port` with an optional
/// `%scope` before the bracket closes.
pub open spec fn socket_addr_of(s: Seq<char>) -> Option<SocketAddr> {
    if s.len() > 0 && s[0] == '[' {
        match split_first(s.skip(1), ']') {
            None => None,
            Some((inner, tail)) => if tail.len() > 0 && tail[0] == ':' {
                match (scoped_ipv6_of(inner), number_of(tail.skip(1), u16::MAX as nat)) {
                    (Some((ip, scope_id)), Some(port)) => Some(
                        SocketAddr::V6 { ip6: ip, scope_id, port: port as u16 },
                    ),
                    _ => None,
                }
            } else {
                None
            },
        }
    } else {
        match split_first(s, ':') {
            None => None,
            Some((ip, port)) => match (ipv4_of(ip), number_of(port, u16::MAX as nat)) {
                (Some(ip), Some(port)) => Some(SocketAddr::V4 { ip, port: port as u16 }),
                _ => None,
            },
        }
    }
}

/// Appends the dotted decimal form of `ip` to `s`.
pub(crate) fn append_ipv4(s: &mut String, ip: u32)
    ensures
        final(s)@ == old(s)@ + ipv4_text(ip),
{
    append_decimal(s, (ip / 0x100_0000) as u64);
    s.push('.');
    append_decimal(s, ((ip / 0x1_0000) % 0x100) as u64);
    s.push('.');
    append_decimal(s, ((ip / 0x100) % 0x100) as u64);
    s.push('.');
    append_decimal(s, (ip % 0x100) as u64);
    assert(s@ =~= old(s)@ + ipv4_text(ip));
}

/// The dotted decimal form of `ip`.
pub fn format_ipv4(ip: u32) -> (r: String)
    ensures
        r@ == ipv4_text(ip),
{
    let mut r = String::new();
    append_ipv4(&mut r, ip);
    assert(Seq::<char>::empty() + ipv4_text(ip) == ipv4_text(ip));
    r
}

impl SocketAddr {
    /// The displayed form of the address.
    pub fn to_text(&self) -> (r: String)
        ensures
            r@ == socket_addr_text(*self),
    {
        let mut r = String::new();
        match self {
            SocketAddr::V4 { ip, port } => {
                append_ipv4(&mut r, *ip);
                r.push(':');
                append_decimal(&mut r, *port as u64);
            },
            SocketAddr::V6 { ip6, scope_id, port } => {
                r.push('[');
                let addr = format_ipv6(*ip6);
                append(&mut r, addr.as_str());
                if *scope_id != 0 {
                    r.push('%');
                    append_decimal(&mut r, *scope_id as u64);
                }
                r.push(']');
                r.push(':');
                append_decimal(&mut r, *port as u64);
            },
        }
        assert(r@ =~= socket_addr_text(*self));
        r
    }
}

fn parse_scoped_ipv6(s: &str) -> (r: Option<(u128, u32)>)
    ensures
        r == scoped_ipv6_of(s@),
{
    match split_once(s, '%') {
        None => match parse_ipv6(s) {
            Some(ip) => Some((ip, 0)),
            None => None,
        },
        Some((addr, scope)) => match (
            parse_ipv6(addr.as_str()),
            parse_number(scope.as_str(), u32::MAX),
        ) {
            (Some(ip), Some(scope)) => Some((ip, scope)),
            _ => None,
        },
    }
}

/// Reads a transport address.
pub fn parse_socket_addr(s: &str) -> (r: Option<SocketAddr>)
    ensures
        r == socket_addr_of(s@),
{
    let chars = chars_of(s);
    if chars.len() > 0 && chars[0] == '[' {
        let rest = text_of(&chars, 1, chars.len());
        assert(rest@ == s@.skip(1));
        match split_once(rest.as_str(), ']') {
            None => None,
            Some((inner, tail)) => {
                let tail_chars = chars_of(tail.as_str());
                if tail_chars.len() > 0 && tail_chars[0] == ':' {
                    let port = text_of(&tail_chars, 1, tail_chars.len());
                    assert(port@ == tail@.skip(1));
                    match (
                        parse_scoped_ipv6(inner.as_str()),
                        parse_number(port.as_str(), u16::MAX as u32),
                    ) {
                        (Some((ip, scope_id)), Some(port)) => Some(
                            SocketAddr::V6 { ip6: ip, scope_id, port: port as u16 },
                        ),
                        _ => None,
                    }
                } else {
                    None
                }
            },
        }
    } else {
        match split_once(s, ':') {
            None => None,
            Some((ip, port)) => match (
                parse_ipv4(ip.as_str()),
                parse_number(port.as_str(), u16::MAX as u32),
            ) {
                (Some(ip), Some(port)) => Some(SocketAddr::V4 { ip, port: port as u16 }),
                _ => None,
            },
        }
    }
}

/// The displayed form of an IPv4 address starts and ends with a digit and holds digits and dots
/// only.
pub(crate) proof fn lemma_ipv4_text_chars(ip: u32)
    ensures
        ipv4_text(ip).len() > 0,
        is_digit(ipv4_text(ip)[0]),
        is_digit(ipv4_text(ip).last()),
        forall|i: int|
            0 <= i < ipv4_text(ip).len() ==> is_digit(#[trigger] ipv4_text(ip)[i])
                || ipv4_text(ip)[i] == '.',
{
    let a = decimal(octet(ip, 0));
    let b = decimal(octet(ip, 1));
    let c = decimal(octet(ip, 2));
    let d = decimal(octet(ip, 3));
    lemma_decimal(octet(ip, 0));
    lemma_decimal(octet(ip, 1));
    lemma_decimal(octet(ip, 2));
    lemma_decimal(octet(ip, 3));
    let cd = dotted(c, d);
    let bcd = dotted(b, cd);
    lemma_dotted_chars(c, d);
    lemma_dotted_chars(b, cd);
    lemma_dotted_chars(a, bcd);
}

proof fn lemma_dotted_chars(x: Seq<char>, y: Seq<char>)
    requires
        x.len() > 0,
        y.len() > 0,
        forall|i: int| 0 <= i < x.len() ==> is_digit(#[trigger] x[i]),
        forall|i: int| 0 <= i < y.len() ==> is_digit(#[trigger] y[i]) || y[i] == '.',
    ensures
        dotted(x, y).len() > 0,
        dotted(x, y)[0] == x[0],
        dotted(x, y).last() == y.last(),
        forall|i: int|
            0 <= i < dotted(x, y).len() ==> is_digit(#[trigger] dotted(x, y)[i]) || dotted(x, y)[i]
                == '.',
{
    let all = dotted(x, y);
    assert forall|i: int| 0 <= i < all.len() implies is_digit(#[trigger] all[i]) || all[i]
        == '.' by {
        if i < x.len() {
            assert(all[i] == x[i]);
        } else if i > x.len() {
            assert(all[i] == y[i - x.len() - 1]);
        }
    }
}

/// Whether the displayed form of an IPv6 address reads as that address, and holds neither a
/// bracket that closes nor a percent sign.
pub open spec fn ipv6_text_reads_back(ip6: u128) -> bool {
    &&& ipv6_of(ipv6_text(ip6)) == Some(ip6)
    &&& !ipv6_text(ip6).contains(']')
    &&& !ipv6_text(ip6).contains('%')
}

/// Reading back the displayed form of an IPv6 transport address, with its scope and its port, gives
/// that address, where the displayed form of the IPv6 address in it reads as that address.
pub proof fn law_ipv6_socket_addr_round_trip(ip6: u128, scope_id: u32, port: u16)
    ensures
        ipv6_text_reads_back(ip6) ==> socket_addr_of(
            socket_addr_text(SocketAddr::V6 { ip6, scope_id, port }),
        ) == Some(SocketAddr::V6 { ip6, scope_id, port }),
{
    if ipv6_text_reads_back(ip6) {
        let host = ipv6_text(ip6);
        let zone = decimal(scope_id as nat);
        let digits = decimal(port as nat);
        let text = socket_addr_text(SocketAddr::V6 { ip6, scope_id, port });
        let inner = if scope_id == 0 {
            host
        } else {
            host + (seq!['%'] + zone)
        };
        lemma_decimal(scope_id as nat);
        lemma_decimal(port as nat);
        assert(text.skip(1) =~= inner + seq![']', ':'] + digits);
        assert forall|i: int| 0 <= i < inner.len() implies #[trigger] inner[i] != ']' by {
            if i < host.len() {
                assert(host[i] != ']');
            } else if i > host.len() {
                assert(inner[i] == zone[i - host.len() - 1]);
            }
        }
        let n = inner.len() as int;
        crate::text::lemma_first_index_at(text.skip(1), ']', n);
        assert(text.skip(1).take(n) == inner);
        assert(text.skip(1).skip(n + 1) == seq![':'] + digits);
        assert((seq![':'] + digits).skip(1) == digits);
        let k = host.len() as int;
        assert forall|i: int| 0 <= i < k implies #[trigger] inner[i] != '%' by {
            assert(host[i] != '%');
        }
        crate::text::lemma_first_index_at(inner, '%', k);
        assert(inner.take(k) == host);
        if scope_id != 0 {
            assert(inner.skip(k + 1) == zone);
        }
    }
}

/// Reading back the displayed form of an IPv4 transport address gives that address.
pub proof fn law_ipv4_socket_addr_round_trip(ip: u32, port: u16)
    ensures
        socket_addr_of(socket_addr_text(SocketAddr::V4 { ip, port })) == Some(
            SocketAddr::V4 { ip, port },
        ),
{
    let host = ipv4_text(ip);
    let digits = decimal(port as nat);
    let text = host.push(':') + digits;
    lemma_ipv4_text_chars(ip);
    lemma_decimal(port as nat);
    law_ipv4_text_round_trip(ip);
    assert forall|i: int| 0 <= i < host.len() implies text[i] != ':' by {
        assert(text[i] == host[i]);
    }
    crate::text::lemma_first_index_at(text, ':', host.len() as int);
    assert(text.take(host.len() as int) == host);
    assert(text.skip(host.len() as int + 1) == digits);
    assert(text[0] == host[0]);
}

/// An IPv4 address is written as its four octets in decimal, the most significant first, with dots
/// between them.
pub proof fn law_ipv4_text_is_dotted_decimal(ip: u32, a: nat, b: nat, c: nat, d: nat)
    requires
        a < 256 && b < 256 && c < 256 && d < 256,
        ip == a * 0x100_0000 + b * 0x1_0000 + c * 0x100 + d,
    ensures
        ipv4_text(ip) == decimal(a) + seq!['.'] + decimal(b) + seq!['.'] + decimal(c) + seq!['.']
            + decimal(d),
{
    lemma_octets_of(a, b, c, d);
    assert(ip == from_octets(a, b, c, d));
    assert(ipv4_text(ip) =~= decimal(a) + seq!['.'] + decimal(b) + seq!['.'] + decimal(c) + seq![
        '.',
    ] + decimal(d));
}

/// A text reads as an IPv4 address exactly where it is the displayed form of that address.
pub proof fn law_ipv4_of(s: Seq<char>, ip: u32)
    ensures
        ipv4_of(s) == Some(ip) <==> s == ipv4_text(ip),
        ipv4_of(s) is None <==> forall|other: u32| s != #[trigger] ipv4_text(other),
{
    law_ipv4_text_round_trip(ip);
}

/// A transport address is written as its IP address, an IPv6 one in brackets and with its scope
/// where it has one, then a colon and the port in decimal.
pub proof fn law_socket_addr_text(ip: u32, ip6: u128, scope_id: u32, port: u16)
    ensures
        socket_addr_text(SocketAddr::V4 { ip, port }) == ipv4_text(ip) + seq![':'] + decimal(
            port as nat,
        ),
        socket_addr_text(SocketAddr::V6 { ip6, scope_id: 0, port }) == seq!['['] + ipv6_text(ip6)
            + seq![']', ':'] + decimal(port as nat),
        scope_id != 0 ==> socket_addr_text(SocketAddr::V6 { ip6, scope_id, port }) == seq!['[']
            + ipv6_text(ip6) + seq!['%'] + decimal(scope_id as nat) + seq![']', ':'] + decimal(
            port as nat,
        ),
{
    assert(socket_addr_text(SocketAddr::V4 { ip, port }) =~= ipv4_text(ip) + seq![':'] + decimal(
        port as nat,
    ));
    assert(socket_addr_text(SocketAddr::V6 { ip6, scope_id: 0, port }) =~= seq!['['] + ipv6_text(
        ip6,
    ) + seq![']', ':'] + decimal(port as nat));
    if scope_id != 0 {
        assert(socket_addr_text(SocketAddr::V6 { ip6, scope_id, port }) =~= seq!['['] + ipv6_text(
            ip6,
        ) + seq!['%'] + decimal(scope_id as nat) + seq![']', ':'] + decimal(port as nat));
    }
}

/// A text reads as an IPv4 transport address exactly where it is an IPv4 address, a colon and a
/// port in decimal.
pub proof fn law_ipv4_socket_addr_of(s: Seq<char>, ip: u32, port: u16)
    ensures
        socket_addr_of(s) == Some(SocketAddr::V4 { ip, port }) <==> exists|digits: Seq<char>|
            s == #[trigger] (ipv4_text(ip) + seq![':'] + digits) && number_of(
                digits,
                u16::MAX as nat,
            ) == Some(port as nat),
{
    let host = ipv4_text(ip);
    lemma_ipv4_text_chars(ip);
    law_ipv4_text_round_trip(ip);
    if socket_addr_of(s) == Some(SocketAddr::V4 { ip, port }) {
        crate::text::law_split(s, ':');
        let (a, b) = split_first(s, ':')->Some_0;
        law_ipv4_of(a, ip);
        assert(s == host + seq![':'] + b);
    }
    if exists|digits: Seq<char>|
        s == #[trigger] (host + seq![':'] + digits) && number_of(digits, u16::MAX as nat) == Some(
            port as nat,
        ) {
        let digits = choose|digits: Seq<char>|
            s == #[trigger] (host + seq![':'] + digits) && number_of(digits, u16::MAX as nat)
                == Some(port as nat);
        assert(!host.contains(':'));
        crate::text::law_split_parts(host, ':', digits);
        assert(s[0] == host[0]);
    }
}

/// A text in brackets, a colon and a port in decimal read as an IPv6 transport address exactly where
/// the text in the brackets is an IPv6 address, which a percent sign and a scope may follow.
pub proof fn law_ipv6_socket_addr_of(host: Seq<char>, scope: Seq<char>, digits: Seq<char>)
    requires
        !host.contains(']') && !host.contains('%'),
        !scope.contains(']'),
    ensures
        socket_addr_of(seq!['['] + host + seq![']', ':'] + digits) == match (
            ipv6_of(host),
            number_of(digits, u16::MAX as nat),
        ) {
            (Some(ip6), Some(port)) => Some(
                SocketAddr::V6 { ip6, scope_id: 0, port: port as u16 },
            ),
            _ => None,
        },
        socket_addr_of(seq!['['] + host + seq!['%'] + scope + seq![']', ':'] + digits) == match (
            ipv6_of(host),
            number_of(scope, u32::MAX as nat),
            number_of(digits, u16::MAX as nat),
        ) {
            (Some(ip6), Some(scope_id), Some(port)) => Some(
                SocketAddr::V6 { ip6, scope_id: scope_id as u32, port: port as u16 },
            ),
            _ => None,
        },
{
    let tail = seq![':'] + digits;
    assert(tail.skip(1) == digits);
    let plain = seq!['['] + host + seq![']', ':'] + digits;
    assert(plain.skip(1) =~= host + seq![']'] + tail);
    crate::text::law_split_parts(host, ']', tail);
    crate::text::law_split(host, '%');
    if split_first(host, '%') is Some {
        let (a, b) = split_first(host, '%')->Some_0;
        assert(host[a.len() as int] == '%');
    }
    let inner = host + seq!['%'] + scope;
    let scoped = seq!['['] + host + seq!['%'] + scope + seq![']', ':'] + digits;
    assert(scoped.skip(1) =~= inner + seq![']'] + tail);
    assert(!inner.contains(']')) by {
        assert forall|i: int| 0 <= i < inner.len() implies inner[i] != ']' by {
            if i < host.len() {
                assert(inner[i] == host[i]);
            } else if i > host.len() {
                assert(inner[i] == scope[i - host.len() - 1]);
            }
        }
    }
    crate::text::law_split_parts(inner, ']', tail);
    crate::text::law_split_parts(host, '%', scope);
}

/// A text that reads as an IPv6 transport address starts with a bracket; one that reads as an IPv4
/// transport address does not.
pub proof fn law_brackets_tell_the_family(s: Seq<char>)
    ensures
        socket_addr_of(s) matches Some(SocketAddr::V6 { .. }) ==> s.len() > 0 && s[0] == '[',
        socket_addr_of(s) matches Some(SocketAddr::V4 { .. }) ==> s.len() > 0 && s[0] != '[',
{
    if let Some(SocketAddr::V4 { ip, port }) = socket_addr_of(s) {
        law_ipv4_socket_addr_of(s, ip, port);
    }
}

} // verus!
