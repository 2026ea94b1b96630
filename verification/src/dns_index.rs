//! The DNS servers and DNS records of a route table, in the form that lookups use.

use crate::addr::{
    ipv4_of, ipv4_text, ipv6_of, ipv6_text_reads_back, law_brackets_tell_the_family, law_ipv4_of,
    law_ipv4_socket_addr_of, law_ipv4_socket_addr_round_trip, law_ipv6_socket_addr_round_trip,
    law_socket_addr_text, lemma_decimal, lemma_ipv4_text_chars, parse_ipv4, parse_ipv6,
    parse_socket_addr, socket_addr_of, socket_addr_text, SocketAddr,
};
use crate::list::{
    distinct, law_distinct, law_distinct_images, list_at, maps_first, push_at, views,
};
use crate::route_table::{DnsRecord, DnsRecordView};
use crate::text::{
    decimal, is_empty_text, law_split, lemma_trimmed_already, normalize_domain, normalized,
    number_of, trim, trimmed,
};
use std::collections::HashMap;
use vstd::hash_map::StringHashMap;
use vstd::prelude::*;

verus! {

broadcast use vstd::std_specs::hash::group_hash_axioms;

/// The port of a DNS server that is given without one.
pub const DNS_DEFAULT_PORT: u16 = 53;

/// The server that an entry of the table names: an address with a port, or an IP address alone.
pub open spec fn dns_server_of(raw: Seq<char>) -> Option<SocketAddr> {
    let token = trimmed(raw);
    if token.len() == 0 {
        None
    } else if socket_addr_of(token) is Some {
        socket_addr_of(token)
    } else {
        match (ipv4_of(token), ipv6_of(token)) {
            (Some(ip), _) => Some(SocketAddr::V4 { ip, port: DNS_DEFAULT_PORT }),
            (None, Some(ip6)) => Some(
                SocketAddr::V6 { ip6, scope_id: 0, port: DNS_DEFAULT_PORT },
            ),
            _ => None,
        }
    }
}

/// The servers that the entries name, in order and without repetition.
pub open spec fn dns_servers_of(raw: Seq<Seq<char>>) -> Seq<SocketAddr> {
    distinct(raw.filter_map(|entry: Seq<char>| dns_server_of(entry)))
}

/// Reads one server entry.
fn parse_dns_server(raw: &str) -> (r: Option<SocketAddr>)
    ensures
        r == dns_server_of(raw@),
{
    let token = trim(raw);
    if is_empty_text(token.as_str()) {
        return None;
    }
    if let Some(addr) = parse_socket_addr(token.as_str()) {
        return Some(addr);
    }
    if let Some(ip) = parse_ipv4(token.as_str()) {
        return Some(SocketAddr::V4 { ip, port: DNS_DEFAULT_PORT });
    }
    match parse_ipv6(token.as_str()) {
        Some(ip6) => Some(SocketAddr::V6 { ip6, scope_id: 0, port: DNS_DEFAULT_PORT }),
        None => None,
    }
}

/// Whether `addr` is among `addrs`.
fn contains_addr(addrs: &Vec<SocketAddr>, addr: SocketAddr) -> (r: bool)
    ensures
        r == addrs@.contains(addr),
{
    let mut i: usize = 0;
    while i < addrs.len()
        invariant
            i <= addrs@.len(),
            forall|j: int| 0 <= j < i ==> addrs@[j] != addr,
        decreases addrs@.len() - i,
    {
        if addrs[i] == addr {
            return true;
        }
        i += 1;
    }
    false
}

/// Reads the server entries of a table; entries that name no server are left out.
pub fn normalize_dns_servers(servers: Vec<String>) -> (r: Vec<SocketAddr>)
    ensures
        r@ == dns_servers_of(views(servers@)),
{
    let mut out: Vec<SocketAddr> = Vec::new();
    let ghost f = |entry: Seq<char>| dns_server_of(entry);
    let ghost raw = views(servers@);
    let mut i: usize = 0;
    while i < servers.len()
        invariant
            i <= servers@.len(),
            raw == views(servers@),
            f == (|entry: Seq<char>| dns_server_of(entry)),
            out@ == distinct(raw.take(i as int).filter_map(f)),
        decreases servers@.len() - i,
    {
        let ghost before = raw.take(i as int).filter_map(f);
        let ghost after = raw.take(i + 1);
        assert(after.drop_last() == raw.take(i as int));
        assert(after.last() == servers@[i as int]@);
        if let Some(addr) = parse_dns_server(servers[i].as_str()) {
            assert(after.filter_map(f) == before.push(addr));
            assert(before.push(addr).drop_last() == before);
            proof {
                law_distinct(before);
            }
            if !contains_addr(&out, addr) {
                out.push(addr);
            }
        }
        i += 1;
    }
    assert(raw.take(raw.len() as int) == raw);
    out
}

/// Whether the entry at `i` is the first that names `addr`.
pub open spec fn names_first(raw: Seq<Seq<char>>, i: int, addr: SocketAddr) -> bool {
    &&& 0 <= i < raw.len()
    &&& dns_server_of(raw[i]) == Some(addr)
    &&& forall|k: int| 0 <= k < i ==> dns_server_of(#[trigger] raw[k]) != Some(addr)
}

/// The servers of a table are those that its entries name, once each, in the order in which they
/// are first named.
pub proof fn law_dns_servers(raw: Seq<Seq<char>>)
    ensures
        dns_servers_of(raw).no_duplicates(),
        forall|addr: SocketAddr| #[trigger]
            dns_servers_of(raw).contains(addr) <==> exists|i: int|
                0 <= i < raw.len() && dns_server_of(#[trigger] raw[i]) == Some(addr),
        forall|addr: SocketAddr| #[trigger]
            dns_servers_of(raw).contains(addr) ==> exists|i: int| #[trigger]
                names_first(raw, i, addr),
        forall|a: int, b: int, i: int, j: int|
            0 <= a < b < dns_servers_of(raw).len() && #[trigger] names_first(
                raw,
                i,
                dns_servers_of(raw)[a],
            ) && #[trigger] names_first(raw, j, dns_servers_of(raw)[b]) ==> i < j,
{
    let out = dns_servers_of(raw);
    law_distinct(raw.filter_map(|entry: Seq<char>| dns_server_of(entry)));
    assert forall|addr: SocketAddr| #[trigger] out.contains(addr) <==> exists|i: int|
        0 <= i < raw.len() && dns_server_of(#[trigger] raw[i]) == Some(addr) by {
        lemma_server_is_named(raw, addr);
    }
    assert forall|addr: SocketAddr| #[trigger] out.contains(addr) implies exists|i: int| #[trigger]
        names_first(raw, i, addr) by {
        let k = choose|k: int|
            0 <= k < raw.len() && dns_server_of(#[trigger] raw[k]) == Some(addr);
        lemma_named_first(raw, k, addr);
    }
    assert forall|a: int, b: int, i: int, j: int|
        0 <= a < b < out.len() && #[trigger] names_first(raw, i, out[a]) && #[trigger] names_first(
            raw,
            j,
            out[b],
        ) implies i < j by {
        lemma_servers_in_order(raw, a, b, i, j);
    }
}

/// One more entry adds the server that it names, where it names a new one.
proof fn lemma_one_more_server(raw: Seq<Seq<char>>)
    requires
        raw.len() > 0,
    ensures
        match dns_server_of(raw.last()) {
            Some(addr) if !dns_servers_of(raw.drop_last()).contains(addr) => dns_servers_of(raw)
                == dns_servers_of(raw.drop_last()).push(addr),
            _ => dns_servers_of(raw) == dns_servers_of(raw.drop_last()),
        },
{
    let f = |entry: Seq<char>| dns_server_of(entry);
    let before = raw.drop_last().filter_map(f);
    if let Some(addr) = dns_server_of(raw.last()) {
        law_distinct(before);
        assert(raw.filter_map(f) == before.push(addr));
        assert(before.push(addr).drop_last() == before);
    }
}

/// The servers are those that entries name.
proof fn lemma_server_is_named(raw: Seq<Seq<char>>, addr: SocketAddr)
    ensures
        dns_servers_of(raw).contains(addr) <==> exists|i: int|
            0 <= i < raw.len() && dns_server_of(#[trigger] raw[i]) == Some(addr),
    decreases raw.len(),
{
    if raw.len() > 0 {
        let rest = raw.drop_last();
        let before = dns_servers_of(rest);
        let out = dns_servers_of(raw);
        lemma_one_more_server(raw);
        lemma_server_is_named(rest, addr);
        if before.contains(addr) {
            let i = choose|i: int|
                0 <= i < rest.len() && dns_server_of(#[trigger] rest[i]) == Some(addr);
            assert(dns_server_of(raw[i]) == Some(addr));
            let k = choose|k: int| 0 <= k < before.len() && before[k] == addr;
            assert(out[k] == addr);
        } else if dns_server_of(raw.last()) == Some(addr) {
            assert(out.last() == addr);
            assert(dns_server_of(raw[raw.len() - 1]) == Some(addr));
        } else {
            assert forall|i: int| 0 <= i < raw.len() implies dns_server_of(#[trigger] raw[i])
                != Some(addr) by {
                if i < rest.len() {
                    assert(rest[i] == raw[i]);
                }
            }
            if out.contains(addr) {
                let k = choose|k: int| 0 <= k < out.len() && out[k] == addr;
                if k < before.len() {
                    assert(before[k] == addr);
                }
            }
        }
    } else {
        assert(raw.filter_map(|entry: Seq<char>| dns_server_of(entry)).len() == 0);
    }
}

/// A server that an entry names is named first by some entry.
proof fn lemma_named_first(raw: Seq<Seq<char>>, k: int, addr: SocketAddr)
    requires
        0 <= k < raw.len(),
        dns_server_of(raw[k]) == Some(addr),
    ensures
        exists|i: int| #[trigger] names_first(raw, i, addr),
    decreases k,
{
    if exists|i: int| 0 <= i < k && dns_server_of(#[trigger] raw[i]) == Some(addr) {
        let i = choose|i: int| 0 <= i < k && dns_server_of(#[trigger] raw[i]) == Some(addr);
        lemma_named_first(raw, i, addr);
    } else {
        assert(names_first(raw, k, addr));
    }
}

/// Servers stand in the order in which they are first named.
proof fn lemma_servers_in_order(raw: Seq<Seq<char>>, a: int, b: int, i: int, j: int)
    requires
        0 <= a < b < dns_servers_of(raw).len(),
        names_first(raw, i, dns_servers_of(raw)[a]),
        names_first(raw, j, dns_servers_of(raw)[b]),
    ensures
        i < j,
    decreases raw.len(),
{
    let out = dns_servers_of(raw);
    let rest = raw.drop_last();
    let before = dns_servers_of(rest);
    let n = raw.len() - 1;
    lemma_one_more_server(raw);
    assert(out[a] == before[a]);
    assert(before.contains(before[a]));
    lemma_server_is_named(rest, before[a]);
    let k = choose|k: int|
        0 <= k < rest.len() && dns_server_of(#[trigger] rest[k]) == Some(before[a]);
    assert(raw[k] == rest[k]);
    assert(i != n);
    assert(rest[i] == raw[i]);
    assert forall|m: int| 0 <= m < n implies #[trigger] rest[m] == raw[m] by {}
    assert(names_first(rest, i, before[a]));
    if j != n {
        assert(rest[j] == raw[j]);
        lemma_server_is_named(rest, out[b]);
        assert(before.contains(out[b]));
        assert(b < before.len());
        assert(names_first(rest, j, before[b]));
        lemma_servers_in_order(rest, a, b, i, j);
    }
}

/// The text of an address has no whitespace around it.
proof fn lemma_addr_text_is_trimmed(addr: SocketAddr)
    ensures
        trimmed(socket_addr_text(addr)) == socket_addr_text(addr),
        socket_addr_text(addr).len() > 0,
{
    let text = socket_addr_text(addr);
    match addr {
        SocketAddr::V4 { ip, port } => {
            lemma_ipv4_text_chars(ip);
            lemma_decimal(port as nat);
            assert(text.last() == decimal(port as nat).last());
        },
        SocketAddr::V6 { ip6, scope_id, port } => {
            lemma_decimal(port as nat);
            assert(text.last() == decimal(port as nat).last());
            assert(text[0] == '[');
        },
    }
}

/// Whether the displayed form of the IPv6 address in a transport address, if any, reads as it.
pub open spec fn host_text_reads_back(addr: SocketAddr) -> bool {
    addr matches SocketAddr::V6 { ip6, .. } ==> ipv6_text_reads_back(ip6)
}

/// Reading the texts of the servers of a table gives these servers again, where the displayed forms
/// of the IPv6 addresses among them read as those addresses.
pub proof fn law_server_texts_read_back(raw: Seq<Seq<char>>)
    ensures
        ({
            let out = dns_servers_of(raw);
            (forall|i: int| 0 <= i < out.len() ==> host_text_reads_back(#[trigger] out[i]))
                ==> dns_servers_of(out.map_values(|addr: SocketAddr| socket_addr_text(addr))) == out
        }),
{
    let out = dns_servers_of(raw);
    law_dns_servers(raw);
    if forall|i: int| 0 <= i < out.len() ==> host_text_reads_back(#[trigger] out[i]) {
        lemma_texts_read_back(out);
    }
}

proof fn lemma_texts_read_back(out: Seq<SocketAddr>)
    requires
        out.no_duplicates(),
        forall|i: int| 0 <= i < out.len() ==> host_text_reads_back(#[trigger] out[i]),
    ensures
        dns_servers_of(out.map_values(|addr: SocketAddr| socket_addr_text(addr))) == out,
        out.map_values(|addr: SocketAddr| socket_addr_text(addr)).filter_map(
            |entry: Seq<char>| dns_server_of(entry),
        ) == out,
    decreases out.len(),
{
    let text = |addr: SocketAddr| socket_addr_text(addr);
    let f = |entry: Seq<char>| dns_server_of(entry);
    let texts = out.map_values(text);
    if out.len() > 0 {
        let rest = out.drop_last();
        let addr = out.last();
        assert(out[out.len() - 1] == addr);
        assert forall|i: int| 0 <= i < rest.len() implies host_text_reads_back(
            #[trigger] rest[i],
        ) by {
            assert(rest[i] == out[i]);
        }
        lemma_texts_read_back(rest);
        assert(texts.drop_last() == rest.map_values(text));
        lemma_addr_text_is_trimmed(addr);
        match addr {
            SocketAddr::V4 { ip, port } => {
                law_ipv4_socket_addr_round_trip(ip, port);
            },
            SocketAddr::V6 { ip6, scope_id, port } => {
                law_ipv6_socket_addr_round_trip(ip6, scope_id, port);
            },
        }
        assert(dns_server_of(texts.last()) == Some(addr));
        assert(texts.filter_map(f) == rest.push(addr));
        assert(rest.push(addr) == out);
        assert(!rest.contains(addr));
    }
}

/// What a DNS record says: in the view of a resource, a host has an IPv4 address.
pub struct DnsEntry {
    pub rc_id: i32,
    pub host: Seq<char>,
    pub ip: u32,
}

/// What a raw record says, where it says something: it has a host and an IPv4 address.
pub open spec fn dns_entry_of(record: DnsRecordView) -> Option<DnsEntry> {
    match ipv4_of(trimmed(record.ip)) {
        Some(ip) if normalized(record.host).len() > 0 => Some(
            DnsEntry { rc_id: record.rc_id, host: normalized(record.host), ip },
        ),
        _ => None,
    }
}

/// What the records say, in order and without repetition.
pub open spec fn dns_entries(records: Seq<DnsRecordView>) -> Seq<DnsEntry> {
    distinct(records.filter_map(|record: DnsRecordView| dns_entry_of(record)))
}

/// The addresses of a host in the view of a resource.
pub open spec fn scoped_ips(entries: Seq<DnsEntry>, rc_id: i32, host: Seq<char>) -> Seq<u32> {
    entries.filter_map(
        |e: DnsEntry|
            if e.rc_id == rc_id && e.host == host {
                Some(e.ip)
            } else {
                None
            },
    )
}

/// The addresses of a host in the view of any resource.
pub open spec fn host_ips(entries: Seq<DnsEntry>, host: Seq<char>) -> Seq<u32> {
    entries.filter_map(
        |e: DnsEntry|
            if e.host == host {
                Some(e.ip)
            } else {
                None
            },
    )
}

/// The addresses of a host in the view of any resource, each once.
pub open spec fn exact_ips(entries: Seq<DnsEntry>, host: Seq<char>) -> Seq<u32> {
    distinct(host_ips(entries, host))
}

/// The DNS records of a table, by resource and host and by host alone.
pub struct DnsIndexes {
    scoped: HashMap<i32, StringHashMap<Vec<u32>>>,
    exact: StringHashMap<Vec<u32>>,
    record_count: usize,
}

spec fn scoped_at(
    scoped: Map<i32, StringHashMap<Vec<u32>>>,
    rc_id: i32,
    host: Seq<char>,
) -> Seq<u32> {
    if scoped.contains_key(rc_id) {
        list_at(scoped[rc_id]@, host)
    } else {
        Seq::empty()
    }
}

impl DnsIndexes {
    /// Whether the index holds exactly `entries`.
    pub closed spec fn holds(&self, entries: Seq<DnsEntry>) -> bool {
        &&& self.record_count == entries.len()
        &&& forall|rc_id: i32, host: Seq<char>| #[trigger]
            scoped_at(self.scoped@, rc_id, host) == scoped_ips(entries, rc_id, host)
        &&& forall|host: Seq<char>| #[trigger]
            list_at(self.exact@, host) == exact_ips(entries, host)
    }

    /// The number of different records.
    pub fn record_count(&self) -> (r: usize)
        ensures
            forall|entries: Seq<DnsEntry>| #[trigger] self.holds(entries) ==> r == entries.len(),
    {
        self.record_count
    }

    /// The addresses of a host in the view of a resource, or `None` where there are none.
    pub fn scoped(&self, rc_id: i32, host: &str) -> (r: Option<&Vec<u32>>)
        ensures
            forall|entries: Seq<DnsEntry>| #[trigger]
                self.holds(entries) ==> scoped_ips(entries, rc_id, host@) == match r {
                    Some(ips) => ips@,
                    None => Seq::empty(),
                },
    {
        let r = match self.scoped.get(&rc_id) {
            Some(hosts) => hosts.get(host),
            None => None,
        };
        assert(scoped_at(self.scoped@, rc_id, host@) == match r {
            Some(ips) => ips@,
            None => Seq::empty(),
        });
        r
    }

    /// The addresses of a host in the view of any resource, or `None` where there are none.
    pub fn exact(&self, host: &str) -> (r: Option<&Vec<u32>>)
        ensures
            forall|entries: Seq<DnsEntry>| #[trigger]
                self.holds(entries) ==> exact_ips(entries, host@) == match r {
                    Some(ips) => ips@,
                    None => Seq::empty(),
                },
    {
        let r = self.exact.get(host);
        assert(list_at(self.exact@, host@) == match r {
            Some(ips) => ips@,
            None => Seq::empty(),
        });
        r
    }

    /// Adds an entry, unless the index holds it already.
    fn record(&mut self, rc_id: i32, host: &str, ip: u32, Ghost(entries): Ghost<Seq<DnsEntry>>)
        requires
            old(self).holds(entries),
            entries.no_duplicates(),
            entries.len() < usize::MAX,
        ensures
            final(self).holds(
                if entries.contains((DnsEntry { rc_id, host: host@, ip })) {
                    entries
                } else {
                    entries.push((DnsEntry { rc_id, host: host@, ip }))
                },
            ),
    {
        let ghost entry = DnsEntry { rc_id, host: host@, ip };
        let ghost more = entries.push(entry);
        let known = match self.scoped(rc_id, host) {
            Some(ips) => contains_ip(ips, ip),
            None => false,
        };
        proof {
            lemma_scoped_contains(entries, rc_id, host@, ip);
        }
        if known {
            return;
        }
        let mut hosts = match self.scoped.remove(&rc_id) {
            Some(hosts) => hosts,
            None => StringHashMap::new(),
        };
        push_at(&mut hosts, host, ip);
        self.scoped.insert(rc_id, hosts);
        let listed = match self.exact.get(host) {
            Some(ips) => contains_ip(ips, ip),
            None => false,
        };
        assert(listed == list_at(old(self).exact@, host@).contains(ip));
        if !listed {
            push_at(&mut self.exact, host, ip);
        }
        self.record_count = self.record_count + 1;
        assert(more.drop_last() == entries);
        assert forall|r: i32, h: Seq<char>| #[trigger]
            scoped_at(self.scoped@, r, h) == scoped_ips(more, r, h) by {
            assert(scoped_at(old(self).scoped@, r, h) == scoped_ips(entries, r, h));
        }
        assert forall|h: Seq<char>| #[trigger] list_at(self.exact@, h) == exact_ips(more, h) by {
            assert(list_at(old(self).exact@, h) == exact_ips(entries, h));
            let ips = host_ips(entries, h);
            law_distinct(ips);
            assert(ips.push(ip).drop_last() == ips);
            if h == host@ {
                assert(host_ips(more, h) == ips.push(ip));
                assert(listed == ips.contains(ip));
            } else {
                assert(host_ips(more, h) == ips);
            }
        }
    }
}

/// Whether `ip` is among `ips`.
fn contains_ip(ips: &Vec<u32>, ip: u32) -> (r: bool)
    ensures
        r == ips@.contains(ip),
{
    let mut i: usize = 0;
    while i < ips.len()
        invariant
            i <= ips@.len(),
            forall|j: int| 0 <= j < i ==> ips@[j] != ip,
        decreases ips@.len() - i,
    {
        if ips[i] == ip {
            return true;
        }
        i += 1;
    }
    false
}

proof fn lemma_scoped_contains(entries: Seq<DnsEntry>, rc_id: i32, host: Seq<char>, ip: u32)
    ensures
        scoped_ips(entries, rc_id, host).contains(ip) == entries.contains(
            (DnsEntry { rc_id, host, ip }),
        ),
    decreases entries.len(),
{
    let entry = DnsEntry { rc_id, host, ip };
    let all = scoped_ips(entries, rc_id, host);
    if entries.len() > 0 {
        let rest = entries.drop_last();
        lemma_scoped_contains(rest, rc_id, host, ip);
        let some = scoped_ips(rest, rc_id, host);
        if some.contains(ip) {
            let k = choose|k: int| 0 <= k < some.len() && some[k] == ip;
            assert(all[k] == ip);
        }
        if rest.contains(entry) {
            let k = choose|k: int| 0 <= k < rest.len() && rest[k] == entry;
            assert(entries[k] == entry);
        }
        if entries.last() == entry {
            assert(all.last() == ip);
            assert(entries[entries.len() - 1] == entry);
        }
        if all.contains(ip) && !some.contains(ip) {
            let k = choose|k: int| 0 <= k < all.len() && all[k] == ip;
            if k < some.len() {
                assert(some[k] == ip);
            }
            assert(entries.last() == entry);
        }
        if entries.contains(entry) && entries.last() != entry {
            let k = choose|k: int| 0 <= k < entries.len() && entries[k] == entry;
            assert(rest[k] == entry);
        }
    }
}

/// Indexes the DNS records of a table; records without a host or an IPv4 address are left out.
pub fn build_dns_indexes(raw_dns_records: Vec<DnsRecord>) -> (r: DnsIndexes)
    ensures
        r.holds(dns_entries(views(raw_dns_records@))),
{
    let mut index = DnsIndexes {
        scoped: HashMap::new(),
        exact: StringHashMap::new(),
        record_count: 0,
    };
    let ghost f = |record: DnsRecordView| dns_entry_of(record);
    let ghost raw = views(raw_dns_records@);
    let mut i: usize = 0;
    assert(index.holds(Seq::empty())) by {
        assert forall|h: Seq<char>| #[trigger]
            list_at(index.exact@, h) == exact_ips(Seq::empty(), h) by {}
    }
    while i < raw_dns_records.len()
        invariant
            i <= raw_dns_records@.len(),
            raw == views(raw_dns_records@),
            f == (|record: DnsRecordView| dns_entry_of(record)),
            index.holds(distinct(raw.take(i as int).filter_map(f))),
            raw.take(i as int).filter_map(f).len() <= i,
        decreases raw_dns_records@.len() - i,
    {
        let ghost before = raw.take(i as int).filter_map(f);
        let ghost after = raw.take(i + 1);
        assert(after.drop_last() == raw.take(i as int));
        assert(after.last() == raw_dns_records@[i as int]@);
        let host = normalize_domain(raw_dns_records[i].host.as_str());
        if !is_empty_text(host.as_str()) {
            if let Some(ip) = parse_ipv4(trim(raw_dns_records[i].ip.as_str()).as_str()) {
                let rc_id: i32 = raw_dns_records[i].rc_id;
                proof {
                    let entry = DnsEntry { rc_id, host: host@, ip };
                    assert(after.filter_map(f) == before.push(entry));
                    assert(before.push(entry).drop_last() == before);
                    law_distinct(before);
                }
                index.record(rc_id, host.as_str(), ip, Ghost(distinct(before)));
            }
        }
        i += 1;
    }
    assert(raw.take(raw.len() as int) == raw);
    index
}

/// The addresses of a host in the view of a resource come once each.
pub proof fn law_scoped_ips_come_once(records: Seq<DnsRecordView>, rc_id: i32, host: Seq<char>)
    ensures
        scoped_ips(dns_entries(records), rc_id, host).no_duplicates(),
        exact_ips(dns_entries(records), host).no_duplicates(),
{
    law_distinct(records.filter_map(|record: DnsRecordView| dns_entry_of(record)));
    lemma_scoped_once(dns_entries(records), rc_id, host);
    law_distinct(host_ips(dns_entries(records), host));
}

proof fn lemma_scoped_once(entries: Seq<DnsEntry>, rc_id: i32, host: Seq<char>)
    requires
        entries.no_duplicates(),
    ensures
        scoped_ips(entries, rc_id, host).no_duplicates(),
    decreases entries.len(),
{
    if entries.len() > 0 {
        let rest = entries.drop_last();
        lemma_scoped_once(rest, rc_id, host);
        let e = entries.last();
        lemma_scoped_contains(rest, rc_id, host, e.ip);
        if e.rc_id == rc_id && e.host == host {
            if rest.contains(e) {
                let k = choose|k: int| 0 <= k < rest.len() && rest[k] == e;
                assert(entries[k] == entries[entries.len() - 1]);
            }
            assert(!scoped_ips(rest, rc_id, host).contains(e.ip));
        }
    }
}

/// What an entry of the table names as a DNS server: a transport address as it is; an IP address
/// alone with the DNS port; nothing else.
pub proof fn law_dns_server_of(raw: Seq<char>)
    ensures
        ({
            let token = trimmed(raw);
            &&& socket_addr_of(token) is Some ==> dns_server_of(raw) == socket_addr_of(token)
            &&& socket_addr_of(token) is None ==> match (ipv4_of(token), ipv6_of(token)) {
                (Some(ip), _) => dns_server_of(raw) == Some(SocketAddr::V4 { ip, port: 53 }),
                (None, Some(ip6)) => token.len() > 0 ==> dns_server_of(raw) == Some(
                    SocketAddr::V6 { ip6, scope_id: 0, port: 53 },
                ),
                (None, None) => dns_server_of(raw) is None,
            }
            &&& token.len() == 0 ==> dns_server_of(raw) is None
        }),
{
    let token = trimmed(raw);
    if let Some(ip) = ipv4_of(token) {
        law_ipv4_of(token, ip);
        lemma_ipv4_text_chars(ip);
    }
}

/// A DNS server that is given by its IPv4 address alone is asked on port 53; one that is given with
/// a port, on that port.
pub proof fn law_dns_server_port(ip: u32, port: u16)
    ensures
        dns_server_of(ipv4_text(ip)) == Some(SocketAddr::V4 { ip, port: 53 }),
        dns_server_of(ipv4_text(ip) + seq![':'] + decimal(port as nat)) == Some(
            SocketAddr::V4 { ip, port },
        ),
{
    let host = ipv4_text(ip);
    lemma_ipv4_text_chars(ip);
    lemma_trimmed_already(host);
    law_ipv4_of(host, ip);
    law_split(host, ':');
    if socket_addr_of(host) is Some {
        match socket_addr_of(host)->Some_0 {
            SocketAddr::V4 { ip: other, port: p } => {
                law_ipv4_socket_addr_of(host, other, p);
                let digits = choose|digits: Seq<char>|
                    host == #[trigger] (ipv4_text(other) + seq![':'] + digits) && number_of(
                        digits,
                        u16::MAX as nat,
                    ) == Some(p as nat);
                assert(host[ipv4_text(other).len() as int] == ':');
            },
            SocketAddr::V6 { .. } => {
                law_brackets_tell_the_family(host);
            },
        }
    }
    let addr = SocketAddr::V4 { ip, port };
    law_socket_addr_text(ip, 0, 0, port);
    lemma_addr_text_is_trimmed(addr);
    law_ipv4_socket_addr_round_trip(ip, port);
}

/// What a record says: its host, normalized, has its address in the view of its resource. It says
/// nothing where the host is empty or the address is no IPv4 address.
pub proof fn law_dns_entry_of(record: DnsRecordView, entry: DnsEntry)
    ensures
        dns_entry_of(record) == Some(entry) <==> {
            &&& entry.rc_id == record.rc_id
            &&& entry.host == normalized(record.host) && entry.host.len() > 0
            &&& trimmed(record.ip) == ipv4_text(entry.ip)
        },
{
    law_ipv4_of(trimmed(record.ip), entry.ip);
}

/// Whether the record at `i` is the first that says `entry`.
pub open spec fn says_first(records: Seq<DnsRecordView>, i: int, entry: DnsEntry) -> bool {
    &&& 0 <= i < records.len()
    &&& dns_entry_of(records[i]) == Some(entry)
    &&& forall|k: int| 0 <= k < i ==> dns_entry_of(#[trigger] records[k]) != Some(entry)
}

/// The entries of a table are what its records say, once each, in the order in which they first say
/// it.
pub proof fn law_dns_entries(records: Seq<DnsRecordView>)
    ensures
        dns_entries(records).no_duplicates(),
        forall|entry: DnsEntry| #[trigger]
            dns_entries(records).contains(entry) <==> exists|i: int| #[trigger]
                says_first(records, i, entry),
        forall|a: int, b: int, i: int, j: int|
            0 <= a < b < dns_entries(records).len() && #[trigger] says_first(
                records,
                i,
                dns_entries(records)[a],
            ) && #[trigger] says_first(records, j, dns_entries(records)[b]) ==> i < j,
{
    let f = |record: DnsRecordView| dns_entry_of(record);
    let out = dns_entries(records);
    law_distinct_images(records, f);
    assert forall|i: int, entry: DnsEntry| #[trigger] says_first(records, i, entry) == maps_first(
        records,
        f,
        i,
        entry,
    ) by {}
    assert forall|entry: DnsEntry| #[trigger] out.contains(entry) <==> exists|i: int| #[trigger]
        says_first(records, i, entry) by {
        if out.contains(entry) {
            let i = choose|i: int| #[trigger] maps_first(records, f, i, entry);
            assert(says_first(records, i, entry));
        }
        if exists|i: int| #[trigger] says_first(records, i, entry) {
            let i = choose|i: int| #[trigger] says_first(records, i, entry);
            assert(f(records[i]) == Some(entry));
        }
    }
    assert forall|a: int, b: int, i: int, j: int|
        0 <= a < b < out.len() && #[trigger] says_first(records, i, out[a]) && #[trigger] says_first(
            records,
            j,
            out[b],
        ) implies i < j by {
        assert(maps_first(records, f, i, out[a]) && maps_first(records, f, j, out[b]));
    }
}

/// The addresses of a host are those of the entries for it: each entry adds its address at the end,
/// in the view of its resource always, in the view of any resource where it is new; and entries for
/// other hosts or resources add nothing.
pub proof fn law_ips_of_entries(
    entries: Seq<DnsEntry>,
    entry: DnsEntry,
    rc_id: i32,
    host: Seq<char>,
)
    ensures
        scoped_ips(Seq::empty(), rc_id, host) == Seq::<u32>::empty(),
        exact_ips(Seq::empty(), host) == Seq::<u32>::empty(),
        scoped_ips(entries.push(entry), rc_id, host) == if entry.rc_id == rc_id && entry.host
            == host {
            scoped_ips(entries, rc_id, host).push(entry.ip)
        } else {
            scoped_ips(entries, rc_id, host)
        },
        exact_ips(entries.push(entry), host) == if entry.host == host && !exact_ips(
            entries,
            host,
        ).contains(entry.ip) {
            exact_ips(entries, host).push(entry.ip)
        } else {
            exact_ips(entries, host)
        },
{
    let more = entries.push(entry);
    assert(more.drop_last() == entries);
    let ips = host_ips(entries, host);
    law_distinct(ips);
    assert(ips.push(entry.ip).drop_last() == ips);
    if entry.host == host {
        assert(host_ips(more, host) == ips.push(entry.ip));
    } else {
        assert(host_ips(more, host) == ips);
    }
}

} // verus!
