//! The route table as it is handed to the client: raw rules, DNS servers and DNS records.

use vstd::prelude::*;

verus! {

/// The ports `start..=end`.
#[derive(Debug, Clone, Copy, PartialEq, Eq, Structural)]
pub struct PortRange {
    pub start: u16,
    pub end: u16,
}

/// One rule: which hosts and ports a resource covers.
#[derive(Debug, Clone)]
pub struct RouteRule {
    pub rc_id: i32,
    pub proto: i32,
    pub svc: String,
    pub name: String,
    pub host: String,
    pub port: PortRange,
}

/// One DNS record: the address of a host as a resource sees it.
#[derive(Debug, Clone)]
pub struct DnsRecord {
    pub rc_id: i32,
    pub host: String,
    pub ip: String,
}

/// The whole table.
#[derive(Debug, Clone)]
pub struct RouteTable {
    pub rules: Vec<RouteRule>,
    pub dns_servers: Vec<String>,
    pub dns_records: Vec<DnsRecord>,
}

/// A [`RouteRule`] with its texts as characters.
pub struct RouteRuleView {
    pub rc_id: i32,
    pub proto: i32,
    pub svc: Seq<char>,
    pub name: Seq<char>,
    pub host: Seq<char>,
    pub port: PortRange,
}

/// A [`DnsRecord`] with its texts as characters.
pub struct DnsRecordView {
    pub rc_id: i32,
    pub host: Seq<char>,
    pub ip: Seq<char>,
}

/// A [`RouteTable`] with its texts as characters.
pub struct RouteTableView {
    pub rules: Seq<RouteRuleView>,
    pub dns_servers: Seq<Seq<char>>,
    pub dns_records: Seq<DnsRecordView>,
}

impl View for RouteRule {
    type V = RouteRuleView;

    open spec fn view(&self) -> RouteRuleView {
        RouteRuleView {
            rc_id: self.rc_id,
            proto: self.proto,
            svc: self.svc@,
            name: self.name@,
            host: self.host@,
            port: self.port,
        }
    }
}

impl View for DnsRecord {
    type V = DnsRecordView;

    open spec fn view(&self) -> DnsRecordView {
        DnsRecordView { rc_id: self.rc_id, host: self.host@, ip: self.ip@ }
    }
}

impl View for RouteTable {
    type V = RouteTableView;

    open spec fn view(&self) -> RouteTableView {
        RouteTableView {
            rules: crate::list::views(self.rules@),
            dns_servers: crate::list::views(self.dns_servers@),
            dns_records: crate::list::views(self.dns_records@),
        }
    }
}

/// The views of a table and of what it holds keep every field, and the order of the lists.
pub proof fn law_table_views(rule: RouteRule, record: DnsRecord, table: RouteTable, i: int)
    ensures
        rule@ == (RouteRuleView {
            rc_id: rule.rc_id,
            proto: rule.proto,
            svc: rule.svc@,
            name: rule.name@,
            host: rule.host@,
            port: rule.port,
        }),
        record@ == (DnsRecordView { rc_id: record.rc_id, host: record.host@, ip: record.ip@ }),
        table@.rules.len() == table.rules@.len(),
        table@.dns_servers.len() == table.dns_servers@.len(),
        table@.dns_records.len() == table.dns_records@.len(),
        0 <= i < table.rules@.len() ==> table@.rules[i] == table.rules@[i]@,
        0 <= i < table.dns_servers@.len() ==> table@.dns_servers[i] == table.dns_servers@[i]@,
        0 <= i < table.dns_records@.len() ==> table@.dns_records[i] == table.dns_records@[i]@,
{
}

} // verus!
