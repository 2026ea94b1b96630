//! What a DNS resolver is asked for and what it answers.

use crate::addr::SocketAddr;
use crate::text::append;
use vstd::prelude::*;

verus! {

/// Where an answer comes from.
#[derive(Debug, Clone, Copy, PartialEq, Eq, Structural)]
pub enum ResolveSource {
    Cache,
    Server(SocketAddr),
}

/// The first IPv4 address of a name.
#[derive(Debug, Clone, Copy, PartialEq, Eq, Structural)]
pub struct Resolved {
    pub ip: u32,
    pub source: ResolveSource,
}

/// All that a lookup says of a name: its aliases and its IPv4 addresses.
#[derive(Debug, Clone)]
pub struct DnsLookup {
    pub aliases: Vec<String>,
    pub ips: Vec<u32>,
    pub source: ResolveSource,
}

/// A lookup that gave no answer.
#[derive(Debug, Clone)]
pub struct LookupFailure {
    pub detail: String,
}

/// A [`DnsLookup`] with its aliases as characters.
pub struct DnsLookupView {
    pub aliases: Seq<Seq<char>>,
    pub ips: Seq<u32>,
    pub source: ResolveSource,
}

impl View for DnsLookup {
    type V = DnsLookupView;

    open spec fn view(&self) -> DnsLookupView {
        DnsLookupView {
            aliases: crate::list::views(self.aliases@),
            ips: self.ips@,
            source: self.source,
        }
    }
}

impl View for LookupFailure {
    type V = Seq<char>;

    /// The message of the failure.
    open spec fn view(&self) -> Seq<char> {
        "dnsserver lookup failed: "@ + self.detail@
    }
}

impl LookupFailure {
    /// The message of the failure.
    pub fn message(&self) -> (r: String)
        ensures
            r@ == self@,
    {
        let mut r = "dnsserver lookup failed: ".to_string();
        append(&mut r, self.detail.as_str());
        r
    }
}

/// The view of an answer keeps its aliases and addresses in order, and its source; the view of a
/// failure is its message.
pub proof fn law_answer_views(lookup: DnsLookup, failure: LookupFailure, i: int)
    ensures
        lookup@.ips == lookup.ips@ && lookup@.source == lookup.source,
        lookup@.aliases.len() == lookup.aliases@.len(),
        0 <= i < lookup.aliases@.len() ==> lookup@.aliases[i] == lookup.aliases@[i]@,
        failure@ == "dnsserver lookup failed: "@ + failure.detail@,
{
}

} // verus!
