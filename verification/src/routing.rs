//! Planning: whether a target goes through the tunnel or around it.
//!
//! A plan may need the answer of a DNS resolver. Planning is therefore a sequence of steps: a
//! [`PlanStep`] is either the finished plan or a query, and the answer to a query is handed to
//! [`RouteMatcher::resume_lookup`] or [`finish_address`] for the next step.

use crate::addr::{
    append_ipv4, ipv4_of, ipv4_text, ipv6_of, ipv6_text, law_ipv4_of, law_socket_addr_text,
    lemma_ipv4_text_chars, parse_ipv4, socket_addr_text, SocketAddr,
};
use crate::dns::{DnsLookup, DnsLookupView, LookupFailure, ResolveSource, Resolved};
use crate::dns_index::{
    build_dns_indexes, dns_entries, dns_servers_of, exact_ips, normalize_dns_servers, scoped_ips,
    DnsEntry, DnsIndexes,
};
use crate::error::{EcError, EcResult};
use crate::list::{law_distinct_images, maps_first, views};
use crate::route_table::{RouteRuleView, RouteTable, RouteTableView};
use crate::rules::{
    applies, compile_rules, compiled, compiled_all, first_match, law_compiled, law_first_match,
    law_host_field_with_one_host, law_table_order, law_target_of, parse_target, target_of, CompiledRule,
    CompiledRuleView, HostMatcher, HostMatcherView, RuleIndex, TargetKind, TargetView,
};
use crate::scopes::{infer_trusted_dns_scopes, is_trusted, is_trusted_domain, trusted_scopes};
use crate::text::{
    append, append_decimal, decimal, is_empty_text, lemma_trimmed_already, normalize_domain,
    normalized, trimmed,
};
use vstd::hash_set::StringHashSet;
use vstd::prelude::*;

verus! {

/// The sizes of an installed table.
#[derive(Debug, Clone, Copy, PartialEq, Eq, Structural)]
pub struct RouteInstallSummary {
    pub rule_count: usize,
    pub dns_server_count: usize,
    pub dns_record_count: usize,
    pub dns_scope_count: usize,
}

/// Where a target goes.
#[derive(Debug, Clone)]
pub enum RoutePlan {
    /// Through the tunnel, to the address `dial`, on behalf of a resource.
    Remote {
        dial: String,
        rc_id: i32,
        rc_name: String,
        source: RouteSource,
        dns_lookup: Option<ResolveSource>,
    },
    /// Around the tunnel.
    Fallback { target: String, reason: String },
}

/// What led to a remote plan.
#[derive(Debug, Clone, Copy, PartialEq, Eq, Structural)]
pub enum RouteSource {
    RouteTableUnavailable,
    RuleIp,
    DnsMap,
    DnsDataIpRule,
    DnsServer,
    CnameDnsMap,
    CnameDnsServer,
    DnsServerIpRule,
}

/// A [`RoutePlan`] with its texts as characters.
pub enum RoutePlanView {
    Remote {
        dial: Seq<char>,
        rc_id: i32,
        rc_name: Seq<char>,
        source: RouteSource,
        dns_lookup: Option<ResolveSource>,
    },
    Fallback { target: Seq<char>, reason: Seq<char> },
}

impl View for RoutePlan {
    type V = RoutePlanView;

    open spec fn view(&self) -> RoutePlanView {
        match *self {
            RoutePlan::Remote { dial, rc_id, rc_name, source, dns_lookup } => {
                RoutePlanView::Remote {
                    dial: dial@,
                    rc_id,
                    rc_name: rc_name@,
                    source,
                    dns_lookup,
                }
            },
            RoutePlan::Fallback { target, reason } => RoutePlanView::Fallback {
                target: target@,
                reason: reason@,
            },
        }
    }
}

impl RouteSource {
    /// The name of the source.
    pub open spec fn name(self) -> Seq<char> {
        match self {
            RouteSource::RouteTableUnavailable => "route-table-unavailable"@,
            RouteSource::RuleIp => "rule-ip"@,
            RouteSource::DnsMap => "dns-map"@,
            RouteSource::DnsDataIpRule => "dns-data-ip-rule"@,
            RouteSource::DnsServer => "dns-server"@,
            RouteSource::CnameDnsMap => "cname-dns-map"@,
            RouteSource::CnameDnsServer => "cname-dns-server"@,
            RouteSource::DnsServerIpRule => "dns-server-ip-rule"@,
        }
    }

    /// The name of the source.
    pub fn label(self) -> (r: &'static str)
        ensures
            r@ == self.name(),
    {
        match self {
            RouteSource::RouteTableUnavailable => "route-table-unavailable",
            RouteSource::RuleIp => "rule-ip",
            RouteSource::DnsMap => "dns-map",
            RouteSource::DnsDataIpRule => "dns-data-ip-rule",
            RouteSource::DnsServer => "dns-server",
            RouteSource::CnameDnsMap => "cname-dns-map",
            RouteSource::CnameDnsServer => "cname-dns-server",
            RouteSource::DnsServerIpRule => "dns-server-ip-rule",
        }
    }
}

/// A request for the first IPv4 address of a domain, asked of servers for a resource, with what the
/// plan is for.
#[derive(Debug)]
pub struct AddressQuery {
    rc_id: i32,
    domain: String,
    servers: Vec<SocketAddr>,
    rc_name: String,
    host: String,
    port: u16,
    alias_source: Option<ResolveSource>,
}

/// A request for the aliases and addresses of a domain, asked of servers, with what the plan is for.
#[derive(Debug)]
pub struct LookupQuery {
    domain: String,
    servers: Vec<SocketAddr>,
    host: String,
    port: u16,
}

/// The next step of planning.
#[derive(Debug)]
pub enum PlanStep {
    /// The plan is finished.
    Done(RoutePlan),
    /// An address is needed; [`finish_address`] takes the answer.
    ResolveAddress(AddressQuery),
    /// A lookup is needed; [`RouteMatcher::resume_lookup`] takes the answer.
    ResolveLookup(LookupQuery),
}

/// An [`AddressQuery`] with its texts as characters.
pub struct AddressQueryView {
    pub rc_id: i32,
    pub domain: Seq<char>,
    pub servers: Seq<SocketAddr>,
    pub rc_name: Seq<char>,
    pub host: Seq<char>,
    pub port: u16,
    pub alias_source: Option<ResolveSource>,
}

/// A [`LookupQuery`] with its texts as characters.
pub struct LookupQueryView {
    pub domain: Seq<char>,
    pub servers: Seq<SocketAddr>,
    pub host: Seq<char>,
    pub port: u16,
}

/// A [`PlanStep`] with its texts as characters.
pub enum PlanStepView {
    Done(RoutePlanView),
    ResolveAddress(AddressQueryView),
    ResolveLookup(LookupQueryView),
}

impl View for AddressQuery {
    type V = AddressQueryView;

    closed spec fn view(&self) -> AddressQueryView {
        AddressQueryView {
            rc_id: self.rc_id,
            domain: self.domain@,
            servers: self.servers@,
            rc_name: self.rc_name@,
            host: self.host@,
            port: self.port,
            alias_source: self.alias_source,
        }
    }
}

impl View for LookupQuery {
    type V = LookupQueryView;

    closed spec fn view(&self) -> LookupQueryView {
        LookupQueryView {
            domain: self.domain@,
            servers: self.servers@,
            host: self.host@,
            port: self.port,
        }
    }
}

impl AddressQuery {
    /// The resource that the address is for.
    pub fn rc_id(&self) -> (r: i32)
        ensures
            r == self@.rc_id,
    {
        self.rc_id
    }

    /// The domain that is asked for.
    pub fn domain(&self) -> (r: &str)
        ensures
            r@ == self@.domain,
    {
        self.domain.as_str()
    }

    /// The servers that are asked.
    pub fn servers(&self) -> (r: &Vec<SocketAddr>)
        ensures
            r@ == self@.servers,
    {
        &self.servers
    }
}

impl LookupQuery {
    /// The domain that is asked for.
    pub fn domain(&self) -> (r: &str)
        ensures
            r@ == self@.domain,
    {
        self.domain.as_str()
    }

    /// The servers that are asked.
    pub fn servers(&self) -> (r: &Vec<SocketAddr>)
        ensures
            r@ == self@.servers,
    {
        &self.servers
    }
}

impl View for PlanStep {
    type V = PlanStepView;

    open spec fn view(&self) -> PlanStepView {
        match *self {
            PlanStep::Done(plan) => PlanStepView::Done(plan@),
            PlanStep::ResolveAddress(query) => PlanStepView::ResolveAddress(query@),
            PlanStep::ResolveLookup(query) => PlanStepView::ResolveLookup(query@),
        }
    }
}

/// What planning knows: the rules in table order, the DNS entries, the DNS servers and the
/// domains whose lookups are trusted.
pub struct MatcherView {
    pub rules: Seq<CompiledRuleView>,
    pub entries: Seq<DnsEntry>,
    pub servers: Seq<SocketAddr>,
    pub scopes: Set<Seq<char>>,
}

/// The domain that a rule is about, where it is about one.
pub open spec fn rule_domain(rule: CompiledRuleView) -> Option<Seq<char>> {
    match rule.matcher {
        HostMatcherView::Domain(name) => Some(name),
        _ => None,
    }
}

/// The domains that the rules are about.
pub open spec fn rule_domains(rules: Seq<CompiledRuleView>) -> Seq<Seq<char>> {
    rules.filter_map(|rule: CompiledRuleView| rule_domain(rule))
}

/// What planning knows of a table.
pub open spec fn matcher_of(table: RouteTableView) -> MatcherView {
    MatcherView {
        rules: compiled_all(table.rules),
        entries: dns_entries(table.dns_records),
        servers: dns_servers_of(table.dns_servers),
        scopes: trusted_scopes(rule_domains(compiled_all(table.rules))),
    }
}

/// `host:port`.
pub open spec fn host_port(host: Seq<char>, port: u16) -> Seq<char> {
    host + seq![':'] + decimal(port as nat)
}

/// A plan to go around the tunnel.
pub open spec fn fallback(target: Seq<char>, reason: Seq<char>) -> RoutePlanView {
    RoutePlanView::Fallback { target, reason }
}

/// The plan for a target that no rule matches.
pub open spec fn no_rule(host: Seq<char>, port: u16) -> RoutePlanView {
    fallback(host_port(host, port), "no whitelist rule matched"@)
}

/// The plan for an IPv6 target.
pub open spec fn ipv6_fallback(ip: u128, port: u16) -> RoutePlanView {
    fallback(
        socket_addr_text(SocketAddr::V6 { ip6: ip, scope_id: 0, port }),
        "IPv6 targets are fallback-only"@,
    )
}

/// The plan to reach an IPv4 address through the tunnel because of a rule.
pub open spec fn remote(
    rule: CompiledRuleView,
    ip: u32,
    port: u16,
    source: RouteSource,
    dns_lookup: Option<ResolveSource>,
) -> RoutePlanView {
    RoutePlanView::Remote {
        dial: host_port(ipv4_text(ip), port),
        rc_id: rule.rc_id,
        rc_name: rule.rc_name,
        source,
        dns_lookup,
    }
}

/// The step for a target that a rule matches.
pub open spec fn step_with_rule(
    m: MatcherView,
    rule: CompiledRuleView,
    host: Seq<char>,
    port: u16,
    target: TargetView,
) -> PlanStepView {
    match target {
        TargetView::Ipv4(ip) => PlanStepView::Done(
            remote(rule, ip, port, RouteSource::RuleIp, None),
        ),
        TargetView::Ipv6(ip) => PlanStepView::Done(ipv6_fallback(ip, port)),
        TargetView::Domain(domain) => {
            let known = scoped_ips(m.entries, rule.rc_id, domain);
            if known.len() > 0 {
                PlanStepView::Done(remote(rule, known[0], port, RouteSource::DnsMap, None))
            } else if m.servers.len() == 0 {
                PlanStepView::Done(
                    fallback(
                        host_port(host, port),
                        "hostname matched a route rule but dns.data entry is missing and DNS servers are unavailable"@,
                    ),
                )
            } else {
                PlanStepView::ResolveAddress(
                    AddressQueryView {
                        rc_id: rule.rc_id,
                        domain,
                        servers: m.servers,
                        rc_name: rule.rc_name,
                        host,
                        port,
                        alias_source: None,
                    },
                )
            }
        },
    }
}

/// The first of `ips` that a rule matches, with the first rule that does.
pub open spec fn first_ip_match(
    rules: Seq<CompiledRuleView>,
    ips: Seq<u32>,
    port: u16,
) -> Option<(u32, CompiledRuleView)>
    decreases ips.len(),
{
    if ips.len() == 0 {
        None
    } else {
        match first_match(rules, TargetView::Ipv4(ips[0]), port) {
            Some(rule) => Some((ips[0], rule)),
            None => first_ip_match(rules, ips.skip(1), port),
        }
    }
}

/// The plan for the first of the resolved `ips` that a rule matches.
pub open spec fn plan_for_ips(
    rules: Seq<CompiledRuleView>,
    ips: Seq<u32>,
    port: u16,
    source: RouteSource,
    dns_lookup: Option<ResolveSource>,
) -> Option<RoutePlanView> {
    match first_ip_match(rules, ips, port) {
        Some((ip, rule)) => Some(remote(rule, ip, port, source, dns_lookup)),
        None => None,
    }
}

/// Whether an alias can be matched against domain rules: it is a name, not an IPv4 address.
pub open spec fn usable_alias(alias: Seq<char>) -> bool {
    normalized(alias).len() > 0 && ipv4_of(normalized(alias)) is None
}

/// The first usable alias that a rule matches, with the first rule that does.
pub open spec fn first_alias_match(
    rules: Seq<CompiledRuleView>,
    aliases: Seq<Seq<char>>,
    port: u16,
) -> Option<(Seq<char>, CompiledRuleView)>
    decreases aliases.len(),
{
    if aliases.len() == 0 {
        None
    } else {
        let alias = normalized(aliases[0]);
        match first_match(rules, TargetView::Domain(alias), port) {
            Some(rule) if usable_alias(aliases[0]) => Some((alias, rule)),
            _ => first_alias_match(rules, aliases.skip(1), port),
        }
    }
}

/// The source of a plan that was reached through an alias.
pub open spec fn cname_source(source: RouteSource) -> RouteSource {
    match source {
        RouteSource::DnsMap => RouteSource::CnameDnsMap,
        RouteSource::DnsServer => RouteSource::CnameDnsServer,
        other => other,
    }
}

/// A plan with the source of its DNS lookup filled in, where it names none.
pub open spec fn with_lookup(plan: RoutePlanView, lookup: ResolveSource) -> RoutePlanView {
    match plan {
        RoutePlanView::Remote { dial, rc_id, rc_name, source, dns_lookup: None } => {
            RoutePlanView::Remote { dial, rc_id, rc_name, source, dns_lookup: Some(lookup) }
        },
        other => other,
    }
}

/// A plan as it is when reached through an alias.
pub open spec fn with_cname(plan: RoutePlanView) -> RoutePlanView {
    match plan {
        RoutePlanView::Remote { dial, rc_id, rc_name, source, dns_lookup } => {
            RoutePlanView::Remote {
                dial,
                rc_id,
                rc_name,
                source: cname_source(source),
                dns_lookup,
            }
        },
        other => other,
    }
}

/// A step as it is when reached through an alias that a lookup gave.
pub open spec fn step_with_alias(step: PlanStepView, lookup: ResolveSource) -> PlanStepView {
    match step {
        PlanStepView::Done(plan) => PlanStepView::Done(with_lookup(with_cname(plan), lookup)),
        PlanStepView::ResolveAddress(query) => PlanStepView::ResolveAddress(
            AddressQueryView { alias_source: Some(lookup), ..query },
        ),
        other => other,
    }
}

/// The step for the first usable alias that a rule matches.
pub open spec fn step_from_aliases(
    m: MatcherView,
    host: Seq<char>,
    port: u16,
    aliases: Seq<Seq<char>>,
    lookup: ResolveSource,
) -> Option<PlanStepView> {
    match first_alias_match(m.rules, aliases, port) {
        Some((alias, rule)) => Some(
            step_with_alias(
                step_with_rule(m, rule, host, port, TargetView::Domain(alias)),
                lookup,
            ),
        ),
        None => None,
    }
}

/// The first step for a target.
///
/// The rules are tried on the target itself; then, for a name, on the addresses that the DNS
/// records give for it; then, for a name within a trusted scope, on what a DNS lookup says.
pub open spec fn first_step(m: MatcherView, host: Seq<char>, port: u16) -> PlanStepView {
    let target = target_of(host);
    match target {
        TargetView::Ipv6(ip) => PlanStepView::Done(ipv6_fallback(ip, port)),
        _ => match first_match(m.rules, target, port) {
            Some(rule) => step_with_rule(m, rule, host, port, target),
            None => match target {
                TargetView::Domain(domain) => match plan_for_ips(
                    m.rules,
                    exact_ips(m.entries, domain),
                    port,
                    RouteSource::DnsDataIpRule,
                    None,
                ) {
                    Some(plan) => PlanStepView::Done(plan),
                    None => if m.servers.len() > 0 && is_trusted(m.scopes, domain) {
                        PlanStepView::ResolveLookup(
                            LookupQueryView { domain, servers: m.servers, host, port },
                        )
                    } else {
                        PlanStepView::Done(no_rule(host, port))
                    },
                },
                _ => PlanStepView::Done(no_rule(host, port)),
            },
        },
    }
}

/// The step after a lookup was answered.
pub open spec fn step_after_lookup(
    m: MatcherView,
    query: LookupQueryView,
    answer: Option<DnsLookupView>,
) -> PlanStepView {
    match answer {
        None => PlanStepView::Done(no_rule(query.host, query.port)),
        Some(lookup) => match step_from_aliases(
            m,
            query.host,
            query.port,
            lookup.aliases,
            lookup.source,
        ) {
            Some(step) => step,
            None => match plan_for_ips(
                m.rules,
                lookup.ips,
                query.port,
                RouteSource::DnsServerIpRule,
                Some(lookup.source),
            ) {
                Some(plan) => PlanStepView::Done(plan),
                None => PlanStepView::Done(no_rule(query.host, query.port)),
            },
        },
    }
}

/// The plan after an address query was answered, with an address or with a failure's message.
pub open spec fn plan_after_address(
    query: AddressQueryView,
    answer: Result<Resolved, Seq<char>>,
) -> RoutePlanView {
    match answer {
        Ok(resolved) => RoutePlanView::Remote {
            dial: host_port(ipv4_text(resolved.ip), query.port),
            rc_id: query.rc_id,
            rc_name: query.rc_name,
            source: if query.alias_source is Some {
                RouteSource::CnameDnsServer
            } else {
                RouteSource::DnsServer
            },
            dns_lookup: Some(resolved.source),
        },
        Err(message) => fallback(
            host_port(query.host, query.port),
            "hostname matched a route rule but dns.data entry is missing and DNS lookup failed: "@
                + message,
        ),
    }
}

/// An installed route table.
pub struct RouteMatcher {
    rules: Vec<CompiledRule>,
    rule_index: RuleIndex,
    dns: DnsIndexes,
    dns_servers: Vec<SocketAddr>,
    trusted_dns_scopes: StringHashSet,
    entries: Ghost<Seq<DnsEntry>>,
}

impl View for RouteMatcher {
    type V = MatcherView;

    closed spec fn view(&self) -> MatcherView {
        MatcherView {
            rules: views(self.rules@),
            entries: self.entries@,
            servers: self.dns_servers@,
            scopes: self.trusted_dns_scopes@,
        }
    }
}

/// `host:port`.
fn format_host_port(host: &str, port: u16) -> (r: String)
    ensures
        r@ == host_port(host@, port),
{
    let mut r = host.to_string();
    r.push(':');
    append_decimal(&mut r, port as u64);
    assert(r@ =~= host_port(host@, port));
    r
}

/// `ip:port`.
fn format_ip_port(ip: u32, port: u16) -> (r: String)
    ensures
        r@ == host_port(ipv4_text(ip), port),
{
    let mut r = String::new();
    append_ipv4(&mut r, ip);
    r.push(':');
    append_decimal(&mut r, port as u64);
    assert(r@ =~= host_port(ipv4_text(ip), port));
    r
}

/// The plan for an IPv6 target.
fn plan_ipv6_fallback(ip: u128, port: u16) -> (r: RoutePlan)
    ensures
        r@ == ipv6_fallback(ip, port),
{
    RoutePlan::Fallback {
        target: SocketAddr::V6 { ip6: ip, scope_id: 0, port }.to_text(),
        reason: "IPv6 targets are fallback-only".to_string(),
    }
}

/// The plan for a target that no rule matches.
fn plan_no_rule(host: &str, port: u16) -> (r: RoutePlan)
    ensures
        r@ == no_rule(host@, port),
{
    RoutePlan::Fallback {
        target: format_host_port(host, port),
        reason: "no whitelist rule matched".to_string(),
    }
}

/// The plan to reach an address through the tunnel because of a rule.
fn plan_remote(
    rule: &CompiledRule,
    ip: u32,
    port: u16,
    source: RouteSource,
    dns_lookup: Option<ResolveSource>,
) -> (r: RoutePlan)
    ensures
        r@ == remote(rule@, ip, port, source, dns_lookup),
{
    RoutePlan::Remote {
        dial: format_ip_port(ip, port),
        rc_id: rule.rc_id,
        rc_name: rule.rc_name.clone(),
        source,
        dns_lookup,
    }
}

/// The source of a plan that was reached through an alias.
pub fn cname_route_source(source: RouteSource) -> (r: RouteSource)
    ensures
        r == cname_source(source),
{
    match source {
        RouteSource::DnsMap => RouteSource::CnameDnsMap,
        RouteSource::DnsServer => RouteSource::CnameDnsServer,
        other => other,
    }
}

impl RoutePlan {
    /// Fills in the source of the plan's DNS lookup, where it names none.
    pub fn with_dns_lookup_if_absent(self, lookup: ResolveSource) -> (r: RoutePlan)
        ensures
            r@ == with_lookup(self@, lookup),
    {
        match self {
            RoutePlan::Remote { dial, rc_id, rc_name, source, dns_lookup: None } => {
                RoutePlan::Remote { dial, rc_id, rc_name, source, dns_lookup: Some(lookup) }
            },
            other => other,
        }
    }

    /// The plan as it is when reached through an alias.
    fn through_alias(self) -> (r: RoutePlan)
        ensures
            r@ == with_cname(self@),
    {
        match self {
            RoutePlan::Remote { dial, rc_id, rc_name, source, dns_lookup } => RoutePlan::Remote {
                dial,
                rc_id,
                rc_name,
                source: cname_route_source(source),
                dns_lookup,
            },
            other => other,
        }
    }
}

/// A copy of a list of addresses.
fn copy_addrs(addrs: &Vec<SocketAddr>) -> (r: Vec<SocketAddr>)
    ensures
        r@ == addrs@,
{
    let mut r: Vec<SocketAddr> = Vec::new();
    let mut i: usize = 0;
    while i < addrs.len()
        invariant
            i <= addrs@.len(),
            r@ == addrs@.take(i as int),
        decreases addrs@.len() - i,
    {
        r.push(addrs[i]);
        i += 1;
    }
    assert(addrs@.take(i as int) == addrs@);
    r
}

/// The domains that the rules are about.
fn domains_of(rules: &Vec<CompiledRule>) -> (r: Vec<String>)
    ensures
        views(r@) == rule_domains(views(rules@)),
{
    let mut r: Vec<String> = Vec::new();
    let ghost all = views(rules@);
    let ghost f = |rule: CompiledRuleView| rule_domain(rule);
    let mut i: usize = 0;
    while i < rules.len()
        invariant
            i <= rules@.len(),
            all == views(rules@),
            f == (|rule: CompiledRuleView| rule_domain(rule)),
            views(r@) == all.take(i as int).filter_map(f),
        decreases rules@.len() - i,
    {
        let ghost after = all.take(i + 1);
        assert(after.drop_last() == all.take(i as int));
        assert(after.last() == rules@[i as int]@);
        let ghost held = views(r@);
        if let HostMatcher::Domain(name) = &rules[i].matcher {
            r.push(name.clone());
            assert(views(r@) == held + seq![name@]);
        }
        i += 1;
    }
    assert(all.take(i as int) == all);
    r
}

impl RouteMatcher {
    #[verifier::type_invariant]
    spec fn consistent(self) -> bool {
        &&& self.rule_index.indexes(views(self.rules@))
        &&& self.dns.holds(self.entries@)
    }

    /// Prepares a table for matching.
    pub fn from_table(table: RouteTable) -> (r: EcResult<RouteMatcher>)
        ensures
            r matches Ok(matcher) && matcher@ == matcher_of(table@),
    {
        let RouteTable { rules: raw_rules, dns_servers, dns_records } = table;
        let ghost entries = dns_entries(views(dns_records@));
        let rules = compile_rules(raw_rules);
        let rule_index = RuleIndex::build(&rules);
        let domains = domains_of(&rules);
        let trusted_dns_scopes = infer_trusted_dns_scopes(&domains);
        let dns = build_dns_indexes(dns_records);
        let dns_servers = normalize_dns_servers(dns_servers);
        Ok(
            RouteMatcher {
                rules,
                rule_index,
                dns,
                dns_servers,
                trusted_dns_scopes,
                entries: Ghost(entries),
            },
        )
    }

    /// The sizes of the table.
    pub fn summary(&self) -> (r: RouteInstallSummary)
        ensures
            r.rule_count == self@.rules.len(),
            r.dns_server_count == self@.servers.len(),
            r.dns_record_count == self@.entries.len(),
            r.dns_scope_count == self@.scopes.len(),
    {
        proof {
            use_type_invariant(self);
        }
        RouteInstallSummary {
            rule_count: self.rules.len(),
            dns_server_count: self.dns_servers.len(),
            dns_record_count: self.dns.record_count(),
            dns_scope_count: self.trusted_dns_scopes.len(),
        }
    }

    /// The rules, in table order.
    pub fn rules(&self) -> (r: &Vec<CompiledRule>)
        ensures
            views(r@) == self@.rules,
    {
        &self.rules
    }

    /// The DNS servers, in table order.
    pub fn dns_servers(&self) -> (r: &Vec<SocketAddr>)
        ensures
            r@ == self@.servers,
    {
        &self.dns_servers
    }

    /// The addresses that the DNS records give for a host in the view of a resource.
    pub fn dns_map(&self, rc_id: i32, host: &str) -> (r: Option<&Vec<u32>>)
        ensures
            scoped_ips(self@.entries, rc_id, host@) == match r {
                Some(ips) => ips@,
                None => Seq::empty(),
            },
    {
        proof {
            use_type_invariant(self);
        }
        self.dns.scoped(rc_id, host)
    }

    /// The addresses that the DNS records give for a host in the view of any resource.
    pub fn dns_exact(&self, host: &str) -> (r: Option<&Vec<u32>>)
        ensures
            exact_ips(self@.entries, host@) == match r {
                Some(ips) => ips@,
                None => Seq::empty(),
            },
    {
        proof {
            use_type_invariant(self);
        }
        self.dns.exact(host)
    }

    /// The first rule that matches a target and port.
    fn find_rule(&self, target: &TargetKind, port: u16) -> (r: Option<&CompiledRule>)
        ensures
            match r {
                Some(rule) => first_match(self@.rules, target@, port) == Some(rule@),
                None => first_match(self@.rules, target@, port) is None,
            },
    {
        proof {
            use_type_invariant(self);
        }
        self.rule_index.find_first_match(&self.rules, target, port)
    }

    /// Whether lookups of a domain are trusted.
    pub fn is_trusted_dns_domain(&self, domain: &str) -> (r: bool)
        ensures
            r == is_trusted(self@.scopes, domain@),
    {
        is_trusted_domain(&self.trusted_dns_scopes, domain)
    }

    /// Starts planning for a target.
    pub fn plan(&self, host: &str, port: u16) -> (r: PlanStep)
        ensures
            r@ == first_step(self@, host@, port),
    {
        let target = parse_target(host);
        if let TargetKind::Ipv6(ip) = target {
            return PlanStep::Done(plan_ipv6_fallback(ip, port));
        }
        if let Some(rule) = self.find_rule(&target, port) {
            return self.plan_remote_with_rule(rule, host, port, &target);
        }
        if let TargetKind::Domain(domain) = &target {
            if let Some(plan) = self.plan_dns_data_ip_rule(port, domain.as_str()) {
                return PlanStep::Done(plan);
            }
            if let Some(query) = self.plan_dnsserver_derived_rules(host, port, domain.as_str()) {
                return PlanStep::ResolveLookup(query);
            }
        }
        PlanStep::Done(plan_no_rule(host, port))
    }

    /// The step for a target that a rule matches.
    fn plan_remote_with_rule(
        &self,
        rule: &CompiledRule,
        host: &str,
        port: u16,
        target: &TargetKind,
    ) -> (r: PlanStep)
        ensures
            r@ == step_with_rule(self@, rule@, host@, port, target@),
    {
        match target {
            TargetKind::Ipv4(ip) => PlanStep::Done(
                plan_remote(rule, *ip, port, RouteSource::RuleIp, None),
            ),
            TargetKind::Ipv6(ip) => PlanStep::Done(plan_ipv6_fallback(*ip, port)),
            TargetKind::Domain(domain) => {
                if let Some(ips) = self.dns_map(rule.rc_id, domain.as_str()) {
                    if ips.len() > 0 {
                        return PlanStep::Done(
                            plan_remote(rule, ips[0], port, RouteSource::DnsMap, None),
                        );
                    }
                }
                if self.dns_servers.len() == 0 {
                    return PlanStep::Done(
                        RoutePlan::Fallback {
                            target: format_host_port(host, port),
                            reason:
                                "hostname matched a route rule but dns.data entry is missing and DNS servers are unavailable".to_string(),
                        },
                    );
                }
                PlanStep::ResolveAddress(
                    AddressQuery {
                        rc_id: rule.rc_id,
                        domain: domain.clone(),
                        servers: copy_addrs(&self.dns_servers),
                        rc_name: rule.rc_name.clone(),
                        host: host.to_string(),
                        port,
                        alias_source: None,
                    },
                )
            },
        }
    }

    /// The plan for a name whose DNS records give an address that a rule matches.
    fn plan_dns_data_ip_rule(&self, port: u16, domain: &str) -> (r: Option<RoutePlan>)
        ensures
            match r {
                Some(plan) => plan_for_ips(
                    self@.rules,
                    exact_ips(self@.entries, domain@),
                    port,
                    RouteSource::DnsDataIpRule,
                    None,
                ) == Some(plan@),
                None => plan_for_ips(
                    self@.rules,
                    exact_ips(self@.entries, domain@),
                    port,
                    RouteSource::DnsDataIpRule,
                    None,
                ) is None,
            },
    {
        match self.dns_exact(domain) {
            Some(ips) => self.plan_from_resolved_ips(port, ips, RouteSource::DnsDataIpRule, None),
            None => None,
        }
    }

    /// The lookup that may lead to a plan for a name; `None` where lookups of it are not trusted
    /// or there is no server to ask.
    fn plan_dnsserver_derived_rules(&self, host: &str, port: u16, domain: &str) -> (r: Option<
        LookupQuery,
    >)
        ensures
            match r {
                Some(query) => {
                    &&& self@.servers.len() > 0 && is_trusted(self@.scopes, domain@)
                    &&& query@ == (LookupQueryView {
                        domain: domain@,
                        servers: self@.servers,
                        host: host@,
                        port,
                    })
                },
                None => !(self@.servers.len() > 0 && is_trusted(self@.scopes, domain@)),
            },
    {
        if self.dns_servers.len() == 0 || !self.is_trusted_dns_domain(domain) {
            return None;
        }
        Some(
            LookupQuery {
                domain: domain.to_string(),
                servers: copy_addrs(&self.dns_servers),
                host: host.to_string(),
                port,
            },
        )
    }

    /// The step after a lookup was answered.
    pub fn resume_lookup(&self, query: LookupQuery, answer: Result<DnsLookup, LookupFailure>) -> (r:
        PlanStep)
        ensures
            r@ == step_after_lookup(
                self@,
                query@,
                match answer {
                    Ok(lookup) => Some(lookup@),
                    Err(_) => None,
                },
            ),
    {
        if let Ok(lookup) = answer {
            if let Some(step) = self.plan_from_cname_aliases(
                query.host.as_str(),
                query.port,
                &lookup.aliases,
                lookup.source,
            ) {
                return step;
            }
            if let Some(plan) = self.plan_from_resolved_ips(
                query.port,
                &lookup.ips,
                RouteSource::DnsServerIpRule,
                Some(lookup.source),
            ) {
                return PlanStep::Done(plan);
            }
        }
        PlanStep::Done(plan_no_rule(query.host.as_str(), query.port))
    }

    /// The step for the first alias of a name that a domain rule matches.
    pub fn plan_from_cname_aliases(
        &self,
        host: &str,
        port: u16,
        aliases: &Vec<String>,
        dns_lookup: ResolveSource,
    ) -> (r: Option<PlanStep>)
        ensures
            match r {
                Some(step) => step_from_aliases(
                    self@,
                    host@,
                    port,
                    views(aliases@),
                    dns_lookup,
                ) == Some(step@),
                None => step_from_aliases(
                    self@,
                    host@,
                    port,
                    views(aliases@),
                    dns_lookup,
                ) is None,
            },
    {
        let ghost all = views(aliases@);
        let mut i: usize = 0;
        assert(all.skip(0) == all);
        while i < aliases.len()
            invariant
                i <= aliases@.len(),
                all == views(aliases@),
                first_alias_match(self@.rules, all, port) == first_alias_match(
                    self@.rules,
                    all.skip(i as int),
                    port,
                ),
            decreases aliases@.len() - i,
        {
            let alias = normalize_domain(aliases[i].as_str());
            assert(all.skip(i as int)[0] == aliases@[i as int]@);
            assert(all.skip(i as int).skip(1) == all.skip(i + 1));
            if !is_empty_text(alias.as_str()) && parse_ipv4(alias.as_str()).is_none() {
                let target = TargetKind::Domain(alias);
                if let Some(rule) = self.find_rule(&target, port) {
                    return Some(
                        self.plan_remote_with_cname_rule(rule, host, port, &target, dns_lookup),
                    );
                }
            }
            i += 1;
        }
        None
    }

    /// The step for an alias that a rule matches.
    fn plan_remote_with_cname_rule(
        &self,
        rule: &CompiledRule,
        host: &str,
        port: u16,
        target: &TargetKind,
        dns_lookup: ResolveSource,
    ) -> (r: PlanStep)
        ensures
            r@ == step_with_alias(
                step_with_rule(self@, rule@, host@, port, target@),
                dns_lookup,
            ),
    {
        match self.plan_remote_with_rule(rule, host, port, target) {
            PlanStep::Done(plan) => PlanStep::Done(
                plan.through_alias().with_dns_lookup_if_absent(dns_lookup),
            ),
            PlanStep::ResolveAddress(query) => {
                let mut query = query;
                query.alias_source = Some(dns_lookup);
                PlanStep::ResolveAddress(query)
            },
            other => other,
        }
    }

    /// The plan for the first of the resolved addresses that a rule matches.
    pub fn plan_from_resolved_ips(
        &self,
        port: u16,
        ips: &Vec<u32>,
        source: RouteSource,
        dns_lookup: Option<ResolveSource>,
    ) -> (r: Option<RoutePlan>)
        ensures
            match r {
                Some(plan) => plan_for_ips(self@.rules, ips@, port, source, dns_lookup) == Some(
                    plan@,
                ),
                None => plan_for_ips(self@.rules, ips@, port, source, dns_lookup) is None,
            },
    {
        let mut i: usize = 0;
        assert(ips@.skip(0) == ips@);
        while i < ips.len()
            invariant
                i <= ips@.len(),
                first_ip_match(self@.rules, ips@, port) == first_ip_match(
                    self@.rules,
                    ips@.skip(i as int),
                    port,
                ),
            decreases ips@.len() - i,
        {
            let ip: u32 = ips[i];
            assert(ips@.skip(i as int)[0] == ip);
            assert(ips@.skip(i as int).skip(1) == ips@.skip(i + 1));
            if let Some(rule) = self.find_rule(&TargetKind::Ipv4(ip), port) {
                return Some(plan_remote(rule, ip, port, source, dns_lookup));
            }
            i += 1;
        }
        None
    }
}

/// The plan after an address query was answered.
pub fn finish_address(query: AddressQuery, answer: Result<Resolved, LookupFailure>) -> (r:
    RoutePlan)
    ensures
        r@ == plan_after_address(
            query@,
            match answer {
                Ok(resolved) => Ok(resolved),
                Err(failure) => Err(failure@),
            },
        ),
{
    match answer {
        Ok(resolved) => {
            let source = match query.alias_source {
                Some(_) => RouteSource::CnameDnsServer,
                None => RouteSource::DnsServer,
            };
            RoutePlan::Remote {
                dial: format_ip_port(resolved.ip, query.port),
                rc_id: query.rc_id,
                rc_name: query.rc_name,
                source,
                dns_lookup: Some(resolved.source),
            }
        },
        Err(failure) => {
            let mut reason =
                "hostname matched a route rule but dns.data entry is missing and DNS lookup failed: ".to_string();
            append(&mut reason, failure.message().as_str());
            RoutePlan::Fallback { target: format_host_port(query.host.as_str(), query.port), reason }
        },
    }
}

/// What planning goes by.
pub enum RouteMode {
    /// Nothing is installed.
    Unavailable,
    /// A route table is installed.
    Matcher(RouteMatcher),
    /// There is no route table; everything but IPv6 goes through the tunnel.
    TunnelFallback,
}

/// A [`RouteMode`] by what planning knows in it.
pub enum RouteModeView {
    Unavailable,
    Matcher(MatcherView),
    TunnelFallback,
}

impl View for RouteMode {
    type V = RouteModeView;

    open spec fn view(&self) -> RouteModeView {
        match *self {
            RouteMode::Unavailable => RouteModeView::Unavailable,
            RouteMode::Matcher(matcher) => RouteModeView::Matcher(matcher@),
            RouteMode::TunnelFallback => RouteModeView::TunnelFallback,
        }
    }
}

/// The message for planning before anything is installed.
pub open spec fn not_initialized() -> Seq<char> {
    "route matcher is not initialized"@
}

/// The first step for a target in a mode; `None` where nothing is installed.
pub open spec fn first_step_in(mode: RouteModeView, host: Seq<char>, port: u16) -> Option<
    PlanStepView,
> {
    match mode {
        RouteModeView::Unavailable => None,
        RouteModeView::Matcher(m) => Some(first_step(m, host, port)),
        RouteModeView::TunnelFallback => Some(
            PlanStepView::Done(
                match target_of(host) {
                    TargetView::Ipv6(ip) => ipv6_fallback(ip, port),
                    _ => RoutePlanView::Remote {
                        dial: host_port(host, port),
                        rc_id: 0,
                        rc_name: "route-table-unavailable"@,
                        source: RouteSource::RouteTableUnavailable,
                        dns_lookup: None,
                    },
                },
            ),
        ),
    }
}

/// Starts planning for a target in a mode.
pub fn plan_from_mode(mode: &RouteMode, host: &str, port: u16) -> (r: EcResult<PlanStep>)
    ensures
        match r {
            Ok(step) => first_step_in(mode@, host@, port) == Some(step@),
            Err(err) => first_step_in(mode@, host@, port) is None && err.text()
                == not_initialized(),
        },
{
    match mode {
        RouteMode::Matcher(matcher) => Ok(matcher.plan(host, port)),
        RouteMode::TunnelFallback => match parse_target(host) {
            TargetKind::Ipv6(ip) => Ok(PlanStep::Done(plan_ipv6_fallback(ip, port))),
            _ => Ok(
                PlanStep::Done(
                    RoutePlan::Remote {
                        dial: format_host_port(host, port),
                        rc_id: 0,
                        rc_name: "route-table-unavailable".to_string(),
                        source: RouteSource::RouteTableUnavailable,
                        dns_lookup: None,
                    },
                ),
            ),
        },
        RouteMode::Unavailable => Err(EcError::runtime("route matcher is not initialized")),
    }
}

/// The planner's state: what is installed.
pub struct Router {
    mode: RouteMode,
}

impl View for Router {
    type V = RouteModeView;

    closed spec fn view(&self) -> RouteModeView {
        self.mode@
    }
}

impl Router {
    /// A router with nothing installed.
    pub fn new() -> (r: Router)
        ensures
            r@ == RouteModeView::Unavailable,
    {
        Router { mode: RouteMode::Unavailable }
    }

    /// The installed table, where there is one.
    pub fn matcher(&self) -> (r: Option<&RouteMatcher>)
        ensures
            match r {
                Some(m) => self@ == RouteModeView::Matcher(m@),
                None => !(self@ is Matcher),
            },
    {
        match &self.mode {
            RouteMode::Matcher(m) => Some(m),
            _ => None,
        }
    }
}

/// Installs a route table in place of what was installed before.
///
/// Answers that a resolver has cached for an earlier table do not hold for the new one; the
/// holder of the resolver clears them together with the call.
pub fn install_route_table(router: &mut Router, table: RouteTable) -> (r: EcResult<
    RouteInstallSummary,
>)
    ensures
        final(router)@ == RouteModeView::Matcher(matcher_of(table@)),
        r matches Ok(summary) && {
            &&& summary.rule_count == matcher_of(table@).rules.len()
            &&& summary.dns_server_count == matcher_of(table@).servers.len()
            &&& summary.dns_record_count == matcher_of(table@).entries.len()
            &&& summary.dns_scope_count == matcher_of(table@).scopes.len()
        },
{
    let matcher = RouteMatcher::from_table(table)?;
    let summary = matcher.summary();
    router.mode = RouteMode::Matcher(matcher);
    Ok(summary)
}

/// Lets everything but IPv6 go through the tunnel, in place of what was installed before.
///
/// As for a table, the holder of the resolver clears its cache together with the call.
pub fn install_tunnel_fallback(router: &mut Router) -> (r: EcResult<()>)
    ensures
        final(router)@ == RouteModeView::TunnelFallback,
        r is Ok,
{
    router.mode = RouteMode::TunnelFallback;
    Ok(())
}

/// Starts planning for a target.
pub fn plan_target(router: &Router, host: &str, port: u16) -> (r: EcResult<PlanStep>)
    ensures
        match r {
            Ok(step) => first_step_in(router@, host@, port) == Some(step@),
            Err(err) => first_step_in(router@, host@, port) is None && err.text()
                == not_initialized(),
        },
{
    plan_from_mode(&router.mode, host, port)
}

/// The plan that a step leads to once its address query, if it is one, is answered as `address`
/// says.
pub open spec fn settled_address(
    step: PlanStepView,
    address: spec_fn(AddressQueryView) -> Result<Resolved, Seq<char>>,
) -> RoutePlanView {
    match step {
        PlanStepView::Done(plan) => plan,
        PlanStepView::ResolveAddress(query) => plan_after_address(query, address(query)),
        PlanStepView::ResolveLookup(query) => no_rule(query.host, query.port),
    }
}

/// The plan that the steps from `step` on lead to, where a resolver answers as `lookup` and
/// `address` say.
pub open spec fn settled(
    m: MatcherView,
    step: PlanStepView,
    lookup: spec_fn(LookupQueryView) -> Option<DnsLookupView>,
    address: spec_fn(AddressQueryView) -> Result<Resolved, Seq<char>>,
) -> RoutePlanView {
    match step {
        PlanStepView::ResolveLookup(query) => settled_address(
            step_after_lookup(m, query, lookup(query)),
            address,
        ),
        _ => settled_address(step, address),
    }
}

/// A lookup is asked for at most once: its answer leads to a plan or to an address query.
pub proof fn law_one_lookup(m: MatcherView, query: LookupQueryView, answer: Option<DnsLookupView>)
    ensures
        !(step_after_lookup(m, query, answer) is ResolveLookup),
{
}

/// An address that is asked for on behalf of an alias gives the plan that the alias's own name
/// would get, with its source marked; the answer's own source is kept.
pub proof fn law_alias_answer_is_a_marked_answer(
    query: AddressQueryView,
    lookup: ResolveSource,
    answer: Result<Resolved, Seq<char>>,
)
    requires
        query.alias_source is None,
    ensures
        plan_after_address(AddressQueryView { alias_source: Some(lookup), ..query }, answer)
            == with_lookup(with_cname(plan_after_address(query, answer)), lookup),
{
}

/// An IPv6 target never goes through the tunnel, whatever is installed, and no resolver is asked.
pub proof fn law_ipv6_stays_out_of_the_tunnel(mode: RouteModeView, host: Seq<char>, port: u16)
    requires
        target_of(host) is Ipv6,
    ensures
        match first_step_in(mode, host, port) {
            Some(step) => step matches PlanStepView::Done(RoutePlanView::Fallback { .. }),
            None => mode is Unavailable,
        },
{
}

/// Without a route table every target but an IPv6 one goes through the tunnel as it is.
pub proof fn law_tunnel_fallback_is_remote(host: Seq<char>, port: u16)
    requires
        !(target_of(host) is Ipv6),
    ensures
        first_step_in(RouteModeView::TunnelFallback, host, port) matches Some(
            PlanStepView::Done(RoutePlanView::Remote { dial, source, dns_lookup, .. }),
        ) && dial == host_port(host, port) && source == RouteSource::RouteTableUnavailable
            && dns_lookup is None,
{
}

/// For a name outside the trusted scopes that no rule matches, neither itself nor by its DNS
/// records, no resolver is asked: it goes around the tunnel.
pub proof fn law_untrusted_name_is_not_looked_up(m: MatcherView, host: Seq<char>, port: u16)
    requires
        target_of(host) matches TargetView::Domain(domain) && !is_trusted(m.scopes, domain)
            && first_match(m.rules, target_of(host), port) is None && first_ip_match(
            m.rules,
            exact_ips(m.entries, domain),
            port,
        ) is None,
    ensures
        first_step(m, host, port) == PlanStepView::Done(no_rule(host, port)),
{
}

/// What a resolver is asked: only the servers of the table, of which there is one at least. A
/// lookup is asked for names within a trusted scope only, an address for names that a rule is
/// about only.
pub proof fn law_queries_are_authorized(m: MatcherView, host: Seq<char>, port: u16)
    ensures
        match first_step(m, host, port) {
            PlanStepView::Done(_) => true,
            PlanStepView::ResolveLookup(query) => {
                &&& query.servers == m.servers && m.servers.len() > 0
                &&& target_of(host) == TargetView::Domain(query.domain)
                &&& is_trusted(m.scopes, query.domain)
            },
            PlanStepView::ResolveAddress(query) => {
                &&& query.servers == m.servers && m.servers.len() > 0
                &&& target_of(host) == TargetView::Domain(query.domain)
                &&& first_match(m.rules, target_of(host), port) matches Some(rule)
                    && query.rc_id == rule.rc_id && applies(rule, target_of(host), port)
            },
        },
{
    law_first_match(m.rules, target_of(host), port);
}

/// What a resolver is asked after a lookup: an address only, of the servers of the table, for a
/// usable alias that the lookup gave and that a rule is about.
pub proof fn law_alias_queries_are_authorized(
    m: MatcherView,
    query: LookupQueryView,
    answer: Option<DnsLookupView>,
)
    ensures
        step_after_lookup(m, query, answer) matches PlanStepView::ResolveAddress(asked) ==> {
            &&& asked.servers == m.servers && m.servers.len() > 0
            &&& asked.host == query.host && asked.port == query.port
            &&& answer matches Some(lookup) && exists|k: int|
                {
                    &&& 0 <= k < lookup.aliases.len()
                    &&& usable_alias(#[trigger] lookup.aliases[k])
                    &&& asked.domain == normalized(lookup.aliases[k])
                }
            &&& first_match(m.rules, TargetView::Domain(asked.domain), query.port) matches Some(
                rule,
            ) && asked.rc_id == rule.rc_id
        },
{
    if let Some(lookup) = answer {
        lemma_alias_rule(m.rules, lookup.aliases, query.port);
    }
}

proof fn lemma_alias_rule(
    rules: Seq<CompiledRuleView>,
    aliases: Seq<Seq<char>>,
    port: u16,
)
    ensures
        first_alias_match(rules, aliases, port) matches Some((alias, rule)) ==> {
            &&& first_match(rules, TargetView::Domain(alias), port) == Some(rule)
            &&& exists|k: int|
                {
                    &&& 0 <= k < aliases.len()
                    &&& usable_alias(#[trigger] aliases[k])
                    &&& alias == normalized(aliases[k])
                }
        },
    decreases aliases.len(),
{
    if aliases.len() > 0 {
        let rest = aliases.skip(1);
        lemma_alias_rule(rules, rest, port);
        if let Some((alias, rule)) = first_alias_match(rules, aliases, port) {
            if first_match(rules, TargetView::Domain(normalized(aliases[0])), port) is Some
                && usable_alias(aliases[0]) {
                assert(alias == normalized(aliases[0]));
            } else {
                let k = choose|k: int|
                    {
                        &&& 0 <= k < rest.len()
                        &&& usable_alias(#[trigger] rest[k])
                        &&& alias == normalized(rest[k])
                    };
                assert(usable_alias(aliases[k + 1]));
            }
        }
    }
}

/// Marking a source as reached through an alias twice is marking it once; only the DNS map and the
/// DNS server have a mark.
pub proof fn law_alias_mark_is_made_once(source: RouteSource)
    ensures
        cname_source(cname_source(source)) == cname_source(source),
        source == RouteSource::DnsMap ==> cname_source(source) == RouteSource::CnameDnsMap,
        source == RouteSource::DnsServer ==> cname_source(source) == RouteSource::CnameDnsServer,
        source != RouteSource::DnsMap && source != RouteSource::DnsServer ==> cname_source(source)
            == source,
{
}

/// The source of a lookup is filled in only where a remote plan names none, and stays after that.
pub proof fn law_lookup_source_is_kept(
    plan: RoutePlanView,
    first: ResolveSource,
    second: ResolveSource,
)
    ensures
        plan matches RoutePlanView::Remote { dns_lookup: Some(_), .. } ==> with_lookup(plan, first)
            == plan,
        with_lookup(with_lookup(plan, first), second) == with_lookup(plan, first),
        plan is Fallback ==> with_lookup(plan, first) == plan,
{
}

/// An alias that reads as an IPv4 address matches no rule: an alias leads to a domain rule for
/// its own name or to nothing.
pub proof fn law_alias_never_matches_as_ip(
    rules: Seq<CompiledRuleView>,
    aliases: Seq<Seq<char>>,
    port: u16,
)
    ensures
        first_alias_match(rules, aliases, port) matches Some((alias, rule)) ==> ipv4_of(alias) is None
            && rule.matcher == HostMatcherView::Domain(alias) && applies(
            rule,
            TargetView::Domain(alias),
            port,
        ) && rules.contains(rule) && exists|k: int|
            0 <= k < aliases.len() && #[trigger] normalized(aliases[k]) == alias && usable_alias(
                aliases[k],
            ),
    decreases aliases.len(),
{
    if aliases.len() > 0 {
        let rest = aliases.skip(1);
        law_first_match(rules, TargetView::Domain(normalized(aliases[0])), port);
        law_alias_never_matches_as_ip(rules, rest, port);
        if let Some((alias, rule)) = first_alias_match(rules, aliases, port) {
            if first_match(rules, TargetView::Domain(normalized(aliases[0])), port) is Some
                && usable_alias(aliases[0]) {
                assert(normalized(aliases[0]) == alias);
            } else {
                let k = choose|k: int|
                    0 <= k < rest.len() && #[trigger] normalized(rest[k]) == alias && usable_alias(
                        rest[k],
                    );
                assert(normalized(aliases[k + 1]) == alias);
            }
        }
    }
}

proof fn lemma_first_ip_match(rules: Seq<CompiledRuleView>, ips: Seq<u32>, port: u16)
    ensures
        first_ip_match(rules, ips, port) matches Some((ip, rule)) ==> ips.contains(ip)
            && rules.contains(rule) && applies(rule, TargetView::Ipv4(ip), port),
    decreases ips.len(),
{
    if ips.len() > 0 {
        law_first_match(rules, TargetView::Ipv4(ips[0]), port);
        let rest = ips.skip(1);
        lemma_first_ip_match(rules, rest, port);
        if let Some((ip, rule)) = first_ip_match(rules, ips, port) {
            if rest.contains(ip) {
                let k = choose|k: int| 0 <= k < rest.len() && rest[k] == ip;
                assert(ips[k + 1] == ip);
            }
        }
    }
}

/// Whether a rule vouches for a remote plan: it stands in the table, the plan is on its behalf
/// and dials an IPv4 address on the target's port, and it matches, on that port, the target
/// itself, the dialled address, or a name that the lookup gave as an alias.
#[verifier::opaque]
pub open spec fn vouches(
    m: MatcherView,
    rule: CompiledRuleView,
    host: Seq<char>,
    port: u16,
    plan: RoutePlanView,
    aliases: Seq<Seq<char>>,
) -> bool {
    plan matches RoutePlanView::Remote { dial, rc_id, rc_name, .. } && {
        &&& m.rules.contains(rule)
        &&& rule.rc_id == rc_id && rule.rc_name == rc_name
        &&& exists|ip: u32| #[trigger]
            host_port(ipv4_text(ip), port) == dial && {
                ||| applies(rule, target_of(host), port)
                ||| applies(rule, TargetView::Ipv4(ip), port)
                ||| exists|k: int|
                    0 <= k < aliases.len() && usable_alias(#[trigger] aliases[k]) && applies(
                        rule,
                        TargetView::Domain(normalized(aliases[k])),
                        port,
                    )
            }
    }
}

proof fn lemma_vouched_step(
    m: MatcherView,
    rule: CompiledRuleView,
    host: Seq<char>,
    port: u16,
    target: TargetView,
    alias_source: Option<ResolveSource>,
    aliases: Seq<Seq<char>>,
    lookup: spec_fn(LookupQueryView) -> Option<DnsLookupView>,
    address: spec_fn(AddressQueryView) -> Result<Resolved, Seq<char>>,
)
    requires
        m.rules.contains(rule),
        applies(rule, target, port),
        alias_source is None ==> target == target_of(host),
        alias_source is Some ==> exists|k: int|
            0 <= k < aliases.len() && usable_alias(#[trigger] aliases[k]) && target
                == TargetView::Domain(normalized(aliases[k])),
    ensures
        ({
            let plain = step_with_rule(m, rule, host, port, target);
            let step = match alias_source {
                Some(source) => step_with_alias(plain, source),
                None => plain,
            };
            let plan = settled(m, step, lookup, address);
            plan is Remote ==> vouches(m, rule, host, port, plan, aliases)
        }),
{
    let plain = step_with_rule(m, rule, host, port, target);
    let step = match alias_source {
        Some(source) => step_with_alias(plain, source),
        None => plain,
    };
    let plan = settled(m, step, lookup, address);
    reveal(vouches);
    if plan is Remote {
        match target {
            TargetView::Ipv4(ip) => {
                assert(plan->dial == host_port(ipv4_text(ip), port));
            },
            TargetView::Domain(domain) => {
                let known = scoped_ips(m.entries, rule.rc_id, domain);
                if known.len() > 0 {
                    assert(plan->dial == host_port(ipv4_text(known[0]), port));
                } else {
                    let query = step->ResolveAddress_0;
                    let ip = address(query)->Ok_0.ip;
                    assert(plan->dial == host_port(ipv4_text(ip), port));
                }
            },
            TargetView::Ipv6(_) => {},
        }
    }
}

proof fn lemma_vouched_lookup(
    m: MatcherView,
    query: LookupQueryView,
    answer: DnsLookupView,
    lookup: spec_fn(LookupQueryView) -> Option<DnsLookupView>,
    address: spec_fn(AddressQueryView) -> Result<Resolved, Seq<char>>,
)
    ensures
        ({
            let plan = settled(m, step_after_lookup(m, query, Some(answer)), lookup, address);
            plan is Remote ==> exists|rule: CompiledRuleView| #[trigger]
                vouches(m, rule, query.host, query.port, plan, answer.aliases)
        }),
{
    let port = query.port;
    let step = step_after_lookup(m, query, Some(answer));
    let plan = settled(m, step, lookup, address);
    if plan is Remote {
        match first_alias_match(m.rules, answer.aliases, port) {
            Some((alias, rule)) => {
                law_alias_never_matches_as_ip(m.rules, answer.aliases, port);
                let k = choose|k: int|
                    0 <= k < answer.aliases.len() && #[trigger] normalized(answer.aliases[k])
                        == alias && usable_alias(answer.aliases[k]);
                assert(usable_alias(answer.aliases[k]));
                lemma_vouched_step(
                    m,
                    rule,
                    query.host,
                    port,
                    TargetView::Domain(alias),
                    Some(answer.source),
                    answer.aliases,
                    lookup,
                    address,
                );
                assert(vouches(m, rule, query.host, port, plan, answer.aliases));
            },
            None => {
                lemma_first_ip_match(m.rules, answer.ips, port);
                reveal(vouches);
                let (ip, rule) = first_ip_match(m.rules, answer.ips, port)->Some_0;
                assert(plan->dial == host_port(ipv4_text(ip), port));
                assert(vouches(m, rule, query.host, port, plan, answer.aliases));
            },
        }
    }
}

/// The aliases that the lookup for a target gives, none where no lookup is asked for.
pub open spec fn aliases_for(
    m: MatcherView,
    host: Seq<char>,
    port: u16,
    lookup: spec_fn(LookupQueryView) -> Option<DnsLookupView>,
) -> Seq<Seq<char>> {
    match first_step(m, host, port) {
        PlanStepView::ResolveLookup(query) => match lookup(query) {
            Some(answer) => answer.aliases,
            None => Seq::empty(),
        },
        _ => Seq::empty(),
    }
}

proof fn lemma_vouched_direct(
    m: MatcherView,
    host: Seq<char>,
    port: u16,
    lookup: spec_fn(LookupQueryView) -> Option<DnsLookupView>,
    address: spec_fn(AddressQueryView) -> Result<Resolved, Seq<char>>,
)
    requires
        !(first_step(m, host, port) is ResolveLookup),
        settled(m, first_step(m, host, port), lookup, address) is Remote,
    ensures
        exists|rule: CompiledRuleView| #[trigger]
            vouches(
                m,
                rule,
                host,
                port,
                settled(m, first_step(m, host, port), lookup, address),
                Seq::empty(),
            ),
{
    let step = first_step(m, host, port);
    let plan = settled(m, step, lookup, address);
    let target = target_of(host);
    law_first_match(m.rules, target, port);
    match first_match(m.rules, target, port) {
        Some(rule) => {
            assert(m.rules.contains(rule));
            lemma_vouched_step(m, rule, host, port, target, None, Seq::empty(), lookup, address);
            assert(step == step_with_rule(m, rule, host, port, target));
            assert(vouches(m, rule, host, port, plan, Seq::empty()));
        },
        None => {
            let domain = target->Domain_0;
            let ips = exact_ips(m.entries, domain);
            lemma_first_ip_match(m.rules, ips, port);
            reveal(vouches);
            let (ip, rule) = first_ip_match(m.rules, ips, port)->Some_0;
            assert(plan->dial == host_port(ipv4_text(ip), port));
            assert(vouches(m, rule, host, port, plan, Seq::empty()));
        },
    }
}

/// Nothing goes through the tunnel but what the table lists: whatever a resolver answers, a
/// remote plan is vouched for by a rule of the table.
pub proof fn law_remote_plans_are_listed(
    m: MatcherView,
    host: Seq<char>,
    port: u16,
    lookup: spec_fn(LookupQueryView) -> Option<DnsLookupView>,
    address: spec_fn(AddressQueryView) -> Result<Resolved, Seq<char>>,
)
    ensures
        settled(m, first_step(m, host, port), lookup, address) is Remote ==> exists|
            rule: CompiledRuleView,
        | #[trigger]
            vouches(
                m,
                rule,
                host,
                port,
                settled(m, first_step(m, host, port), lookup, address),
                aliases_for(m, host, port, lookup),
            ),
{
    let step = first_step(m, host, port);
    let plan = settled(m, step, lookup, address);
    let aliases = aliases_for(m, host, port, lookup);
    if plan is Remote {
        if step is ResolveLookup {
            let query = step->ResolveLookup_0;
            lemma_lookup_query(m, host, port, query);
            lemma_vouched_answer(m, query, lookup, address);
            assert(aliases == lookup(query)->Some_0.aliases);
            let rule = choose|rule: CompiledRuleView| #[trigger]
                vouches(m, rule, query.host, query.port, plan, lookup(query)->Some_0.aliases);
            assert(vouches(m, rule, host, port, plan, aliases));
        } else {
            lemma_vouched_direct(m, host, port, lookup, address);
            assert(aliases == Seq::<Seq<char>>::empty());
            let rule = choose|rule: CompiledRuleView| #[trigger]
                vouches(m, rule, host, port, plan, Seq::empty());
            assert(vouches(m, rule, host, port, plan, aliases));
        }
    }
}

proof fn lemma_lookup_query(m: MatcherView, host: Seq<char>, port: u16, query: LookupQueryView)
    requires
        first_step(m, host, port) == PlanStepView::ResolveLookup(query),
    ensures
        query.host == host,
        query.port == port,
{
}

proof fn lemma_vouched_answer(
    m: MatcherView,
    query: LookupQueryView,
    lookup: spec_fn(LookupQueryView) -> Option<DnsLookupView>,
    address: spec_fn(AddressQueryView) -> Result<Resolved, Seq<char>>,
)
    requires
        settled(m, PlanStepView::ResolveLookup(query), lookup, address) is Remote,
    ensures
        lookup(query) is Some,
        exists|rule: CompiledRuleView| #[trigger]
            vouches(
                m,
                rule,
                query.host,
                query.port,
                settled(m, PlanStepView::ResolveLookup(query), lookup, address),
                lookup(query)->Some_0.aliases,
            ),
{
    law_one_lookup(m, query, lookup(query));
    if lookup(query) is Some {
        lemma_vouched_lookup(m, query, lookup(query)->Some_0, lookup, address);
    }
}

/// With no rules installed everything goes around the tunnel.
pub proof fn law_no_rules_no_tunnel(
    m: MatcherView,
    host: Seq<char>,
    port: u16,
    lookup: spec_fn(LookupQueryView) -> Option<DnsLookupView>,
    address: spec_fn(AddressQueryView) -> Result<Resolved, Seq<char>>,
)
    requires
        m.rules.len() == 0,
    ensures
        settled(m, first_step(m, host, port), lookup, address) is Fallback,
{
    law_remote_plans_are_listed(m, host, port, lookup, address);
    reveal(vouches);
}

/// The aliases of an answer are tried in the order in which they came: what is found is the first
/// alias that is a name and that a rule matches on the port, with the first rule that does; nothing
/// is found only where no rule matches any alias that is a name.
pub proof fn law_first_alias(
    rules: Seq<CompiledRuleView>,
    aliases: Seq<Seq<char>>,
    port: u16,
)
    ensures
        ({
            let is_name = |alias: Seq<char>|
                normalized(alias).len() > 0 && forall|ip: u32|
                    normalized(alias) != #[trigger] ipv4_text(ip);
            let listed = |alias: Seq<char>|
                exists|r: int|
                    0 <= r < rules.len() && applies(
                        #[trigger] rules[r],
                        TargetView::Domain(normalized(alias)),
                        port,
                    );
            match first_alias_match(rules, aliases, port) {
                Some((alias, rule)) => exists|k: int|
                    {
                        &&& 0 <= k < aliases.len()
                        &&& alias == normalized(#[trigger] aliases[k])
                        &&& is_name(aliases[k])
                        &&& first_match(rules, TargetView::Domain(alias), port) == Some(rule)
                        &&& forall|j: int|
                            0 <= j < k ==> !(is_name(#[trigger] aliases[j]) && listed(aliases[j]))
                    },
                None => forall|j: int|
                    0 <= j < aliases.len() ==> !(is_name(#[trigger] aliases[j]) && listed(
                        aliases[j],
                    )),
            }
        }),
    decreases aliases.len(),
{
    if aliases.len() > 0 {
        let rest = aliases.skip(1);
        let first = normalized(aliases[0]);
        law_first_alias(rules, rest, port);
        law_first_match(rules, TargetView::Domain(first), port);
        match ipv4_of(first) {
            Some(ip) => {
                law_ipv4_of(first, ip);
            },
            None => {
                law_ipv4_of(first, 0);
            },
        }
        let is_name = |alias: Seq<char>|
            normalized(alias).len() > 0 && forall|ip: u32|
                normalized(alias) != #[trigger] ipv4_text(ip);
        let listed = |alias: Seq<char>|
            exists|r: int|
                0 <= r < rules.len() && applies(
                    #[trigger] rules[r],
                    TargetView::Domain(normalized(alias)),
                    port,
                );
        assert(usable_alias(aliases[0]) == is_name(aliases[0]));
        assert(listed(aliases[0]) == first_match(rules, TargetView::Domain(first), port) is Some);
        assert forall|j: int| 0 < j < aliases.len() implies #[trigger] aliases[j] == rest[j - 1] by {}
        if first_match(rules, TargetView::Domain(first), port) is Some && usable_alias(aliases[0]) {
            assert(first == normalized(aliases[0]));
        } else {
            match first_alias_match(rules, aliases, port) {
                Some((alias, rule)) => {
                    let k = choose|k: int|
                        {
                            &&& 0 <= k < rest.len()
                            &&& alias == normalized(#[trigger] rest[k])
                            &&& is_name(rest[k])
                            &&& first_match(rules, TargetView::Domain(alias), port) == Some(rule)
                            &&& forall|j: int|
                                0 <= j < k ==> !(is_name(#[trigger] rest[j]) && listed(rest[j]))
                        };
                    assert(alias == normalized(aliases[k + 1]));
                    assert forall|j: int| 0 <= j < k + 1 implies !(is_name(#[trigger] aliases[j])
                        && listed(aliases[j])) by {
                        if j > 0 {
                            assert(aliases[j] == rest[j - 1]);
                        }
                    }
                },
                None => {
                    assert forall|j: int| 0 <= j < aliases.len() implies !(is_name(
                        #[trigger] aliases[j],
                    ) && listed(aliases[j])) by {
                        if j > 0 {
                            assert(aliases[j] == rest[j - 1]);
                        }
                    }
                },
            }
        }
    }
}

/// The addresses of an answer are tried in the order in which they came: what is found is the first
/// address that a rule matches on the port, with the first rule that does; nothing is found only
/// where no rule matches any of them.
pub proof fn law_first_ip(rules: Seq<CompiledRuleView>, ips: Seq<u32>, port: u16)
    ensures
        match first_ip_match(rules, ips, port) {
            Some((ip, rule)) => exists|k: int|
                {
                    &&& 0 <= k < ips.len()
                    &&& #[trigger] ips[k] == ip
                    &&& first_match(rules, TargetView::Ipv4(ip), port) == Some(rule)
                    &&& forall|j: int, r: int|
                        0 <= j < k && 0 <= r < rules.len() ==> !applies(
                            #[trigger] rules[r],
                            TargetView::Ipv4(#[trigger] ips[j]),
                            port,
                        )
                },
            None => forall|j: int, r: int|
                0 <= j < ips.len() && 0 <= r < rules.len() ==> !applies(
                    #[trigger] rules[r],
                    TargetView::Ipv4(#[trigger] ips[j]),
                    port,
                ),
        },
    decreases ips.len(),
{
    if ips.len() > 0 {
        let rest = ips.skip(1);
        law_first_ip(rules, rest, port);
        law_first_match(rules, TargetView::Ipv4(ips[0]), port);
        assert forall|j: int| 0 < j < ips.len() implies #[trigger] ips[j] == rest[j - 1] by {}
        if let Some(rule) = first_match(rules, TargetView::Ipv4(ips[0]), port) {
            assert(ips[0] == ips[0]);
        } else if let Some((ip, rule)) = first_ip_match(rules, ips, port) {
            let k = choose|k: int|
                {
                    &&& 0 <= k < rest.len()
                    &&& #[trigger] rest[k] == ip
                    &&& first_match(rules, TargetView::Ipv4(ip), port) == Some(rule)
                    &&& forall|j: int, r: int|
                        0 <= j < k && 0 <= r < rules.len() ==> !applies(
                            #[trigger] rules[r],
                            TargetView::Ipv4(#[trigger] rest[j]),
                            port,
                        )
                };
            assert(ips[k + 1] == ip);
        }
    }
}

/// An IPv4 target goes through the tunnel, to itself, on behalf of the first rule that matches it;
/// where no rule does, it goes around the tunnel.
pub proof fn law_plan_of_an_ipv4_target(m: MatcherView, host: Seq<char>, port: u16, ip: u32)
    requires
        trimmed(host) == ipv4_text(ip),
    ensures
        match first_match(m.rules, TargetView::Ipv4(ip), port) {
            Some(rule) => first_step(m, host, port) == PlanStepView::Done(
                RoutePlanView::Remote {
                    dial: ipv4_text(ip) + seq![':'] + decimal(port as nat),
                    rc_id: rule.rc_id,
                    rc_name: rule.rc_name,
                    source: RouteSource::RuleIp,
                    dns_lookup: None,
                },
            ),
            None => first_step(m, host, port) == PlanStepView::Done(
                RoutePlanView::Fallback {
                    target: host + seq![':'] + decimal(port as nat),
                    reason: "no whitelist rule matched"@,
                },
            ),
        },
{
    law_ipv4_of(trimmed(host), ip);
}

/// An IPv6 target goes around the tunnel, as its address in brackets.
pub proof fn law_plan_of_an_ipv6_target(
    mode: RouteModeView,
    host: Seq<char>,
    port: u16,
    ip: u128,
)
    requires
        !(mode is Unavailable),
        ipv6_of(trimmed(host)) == Some(ip),
        forall|x: u32| trimmed(host) != #[trigger] ipv4_text(x),
    ensures
        first_step_in(mode, host, port) == Some(
            PlanStepView::Done(
                RoutePlanView::Fallback {
                    target: seq!['['] + ipv6_text(ip) + seq![']', ':'] + decimal(port as nat),
                    reason: "IPv6 targets are fallback-only"@,
                },
            ),
        ),
{
    law_ipv4_of(trimmed(host), 0);
    law_socket_addr_text(0, ip, 0, port);
}

/// A name that a rule matches goes through the tunnel on behalf of that rule's resource: to the
/// first address that the DNS records of the resource give for it; where they give none, its address
/// is asked of the DNS servers; and without DNS servers it goes around the tunnel.
pub proof fn law_plan_of_a_listed_name(
    m: MatcherView,
    host: Seq<char>,
    port: u16,
    name: Seq<char>,
    rule: CompiledRuleView,
)
    requires
        target_of(host) == TargetView::Domain(name),
        first_match(m.rules, TargetView::Domain(name), port) == Some(rule),
    ensures
        ({
            let known = scoped_ips(m.entries, rule.rc_id, name);
            if known.len() > 0 {
                first_step(m, host, port) == PlanStepView::Done(
                    RoutePlanView::Remote {
                        dial: ipv4_text(known[0]) + seq![':'] + decimal(port as nat),
                        rc_id: rule.rc_id,
                        rc_name: rule.rc_name,
                        source: RouteSource::DnsMap,
                        dns_lookup: None,
                    },
                )
            } else if m.servers.len() > 0 {
                first_step(m, host, port) == PlanStepView::ResolveAddress(
                    AddressQueryView {
                        rc_id: rule.rc_id,
                        domain: name,
                        servers: m.servers,
                        rc_name: rule.rc_name,
                        host,
                        port,
                        alias_source: None,
                    },
                )
            } else {
                first_step(m, host, port) == PlanStepView::Done(
                    RoutePlanView::Fallback {
                        target: host + seq![':'] + decimal(port as nat),
                        reason:
                            "hostname matched a route rule but dns.data entry is missing and DNS servers are unavailable"@,
                    },
                )
            }
        }),
{
}

/// A name that no rule matches goes through the tunnel where a rule matches an address that the DNS
/// records give for it, to the first such address. Otherwise it is looked up where it lies within a
/// trusted scope and there are DNS servers, and goes around the tunnel where not.
pub proof fn law_plan_of_an_unlisted_name(
    m: MatcherView,
    host: Seq<char>,
    port: u16,
    name: Seq<char>,
)
    requires
        target_of(host) == TargetView::Domain(name),
        first_match(m.rules, TargetView::Domain(name), port) is None,
    ensures
        match first_ip_match(m.rules, exact_ips(m.entries, name), port) {
            Some((ip, rule)) => first_step(m, host, port) == PlanStepView::Done(
                RoutePlanView::Remote {
                    dial: ipv4_text(ip) + seq![':'] + decimal(port as nat),
                    rc_id: rule.rc_id,
                    rc_name: rule.rc_name,
                    source: RouteSource::DnsDataIpRule,
                    dns_lookup: None,
                },
            ),
            None => if m.servers.len() > 0 && is_trusted(m.scopes, name) {
                first_step(m, host, port) == PlanStepView::ResolveLookup(
                    LookupQueryView { domain: name, servers: m.servers, host, port },
                )
            } else {
                first_step(m, host, port) == PlanStepView::Done(
                    RoutePlanView::Fallback {
                        target: host + seq![':'] + decimal(port as nat),
                        reason: "no whitelist rule matched"@,
                    },
                )
            },
        },
{
}

/// What a lookup leads to: a failed one, around the tunnel. An answer, through the tunnel on behalf
/// of the rule for its first alias that is listed, marked as reached through an alias; where no
/// alias is listed, to its first address that is listed; and where none is, around the tunnel.
pub proof fn law_plan_after_a_lookup(m: MatcherView, query: LookupQueryView, answer: DnsLookupView)
    ensures
        ({
            let port = query.port;
            let around = RoutePlanView::Fallback {
                target: query.host + seq![':'] + decimal(port as nat),
                reason: "no whitelist rule matched"@,
            };
            &&& step_after_lookup(m, query, None) == PlanStepView::Done(around)
            &&& match first_alias_match(m.rules, answer.aliases, port) {
                Some((alias, rule)) => {
                    let known = scoped_ips(m.entries, rule.rc_id, alias);
                    if known.len() > 0 {
                        step_after_lookup(m, query, Some(answer)) == PlanStepView::Done(
                            RoutePlanView::Remote {
                                dial: ipv4_text(known[0]) + seq![':'] + decimal(port as nat),
                                rc_id: rule.rc_id,
                                rc_name: rule.rc_name,
                                source: RouteSource::CnameDnsMap,
                                dns_lookup: Some(answer.source),
                            },
                        )
                    } else if m.servers.len() > 0 {
                        step_after_lookup(m, query, Some(answer)) == PlanStepView::ResolveAddress(
                            AddressQueryView {
                                rc_id: rule.rc_id,
                                domain: alias,
                                servers: m.servers,
                                rc_name: rule.rc_name,
                                host: query.host,
                                port,
                                alias_source: Some(answer.source),
                            },
                        )
                    } else {
                        step_after_lookup(m, query, Some(answer)) == PlanStepView::Done(
                            RoutePlanView::Fallback {
                                target: query.host + seq![':'] + decimal(port as nat),
                                reason:
                                    "hostname matched a route rule but dns.data entry is missing and DNS servers are unavailable"@,
                            },
                        )
                    }
                },
                None => match first_ip_match(m.rules, answer.ips, port) {
                    Some((ip, rule)) => step_after_lookup(m, query, Some(answer))
                        == PlanStepView::Done(
                        RoutePlanView::Remote {
                            dial: ipv4_text(ip) + seq![':'] + decimal(port as nat),
                            rc_id: rule.rc_id,
                            rc_name: rule.rc_name,
                            source: RouteSource::DnsServerIpRule,
                            dns_lookup: Some(answer.source),
                        },
                    ),
                    None => step_after_lookup(m, query, Some(answer)) == PlanStepView::Done(around),
                },
            }
        }),
{
}

/// What an address query leads to: an answer, through the tunnel to the address that it gives, on
/// behalf of the resource that it was asked for; a failure, around the tunnel, with the reason.
pub proof fn law_plan_after_an_address(
    query: AddressQueryView,
    resolved: Resolved,
    message: Seq<char>,
)
    ensures
        plan_after_address(query, Ok(resolved)) == (RoutePlanView::Remote {
            dial: ipv4_text(resolved.ip) + seq![':'] + decimal(query.port as nat),
            rc_id: query.rc_id,
            rc_name: query.rc_name,
            source: match query.alias_source {
                Some(_) => RouteSource::CnameDnsServer,
                None => RouteSource::DnsServer,
            },
            dns_lookup: Some(resolved.source),
        }),
        plan_after_address(query, Err(message)) == (RoutePlanView::Fallback {
            target: query.host + seq![':'] + decimal(query.port as nat),
            reason:
                "hostname matched a route rule but dns.data entry is missing and DNS lookup failed: "@
                + message,
        }),
{
}

/// What planning does in each mode: with nothing installed it fails; with a table it goes by the
/// table; without one, every target but an IPv6 one goes through the tunnel as it is.
pub proof fn law_modes(m: MatcherView, host: Seq<char>, port: u16)
    ensures
        first_step_in(RouteModeView::Unavailable, host, port) is None,
        first_step_in(RouteModeView::Matcher(m), host, port) == Some(first_step(m, host, port)),
        !(target_of(host) is Ipv6) ==> first_step_in(RouteModeView::TunnelFallback, host, port)
            == Some(
            PlanStepView::Done(
                RoutePlanView::Remote {
                    dial: host + seq![':'] + decimal(port as nat),
                    rc_id: 0,
                    rc_name: "route-table-unavailable"@,
                    source: RouteSource::RouteTableUnavailable,
                    dns_lookup: None,
                },
            ),
        ),
        not_initialized() == "route matcher is not initialized"@,
{
}

/// The trusted scopes of a table come from the names that its compiled rules are about, and from all
/// of them.
pub proof fn law_scopes_come_from_the_rules(table: RouteTableView, name: Seq<char>)
    ensures
        matcher_of(table).scopes == trusted_scopes(rule_domains(matcher_of(table).rules)),
        rule_domains(matcher_of(table).rules).contains(name) <==> exists|i: int|
            0 <= i < table.rules.len() && (compiled(#[trigger] table.rules[i]) matches Some(c)
                && c.matcher == HostMatcherView::Domain(name)),
{
    let rules = compiled_all(table.rules);
    let f = |rule: RouteRuleView| compiled(rule);
    law_distinct_images(table.rules, f);
    lemma_rule_domains(rules, name);
    if rule_domains(rules).contains(name) {
        let k = choose|k: int|
            0 <= k < rules.len() && (#[trigger] rules[k]).matcher == HostMatcherView::Domain(name);
        assert(rules.contains(rules[k]));
        let i = choose|i: int| #[trigger] maps_first(table.rules, f, i, rules[k]);
        assert(compiled(table.rules[i]) == Some(rules[k]));
    }
    if exists|i: int|
        0 <= i < table.rules.len() && (compiled(#[trigger] table.rules[i]) matches Some(c)
            && c.matcher == HostMatcherView::Domain(name)) {
        let i = choose|i: int|
            0 <= i < table.rules.len() && (compiled(#[trigger] table.rules[i]) matches Some(c)
                && c.matcher == HostMatcherView::Domain(name));
        let c = compiled(table.rules[i])->Some_0;
        assert(f(table.rules[i]) == Some(c));
        assert(rules.contains(c));
    }
}

proof fn lemma_rule_domains(rules: Seq<CompiledRuleView>, name: Seq<char>)
    ensures
        rule_domains(rules).contains(name) <==> exists|k: int|
            0 <= k < rules.len() && (#[trigger] rules[k]).matcher == HostMatcherView::Domain(name),
    decreases rules.len(),
{
    let all = rule_domains(rules);
    if rules.len() > 0 {
        let rest = rules.drop_last();
        let some = rule_domains(rest);
        lemma_rule_domains(rest, name);
        if some.contains(name) {
            let k = choose|k: int|
                0 <= k < rest.len() && (#[trigger] rest[k]).matcher == HostMatcherView::Domain(
                    name,
                );
            assert(rules[k] == rest[k]);
            let p = choose|p: int| 0 <= p < some.len() && some[p] == name;
            assert(all[p] == name);
        } else if rules.last().matcher == HostMatcherView::Domain(name) {
            assert(rules[rules.len() - 1] == rules.last());
            assert(all.last() == name);
        } else {
            assert forall|k: int| 0 <= k < rules.len() implies (#[trigger] rules[k]).matcher
                != HostMatcherView::Domain(name) by {
                if k < rest.len() {
                    assert(rest[k] == rules[k]);
                }
            }
            if all.contains(name) {
                let p = choose|p: int| 0 <= p < all.len() && all[p] == name;
                if p < some.len() {
                    assert(some[p] == name);
                }
            }
        }
    }
}

/// An IPv4 address that a rule of the table lists goes through the tunnel on the ports of the rule,
/// to itself, on behalf of that rule or of one before it in the table.
pub proof fn law_listed_ipv4_address_is_tunnelled(
    table: RouteTableView,
    i: int,
    ip: u32,
    port: u16,
)
    requires
        0 <= i < table.rules.len(),
        table.rules[i].host == ipv4_text(ip),
        table.rules[i].proto == 0 || table.rules[i].proto == -1,
        table.rules[i].port.start <= port && port <= table.rules[i].port.end,
    ensures
        first_step(matcher_of(table), ipv4_text(ip), port) matches PlanStepView::Done(
            RoutePlanView::Remote { dial, rc_id, rc_name, source, dns_lookup },
        ) && {
            &&& dial == ipv4_text(ip) + seq![':'] + decimal(port as nat)
            &&& source == RouteSource::RuleIp && dns_lookup is None
            &&& exists|k: int|
                {
                    &&& 0 <= k <= i
                    &&& (#[trigger] table.rules[k]).rc_id == rc_id
                    &&& table.rules[k].name == rc_name
                }
        },
{
    let host = ipv4_text(ip);
    let rules = table.rules;
    lemma_ipv4_text_chars(ip);
    lemma_trimmed_already(host);
    assert(!host.contains('~'));
    law_host_field_with_one_host(host);
    law_ipv4_of(host, ip);
    law_compiled(rules[i]);
    law_table_order(rules, TargetView::Ipv4(ip), port);
    law_plan_of_an_ipv4_target(matcher_of(table), host, port, ip);
    let found = first_match(compiled_all(rules), TargetView::Ipv4(ip), port);
    assert(found is Some);
    let k = choose|k: int|
        0 <= k <= i && compiled(#[trigger] rules[k]) == found;
    law_compiled(rules[k]);
    assert(rules[k].rc_id == found->Some_0.rc_id);
}

/// The names of the sources.
pub proof fn law_source_names()
    ensures
        RouteSource::RouteTableUnavailable.name() == "route-table-unavailable"@,
        RouteSource::RuleIp.name() == "rule-ip"@,
        RouteSource::DnsMap.name() == "dns-map"@,
        RouteSource::DnsDataIpRule.name() == "dns-data-ip-rule"@,
        RouteSource::DnsServer.name() == "dns-server"@,
        RouteSource::CnameDnsMap.name() == "cname-dns-map"@,
        RouteSource::CnameDnsServer.name() == "cname-dns-server"@,
        RouteSource::DnsServerIpRule.name() == "dns-server-ip-rule"@,
{
}

/// The views of plans, steps and modes keep what they hold.
pub proof fn law_plan_views(
    dial: String,
    rc_id: i32,
    rc_name: String,
    source: RouteSource,
    dns_lookup: Option<ResolveSource>,
    plan: RoutePlan,
    address: AddressQuery,
    lookup: LookupQuery,
    matcher: RouteMatcher,
)
    ensures
        (RoutePlan::Remote { dial, rc_id, rc_name, source, dns_lookup })@ == (RoutePlanView::Remote {
            dial: dial@,
            rc_id,
            rc_name: rc_name@,
            source,
            dns_lookup,
        }),
        (RoutePlan::Fallback { target: dial, reason: rc_name })@ == (RoutePlanView::Fallback {
            target: dial@,
            reason: rc_name@,
        }),
        PlanStep::Done(plan)@ == PlanStepView::Done(plan@),
        PlanStep::ResolveAddress(address)@ == PlanStepView::ResolveAddress(address@),
        PlanStep::ResolveLookup(lookup)@ == PlanStepView::ResolveLookup(lookup@),
        RouteMode::Unavailable@ == RouteModeView::Unavailable,
        RouteMode::Matcher(matcher)@ == RouteModeView::Matcher(matcher@),
        RouteMode::TunnelFallback@ == RouteModeView::TunnelFallback,
{
}

/// What planning knows of a table comes from the table's own lists: its rules compiled, what its
/// records say, and the servers that its entries name.
pub proof fn law_matcher_of(table: RouteTableView)
    ensures
        matcher_of(table).rules == compiled_all(table.rules),
        matcher_of(table).entries == dns_entries(table.dns_records),
        matcher_of(table).servers == dns_servers_of(table.dns_servers),
{
}

/// A name that a rule of the table lists is matched on the ports of the rule, by that rule or by one
/// before it in the table, however its capitals, its dots at the end and the whitespace around it
/// are written; it never goes around the tunnel as a name that no rule lists.
pub proof fn law_listed_name_is_matched(
    table: RouteTableView,
    i: int,
    host: Seq<char>,
    port: u16,
)
    requires
        0 <= i < table.rules.len(),
        !table.rules[i].host.contains('~'),
        forall|x: u32| trimmed(table.rules[i].host) != #[trigger] ipv4_text(x),
        table.rules[i].proto == 0 || table.rules[i].proto == -1,
        table.rules[i].port.start <= port && port <= table.rules[i].port.end,
        target_of(host) is Domain,
        normalized(host) == normalized(table.rules[i].host),
        normalized(host).len() > 0,
    ensures
        first_match(matcher_of(table).rules, TargetView::Domain(normalized(host)), port) matches
            Some(rule) && {
            &&& rule.matcher == HostMatcherView::Domain(normalized(host))
            &&& exists|k: int|
                0 <= k <= i && compiled(#[trigger] table.rules[k]) == Some(rule)
        },
        first_step(matcher_of(table), host, port) != PlanStepView::Done(
            RoutePlanView::Fallback {
                target: host + seq![':'] + decimal(port as nat),
                reason: "no whitelist rule matched"@,
            },
        ),
{
    let name = normalized(host);
    let target = TargetView::Domain(name);
    let rules = table.rules;
    law_host_field_with_one_host(rules[i].host);
    law_compiled(rules[i]);
    law_table_order(rules, target, port);
    law_target_of(host);
    law_first_match(compiled_all(rules), target, port);
    let found = first_match(compiled_all(rules), target, port);
    assert(found is Some);
    let k = choose|k: int| 0 <= k <= i && compiled(#[trigger] rules[k]) == found;
    law_plan_of_a_listed_name(matcher_of(table), host, port, name, found->Some_0);
    reveal_strlit("no whitelist rule matched");
    reveal_strlit(
        "hostname matched a route rule but dns.data entry is missing and DNS servers are unavailable",
    );
    assert("no whitelist rule matched"@[0] == 'n');
}

} // verus!
