//! Route rules in the form that targets are matched against.

use crate::addr::{
    ipv4_of, ipv4_text, ipv6_of, law_ipv4_of, law_ipv4_text_round_trip, lemma_ipv4_text_chars, parse_ipv4,
    parse_ipv6,
};
use crate::list::{
    distinct, law_distinct, law_distinct_images, list_at, maps_first, push_at, views,
};
use crate::route_table::{PortRange, RouteRule, RouteRuleView};
use crate::text::{
    is_empty_text, is_whitespace, law_split, law_split_parts, law_trimming_once_is_enough,
    normalize_domain, normalized, same_text, split_first, split_once, trim, trimmed,
};
use std::collections::HashMap;
use vstd::hash_map::StringHashMap;
use vstd::prelude::*;

verus! {

broadcast use vstd::std_specs::hash::group_hash_axioms;

/// The hosts that a rule is about.
#[derive(Debug, Clone)]
pub enum HostMatcher {
    Domain(String),
    Ipv4(u32),
    Ipv4Range(u32, u32),
}

/// A rule that can match a TCP target.
#[derive(Debug, Clone)]
pub struct CompiledRule {
    pub rc_id: i32,
    pub rc_name: String,
    pub svc: String,
    pub matcher: HostMatcher,
    pub port: PortRange,
}

/// What a target host is.
#[derive(Debug, Clone)]
pub enum TargetKind {
    Domain(String),
    Ipv4(u32),
    Ipv6(u128),
}

/// A [`HostMatcher`] with its name as characters.
pub enum HostMatcherView {
    Domain(Seq<char>),
    Ipv4(u32),
    Ipv4Range(u32, u32),
}

/// A [`CompiledRule`] with its texts as characters.
pub struct CompiledRuleView {
    pub rc_id: i32,
    pub rc_name: Seq<char>,
    pub svc: Seq<char>,
    pub matcher: HostMatcherView,
    pub port: PortRange,
}

/// A [`TargetKind`] with its name as characters.
pub enum TargetView {
    Domain(Seq<char>),
    Ipv4(u32),
    Ipv6(u128),
}

impl View for HostMatcher {
    type V = HostMatcherView;

    open spec fn view(&self) -> HostMatcherView {
        match *self {
            HostMatcher::Domain(name) => HostMatcherView::Domain(name@),
            HostMatcher::Ipv4(ip) => HostMatcherView::Ipv4(ip),
            HostMatcher::Ipv4Range(start, end) => HostMatcherView::Ipv4Range(start, end),
        }
    }
}

impl View for CompiledRule {
    type V = CompiledRuleView;

    open spec fn view(&self) -> CompiledRuleView {
        CompiledRuleView {
            rc_id: self.rc_id,
            rc_name: self.rc_name@,
            svc: self.svc@,
            matcher: self.matcher@,
            port: self.port,
        }
    }
}

impl View for TargetKind {
    type V = TargetView;

    open spec fn view(&self) -> TargetView {
        match *self {
            TargetKind::Domain(name) => TargetView::Domain(name@),
            TargetKind::Ipv4(ip) => TargetView::Ipv4(ip),
            TargetKind::Ipv6(ip) => TargetView::Ipv6(ip),
        }
    }
}

/// Whether a service covers every port and protocol of its hosts.
pub open spec fn covers_everything(svc: Seq<char>) -> bool {
    trimmed(svc) == "vipall"@
}

/// What the host field of a rule is about: a range `a~b` of IPv4 addresses in either order, one
/// IPv4 address, or else a domain name; nothing where the field holds none of these.
pub open spec fn host_matcher_of(host: Seq<char>) -> Option<HostMatcherView> {
    match split_first(host, '~') {
        Some((a, b)) => match (ipv4_of(trimmed(a)), ipv4_of(trimmed(b))) {
            (Some(a), Some(b)) => Some(
                if a <= b {
                    HostMatcherView::Ipv4Range(a, b)
                } else {
                    HostMatcherView::Ipv4Range(b, a)
                },
            ),
            _ => None,
        },
        None => match ipv4_of(trimmed(host)) {
            Some(ip) => Some(HostMatcherView::Ipv4(ip)),
            None => if normalized(host).len() == 0 {
                None
            } else {
                Some(HostMatcherView::Domain(normalized(host)))
            },
        },
    }
}

/// Whether a rule speaks of TCP: its protocol is TCP (0) or any (-1), or it covers everything.
pub open spec fn speaks_of_tcp(rule: RouteRuleView) -> bool {
    covers_everything(rule.svc) || rule.proto == -1 || rule.proto == 0
}

/// The compiled form of a rule, where it has one.
pub open spec fn compiled(rule: RouteRuleView) -> Option<CompiledRuleView> {
    match host_matcher_of(rule.host) {
        Some(matcher) if speaks_of_tcp(rule) => Some(
            CompiledRuleView {
                rc_id: rule.rc_id,
                rc_name: rule.name,
                svc: rule.svc,
                matcher,
                port: rule.port,
            },
        ),
        _ => None,
    }
}

/// The compiled forms of the rules that have one, in order and without repetition.
pub open spec fn compiled_all(rules: Seq<RouteRuleView>) -> Seq<CompiledRuleView> {
    distinct(rules.filter_map(|rule: RouteRuleView| compiled(rule)))
}

/// What the host text of a target stands for.
pub open spec fn target_of(host: Seq<char>) -> TargetView {
    match ipv4_of(trimmed(host)) {
        Some(ip) => TargetView::Ipv4(ip),
        None => match ipv6_of(trimmed(host)) {
            Some(ip) => TargetView::Ipv6(ip),
            None => TargetView::Domain(normalized(trimmed(host))),
        },
    }
}

/// Whether a target is among the hosts that a rule is about.
pub open spec fn host_matches(matcher: HostMatcherView, target: TargetView) -> bool {
    match (matcher, target) {
        (HostMatcherView::Domain(name), TargetView::Domain(domain)) => name == domain,
        (HostMatcherView::Ipv4(ip), TargetView::Ipv4(needle)) => ip == needle,
        (HostMatcherView::Ipv4Range(start, end), TargetView::Ipv4(needle)) => start <= needle <= end,
        _ => false,
    }
}

/// Whether a rule covers a port.
pub open spec fn port_covered(rule: CompiledRuleView, port: u16) -> bool {
    covers_everything(rule.svc) || rule.port.start <= port <= rule.port.end
}

/// Whether a rule matches a target and port.
pub open spec fn applies(rule: CompiledRuleView, target: TargetView, port: u16) -> bool {
    host_matches(rule.matcher, target) && port_covered(rule, port)
}

/// The first rule that matches a target and port.
pub open spec fn first_match(
    rules: Seq<CompiledRuleView>,
    target: TargetView,
    port: u16,
) -> Option<CompiledRuleView>
    decreases rules.len(),
{
    if rules.len() == 0 {
        None
    } else if applies(rules[0], target, port) {
        Some(rules[0])
    } else {
        first_match(rules.skip(1), target, port)
    }
}

proof fn lemma_first_match_at(
    rules: Seq<CompiledRuleView>,
    target: TargetView,
    port: u16,
    i: int,
)
    requires
        0 <= i <= rules.len(),
        i < rules.len() ==> applies(rules[i], target, port),
        forall|j: int| 0 <= j < i ==> !applies(#[trigger] rules[j], target, port),
    ensures
        first_match(rules, target, port) == if i < rules.len() {
            Some(rules[i])
        } else {
            None
        },
    decreases rules.len(),
{
    if i > 0 {
        let rest = rules.skip(1);
        assert forall|j: int| 0 <= j < i - 1 implies !applies(#[trigger] rest[j], target, port) by {
            assert(rest[j] == rules[j + 1]);
        }
        lemma_first_match_at(rest, target, port, i - 1);
    }
}

/// A rule that is found stands in the list and matches, and no rule before it does; where none
/// is found, none in the list matches.
pub proof fn law_first_match(rules: Seq<CompiledRuleView>, target: TargetView, port: u16)
    ensures
        match first_match(rules, target, port) {
            Some(rule) => exists|i: int|
                {
                    &&& 0 <= i < rules.len()
                    &&& #[trigger] rules[i] == rule
                    &&& applies(rule, target, port)
                    &&& forall|j: int| 0 <= j < i ==> !applies(#[trigger] rules[j], target, port)
                },
            None => forall|i: int|
                0 <= i < rules.len() ==> !applies(#[trigger] rules[i], target, port),
        },
    decreases rules.len(),
{
    if rules.len() > 0 && !applies(rules[0], target, port) {
        let rest = rules.skip(1);
        law_first_match(rest, target, port);
        match first_match(rules, target, port) {
            Some(rule) => {
                let i = choose|i: int|
                    {
                        &&& 0 <= i < rest.len()
                        &&& #[trigger] rest[i] == rule
                        &&& applies(rule, target, port)
                        &&& forall|j: int| 0 <= j < i ==> !applies(#[trigger] rest[j], target, port)
                    };
                assert(rules[i + 1] == rule);
                assert forall|j: int| 0 <= j < i + 1 implies !applies(
                    #[trigger] rules[j],
                    target,
                    port,
                ) by {
                    if j > 0 {
                        assert(rules[j] == rest[j - 1]);
                    }
                }
            },
            None => {
                assert forall|i: int| 0 <= i < rules.len() implies !applies(
                    #[trigger] rules[i],
                    target,
                    port,
                ) by {
                    if i > 0 {
                        assert(rules[i] == rest[i - 1]);
                    }
                }
            },
        }
    } else if rules.len() > 0 {
        assert(rules[0] == rules[0]);
    }
}

/// Leaving out repeated rules does not change which rule matches.
pub proof fn law_repeated_rules_do_not_matter(
    rules: Seq<CompiledRuleView>,
    target: TargetView,
    port: u16,
)
    ensures
        first_match(distinct(rules), target, port) == first_match(rules, target, port),
    decreases rules.len(),
{
    if rules.len() > 0 {
        let rest = rules.drop_last();
        law_repeated_rules_do_not_matter(rest, target, port);
        assert(rules == rest.push(rules.last()));
        lemma_first_match_push(rest, rules.last(), target, port);
        if rest.contains(rules.last()) {
            law_first_match(rest, target, port);
        } else {
            lemma_first_match_push(distinct(rest), rules.last(), target, port);
        }
    }
}

proof fn lemma_first_match_push(
    rules: Seq<CompiledRuleView>,
    rule: CompiledRuleView,
    target: TargetView,
    port: u16,
)
    ensures
        first_match(rules.push(rule), target, port) == match first_match(rules, target, port) {
            Some(found) => Some(found),
            None => if applies(rule, target, port) {
                Some(rule)
            } else {
                None
            },
        },
    decreases rules.len(),
{
    let more = rules.push(rule);
    if rules.len() == 0 {
        assert(more.skip(1).len() == 0);
    } else {
        assert(more.skip(1) == rules.skip(1).push(rule));
        lemma_first_match_push(rules.skip(1), rule, target, port);
    }
}

/// No rule matches an IPv6 target.
pub proof fn law_ipv6_matches_no_rule(rules: Seq<CompiledRuleView>, ip: u128, port: u16)
    ensures
        first_match(rules, TargetView::Ipv6(ip), port) is None,
{
    law_first_match(rules, TargetView::Ipv6(ip), port);
}

/// A rule that covers everything matches its hosts on every port.
pub proof fn law_vipall_ignores_port(
    rule: CompiledRuleView,
    target: TargetView,
    port: u16,
    other: u16,
)
    requires
        covers_everything(rule.svc),
    ensures
        applies(rule, target, port) == applies(rule, target, other),
{
}

/// A rule that covers everything is compiled whatever its protocol; any other rule only where
/// its protocol is TCP or any.
pub proof fn law_protocol_filter(rule: RouteRuleView)
    ensures
        covers_everything(rule.svc) ==> compiled(rule) is Some == host_matcher_of(
            rule.host,
        ) is Some,
        !covers_everything(rule.svc) && rule.proto != -1 && rule.proto != 0 ==> compiled(
            rule,
        ) is None,
{
}

/// A host that displays an IPv4 address stands for that address.
pub proof fn law_ipv4_host_stands_for_its_address(ip: u32)
    ensures
        target_of(ipv4_text(ip)) == TargetView::Ipv4(ip),
{
    lemma_ipv4_text_chars(ip);
    law_ipv4_text_round_trip(ip);
    assert(!is_whitespace(ipv4_text(ip)[0]));
    assert(!is_whitespace(ipv4_text(ip).last()));
}

/// Whether a rule's service covers everything.
fn is_vipall(svc: &str) -> (r: bool)
    ensures
        r == covers_everything(svc@),
{
    same_text(trim(svc).as_str(), "vipall")
}

/// Whether a port lies in a range.
fn port_matches(range: PortRange, port: u16) -> (r: bool)
    ensures
        r == (range.start <= port <= range.end),
{
    range.start <= port && port <= range.end
}

/// Whether a rule covers a port.
pub fn rule_matches(rule: &CompiledRule, port: u16) -> (r: bool)
    ensures
        r == port_covered(rule@, port),
{
    if is_vipall(rule.svc.as_str()) {
        return true;
    }
    port_matches(rule.port, port)
}

/// Reads the host field of a rule.
fn parse_host_matcher(host: &str) -> (r: Option<HostMatcher>)
    ensures
        match r {
            Some(matcher) => host_matcher_of(host@) == Some(matcher@),
            None => host_matcher_of(host@) is None,
        },
{
    if let Some((start, end)) = split_once(host, '~') {
        return match (parse_ipv4(trim(start.as_str()).as_str()), parse_ipv4(
            trim(end.as_str()).as_str(),
        )) {
            (Some(a), Some(b)) => if a <= b {
                Some(HostMatcher::Ipv4Range(a, b))
            } else {
                Some(HostMatcher::Ipv4Range(b, a))
            },
            _ => None,
        };
    }
    if let Some(ip) = parse_ipv4(trim(host).as_str()) {
        return Some(HostMatcher::Ipv4(ip));
    }
    let domain = normalize_domain(host);
    if is_empty_text(domain.as_str()) {
        return None;
    }
    Some(HostMatcher::Domain(domain))
}

/// Compiles one rule; `None` where it can match no TCP target.
pub fn compile_rule(rule: RouteRule) -> (r: Option<CompiledRule>)
    ensures
        match r {
            Some(c) => compiled(rule@) == Some(c@),
            None => compiled(rule@) is None,
        },
{
    if !is_vipall(rule.svc.as_str()) && rule.proto != -1 && rule.proto != 0 {
        return None;
    }
    match parse_host_matcher(rule.host.as_str()) {
        Some(matcher) => Some(
            CompiledRule {
                rc_id: rule.rc_id,
                rc_name: rule.name,
                svc: rule.svc,
                matcher,
                port: rule.port,
            },
        ),
        None => None,
    }
}

/// Whether two host matchers are the same.
fn same_matcher(a: &HostMatcher, b: &HostMatcher) -> (r: bool)
    ensures
        r == (a@ == b@),
{
    match (a, b) {
        (HostMatcher::Domain(x), HostMatcher::Domain(y)) => same_text(x.as_str(), y.as_str()),
        (HostMatcher::Ipv4(x), HostMatcher::Ipv4(y)) => *x == *y,
        (HostMatcher::Ipv4Range(s, e), HostMatcher::Ipv4Range(t, f)) => *s == *t && *e == *f,
        _ => false,
    }
}

/// Whether two rules are the same in every field.
fn same_rule(a: &CompiledRule, b: &CompiledRule) -> (r: bool)
    ensures
        r == (a@ == b@),
{
    a.rc_id == b.rc_id && a.port.start == b.port.start && a.port.end == b.port.end && same_matcher(
        &a.matcher,
        &b.matcher,
    ) && same_text(a.rc_name.as_str(), b.rc_name.as_str()) && same_text(
        a.svc.as_str(),
        b.svc.as_str(),
    )
}

/// Whether `rule` is among `rules`.
fn contains_rule(rules: &Vec<CompiledRule>, rule: &CompiledRule) -> (r: bool)
    ensures
        r == views(rules@).contains(rule@),
{
    let mut i: usize = 0;
    while i < rules.len()
        invariant
            i <= rules@.len(),
            forall|j: int| 0 <= j < i ==> views(rules@)[j] != rule@,
        decreases rules@.len() - i,
    {
        if same_rule(&rules[i], rule) {
            assert(views(rules@)[i as int] == rule@);
            return true;
        }
        i += 1;
    }
    false
}

/// Compiles the rules of a table: those that can match, in order, each once.
pub fn compile_rules(raw_rules: Vec<RouteRule>) -> (r: Vec<CompiledRule>)
    ensures
        views(r@) == compiled_all(views(raw_rules@)),
{
    let mut rules: Vec<CompiledRule> = Vec::new();
    let ghost f = |rule: RouteRuleView| compiled(rule);
    let ghost raw = views(raw_rules@);
    for rule in it: raw_rules
        invariant
            it.seq() == raw_rules@,
            raw == views(raw_rules@),
            f == (|rule: RouteRuleView| compiled(rule)),
            views(rules@) == distinct(raw.take(it.index()).filter_map(f)),
    {
        let ghost before = raw.take(it.index()).filter_map(f);
        let ghost after = raw.take(it.index() + 1);
        assert(after.drop_last() == raw.take(it.index()));
        assert(after.last() == rule@);
        if let Some(c) = compile_rule(rule) {
            assert(after.filter_map(f) == before.push(c@));
            assert(before.push(c@).drop_last() == before);
            proof {
                law_distinct(before);
            }
            if !contains_rule(&rules, &c) {
                let ghost held = rules@;
                rules.push(c);
                assert(views(rules@) == views(held).push(c@));
            }
        }
    }
    assert(raw.take(raw.len() as int) == raw);
    rules
}

/// Says what a target host is.
pub fn parse_target(host: &str) -> (r: TargetKind)
    ensures
        r@ == target_of(host@),
{
    let host = trim(host);
    if let Some(ip) = parse_ipv4(host.as_str()) {
        TargetKind::Ipv4(ip)
    } else if let Some(ip) = parse_ipv6(host.as_str()) {
        TargetKind::Ipv6(ip)
    } else {
        TargetKind::Domain(normalize_domain(host.as_str()))
    }
}

/// The positions of the rules that satisfy `p`, in ascending order.
spec fn positions(rules: Seq<CompiledRuleView>, p: spec_fn(CompiledRuleView) -> bool) -> Seq<usize>
    decreases rules.len(),
{
    if rules.len() == 0 {
        Seq::empty()
    } else if p(rules.last()) {
        positions(rules.drop_last(), p).push((rules.len() - 1) as usize)
    } else {
        positions(rules.drop_last(), p)
    }
}

proof fn lemma_positions(rules: Seq<CompiledRuleView>, p: spec_fn(CompiledRuleView) -> bool)
    requires
        rules.len() <= usize::MAX,
    ensures
        forall|k: int|
            0 <= k < positions(rules, p).len() ==> (#[trigger] positions(rules, p)[k]) < rules.len()
                && p(rules[positions(rules, p)[k] as int]),
        forall|a: int, b: int|
            0 <= a < b < positions(rules, p).len() ==> positions(rules, p)[a] < positions(
                rules,
                p,
            )[b],
        forall|i: int|
            #![trigger rules[i]]
            0 <= i < rules.len() && p(rules[i]) ==> positions(rules, p).contains(i as usize),
    decreases rules.len(),
{
    if rules.len() > 0 {
        let rest = rules.drop_last();
        lemma_positions(rest, p);
        let all = positions(rules, p);
        let some = positions(rest, p);
        assert forall|k: int| 0 <= k < all.len() implies (#[trigger] all[k]) < rules.len() && p(
            rules[all[k] as int],
        ) by {
            if k < some.len() {
                assert(all[k] == some[k]);
                assert(rules[some[k] as int] == rest[some[k] as int]);
            }
        }
        assert forall|a: int, b: int| 0 <= a < b < all.len() implies all[a] < all[b] by {
            assert(all[a] == some[a]);
            if b < some.len() {
                assert(all[b] == some[b]);
            }
        }
        assert forall|i: int|
            #![trigger rules[i]]
            0 <= i < rules.len() && p(rules[i]) implies all.contains(i as usize) by {
            if i < rest.len() {
                assert(rest[i] == rules[i]);
                assert(some.contains(i as usize));
                let k = choose|k: int| 0 <= k < some.len() && some[k] == i as usize;
                assert(all[k] == i as usize);
            } else {
                assert(all.last() == i as usize);
            }
        }
    }
}

/// The rules about exactly the given hosts.
spec fn is_about(matcher: HostMatcherView) -> spec_fn(CompiledRuleView) -> bool {
    |rule: CompiledRuleView| rule.matcher == matcher
}

/// The first octet of an IPv4 address.
spec fn bucket_of(ip: u32) -> int {
    ip as int / 0x100_0000
}

/// The rules about a range of addresses that reaches into the given first octet.
spec fn reaches(bucket: int) -> spec_fn(CompiledRuleView) -> bool {
    |rule: CompiledRuleView|
        rule.matcher matches HostMatcherView::Ipv4Range(start, end) && bucket_of(start) <= bucket
            <= bucket_of(end)
}

/// Lists of rule positions, by what the rules are about.
pub struct RuleIndex {
    domain: StringHashMap<Vec<usize>>,
    ipv4: HashMap<u32, Vec<usize>>,
    range_buckets: Vec<Vec<usize>>,
}

/// The positions listed for an address, none where it is not listed.
spec fn listed(ipv4: Map<u32, Vec<usize>>, ip: u32) -> Seq<usize> {
    if ipv4.contains_key(ip) {
        ipv4[ip]@
    } else {
        Seq::empty()
    }
}

/// The first octet of `ip`, as a position in the list of buckets.
fn bucket(ip: u32) -> (r: usize)
    ensures
        r == bucket_of(ip),
        r < 256,
{
    let b: u32 = (ip >> 24) & 0xff;
    assert(b == ip / 0x100_0000 && b < 256) by (bit_vector)
        requires
            b == (ip >> 24) & 0xff,
    ;
    b as usize
}

impl RuleIndex {
    /// Whether the lists are complete for `rules`.
    pub closed spec fn indexes(&self, rules: Seq<CompiledRuleView>) -> bool {
        &&& forall|name: Seq<char>| #[trigger]
            list_at(self.domain@, name) == positions(rules, is_about(HostMatcherView::Domain(name)))
        &&& forall|ip: u32| #[trigger]
            listed(self.ipv4@, ip) == positions(rules, is_about(HostMatcherView::Ipv4(ip)))
        &&& self.range_buckets@.len() == 256
        &&& forall|b: int|
            0 <= b < 256 ==> (#[trigger] self.range_buckets@[b])@ == positions(rules, reaches(b))
    }

    /// Lists the positions of the rules.
    pub fn build(rules: &Vec<CompiledRule>) -> (r: RuleIndex)
        ensures
            r.indexes(views(rules@)),
    {
        let mut index = RuleIndex {
            domain: StringHashMap::new(),
            ipv4: HashMap::new(),
            range_buckets: empty_buckets(),
        };
        let ghost all = views(rules@);
        let mut idx: usize = 0;
        assert(all.take(0) == Seq::<CompiledRuleView>::empty());
        while idx < rules.len()
            invariant
                idx <= rules@.len(),
                all == views(rules@),
                index.indexes(all.take(idx as int)),
            decreases rules@.len() - idx,
        {
            index.record(rules, idx);
            idx += 1;
        }
        assert(all.take(idx as int) == all);
        index
    }

    /// Lists one more rule.
    fn record(&mut self, rules: &Vec<CompiledRule>, idx: usize)
        requires
            idx < rules@.len(),
            old(self).indexes(views(rules@).take(idx as int)),
        ensures
            final(self).indexes(views(rules@).take(idx + 1)),
    {
        let ghost before = views(rules@).take(idx as int);
        let ghost after = views(rules@).take(idx + 1);
        assert(after.drop_last() == before);
        assert(after.last() == rules@[idx as int]@);
        match &rules[idx].matcher {
            HostMatcher::Domain(name) => {
                push_at(&mut self.domain, name.as_str(), idx);
            },
            HostMatcher::Ipv4(ip) => {
                let mut list: Vec<usize> = match self.ipv4.get(ip) {
                    Some(present) => present.clone(),
                    None => Vec::new(),
                };
                assert(list@ == listed(old(self).ipv4@, *ip));
                list.push(idx);
                self.ipv4.insert(*ip, list);
            },
            HostMatcher::Ipv4Range(start, end) => {
                let first: usize = bucket(*start);
                let last: usize = bucket(*end);
                let mut b: usize = first;
                while b <= last
                    invariant
                        first <= b,
                        last < 256,
                        b <= last + 1 || b == first,
                        self.domain == old(self).domain,
                        self.ipv4 == old(self).ipv4,
                        self.range_buckets@.len() == 256,
                        forall|c: int|
                            0 <= c < 256 ==> (#[trigger] self.range_buckets@[c])@ == if first <= c
                                < b {
                                positions(before, reaches(c)).push(idx)
                            } else {
                                positions(before, reaches(c))
                            },
                    decreases 256 - b,
                {
                    self.range_buckets[b].push(idx);
                    b += 1;
                }
            },
        }
        assert forall|name: Seq<char>| #[trigger]
            list_at(self.domain@, name) == positions(
                after,
                is_about(HostMatcherView::Domain(name)),
            ) by {
            assert(list_at(old(self).domain@, name) == positions(
                before,
                is_about(HostMatcherView::Domain(name)),
            ));
        }
        assert forall|ip: u32| #[trigger]
            listed(self.ipv4@, ip) == positions(after, is_about(HostMatcherView::Ipv4(ip))) by {
            assert(listed(old(self).ipv4@, ip) == positions(
                before,
                is_about(HostMatcherView::Ipv4(ip)),
            ));
        }
        assert forall|b: int| 0 <= b < 256 implies (#[trigger] self.range_buckets@[b])@
            == positions(after, reaches(b)) by {
            assert(old(self).range_buckets@[b]@ == positions(before, reaches(b)));
        }
    }

    /// The first rule that matches a target and port.
    pub fn find_first_match<'a>(
        &self,
        rules: &'a Vec<CompiledRule>,
        target: &TargetKind,
        port: u16,
    ) -> (r: Option<&'a CompiledRule>)
        requires
            self.indexes(views(rules@)),
        ensures
            match r {
                Some(rule) => first_match(views(rules@), target@, port) == Some(rule@),
                None => first_match(views(rules@), target@, port) is None,
            },
    {
        let ghost all = views(rules@);
        assert(all.len() == rules.len());
        match target {
            TargetKind::Domain(domain) => {
                let ghost p = is_about(HostMatcherView::Domain(domain@));
                let ghost places = list_at(self.domain@, domain@);
                proof {
                    lemma_positions(all, p);
                }
                match self.domain.get(domain.as_str()) {
                    Some(ids) => {
                        let mut k: usize = 0;
                        while k < ids.len()
                            invariant
                                k <= ids@.len(),
                                ids@ == positions(all, p),
                                all == views(rules@),
                                all.len() == rules.len(),
                                p == is_about(HostMatcherView::Domain(domain@)),
                                target@ == TargetView::Domain(domain@),
                                forall|j: int|
                                    0 <= j < ids@.len() ==> (#[trigger] ids@[j]) < rules@.len()
                                        && p(all[ids@[j] as int]),
                                forall|a: int, b: int| 0 <= a < b < ids@.len() ==> ids@[a] < ids@[b],
                                forall|i: int|
                                    #![trigger all[i]]
                                    0 <= i < all.len() && p(all[i]) ==> ids@.contains(i as usize),
                                forall|j: int|
                                    0 <= j < k ==> !applies(
                                        all[#[trigger] ids@[j] as int],
                                        target@,
                                        port,
                                    ),
                            decreases ids@.len() - k,
                        {
                            let idx: usize = ids[k];
                            if rule_matches(&rules[idx], port) {
                                assert(p(all[idx as int]));
                                assert forall|i: int| 0 <= i < idx implies !applies(
                                    #[trigger] all[i],
                                    target@,
                                    port,
                                ) by {
                                    if p(all[i]) {
                                        let j = choose|j: int|
                                            0 <= j < ids@.len() && ids@[j] == i as usize;
                                        assert(j < k);
                                    }
                                }
                                proof {
                                    lemma_first_match_at(all, target@, port, idx as int);
                                }
                                return Some(&rules[idx]);
                            }
                            assert(!applies(all[ids@[k as int] as int], target@, port));
                            k += 1;
                        }
                        assert forall|i: int| 0 <= i < all.len() implies !applies(
                            #[trigger] all[i],
                            target@,
                            port,
                        ) by {
                            if p(all[i]) {
                                let j = choose|j: int|
                                    0 <= j < ids@.len() && ids@[j] == i as usize;
                                assert(!applies(all[ids@[j] as int], target@, port));
                            }
                        }
                    },
                    None => {
                        assert forall|i: int| 0 <= i < all.len() implies !applies(
                            #[trigger] all[i],
                            target@,
                            port,
                        ) by {
                            assert(places.len() == 0);
                            assert(!p(all[i]));
                        }
                    },
                }
                proof {
                    lemma_first_match_at(all, target@, port, all.len() as int);
                }
                None
            },
            TargetKind::Ipv4(ip) => self.find_ipv4(rules, *ip, port),
            TargetKind::Ipv6(ip) => {
                proof {
                    law_ipv6_matches_no_rule(all, *ip, port);
                }
                None
            },
        }
    }

    /// The first rule that matches an IPv4 address and port.
    fn find_ipv4<'a>(&self, rules: &'a Vec<CompiledRule>, ip: u32, port: u16) -> (r: Option<
        &'a CompiledRule,
    >)
        requires
            self.indexes(views(rules@)),
        ensures
            match r {
                Some(rule) => first_match(views(rules@), TargetView::Ipv4(ip), port) == Some(rule@),
                None => first_match(views(rules@), TargetView::Ipv4(ip), port) is None,
            },
    {
        let ghost all = views(rules@);
        assert(all.len() == rules.len());
        let ghost target = TargetView::Ipv4(ip);
        let mut best: Option<usize> = None;
        let ghost exact = positions(all, is_about(HostMatcherView::Ipv4(ip)));
        assert(listed(self.ipv4@, ip) == exact);
        proof {
            lemma_positions(all, is_about(HostMatcherView::Ipv4(ip)));
        }
        if let Some(ids) = self.ipv4.get(&ip) {
            best = earliest(rules, ids, ip, port, best, Ghost(Seq::empty()));
            assert(Seq::<usize>::empty() + ids@ == exact);
        }
        let b: usize = bucket(ip);
        let ghost ranged = positions(all, reaches(b as int));
        assert(self.range_buckets@[b as int]@ == ranged);
        proof {
            lemma_positions(all, reaches(b as int));
        }
        best = earliest(rules, &self.range_buckets[b], ip, port, best, Ghost(exact));
        assert forall|i: int| 0 <= i < all.len() && applies(#[trigger] all[i], target, port) implies (
        exact + ranged).contains(i as usize) by {
            if is_about(HostMatcherView::Ipv4(ip))(all[i]) {
                assert(exact.contains(i as usize));
                let k = choose|k: int| 0 <= k < exact.len() && exact[k] == i as usize;
                assert((exact + ranged)[k] == i as usize);
            } else {
                assert(reaches(b as int)(all[i]));
                assert(ranged.contains(i as usize));
                let k = choose|k: int| 0 <= k < ranged.len() && ranged[k] == i as usize;
                assert((exact + ranged)[exact.len() + k] == i as usize);
            }
        }
        match best {
            Some(idx) => {
                assert forall|i: int| 0 <= i < idx implies !applies(
                    #[trigger] all[i],
                    target,
                    port,
                ) by {}
                proof {
                    lemma_first_match_at(all, target, port, idx as int);
                }
                Some(&rules[idx])
            },
            None => {
                proof {
                    lemma_first_match_at(all, target, port, all.len() as int);
                }
                None
            },
        }
    }
}

/// Whether `best` is the earliest of the listed rules that match, or `None` where none does.
spec fn is_earliest(
    rules: Seq<CompiledRuleView>,
    list: Seq<usize>,
    ip: u32,
    port: u16,
    best: Option<usize>,
) -> bool {
    let hit = |i: usize| applies(rules[i as int], TargetView::Ipv4(ip), port);
    match best {
        Some(idx) => {
            &&& idx < rules.len()
            &&& hit(idx)
            &&& forall|i: usize| #[trigger] list.contains(i) && hit(i) ==> idx <= i
        },
        None => forall|i: usize| #[trigger] list.contains(i) ==> !hit(i),
    }
}

/// The earliest of `ids` and of the positions seen before that matches an address and port.
fn earliest(
    rules: &Vec<CompiledRule>,
    ids: &Vec<usize>,
    ip: u32,
    port: u16,
    before: Option<usize>,
    Ghost(seen): Ghost<Seq<usize>>,
) -> (r: Option<usize>)
    requires
        is_earliest(views(rules@), seen, ip, port, before),
        forall|k: int| 0 <= k < ids@.len() ==> (#[trigger] ids@[k]) < rules@.len(),
    ensures
        is_earliest(views(rules@), seen + ids@, ip, port, r),
{
    let ghost all = views(rules@);
    let mut best: Option<usize> = before;
    let mut k: usize = 0;
    assert(seen + ids@.take(0) == seen);
    while k < ids.len()
        invariant
            k <= ids@.len(),
            all == views(rules@),
            is_earliest(all, seen + ids@.take(k as int), ip, port, best),
            forall|k: int| 0 <= k < ids@.len() ==> (#[trigger] ids@[k]) < rules@.len(),
        decreases ids@.len() - k,
    {
        let idx: usize = ids[k];
        let ghost old_list = seen + ids@.take(k as int);
        let ghost new_list = seen + ids@.take(k + 1);
        assert(new_list == old_list.push(idx));
        assert forall|i: usize| #[trigger] new_list.contains(i) implies old_list.contains(i) || i
            == idx by {
            let j = choose|j: int| 0 <= j < new_list.len() && new_list[j] == i;
            if j < old_list.len() {
                assert(old_list[j] == i);
            }
        }
        assert forall|i: usize| #[trigger] old_list.contains(i) implies new_list.contains(i) by {
            let j = choose|j: int| 0 <= j < old_list.len() && old_list[j] == i;
            assert(new_list[j] == i);
        }
        let rule = &rules[idx];
        let hit = hits_ipv4(&rule.matcher, ip) && rule_matches(rule, port);
        assert(hit == applies(all[idx as int], TargetView::Ipv4(ip), port));
        if hit {
            match best {
                Some(current) => {
                    if idx < current {
                        best = Some(idx);
                    }
                },
                None => {
                    best = Some(idx);
                },
            }
        }
        k += 1;
    }
    assert(ids@.take(k as int) == ids@);
    best
}

/// Whether an address is among the hosts that a matcher is about.
fn hits_ipv4(matcher: &HostMatcher, ip: u32) -> (r: bool)
    ensures
        r == host_matches(matcher@, TargetView::Ipv4(ip)),
{
    match matcher {
        HostMatcher::Domain(_) => false,
        HostMatcher::Ipv4(own) => *own == ip,
        HostMatcher::Ipv4Range(start, end) => *start <= ip && ip <= *end,
    }
}

/// A list of no positions for each first octet.
fn empty_buckets() -> (r: Vec<Vec<usize>>)
    ensures
        r@.len() == 256,
        forall|b: int| 0 <= b < 256 ==> (#[trigger] r@[b])@ == Seq::<usize>::empty(),
{
    let mut r: Vec<Vec<usize>> = Vec::new();
    while r.len() < 256
        invariant
            r@.len() <= 256,
            forall|b: int| 0 <= b < r@.len() ==> (#[trigger] r@[b])@ == Seq::<usize>::empty(),
        decreases 256 - r@.len(),
    {
        r.push(Vec::new());
    }
    r
}

/// A rule matches a target among its hosts on the ports `start..=end` and on no other port; a rule
/// of the service "vipall", on every port. Whitespace around the name of the service does not
/// matter.
pub proof fn law_rule_covers_its_ports(rule: CompiledRuleView, target: TargetView, port: u16)
    ensures
        trimmed(rule.svc) != "vipall"@ ==> {
            &&& applies(rule, target, port) <==> host_matches(rule.matcher, target)
                && rule.port.start <= port && port <= rule.port.end
            &&& port_covered(rule, port) <==> rule.port.start <= port && port <= rule.port.end
        },
        trimmed(rule.svc) == "vipall"@ ==> {
            &&& applies(rule, target, port) <==> host_matches(rule.matcher, target)
            &&& port_covered(rule, port)
        },
{
}

/// The hosts that a rule is about: the names equal to its own, its address, or the addresses of its
/// range with both ends.
pub proof fn law_hosts_of_a_rule(name: Seq<char>, ip: u32, start: u32, end: u32, target: TargetView)
    ensures
        host_matches(HostMatcherView::Domain(name), target) <==> target == TargetView::Domain(name),
        host_matches(HostMatcherView::Ipv4(ip), target) <==> target == TargetView::Ipv4(ip),
        host_matches(HostMatcherView::Ipv4Range(start, end), target) <==> (target matches
            TargetView::Ipv4(x) && start <= x && x <= end),
{
}

/// A host field with a tilde names the addresses between two IPv4 addresses, whichever is the
/// larger; it names nothing where one of them is no IPv4 address.
pub proof fn law_host_field_with_a_range(a: Seq<char>, b: Seq<char>)
    requires
        !a.contains('~'),
    ensures
        match host_matcher_of(a + seq!['~'] + b) {
            Some(matcher) => exists|x: u32, y: u32|
                {
                    &&& trimmed(a) == #[trigger] ipv4_text(x)
                    &&& trimmed(b) == #[trigger] ipv4_text(y)
                    &&& x <= y ==> matcher == HostMatcherView::Ipv4Range(x, y)
                    &&& x > y ==> matcher == HostMatcherView::Ipv4Range(y, x)
                },
            None => forall|x: u32, y: u32|
                trimmed(a) != #[trigger] ipv4_text(x) || trimmed(b) != #[trigger] ipv4_text(y),
        },
{
    law_split_parts(a, '~', b);
    match (ipv4_of(trimmed(a)), ipv4_of(trimmed(b))) {
        (Some(x), Some(y)) => {
            law_ipv4_of(trimmed(a), x);
            law_ipv4_of(trimmed(b), y);
        },
        _ => {
            law_ipv4_of(trimmed(a), 0);
            law_ipv4_of(trimmed(b), 0);
        },
    }
}

/// A host field without a tilde names an IPv4 address where it is one, otherwise the domain that it
/// is, normalized, unless that is empty.
pub proof fn law_host_field_with_one_host(host: Seq<char>)
    requires
        !host.contains('~'),
    ensures
        match host_matcher_of(host) {
            Some(HostMatcherView::Ipv4(ip)) => trimmed(host) == ipv4_text(ip),
            Some(HostMatcherView::Domain(name)) => {
                &&& name == normalized(host) && name.len() > 0
                &&& forall|ip: u32| trimmed(host) != #[trigger] ipv4_text(ip)
            },
            Some(HostMatcherView::Ipv4Range(_, _)) => false,
            None => {
                &&& normalized(host).len() == 0
                &&& forall|ip: u32| trimmed(host) != #[trigger] ipv4_text(ip)
            },
        },
{
    law_split(host, '~');
    if let Some((a, b)) = split_first(host, '~') {
        assert(host[a.len() as int] == '~');
    }
    match ipv4_of(trimmed(host)) {
        Some(ip) => {
            law_ipv4_of(trimmed(host), ip);
        },
        None => {
            law_ipv4_of(trimmed(host), 0);
        },
    }
}

/// A rule is compiled where its host field names hosts and it speaks of TCP: its protocol is 0 or
/// -1, or its service is "vipall". Its compiled form keeps its resource, its service and its ports.
pub proof fn law_compiled(rule: RouteRuleView)
    ensures
        compiled(rule) is Some <==> host_matcher_of(rule.host) is Some && (rule.proto == 0
            || rule.proto == -1 || trimmed(rule.svc) == "vipall"@),
        compiled(rule) matches Some(c) ==> {
            &&& Some(c.matcher) == host_matcher_of(rule.host)
            &&& c.rc_id == rule.rc_id && c.rc_name == rule.name && c.svc == rule.svc
            &&& c.port == rule.port
        },
{
}

/// What a target host stands for: the IPv4 address that it displays; otherwise the IPv6 address that
/// it reads as; otherwise the name that it is, normalized.
pub proof fn law_target_of(host: Seq<char>)
    ensures
        match target_of(host) {
            TargetView::Ipv4(ip) => trimmed(host) == ipv4_text(ip),
            TargetView::Ipv6(ip) => ipv6_of(trimmed(host)) == Some(ip) && forall|x: u32|
                trimmed(host) != #[trigger] ipv4_text(x),
            TargetView::Domain(name) => {
                &&& name == normalized(host)
                &&& ipv6_of(trimmed(host)) is None
                &&& forall|x: u32| trimmed(host) != #[trigger] ipv4_text(x)
            },
        },
{
    law_trimming_once_is_enough(host);
    match ipv4_of(trimmed(host)) {
        Some(ip) => {
            law_ipv4_of(trimmed(host), ip);
        },
        None => {
            law_ipv4_of(trimmed(host), 0);
        },
    }
}

/// The rules of a table are tried in table order: the rule that is found for a target and port is
/// the compiled form of the first one in the table that is compiled, is about the target, and covers
/// the port; where none is found there is no such rule in the table.
pub proof fn law_table_order(rules: Seq<RouteRuleView>, target: TargetView, port: u16)
    ensures
        ({
            let covers = |rule: RouteRuleView|
                compiled(rule) matches Some(c) && {
                    &&& match c.matcher {
                        HostMatcherView::Domain(name) => target == TargetView::Domain(name),
                        HostMatcherView::Ipv4(ip) => target == TargetView::Ipv4(ip),
                        HostMatcherView::Ipv4Range(start, end) => target matches TargetView::Ipv4(x)
                            && start <= x && x <= end,
                    }
                    &&& trimmed(rule.svc) == "vipall"@ || rule.port.start <= port && port
                        <= rule.port.end
                };
            match first_match(compiled_all(rules), target, port) {
                Some(found) => exists|i: int|
                    {
                        &&& 0 <= i < rules.len()
                        &&& compiled(#[trigger] rules[i]) == Some(found)
                        &&& covers(rules[i])
                        &&& forall|k: int| 0 <= k < i ==> !covers(#[trigger] rules[k])
                    },
                None => forall|i: int| 0 <= i < rules.len() ==> !covers(#[trigger] rules[i]),
            }
        }),
{
    let f = |rule: RouteRuleView| compiled(rule);
    let out = compiled_all(rules);
    law_distinct_images(rules, f);
    law_first_match(out, target, port);
    match first_match(out, target, port) {
        Some(found) => {
            let a = choose|a: int|
                {
                    &&& 0 <= a < out.len()
                    &&& #[trigger] out[a] == found
                    &&& applies(found, target, port)
                    &&& forall|j: int| 0 <= j < a ==> !applies(#[trigger] out[j], target, port)
                };
            assert(out.contains(out[a]));
            let i = choose|i: int| #[trigger] maps_first(rules, f, i, found);
            assert(compiled(rules[i]) == Some(found));
            assert forall|k: int| 0 <= k < i implies (compiled(#[trigger] rules[k]) matches Some(
                c,
            ) ==> !applies(c, target, port)) by {
                lemma_earlier_rule(rules, target, port, a, i, k);
            }
        },
        None => {
            assert forall|i: int| 0 <= i < rules.len() implies (compiled(
                #[trigger] rules[i],
            ) matches Some(c) ==> !applies(c, target, port)) by {
                if let Some(c) = compiled(rules[i]) {
                    assert(f(rules[i]) == Some(c));
                    assert(out.contains(c));
                    let p = choose|p: int| 0 <= p < out.len() && out[p] == c;
                    assert(!applies(out[p], target, port));
                }
            }
        },
    }
}

proof fn lemma_earlier_rule(
    rules: Seq<RouteRuleView>,
    target: TargetView,
    port: u16,
    a: int,
    i: int,
    k: int,
)
    requires
        0 <= a < compiled_all(rules).len(),
        forall|j: int|
            0 <= j < a ==> !applies(#[trigger] compiled_all(rules)[j], target, port),
        maps_first(
            rules,
            |rule: RouteRuleView| compiled(rule),
            i,
            compiled_all(rules)[a],
        ),
        0 <= k < i,
    ensures
        compiled(rules[k]) matches Some(c) ==> !applies(c, target, port),
{
    let f = |rule: RouteRuleView| compiled(rule);
    let out = compiled_all(rules);
    law_distinct_images(rules, f);
    if let Some(c) = compiled(rules[k]) {
        assert(f(rules[k]) == Some(c));
        assert(out.contains(c));
        assert(c != out[a]);
        let p = choose|p: int| 0 <= p < out.len() && out[p] == c;
        if p > a {
            let j = choose|j: int| #[trigger] maps_first(rules, f, j, c);
            assert(maps_first(rules, f, j, out[p]));
            assert(i < j);
            assert(f(rules[k]) != Some(c));
        }
    }
}

/// The views of a compiled rule and of a target keep what they hold.
pub proof fn law_rule_views(rule: CompiledRule, name: String, a: u32, b: u32, ip6: u128)
    ensures
        rule@ == (CompiledRuleView {
            rc_id: rule.rc_id,
            rc_name: rule.rc_name@,
            svc: rule.svc@,
            matcher: rule.matcher@,
            port: rule.port,
        }),
        HostMatcher::Domain(name)@ == HostMatcherView::Domain(name@),
        HostMatcher::Ipv4(a)@ == HostMatcherView::Ipv4(a),
        HostMatcher::Ipv4Range(a, b)@ == HostMatcherView::Ipv4Range(a, b),
        TargetKind::Domain(name)@ == TargetView::Domain(name@),
        TargetKind::Ipv4(a)@ == TargetView::Ipv4(a),
        TargetKind::Ipv6(ip6)@ == TargetView::Ipv6(ip6),
{
}

} // verus!
