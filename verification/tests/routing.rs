use ec_core::addr::{format_ipv4, parse_ipv4, parse_socket_addr};
use ec_core::dns_index::normalize_dns_servers;
use ec_core::dns::{DnsLookup, LookupFailure, ResolveSource, Resolved};
use ec_core::route_table::{DnsRecord, PortRange, RouteRule, RouteTable};
use ec_core::routing::{
    cname_route_source, finish_address, install_route_table, install_tunnel_fallback,
    plan_from_mode, plan_target, PlanStep, RouteMatcher, RouteMode, RoutePlan, RouteSource, Router,
};
use ec_core::scopes::{infer_trusted_dns_scopes, is_trusted_domain, DnsScopeTrieNode};

fn done(step: PlanStep) -> RoutePlan {
    match step {
        PlanStep::Done(plan) => plan,
        _ => panic!("expected a finished plan"),
    }
}

fn strings(items: &[&str]) -> Vec<String> {
    items.iter().map(|item| item.to_string()).collect()
}

fn rule(rc_id: i32, host: &str, ports: (u16, u16)) -> RouteRule {
    RouteRule {
        rc_id,
        proto: 0,
        svc: "Other".to_string(),
        name: format!("resource {rc_id}"),
        host: host.to_string(),
        port: PortRange {
            start: ports.0,
            end: ports.1,
        },
    }
}

fn table(rules: Vec<RouteRule>, servers: &[&str], records: &[(i32, &str, &str)]) -> RouteTable {
    RouteTable {
        rules,
        dns_servers: strings(servers),
        dns_records: records
            .iter()
            .map(|(rc_id, host, ip)| DnsRecord {
                rc_id: *rc_id,
                host: host.to_string(),
                ip: ip.to_string(),
            })
            .collect(),
    }
}

fn matcher(table: RouteTable) -> RouteMatcher {
    match RouteMatcher::from_table(table) {
        Ok(matcher) => matcher,
        Err(_) => panic!("a table can always be installed"),
    }
}

fn rc_id_of(step: PlanStep) -> Option<i32> {
    match done(step) {
        RoutePlan::Remote { rc_id, .. } => Some(rc_id),
        RoutePlan::Fallback { .. } => None,
    }
}

#[test]
fn domain_hit_uses_dns_map_ip() {
    let table = RouteTable {
        rules: vec![RouteRule {
            rc_id: 205,
            proto: 0,
            svc: "Other".to_string(),
            name: "ids".to_string(),
            host: "ids.shiep.edu.cn".to_string(),
            port: PortRange {
                start: 1,
                end: 65535,
            },
        }],
        dns_servers: vec![],
        dns_records: vec![DnsRecord {
            rc_id: 205,
            host: "ids.shiep.edu.cn".to_string(),
            ip: "10.166.35.11".to_string(),
        }],
    };
    let matcher = matcher(table);
    let plan = done(matcher.plan("ids.shiep.edu.cn", 443));
    match plan {
        RoutePlan::Remote {
            dial,
            rc_id,
            source,
            dns_lookup,
            ..
        } => {
            assert_eq!(dial, "10.166.35.11:443");
            assert_eq!(rc_id, 205);
            assert_eq!(source, RouteSource::DnsMap);
            assert_eq!(dns_lookup, None);
        }
        _ => panic!("expected remote plan"),
    }
}

#[test]
fn dns_scope_trie_merges_sibling_domain_leaves() {
    let scopes =
        infer_trusted_dns_scopes(&strings(&["pan.shiep.edu.cn", "ids.shiep.edu.cn", "pan.shiep.edu.cn"]));

    assert_eq!(scopes.len(), 1);
    assert!(scopes.contains("shiep.edu.cn"));
}

#[test]
fn dns_scope_trie_does_not_count_terminal_internal_nodes_as_leaves() {
    let scopes = infer_trusted_dns_scopes(&strings(&["shiep.edu.cn", "ids.shiep.edu.cn"]));

    assert!(scopes.is_empty());
}

#[test]
fn dns_scope_trie_recursively_merges_but_stops_before_one_label() {
    let scopes = infer_trusted_dns_scopes(&strings(&[
        "pan.shiep.edu.cn",
        "ids.shiep.edu.cn",
        "portal.other.edu.cn",
        "mail.other.edu.cn",
        "foo.com",
        "bar.com",
    ]));

    assert_eq!(scopes.len(), 1);
    assert!(scopes.contains("edu.cn"));
}

#[test]
fn dns_scope_trie_collapses_entire_mixed_subtree() {
    let scopes = infer_trusted_dns_scopes(&strings(&[
        "pan.shiep.edu.cn",
        "ids.shiep.edu.cn",
        "deep.branch.shiep.edu.cn",
    ]));

    assert_eq!(scopes.len(), 1);
    assert!(scopes.contains("shiep.edu.cn"));
}

#[test]
fn inferred_dns_scope_authorizes_itself_and_subdomains_only() {
    let matcher = matcher(RouteTable {
        rules: vec![
            domain_rule(201, "pan.shiep.edu.cn"),
            domain_rule(202, "ids.shiep.edu.cn"),
        ],
        dns_servers: vec![],
        dns_records: vec![],
    });

    assert!(matcher.is_trusted_dns_domain("shiep.edu.cn"));
    assert!(matcher.is_trusted_dns_domain("pan2.shiep.edu.cn"));
    assert!(matcher.is_trusted_dns_domain("estudent.shiep.edu.cn"));
    assert!(!matcher.is_trusted_dns_domain("github.com"));
    assert!(!matcher.is_trusted_dns_domain("api.github.com"));
    assert!(!matcher.is_trusted_dns_domain("notshiep.edu.cn"));
}

#[test]
fn untrusted_domain_skips_dnsserver_derived_matching() {
    let matcher = matcher(RouteTable {
        rules: vec![
            domain_rule(201, "pan.shiep.edu.cn"),
            domain_rule(202, "ids.shiep.edu.cn"),
        ],
        dns_servers: vec!["127.0.0.1:1".to_string()],
        dns_records: vec![],
    });

    let plan = done(matcher.plan("github.com", 443));
    match plan {
        RoutePlan::Fallback { target, reason } => {
            assert_eq!(target, "github.com:443");
            assert_eq!(reason, "no whitelist rule matched");
        }
        _ => panic!("expected fallback plan"),
    }
}

#[test]
fn tunnel_fallback_mode_routes_non_ipv6_targets_remote() {
    let plan = done(plan_from_mode(&RouteMode::TunnelFallback, "example.invalid", 443).unwrap());
    match plan {
        RoutePlan::Remote {
            dial,
            rc_id,
            rc_name,
            source,
            ..
        } => {
            assert_eq!(dial, "example.invalid:443");
            assert_eq!(rc_id, 0);
            assert_eq!(rc_name, "route-table-unavailable");
            assert_eq!(source, RouteSource::RouteTableUnavailable);
        }
        _ => panic!("expected remote tunnel fallback plan"),
    }
}

#[test]
fn explicit_ipv6_falls_back_before_route_matching() {
    let table = RouteTable {
        rules: vec![RouteRule {
            rc_id: 400,
            proto: 0,
            svc: "Other".to_string(),
            name: "must-not-match".to_string(),
            host: "2001:db8::1".to_string(),
            port: PortRange {
                start: 1,
                end: 65535,
            },
        }],
        dns_servers: vec!["127.0.0.1:1".to_string()],
        dns_records: vec![],
    };
    let matcher = matcher(table);
    let plan = done(matcher.plan("2001:db8::1", 443));
    match plan {
        RoutePlan::Fallback { target, reason } => {
            assert_eq!(target, "[2001:db8::1]:443");
            assert_eq!(reason, "IPv6 targets are fallback-only");
        }
        _ => panic!("expected IPv6 fallback plan"),
    }
}

#[test]
fn tunnel_fallback_mode_keeps_ipv6_out_of_tunnel() {
    let plan = done(plan_from_mode(&RouteMode::TunnelFallback, "2001:db8::1", 443).unwrap());
    match plan {
        RoutePlan::Fallback { target, reason } => {
            assert_eq!(target, "[2001:db8::1]:443");
            assert_eq!(reason, "IPv6 targets are fallback-only");
        }
        _ => panic!("expected IPv6 fallback plan"),
    }
}

#[test]
fn dns_data_exact_host_without_ip_rule_falls_back() {
    let table = RouteTable {
        rules: vec![],
        dns_servers: vec![],
        dns_records: vec![DnsRecord {
            rc_id: 244,
            host: "ecard.shiep.edu.cn".to_string(),
            ip: "10.168.103.76".to_string(),
        }],
    };
    let matcher = matcher(table);
    let plan = done(matcher.plan("ecard.shiep.edu.cn", 80));
    match plan {
        RoutePlan::Fallback { reason, .. } => {
            assert_eq!(reason, "no whitelist rule matched");
        }
        _ => panic!("expected fallback plan"),
    }
}

#[test]
fn dns_data_exact_host_can_route_through_ip_range_rule() {
    let table = RouteTable {
        rules: vec![RouteRule {
            rc_id: 301,
            proto: 0,
            svc: "Other".to_string(),
            name: "ip-range".to_string(),
            host: "10.166.0.1~10.166.255.254".to_string(),
            port: PortRange {
                start: 10002,
                end: 10002,
            },
        }],
        dns_servers: vec![],
        dns_records: vec![DnsRecord {
            rc_id: 244,
            host: "pan2.shiep.edu.cn".to_string(),
            ip: "10.166.64.9".to_string(),
        }],
    };
    let matcher = matcher(table);
    let plan = done(matcher.plan("pan2.shiep.edu.cn", 10002));
    match plan {
        RoutePlan::Remote {
            dial,
            rc_id,
            source,
            ..
        } => {
            assert_eq!(dial, "10.166.64.9:10002");
            assert_eq!(rc_id, 301);
            assert_eq!(source, RouteSource::DnsDataIpRule);
        }
        _ => panic!("expected remote plan"),
    }
}

#[test]
fn dns_data_exact_host_never_matches_domain_rule_by_ip_text() {
    let table = RouteTable {
        rules: vec![RouteRule {
            rc_id: 302,
            proto: 0,
            svc: "Other".to_string(),
            name: "domain-text-ip".to_string(),
            host: "resolved.example".to_string(),
            port: PortRange { start: 80, end: 80 },
        }],
        dns_servers: vec![],
        dns_records: vec![DnsRecord {
            rc_id: 244,
            host: "pan2.shiep.edu.cn".to_string(),
            ip: "10.166.64.9".to_string(),
        }],
    };
    let matcher = matcher(table);
    let plan = done(matcher.plan("pan2.shiep.edu.cn", 80));
    match plan {
        RoutePlan::Fallback { reason, .. } => {
            assert_eq!(reason, "no whitelist rule matched");
        }
        _ => panic!("expected fallback plan"),
    }
}

#[test]
fn dns_data_exact_host_skips_udp_only_ip_rule_for_tcp() {
    let table = RouteTable {
        rules: vec![RouteRule {
            rc_id: -98,
            proto: 1,
            svc: "".to_string(),
            name: "__DNS_HIDE_RC1".to_string(),
            host: "210.35.88.5".to_string(),
            port: PortRange { start: 53, end: 53 },
        }],
        dns_servers: vec![],
        dns_records: vec![DnsRecord {
            rc_id: -98,
            host: "dns-hide.example".to_string(),
            ip: "210.35.88.5".to_string(),
        }],
    };
    let matcher = matcher(table);
    let plan = done(matcher.plan("dns-hide.example", 53));
    match plan {
        RoutePlan::Fallback { reason, .. } => {
            assert_eq!(reason, "no whitelist rule matched");
        }
        _ => panic!("expected fallback plan"),
    }
}

#[test]
fn cname_alias_can_rematch_domain_rule() {
    let table = RouteTable {
        rules: vec![RouteRule {
            rc_id: 150,
            proto: 0,
            svc: "Other".to_string(),
            name: "SUEP-WAF".to_string(),
            host: "lgwf0-46.shiep.edu.cn".to_string(),
            port: PortRange {
                start: 1,
                end: 65535,
            },
        }],
        dns_servers: vec![],
        dns_records: vec![DnsRecord {
            rc_id: 150,
            host: "lgwf0-46.shiep.edu.cn".to_string(),
            ip: "10.166.64.6".to_string(),
        }],
    };
    let matcher = matcher(table);
    let plan = matcher
        .plan_from_cname_aliases(
            "estudent.shiep.edu.cn",
            443,
            &vec!["lgwf0-46.shiep.edu.cn".to_string()],
            ResolveSource::Server(parse_socket_addr("127.0.0.1:53").unwrap()),
        )
        .unwrap();
    match done(plan) {
        RoutePlan::Remote {
            dial,
            rc_id,
            source,
            dns_lookup,
            ..
        } => {
            assert_eq!(dial, "10.166.64.6:443");
            assert_eq!(rc_id, 150);
            assert_eq!(source, RouteSource::CnameDnsMap);
            assert_eq!(
                dns_lookup,
                Some(ResolveSource::Server(
                    parse_socket_addr("127.0.0.1:53").unwrap()
                ))
            );
        }
        _ => panic!("expected remote plan"),
    }
}

#[test]
fn cname_alias_rematch_never_promotes_ip_to_rule_match() {
    let table = RouteTable {
        rules: vec![RouteRule {
            rc_id: 150,
            proto: 0,
            svc: "Other".to_string(),
            name: "private-ip".to_string(),
            host: "10.166.64.6".to_string(),
            port: PortRange {
                start: 1,
                end: 65535,
            },
        }],
        dns_servers: vec![],
        dns_records: vec![],
    };
    let matcher = matcher(table);
    let plan = matcher.plan_from_cname_aliases(
        "estudent.shiep.edu.cn",
        443,
        &vec!["10.166.64.6".to_string()],
        ResolveSource::Cache,
    );
    assert!(plan.is_none());
}

#[test]
fn cname_lookup_does_not_replace_a_more_direct_dns_source() {
    let inner_server = parse_socket_addr("192.0.2.53:53").unwrap();
    let plan = RoutePlan::Remote {
        dial: "10.166.64.6:443".to_string(),
        rc_id: 150,
        rc_name: "SUEP-WAF".to_string(),
        source: RouteSource::CnameDnsServer,
        dns_lookup: Some(ResolveSource::Server(inner_server)),
    }
    .with_dns_lookup_if_absent(ResolveSource::Cache);

    match plan {
        RoutePlan::Remote { dns_lookup, .. } => assert_eq!(
            dns_lookup,
            Some(ResolveSource::Server(inner_server))
        ),
        _ => panic!("expected remote plan"),
    }
}

#[test]
fn dnsserver_a_ip_can_route_through_ip_range_rule() {
    let table = RouteTable {
        rules: vec![RouteRule {
            rc_id: 302,
            proto: 0,
            svc: "Other".to_string(),
            name: "resolved-range".to_string(),
            host: "10.50.2.1~10.50.2.254".to_string(),
            port: PortRange { start: 80, end: 80 },
        }],
        dns_servers: vec![],
        dns_records: vec![],
    };
    let matcher = matcher(table);
    let ips = vec![parse_ipv4("10.50.2.206").unwrap()];
    let plan = matcher
        .plan_from_resolved_ips(
            80,
            &ips,
            RouteSource::DnsServerIpRule,
            Some(ResolveSource::Cache),
        )
        .unwrap();
    match plan {
        RoutePlan::Remote {
            dial,
            rc_id,
            source,
            ..
        } => {
            assert_eq!(dial, "10.50.2.206:80");
            assert_eq!(rc_id, 302);
            assert_eq!(source, RouteSource::DnsServerIpRule);
        }
        _ => panic!("expected remote plan"),
    }
}

#[test]
fn ip_range_hit_goes_remote() {
    let table = RouteTable {
        rules: vec![RouteRule {
            rc_id: 334,
            proto: 0,
            svc: "Other".to_string(),
            name: "fee".to_string(),
            host: "10.50.2.1~10.50.2.254".to_string(),
            port: PortRange { start: 80, end: 80 },
        }],
        dns_servers: vec![],
        dns_records: vec![],
    };
    let matcher = matcher(table);
    let plan = done(matcher.plan("10.50.2.206", 80));
    match plan {
        RoutePlan::Remote { dial, source, .. } => {
            assert_eq!(dial, "10.50.2.206:80");
            assert_eq!(source, RouteSource::RuleIp);
        }
        _ => panic!("expected remote plan"),
    }
}

#[test]
fn miss_falls_back() {
    let table = RouteTable {
        rules: vec![],
        dns_servers: vec![],
        dns_records: vec![],
    };
    let matcher = matcher(table);
    let plan = done(matcher.plan("example.com", 443));
    match plan {
        RoutePlan::Fallback { .. } => {}
        _ => panic!("expected fallback plan"),
    }
}

#[test]
fn dns_duplicates_are_deduped_and_keep_order() {
    let table = RouteTable {
        rules: vec![RouteRule {
            rc_id: 205,
            proto: 0,
            svc: "Other".to_string(),
            name: "ids".to_string(),
            host: "ids.shiep.edu.cn".to_string(),
            port: PortRange {
                start: 1,
                end: 65535,
            },
        }],
        dns_servers: vec![],
        dns_records: vec![
            DnsRecord {
                rc_id: 205,
                host: "ids.shiep.edu.cn".to_string(),
                ip: "10.166.35.11".to_string(),
            },
            DnsRecord {
                rc_id: 205,
                host: "ids.shiep.edu.cn".to_string(),
                ip: "10.166.35.11".to_string(),
            },
            DnsRecord {
                rc_id: 205,
                host: "ids.shiep.edu.cn".to_string(),
                ip: "10.166.35.12".to_string(),
            },
            DnsRecord {
                rc_id: 206,
                host: "ids.shiep.edu.cn".to_string(),
                ip: "10.166.35.12".to_string(),
            },
        ],
    };
    let matcher = matcher(table);
    assert_eq!(matcher.summary().dns_record_count, 3);
    let ips = matcher.dns_map(205, "ids.shiep.edu.cn").unwrap();
    assert_eq!(ips.len(), 2);
    assert_eq!(format_ipv4(ips[0]), "10.166.35.11");
    assert_eq!(format_ipv4(ips[1]), "10.166.35.12");
    let exact_ips = matcher.dns_exact("ids.shiep.edu.cn").unwrap();
    assert_eq!(exact_ips.len(), 2);
    assert_eq!(format_ipv4(exact_ips[0]), "10.166.35.11");
    assert_eq!(format_ipv4(exact_ips[1]), "10.166.35.12");
}

#[test]
fn duplicate_rules_are_deduped() {
    let table = RouteTable {
        rules: vec![
            RouteRule {
                rc_id: 115,
                proto: 0,
                svc: "Other".to_string(),
                name: "qikan".to_string(),
                host: "qikan.chaoxing.com".to_string(),
                port: PortRange { start: 80, end: 80 },
            },
            RouteRule {
                rc_id: 115,
                proto: 0,
                svc: "Other".to_string(),
                name: "qikan".to_string(),
                host: "qikan.chaoxing.com".to_string(),
                port: PortRange { start: 80, end: 80 },
            },
            RouteRule {
                rc_id: 115,
                proto: 0,
                svc: "Other".to_string(),
                name: "qikan".to_string(),
                host: "qikan.chaoxing.com".to_string(),
                port: PortRange {
                    start: 443,
                    end: 443,
                },
            },
        ],
        dns_servers: vec![],
        dns_records: vec![],
    };
    let matcher = matcher(table);
    assert_eq!(matcher.rules().len(), 2);
}

#[test]
fn dns_servers_are_deduped_and_trimmed() {
    let table = RouteTable {
        rules: vec![],
        dns_servers: vec![
            " 210.35.88.5 ".to_string(),
            "114.114.114.114:53".to_string(),
            "210.35.88.5:53".to_string(),
        ],
        dns_records: vec![],
    };
    let matcher = matcher(table);
    assert_eq!(
        *matcher.dns_servers(),
        vec![
            parse_socket_addr("210.35.88.5:53").unwrap(),
            parse_socket_addr("114.114.114.114:53").unwrap()
        ]
    );
}

fn domain_rule(rc_id: i32, host: &str) -> RouteRule {
    RouteRule {
        rc_id,
        proto: 0,
        svc: "Other".to_string(),
        name: host.to_string(),
        host: host.to_string(),
        port: PortRange {
            start: 1,
            end: 65535,
        },
    }
}

#[test]
fn dns_servers_accept_ipv6_and_drop_invalid_entries() {
    let table = RouteTable {
        rules: vec![],
        dns_servers: vec![
            "::1".to_string(),
            "[::1]:53".to_string(),
            "not-a-server".to_string(),
        ],
        dns_records: vec![],
    };
    let matcher = matcher(table);
    assert_eq!(*matcher.dns_servers(), vec![parse_socket_addr("[::1]:53").unwrap()]);
}

#[test]
fn domain_hit_without_dns_map_uses_dnsserver_fallback_reason() {
    let table = RouteTable {
        rules: vec![RouteRule {
            rc_id: 205,
            proto: 0,
            svc: "Other".to_string(),
            name: "ids".to_string(),
            host: "ids.shiep.edu.cn".to_string(),
            port: PortRange {
                start: 1,
                end: 65535,
            },
        }],
        dns_servers: vec!["127.0.0.1:1".to_string()],
        dns_records: vec![],
    };
    let matcher = matcher(table);
    let query = match matcher.plan("ids.shiep.edu.cn", 443) {
        PlanStep::ResolveAddress(query) => query,
        _ => panic!("expected an address query"),
    };
    assert_eq!(query.rc_id(), 205);
    assert_eq!(query.domain(), "ids.shiep.edu.cn");
    assert_eq!(query.servers(), &vec![parse_socket_addr("127.0.0.1:1").unwrap()]);
    let plan = finish_address(
        query,
        Err(LookupFailure {
            detail: "connection refused".to_string(),
        }),
    );
    match plan {
        RoutePlan::Fallback { reason, .. } => {
            assert!(reason.contains("dnsserver lookup failed"));
        }
        _ => panic!("expected fallback plan"),
    }
}

#[test]
fn unsupported_protocol_rules_are_excluded_from_active_index() {
    let table = RouteTable {
        rules: vec![
            RouteRule {
                rc_id: -98,
                proto: 1,
                svc: "".to_string(),
                name: "udp-only".to_string(),
                host: "210.35.88.5".to_string(),
                port: PortRange { start: 53, end: 53 },
            },
            RouteRule {
                rc_id: -99,
                proto: 2,
                svc: "".to_string(),
                name: "icmp-only".to_string(),
                host: "10.50.2.206".to_string(),
                port: PortRange {
                    start: 1,
                    end: 65535,
                },
            },
        ],
        dns_servers: vec![],
        dns_records: vec![],
    };
    let matcher = matcher(table);
    assert!(matcher.rules().is_empty());
    let plan = done(matcher.plan("210.35.88.5", 53));
    match plan {
        RoutePlan::Fallback { reason, .. } => {
            assert_eq!(reason, "no whitelist rule matched");
        }
        _ => panic!("expected fallback plan"),
    }
}

#[test]
fn vipall_ip_rule_ignores_port_and_protocol_after_ip_hit() {
    let table = RouteTable {
        rules: vec![RouteRule {
            rc_id: 336,
            proto: 2,
            svc: "vipall".to_string(),
            name: "vip-all".to_string(),
            host: "10.50.2.206".to_string(),
            port: PortRange { start: 80, end: 80 },
        }],
        dns_servers: vec![],
        dns_records: vec![],
    };
    let matcher = matcher(table);
    let plan = done(matcher.plan("10.50.2.206", 443));
    match plan {
        RoutePlan::Remote {
            dial,
            rc_id,
            source,
            ..
        } => {
            assert_eq!(dial, "10.50.2.206:443");
            assert_eq!(rc_id, 336);
            assert_eq!(source, RouteSource::RuleIp);
        }
        _ => panic!("expected remote plan"),
    }
}

#[test]
fn vipall_dns_data_ip_rule_ignores_port_and_protocol_after_ip_hit() {
    let table = RouteTable {
        rules: vec![RouteRule {
            rc_id: 337,
            proto: 1,
            svc: "vipall".to_string(),
            name: "vip-all-range".to_string(),
            host: "10.50.2.1~10.50.2.254".to_string(),
            port: PortRange { start: 80, end: 80 },
        }],
        dns_servers: vec![],
        dns_records: vec![DnsRecord {
            rc_id: 337,
            host: "vip.example".to_string(),
            ip: "10.50.2.206".to_string(),
        }],
    };
    let matcher = matcher(table);
    let plan = done(matcher.plan("vip.example", 443));
    match plan {
        RoutePlan::Remote {
            dial,
            rc_id,
            source,
            ..
        } => {
            assert_eq!(dial, "10.50.2.206:443");
            assert_eq!(rc_id, 337);
            assert_eq!(source, RouteSource::DnsDataIpRule);
        }
        _ => panic!("expected remote plan"),
    }
}

#[test]
fn wildcard_protocol_rule_remains_available_for_tcp() {
    let table = RouteTable {
        rules: vec![RouteRule {
            rc_id: 335,
            proto: -1,
            svc: "Other".to_string(),
            name: "any-proto".to_string(),
            host: "10.50.2.206".to_string(),
            port: PortRange { start: 80, end: 80 },
        }],
        dns_servers: vec![],
        dns_records: vec![],
    };
    let matcher = matcher(table);
    let plan = done(matcher.plan("10.50.2.206", 80));
    match plan {
        RoutePlan::Remote { rc_id, .. } => {
            assert_eq!(rc_id, 335);
        }
        _ => panic!("expected remote plan"),
    }
}

#[test]
fn ip_match_preserves_original_rule_order_between_exact_and_range() {
    let table = RouteTable {
        rules: vec![
            RouteRule {
                rc_id: 1,
                proto: 0,
                svc: "Other".to_string(),
                name: "range-first".to_string(),
                host: "10.50.2.1~10.50.2.254".to_string(),
                port: PortRange { start: 80, end: 80 },
            },
            RouteRule {
                rc_id: 2,
                proto: 0,
                svc: "Other".to_string(),
                name: "exact-second".to_string(),
                host: "10.50.2.206".to_string(),
                port: PortRange { start: 80, end: 80 },
            },
        ],
        dns_servers: vec![],
        dns_records: vec![],
    };
    let matcher = matcher(table);
    let plan = done(matcher.plan("10.50.2.206", 80));
    match plan {
        RoutePlan::Remote { rc_id, dial, .. } => {
            assert_eq!(rc_id, 1);
            assert_eq!(dial, "10.50.2.206:80");
        }
        _ => panic!("expected remote plan"),
    }
}

#[test]
fn scopes_follow_the_set_of_domains() {
    let names = strings(&["b.x.cn", "a.x.cn", "c.y.cn"]);
    let other = strings(&["c.y.cn", "a.x.cn", "b.x.cn", "a.x.cn"]);
    let scopes = infer_trusted_dns_scopes(&names);
    let others = infer_trusted_dns_scopes(&other);
    assert_eq!(scopes.len(), 1);
    assert_eq!(others.len(), 1);
    assert!(scopes.contains("x.cn"));
    assert!(others.contains("x.cn"));
}

#[test]
fn a_scope_needs_two_labels_and_two_leaves() {
    assert!(infer_trusted_dns_scopes(&strings(&["a.cn", "b.cn"])).is_empty());
    assert!(infer_trusted_dns_scopes(&strings(&["a.x.cn"])).is_empty());
    assert!(infer_trusted_dns_scopes(&strings(&[])).is_empty());
}

#[test]
fn an_empty_label_cuts_a_name_off() {
    // `a..x.cn` ends at `x.cn` without being a leaf there.
    let scopes = infer_trusted_dns_scopes(&strings(&["a..x.cn", "b.x.cn", "c.x.cn"]));
    assert_eq!(scopes.len(), 1);
    assert!(scopes.contains("x.cn"));
    assert!(infer_trusted_dns_scopes(&strings(&[".a.x.cn", "b.x.cn"])).is_empty());
}

#[test]
fn trust_stops_at_label_boundaries() {
    let scopes = infer_trusted_dns_scopes(&strings(&["a.x.cn", "b.x.cn"]));
    assert!(is_trusted_domain(&scopes, "x.cn"));
    assert!(is_trusted_domain(&scopes, "deep.below.x.cn"));
    assert!(!is_trusted_domain(&scopes, "ax.cn"));
    assert!(!is_trusted_domain(&scopes, "cn"));
    assert!(!is_trusted_domain(&scopes, ""));
}

#[test]
fn trusted_name_is_looked_up_and_matched_by_alias_first() {
    let m = matcher(table(
        vec![
            rule(1, "a.x.cn", (1, 65535)),
            rule(2, "b.x.cn", (1, 65535)),
            rule(3, "10.0.0.0~10.0.0.255", (1, 65535)),
        ],
        &["127.0.0.1:53"],
        &[(2, "b.x.cn", "10.9.9.9")],
    ));
    let query = match m.plan("new.x.cn", 443) {
        PlanStep::ResolveLookup(query) => query,
        _ => panic!("expected a lookup"),
    };
    assert_eq!(query.domain(), "new.x.cn");
    assert_eq!(query.servers(), &vec![parse_socket_addr("127.0.0.1:53").unwrap()]);
    let step = m.resume_lookup(
        query,
        Ok(DnsLookup {
            aliases: strings(&["10.0.0.1", "", "B.x.cn."]),
            ips: vec![parse_ipv4("10.0.0.7").unwrap()],
            source: ResolveSource::Cache,
        }),
    );
    match done(step) {
        RoutePlan::Remote {
            dial,
            rc_id,
            rc_name,
            source,
            dns_lookup,
        } => {
            assert_eq!(dial, "10.9.9.9:443");
            assert_eq!(rc_id, 2);
            assert_eq!(rc_name, "resource 2");
            assert_eq!(source, RouteSource::CnameDnsMap);
            assert_eq!(dns_lookup, Some(ResolveSource::Cache));
        }
        _ => panic!("expected remote plan"),
    }
}

#[test]
fn trusted_name_falls_back_to_the_addresses_of_the_lookup() {
    let m = matcher(table(
        vec![
            rule(1, "a.x.cn", (1, 65535)),
            rule(2, "b.x.cn", (1, 65535)),
            rule(3, "10.0.0.255~10.0.0.0", (443, 443)),
        ],
        &["127.0.0.1"],
        &[],
    ));
    let lookup = || DnsLookup {
        aliases: vec![],
        ips: vec![parse_ipv4("10.1.0.1").unwrap(), parse_ipv4("10.0.0.7").unwrap()],
        source: ResolveSource::Cache,
    };
    let query = match m.plan("new.x.cn", 443) {
        PlanStep::ResolveLookup(query) => query,
        _ => panic!("expected a lookup"),
    };
    match done(m.resume_lookup(query, Ok(lookup()))) {
        RoutePlan::Remote { dial, source, dns_lookup, .. } => {
            assert_eq!(dial, "10.0.0.7:443");
            assert_eq!(source, RouteSource::DnsServerIpRule);
            assert_eq!(dns_lookup, Some(ResolveSource::Cache));
        }
        _ => panic!("expected remote plan"),
    }
    let query = match m.plan("new.x.cn", 80) {
        PlanStep::ResolveLookup(query) => query,
        _ => panic!("expected a lookup"),
    };
    match done(m.resume_lookup(query, Ok(lookup()))) {
        RoutePlan::Fallback { target, reason } => {
            assert_eq!(target, "new.x.cn:80");
            assert_eq!(reason, "no whitelist rule matched");
        }
        _ => panic!("expected fallback plan"),
    }
    let query = match m.plan("new.x.cn", 443) {
        PlanStep::ResolveLookup(query) => query,
        _ => panic!("expected a lookup"),
    };
    let failed = m.resume_lookup(
        query,
        Err(LookupFailure {
            detail: "timed out".to_string(),
        }),
    );
    assert_eq!(rc_id_of(failed), None);
}

#[test]
fn alias_without_a_record_asks_for_its_address() {
    let m = matcher(table(
        vec![rule(1, "a.x.cn", (1, 65535)), rule(2, "b.x.cn", (1, 65535))],
        &["127.0.0.1:53"],
        &[],
    ));
    let query = match m.plan("new.x.cn", 443) {
        PlanStep::ResolveLookup(query) => query,
        _ => panic!("expected a lookup"),
    };
    let step = m.resume_lookup(
        query,
        Ok(DnsLookup {
            aliases: strings(&["a.x.cn"]),
            ips: vec![],
            source: ResolveSource::Cache,
        }),
    );
    let query = match step {
        PlanStep::ResolveAddress(query) => query,
        _ => panic!("expected an address query"),
    };
    assert_eq!(query.rc_id(), 1);
    assert_eq!(query.domain(), "a.x.cn");
    let server = parse_socket_addr("127.0.0.1:53").unwrap();
    let plan = finish_address(
        query,
        Ok(Resolved {
            ip: parse_ipv4("10.3.2.1").unwrap(),
            source: ResolveSource::Server(server),
        }),
    );
    match plan {
        RoutePlan::Remote { dial, rc_id, source, dns_lookup, .. } => {
            assert_eq!(dial, "10.3.2.1:443");
            assert_eq!(rc_id, 1);
            assert_eq!(source, RouteSource::CnameDnsServer);
            assert_eq!(dns_lookup, Some(ResolveSource::Server(server)));
        }
        _ => panic!("expected remote plan"),
    }
}

#[test]
fn domain_rule_with_a_resolved_address_goes_remote() {
    let m = matcher(table(vec![rule(7, "a.x.cn", (1, 65535))], &["127.0.0.1:53"], &[]));
    let query = match m.plan(" A.X.cn. ", 22) {
        PlanStep::ResolveAddress(query) => query,
        _ => panic!("expected an address query"),
    };
    let plan = finish_address(
        query,
        Ok(Resolved {
            ip: parse_ipv4("10.3.2.1").unwrap(),
            source: ResolveSource::Cache,
        }),
    );
    match plan {
        RoutePlan::Remote { dial, rc_name, source, .. } => {
            assert_eq!(dial, "10.3.2.1:22");
            assert_eq!(rc_name, "resource 7");
            assert_eq!(source, RouteSource::DnsServer);
        }
        _ => panic!("expected remote plan"),
    }
    let query = match m.plan("a.x.cn", 22) {
        PlanStep::ResolveAddress(query) => query,
        _ => panic!("expected an address query"),
    };
    let plan = finish_address(
        query,
        Err(LookupFailure {
            detail: "timed out".to_string(),
        }),
    );
    match plan {
        RoutePlan::Fallback { target, reason } => {
            assert_eq!(target, "a.x.cn:22");
            assert_eq!(
                reason,
                "hostname matched a route rule but dns.data entry is missing and DNS lookup failed: dnsserver lookup failed: timed out"
            );
        }
        _ => panic!("expected fallback plan"),
    }
}

#[test]
fn domain_rule_without_record_or_server_falls_back() {
    let m = matcher(table(vec![rule(7, "a.x.cn", (1, 65535))], &[], &[]));
    match done(m.plan("a.x.cn", 22)) {
        RoutePlan::Fallback { target, reason } => {
            assert_eq!(target, "a.x.cn:22");
            assert_eq!(
                reason,
                "hostname matched a route rule but dns.data entry is missing and DNS servers are unavailable"
            );
        }
        _ => panic!("expected fallback plan"),
    }
}

#[test]
fn rules_match_in_table_order() {
    let m = matcher(table(
        vec![
            rule(1, "10.0.0.5", (80, 80)),
            rule(2, "9.255.255.255~11.0.0.0", (1, 100)),
            rule(3, "10.0.0.5", (1, 65535)),
            rule(4, "0.0.0.0~255.255.255.255", (1, 65535)),
        ],
        &[],
        &[],
    ));
    assert_eq!(rc_id_of(m.plan("10.0.0.5", 80)), Some(1));
    assert_eq!(rc_id_of(m.plan("10.0.0.5", 81)), Some(2));
    assert_eq!(rc_id_of(m.plan("10.0.0.5", 101)), Some(3));
    assert_eq!(rc_id_of(m.plan("11.0.0.0", 100)), Some(2));
    assert_eq!(rc_id_of(m.plan("11.0.0.1", 100)), Some(4));
    assert_eq!(rc_id_of(m.plan("255.255.255.255", 9)), Some(4));
}

#[test]
fn domain_rules_match_in_table_order() {
    let m = matcher(table(
        vec![rule(1, "A.b", (80, 80)), rule(2, "a.b", (1, 65535)), rule(3, "a.b", (1, 65535))],
        &[],
        &[(1, "a.b", "1.1.1.1"), (2, "a.b", "2.2.2.2")],
    ));
    assert_eq!(rc_id_of(m.plan("a.b", 80)), Some(1));
    assert_eq!(rc_id_of(m.plan("a.b", 81)), Some(2));
}

#[test]
fn rules_without_a_host_are_dropped() {
    let m = matcher(table(
        vec![
            rule(1, "", (1, 2)),
            rule(2, " . ", (1, 2)),
            rule(3, "10.0.0.1~oops", (1, 2)),
            rule(4, "10.0.0.1~10.0.0.2~10.0.0.3", (1, 2)),
            rule(5, "256.0.0.1", (1, 2)),
        ],
        &[],
        &[],
    ));
    // The last one is no address, so it is a name.
    assert_eq!(m.rules().len(), 1);
    assert_eq!(m.rules()[0].rc_id, 5);
}

#[test]
fn records_without_a_host_or_address_are_dropped() {
    let m = matcher(table(
        vec![],
        &[" ", "nonsense", "10.0.0.1:99999"],
        &[(1, " . ", "10.0.0.1"), (1, "a.b", "10.0.0"), (1, "a.b", " 10.0.0.1 ")],
    ));
    assert_eq!(m.summary().dns_record_count, 1);
    assert_eq!(m.dns_map(1, "a.b").unwrap().len(), 1);
    assert!(m.dns_map(2, "a.b").is_none());
    assert!(m.dns_exact("a.c").is_none());
    assert!(m.dns_servers().is_empty());
}

#[test]
fn install_reports_the_sizes_of_the_table() {
    let mut router = Router::new();
    let summary = install_route_table(
        &mut router,
        table(
            vec![
                rule(1, "a.x.cn", (1, 65535)),
                rule(2, "b.x.cn", (1, 65535)),
                rule(2, "b.x.cn", (1, 65535)),
            ],
            &["127.0.0.1", "127.0.0.1:53", "10.0.0.1"],
            &[(1, "a.x.cn", "10.0.0.1"), (1, "a.x.cn", "10.0.0.1")],
        ),
    )
    .unwrap();
    assert_eq!(summary.rule_count, 2);
    assert_eq!(summary.dns_server_count, 2);
    assert_eq!(summary.dns_record_count, 1);
    assert_eq!(summary.dns_scope_count, 1);
    assert!(router.matcher().is_some());
    assert_eq!(rc_id_of(plan_target(&router, "a.x.cn", 1).unwrap()), Some(1));
}

#[test]
fn planning_before_installing_fails() {
    let mut router = Router::new();
    match plan_target(&router, "a.b", 1) {
        Err(err) => assert_eq!(
            ec_core::error::concise_error(err),
            "route matcher is not initialized"
        ),
        Ok(_) => panic!("expected an error"),
    }
    install_tunnel_fallback(&mut router).unwrap();
    assert!(router.matcher().is_none());
    match done(plan_target(&router, " a.b ", 1).unwrap()) {
        RoutePlan::Remote { dial, .. } => assert_eq!(dial, " a.b :1"),
        _ => panic!("expected remote plan"),
    }
}

#[test]
fn sources_have_their_labels() {
    assert_eq!(RouteSource::RouteTableUnavailable.label(), "route-table-unavailable");
    assert_eq!(RouteSource::RuleIp.label(), "rule-ip");
    assert_eq!(RouteSource::DnsMap.label(), "dns-map");
    assert_eq!(RouteSource::DnsDataIpRule.label(), "dns-data-ip-rule");
    assert_eq!(RouteSource::DnsServer.label(), "dns-server");
    assert_eq!(RouteSource::CnameDnsMap.label(), "cname-dns-map");
    assert_eq!(RouteSource::CnameDnsServer.label(), "cname-dns-server");
    assert_eq!(RouteSource::DnsServerIpRule.label(), "dns-server-ip-rule");
}

fn tree(domains: &[&str]) -> DnsScopeTrieNode {
    let mut root = DnsScopeTrieNode {
        label: String::new(),
        children: vec![],
        terminal: false,
        synthetic: false,
    };
    for domain in domains {
        root.insert(domain);
    }
    root
}

#[test]
fn collapsing_merges_leaves_from_the_bottom_up() {
    let mut root = tree(&["a.x.edu.cn", "b.x.edu.cn", "c.y.edu.cn", "z.cn"]);
    root.collapse(0);
    assert!(!root.synthetic);
    assert_eq!(root.children.len(), 1);
    let cn = &root.children[0];
    assert_eq!(cn.label, "cn");
    assert!(!cn.synthetic && !cn.is_leaf());
    assert_eq!(cn.children.len(), 2);
    let edu = &cn.children[0];
    assert_eq!(edu.label, "edu");
    assert!(!edu.synthetic);
    assert_eq!(edu.children.len(), 2);
    let x = &edu.children[0];
    assert_eq!(x.label, "x");
    assert!(x.synthetic && x.is_leaf() && !x.terminal);
    assert!(!edu.children[1].synthetic);
    let z = &cn.children[1];
    assert!(z.terminal && z.is_leaf() && !z.synthetic);
}

#[test]
fn collapsing_again_changes_nothing() {
    for domains in [
        &["a.x.edu.cn", "b.x.edu.cn", "c.y.edu.cn", "z.cn"][..],
        &["a.cn", "b.cn"][..],
        &["a.b.c.d.e", "f.b.c.d.e", "g.c.d.e", "d.e"][..],
        &[][..],
    ] {
        let mut root = tree(domains);
        root.collapse(0);
        let once = format!("{root:?}");
        root.collapse(0);
        assert_eq!(format!("{root:?}"), once);
    }
}

#[test]
fn no_scope_lies_below_another() {
    let scopes = infer_trusted_dns_scopes(&strings(&[
        "a.b.x.cn", "c.b.x.cn", "d.x.cn", "e.y.cn", "f.y.cn",
    ]));
    assert!(scopes.contains("x.cn"));
    assert!(scopes.contains("y.cn"));
    assert!(!scopes.contains("b.x.cn"));
    assert_eq!(scopes.len(), 2);
}

#[test]
fn server_texts_read_back() {
    let servers = normalize_dns_servers(strings(&[
        " 10.0.0.2 ",
        "10.0.0.1:5353",
        "nonsense",
        "[fe80::1%3]:54",
        "10.0.0.2:53",
        "2001:db8::1",
    ]));
    let texts: Vec<String> = servers.iter().map(|server| server.to_text()).collect();
    assert_eq!(
        texts,
        [
            "10.0.0.2:53",
            "10.0.0.1:5353",
            "[fe80::1%3]:54",
            "[2001:db8::1]:53"
        ]
    );
    assert_eq!(normalize_dns_servers(texts), servers);
}

#[test]
fn alias_mark_is_made_once() {
    let marked = [
        (RouteSource::DnsMap, RouteSource::CnameDnsMap),
        (RouteSource::DnsServer, RouteSource::CnameDnsServer),
        (RouteSource::DnsServerIpRule, RouteSource::DnsServerIpRule),
        (RouteSource::DnsDataIpRule, RouteSource::DnsDataIpRule),
    ];
    for (source, expected) in marked {
        assert_eq!(cname_route_source(source), expected);
        assert_eq!(cname_route_source(expected), expected);
    }
}
