use smartproxy::config::DNSServerConfig;
use smartproxy::dns::{DNSResolver, ResolveStep};
use smartproxy::ip::{parse_ip_str, IpAddress};

fn server(host: &str) -> DNSServerConfig {
    DNSServerConfig { host: host.to_string(), port: 53, name: String::new() }
}

fn resolver(hosts: &[&str]) -> DNSResolver {
    let servers: Vec<DNSServerConfig> = hosts.iter().map(|h| server(h)).collect();
    DNSResolver::new(servers, 3000).expect("hosts are IP literals")
}

#[test]
fn ipv4_literals_parse() {
    assert_eq!(parse_ip_str("192.0.2.1"), Some(IpAddress::V4(192, 0, 2, 1)));
    assert_eq!(parse_ip_str("0.0.0.0"), Some(IpAddress::V4(0, 0, 0, 0)));
    assert_eq!(parse_ip_str("255.255.255.255"), Some(IpAddress::V4(255, 255, 255, 255)));
}

#[test]
fn ipv4_rejects_bad_text() {
    assert_eq!(parse_ip_str("256.1.1.1"), None);
    assert_eq!(parse_ip_str("01.2.3.4"), None);
    assert_eq!(parse_ip_str("1.2.3"), None);
    assert_eq!(parse_ip_str("1.2.3.4.5"), None);
    assert_eq!(parse_ip_str("1.2.3."), None);
    assert_eq!(parse_ip_str(""), None);
    assert_eq!(parse_ip_str("example.com"), None);
}

#[test]
fn ipv6_literals_parse() {
    assert_eq!(
        parse_ip_str("2001:db8:0:0:0:0:0:1"),
        Some(IpAddress::V6(0x2001, 0xdb8, 0, 0, 0, 0, 0, 1))
    );
    assert_eq!(parse_ip_str("::1"), Some(IpAddress::V6(0, 0, 0, 0, 0, 0, 0, 1)));
    assert_eq!(parse_ip_str("::"), Some(IpAddress::V6(0, 0, 0, 0, 0, 0, 0, 0)));
    assert_eq!(parse_ip_str("fe80::1"), Some(IpAddress::V6(0xfe80, 0, 0, 0, 0, 0, 0, 1)));
    assert_eq!(parse_ip_str("1:2:3:4:5:6:7::"), Some(IpAddress::V6(1, 2, 3, 4, 5, 6, 7, 0)));
    assert_eq!(
        parse_ip_str("::ffff:192.0.2.1"),
        Some(IpAddress::V6(0, 0, 0, 0, 0, 0xffff, 0xc000, 0x0201))
    );
}

#[test]
fn ipv6_rejects_bad_text() {
    assert_eq!(parse_ip_str("1:2:3:4:5:6:7:8:9"), None);
    assert_eq!(parse_ip_str("1:::2"), None);
    assert_eq!(parse_ip_str("1::2::3"), None);
    assert_eq!(parse_ip_str("12345::"), None);
    assert_eq!(parse_ip_str(":"), None);
    assert_eq!(parse_ip_str("1:"), None);
    assert_eq!(parse_ip_str("g::1"), None);
}

#[test]
fn is_ip_address_on_literal() {
    let r = resolver(&["8.8.8.8"]);
    assert!(r.is_ip_address("192.0.2.1"));
    assert!(r.is_ip_address("::1"));
    assert!(!r.is_ip_address("example.com"));
}

#[test]
fn private_ranges() {
    let r = resolver(&["8.8.8.8"]);
    assert!(r.is_private_ip("10.0.0.1"));
    assert!(r.is_private_ip("172.16.0.1"));
    assert!(r.is_private_ip("172.31.255.255"));
    assert!(!r.is_private_ip("172.32.0.1"));
    assert!(r.is_private_ip("192.168.1.1"));
    assert!(r.is_private_ip("169.254.0.5"));
    assert!(r.is_private_ip("127.0.0.1"));
    assert!(!r.is_private_ip("8.8.8.8"));
    assert!(r.is_private_ip("::1"));
    assert!(r.is_private_ip("fe80::1"));
    assert!(r.is_private_ip("fd00::1"));
    assert!(!r.is_private_ip("2001:db8::1"));
    assert!(!r.is_private_ip("example.com"));
}

#[test]
fn resolve_literal_answers_immediately() {
    let r = resolver(&["8.8.8.8"]);
    match r.resolve_start("192.0.2.1", 1000) {
        ResolveStep::Done { ip, elapsed_ms } => {
            assert_eq!(ip, Some(IpAddress::V4(192, 0, 2, 1)));
            assert_eq!(elapsed_ms, 0);
        }
        _ => panic!("a literal must resolve at once"),
    }
}

#[test]
fn resolve_plans_queries_in_server_order() {
    let mut r = resolver(&["8.8.8.8", "9.9.9.9"]);
    match r.resolve_start("example.com", 0) {
        ResolveStep::Query { server_index } => assert_eq!(server_index, 0),
        _ => panic!("an uncached domain must be queried"),
    }
    // the first server failed: try the second
    match r.resolve_next("example.com", 0, None, 10) {
        ResolveStep::Query { server_index } => assert_eq!(server_index, 1),
        _ => panic!("the second server must be tried"),
    }
    // the second failed too: give up, charged the full timeout
    match r.resolve_next("example.com", 1, None, 20) {
        ResolveStep::Done { ip, elapsed_ms } => {
            assert_eq!(ip, None);
            assert_eq!(elapsed_ms, 3000);
        }
        _ => panic!("resolution must end after the last server"),
    }
}

#[test]
fn resolve_caches_answers_until_ttl() {
    let mut r = resolver(&["8.8.8.8"]);
    match r.resolve_start("example.com", 0) {
        ResolveStep::Query { server_index } => assert_eq!(server_index, 0),
        _ => panic!("an uncached domain must be queried"),
    }
    let answer = IpAddress::V4(93, 184, 216, 34);
    match r.resolve_next("example.com", 0, Some((answer, 42)), 1000) {
        ResolveStep::Done { ip, elapsed_ms } => {
            assert_eq!(ip, Some(answer));
            assert_eq!(elapsed_ms, 42);
        }
        _ => panic!("an answer ends resolution"),
    }
    // fresh: served from cache with no elapsed time
    match r.resolve_start("example.com", 1000 + 299_999) {
        ResolveStep::Done { ip, elapsed_ms } => {
            assert_eq!(ip, Some(answer));
            assert_eq!(elapsed_ms, 0);
        }
        _ => panic!("a fresh cache entry must answer"),
    }
    // stale: queried again
    match r.resolve_start("example.com", 1000 + 300_000) {
        ResolveStep::Query { server_index } => assert_eq!(server_index, 0),
        _ => panic!("a stale cache entry must not answer"),
    }
}

#[test]
fn resolver_rejects_non_literal_server_host() {
    let servers = vec![server("8.8.8.8"), server("dns.example.com")];
    match DNSResolver::new(servers, 3000) {
        Err(e) => assert_eq!(e.host, "dns.example.com"),
        Ok(_) => panic!("a non-literal server host must be refused"),
    }
}

#[test]
fn resolve_with_no_servers_fails_with_timeout() {
    let r = resolver(&[]);
    match r.resolve_start("example.com", 0) {
        ResolveStep::Done { ip, elapsed_ms } => {
            assert_eq!(ip, None);
            assert_eq!(elapsed_ms, 3000);
        }
        _ => panic!("no server means immediate failure"),
    }
}
