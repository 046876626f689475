use smartproxy::config::{Config, DNSServerConfig, UpstreamProxyConfig, default_dns_port};
use smartproxy::ip::IpAddress;
use smartproxy::routing::RoutingMode;
use smartproxy::runway_manager::{ConnectionPlan, InterfaceInfo, RunwayManager};

fn iface(name: &str, a: u8, b: u8, c: u8, d: u8) -> InterfaceInfo {
    InterfaceInfo { name: name.to_string(), ip: IpAddress::V4(a, b, c, d), netmask: None }
}

fn dns(host: &str) -> DNSServerConfig {
    DNSServerConfig { host: host.to_string(), port: default_dns_port(), name: String::new() }
}

fn proxy(ptype: &str, host: &str, port: u16) -> UpstreamProxyConfig {
    UpstreamProxyConfig { proxy_type: ptype.to_string(), host: host.to_string(), port }
}

#[test]
fn discovery_builds_direct_before_proxy_with_unique_ids() {
    let mut mgr = RunwayManager::new(
        vec!["eth0".to_string()],
        vec![proxy("http", "p.example", 3128)],
        vec![dns("8.8.8.8"), dns("9.9.9.9")],
    );
    mgr.refresh_interfaces(vec![iface("eth0", 192, 168, 1, 2)]);
    let runways = mgr.discover_runways();
    let ids: Vec<&str> = runways.iter().map(|r| r.id.as_str()).collect();
    assert_eq!(
        ids,
        vec![
            "direct_eth0_8.8.8.8_0",
            "direct_eth0_9.9.9.9_1",
            "proxy_eth0_http_p.example_8.8.8.8_2",
            "proxy_eth0_http_p.example_9.9.9.9_3",
        ]
    );
    assert!(runways[0].is_direct && runways[1].is_direct);
    assert!(!runways[2].is_direct && !runways[3].is_direct);
    assert_eq!(runways[0].source_ip, Some(IpAddress::V4(192, 168, 1, 2)));
    for i in 0..ids.len() {
        for j in 0..ids.len() {
            if i != j {
                assert_ne!(ids[i], ids[j]);
            }
        }
    }
    // the inventory stored the same set
    let stored = mgr.get_all_runways();
    assert_eq!(stored.len(), 4);
    assert!(mgr.get_runway("direct_eth0_8.8.8.8_0").is_some());
    assert!(mgr.get_runway("direct_eth1_8.8.8.8_0").is_none());
}

#[test]
fn discovery_skips_absent_interfaces() {
    let mut mgr = RunwayManager::new(
        vec!["eth0".to_string(), "wlan0".to_string()],
        vec![],
        vec![dns("8.8.8.8")],
    );
    mgr.refresh_interfaces(vec![iface("wlan0", 10, 0, 0, 5)]);
    let runways = mgr.discover_runways();
    assert_eq!(runways.len(), 1);
    assert_eq!(runways[0].id, "direct_wlan0_8.8.8.8_0");
}

#[test]
fn auto_selects_every_observed_interface() {
    let mut mgr = RunwayManager::new(vec!["auto".to_string()], vec![], vec![dns("8.8.8.8")]);
    mgr.refresh_interfaces(vec![iface("eth0", 1, 2, 3, 4), iface("wlan0", 5, 6, 7, 8)]);
    let runways = mgr.discover_runways();
    assert_eq!(runways.len(), 2);
    assert_eq!(runways[0].interface, "eth0");
    assert_eq!(runways[1].interface, "wlan0");
}

#[test]
fn refresh_keeps_last_address_and_drops_absent() {
    let mut mgr = RunwayManager::new(vec!["auto".to_string()], vec![], vec![dns("8.8.8.8")]);
    mgr.refresh_interfaces(vec![
        iface("eth0", 1, 1, 1, 1),
        iface("eth1", 2, 2, 2, 2),
        iface("eth0", 9, 9, 9, 9),
    ]);
    let runways = mgr.discover_runways();
    assert_eq!(runways.len(), 2);
    assert_eq!(runways[0].source_ip, Some(IpAddress::V4(9, 9, 9, 9)));
    // a later refresh without eth1 removes it
    mgr.refresh_interfaces(vec![iface("eth0", 9, 9, 9, 9)]);
    let runways = mgr.discover_runways();
    assert_eq!(runways.len(), 1);
    assert_eq!(runways[0].interface, "eth0");
}

#[test]
fn probe_plans_follow_proxy_and_interface_state() {
    let mut mgr = RunwayManager::new(
        vec!["eth0".to_string()],
        vec![proxy("http", "p.example", 3128)],
        vec![dns("8.8.8.8")],
    );
    mgr.refresh_interfaces(vec![iface("eth0", 1, 2, 3, 4)]);
    let runways = mgr.discover_runways();
    let direct = runways.iter().find(|r| r.is_direct).unwrap();
    let via = runways.iter().find(|r| !r.is_direct).unwrap();
    assert_eq!(mgr.probe_connection_plan(direct), ConnectionPlan::Direct);
    assert_eq!(mgr.probe_connection_plan(via), ConnectionPlan::ViaProxy);
    // a runway bound to a vanished interface is refused
    mgr.refresh_interfaces(vec![]);
    assert_eq!(mgr.probe_connection_plan(direct), ConnectionPlan::Refuse);
    // a runway whose proxy is marked inaccessible is refused
    let mut dead = via.clone();
    dead.upstream_proxy.as_mut().unwrap().accessible = false;
    assert_eq!(mgr.probe_connection_plan(&dead), ConnectionPlan::Refuse);
}

#[test]
fn probe_outcome_mirrors_network_result() {
    assert_eq!(smartproxy::runway_manager::probe_outcome(true, 17), (true, true, 17));
    assert_eq!(smartproxy::runway_manager::probe_outcome(false, 17), (false, false, 17));
}

#[test]
fn config_defaults() {
    let c = Config::default();
    assert_eq!(c.routing_mode.as_deref(), Some("latency"));
    assert_eq!(c.routing_mode(), RoutingMode::Latency);
    assert_eq!(c.interfaces, vec!["auto".to_string()]);
    assert_eq!(c.health_check_interval, Some(60));
    assert_eq!(c.accessibility_timeout, Some(5));
    assert_eq!(c.dns_timeout_ms, Some(3000));
    assert_eq!(c.network_timeout, Some(10));
    assert_eq!(c.success_rate_threshold_permille, Some(500));
    assert_eq!(c.success_rate_window, Some(10));
    assert_eq!(c.proxy_listen_host.as_deref(), Some("127.0.0.1"));
    assert_eq!(c.proxy_listen_port, Some(2123));
}

#[test]
fn routing_mode_names() {
    let mut c = Config::default();
    c.routing_mode = Some("round_robin".to_string());
    assert_eq!(c.routing_mode(), RoutingMode::RoundRobin);
    c.routing_mode = Some("first_accessible".to_string());
    assert_eq!(c.routing_mode(), RoutingMode::FirstAccessible);
    c.routing_mode = Some("unheard_of".to_string());
    assert_eq!(c.routing_mode(), RoutingMode::Latency);
    c.routing_mode = None;
    assert_eq!(c.routing_mode(), RoutingMode::Latency);
}
