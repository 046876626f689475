use smartproxy::config::DNSServerConfig;
use smartproxy::health::plan_health_checks;
use smartproxy::ip::IpAddress;
use smartproxy::proxy::{
    get_alternative_runway, next_attempt, plan_request, prioritize_runways, should_forward_header,
    split_host_port, ForwardDecision, RequestPlan,
};
use smartproxy::runway::{Runway, RunwayState};
use smartproxy::runway_manager::{InterfaceInfo, RunwayManager};
use smartproxy::tracker::TargetAccessibilityTracker;

const T: &str = "example.com";

#[test]
fn forwarded_responses_are_classified() {
    let v = smartproxy::SuccessValidator::new();
    // the validator's verdict applies to every 2xx/3xx response
    assert_eq!(smartproxy::proxy::classify_response(&v, 301, b"moved"), (true, true));
    assert_eq!(smartproxy::proxy::classify_response(&v, 302, b"forbidden"), (true, false));
    assert_eq!(smartproxy::proxy::classify_response(&v, 200, b"ok"), (true, true));
    assert_eq!(smartproxy::proxy::classify_response(&v, 200, b"blocked"), (true, false));
    assert_eq!(smartproxy::proxy::classify_response(&v, 200, b""), (true, false));
    assert_eq!(smartproxy::proxy::classify_response(&v, 502, b"ok"), (false, false));
}

#[test]
fn connect_is_rejected_with_501() {
    assert_eq!(plan_request(true), RequestPlan::RejectConnect { status: 501 });
    assert_eq!(plan_request(false), RequestPlan::Forward);
}

#[test]
fn host_port_splitting() {
    assert_eq!(split_host_port("example.com:8080", 443), ("example.com".to_string(), 8080));
    assert_eq!(split_host_port("example.com", 443), ("example.com".to_string(), 443));
    assert_eq!(split_host_port("example.com:", 443), ("example.com".to_string(), 443));
    assert_eq!(split_host_port("example.com:abc", 443), ("example.com".to_string(), 443));
    assert_eq!(split_host_port("example.com:99999", 443), ("example.com".to_string(), 443));
    assert_eq!(split_host_port("example.com:443", 80), ("example.com".to_string(), 443));
}

#[test]
fn hop_by_hop_headers_are_stripped() {
    assert!(!should_forward_header("host"));
    assert!(!should_forward_header("connection"));
    assert!(!should_forward_header("proxy-connection"));
    assert!(should_forward_header("content-type"));
    assert!(should_forward_header("accept"));
}

#[test]
fn probes_run_direct_first() {
    let direct = |id: &str| Runway::new(id.to_string(), "eth0".to_string(), None, None, None);
    let mut proxied = Runway::new("p1".to_string(), "eth0".to_string(), None, None, None);
    proxied.is_direct = false;
    let runways = vec![proxied.clone(), direct("d1"), direct("d2")];
    let ordered = prioritize_runways(&runways);
    let ids: Vec<&str> = ordered.iter().map(|r| r.id.as_str()).collect();
    assert_eq!(ids, vec!["d1", "d2", "p1"]);
}

#[test]
fn failover_retries_through_alternate_runway() {
    // two accessible runways in inventory and tracker; R1's forward fails
    let mut mgr = RunwayManager::new(
        vec!["eth0".to_string()],
        vec![],
        vec![
            DNSServerConfig { host: "8.8.8.8".to_string(), port: 53, name: String::new() },
            DNSServerConfig { host: "9.9.9.9".to_string(), port: 53, name: String::new() },
        ],
    );
    mgr.refresh_interfaces(vec![InterfaceInfo {
        name: "eth0".to_string(),
        ip: IpAddress::V4(10, 0, 0, 2),
        netmask: None,
    }]);
    let runways = mgr.discover_runways();
    let r1 = runways[0].id.clone();
    let r2 = runways[1].id.clone();
    let mut tr = TargetAccessibilityTracker::new(10, 500);
    tr.update(T, &r1, true, true, 10, 1);
    tr.update(T, &r2, true, true, 10, 1);
    let alt = get_alternative_runway(&tr, &mgr, T, &r1);
    let alt = alt.expect("another accessible runway is known");
    assert_eq!(alt.id, r2);
    match next_attempt(0, false, Some(alt)) {
        ForwardDecision::Retry(rw) => assert_eq!(rw.id, r2),
        _ => panic!("the first failed attempt must retry"),
    }
    // the second attempt does not retry again
    assert!(matches!(next_attempt(1, false, None), ForwardDecision::Fail));
    assert!(matches!(next_attempt(1, true, None), ForwardDecision::Respond));
}

#[test]
fn no_alternate_without_other_accessible_runway() {
    let mgr = RunwayManager::new(vec![], vec![], vec![]);
    let mut tr = TargetAccessibilityTracker::new(10, 500);
    tr.update(T, "only", true, true, 10, 1);
    assert!(get_alternative_runway(&tr, &mgr, T, "only").is_none());
}

#[test]
fn health_plan_caps_probes_per_target() {
    let mut tr = TargetAccessibilityTracker::new(10, 500);
    // seven inaccessible runways and four partially accessible ones
    for r in 0..7 {
        let id = format!("bad_{}", r);
        for step in 0..4u64 {
            tr.update(T, &id, false, false, 10, step);
        }
    }
    for r in 0..4 {
        let id = format!("partial_{}", r);
        tr.update(T, &id, true, false, 10, 1);
    }
    let plan = plan_health_checks(&tr);
    let inaccessible = plan.iter().filter(|p| p.runway_id.starts_with("bad_")).count();
    let partial = plan.iter().filter(|p| p.runway_id.starts_with("partial_")).count();
    assert_eq!(inaccessible, 5);
    assert_eq!(partial, 3);
    assert_eq!(plan.len(), 8);
    for p in &plan {
        assert_eq!(p.target, T);
        let m = tr.get_metrics(&p.target, &p.runway_id).unwrap();
        assert!(matches!(
            m.state,
            RunwayState::Inaccessible | RunwayState::PartiallyAccessible
        ));
    }
}

#[test]
fn health_plan_skips_healthy_pairs() {
    let mut tr = TargetAccessibilityTracker::new(10, 500);
    tr.update(T, "good", true, true, 10, 1);
    assert!(plan_health_checks(&tr).is_empty());
}
