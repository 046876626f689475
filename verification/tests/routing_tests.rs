use smartproxy::routing::{RoutingEngine, RoutingMode};
use smartproxy::runway::Runway;
use smartproxy::tracker::TargetAccessibilityTracker;

const T: &str = "example.com";

fn runway(id: &str) -> Runway {
    Runway::new(id.to_string(), "eth0".to_string(), None, None, None)
}

fn accessible(tr: &mut TargetAccessibilityTracker, id: &str, rt_ms: u64) {
    tr.update(T, id, true, true, rt_ms, 1);
}

#[test]
fn selection_needs_candidates() {
    let mut engine = RoutingEngine::new(RoutingMode::Latency);
    let tr = TargetAccessibilityTracker::new(10, 500);
    let runways = vec![runway("a")];
    assert!(engine.select_runway(T, &runways, &tr).is_none());
}

#[test]
fn selection_intersects_tracker_and_inventory() {
    let mut engine = RoutingEngine::new(RoutingMode::FirstAccessible);
    let mut tr = TargetAccessibilityTracker::new(10, 500);
    accessible(&mut tr, "known_elsewhere", 100);
    // the accessible id is not among the offered runways
    let runways = vec![runway("a")];
    assert!(engine.select_runway(T, &runways, &tr).is_none());
}

#[test]
fn first_accessible_takes_input_order() {
    let mut engine = RoutingEngine::new(RoutingMode::FirstAccessible);
    let mut tr = TargetAccessibilityTracker::new(10, 500);
    accessible(&mut tr, "a", 300);
    accessible(&mut tr, "b", 100);
    let runways = vec![runway("b"), runway("a")];
    let sel = engine.select_runway(T, &runways, &tr).unwrap();
    assert_eq!(sel.id, "b");
}

#[test]
fn latency_picks_minimum_positive_average() {
    let mut engine = RoutingEngine::new(RoutingMode::Latency);
    let mut tr = TargetAccessibilityTracker::new(10, 500);
    accessible(&mut tr, "a", 200);
    accessible(&mut tr, "b", 100);
    accessible(&mut tr, "c", 0);
    let runways = vec![runway("a"), runway("b"), runway("c")];
    let sel = engine.select_runway(T, &runways, &tr).unwrap();
    assert_eq!(sel.id, "b");
}

#[test]
fn latency_falls_back_to_first_candidate() {
    let mut engine = RoutingEngine::new(RoutingMode::Latency);
    let mut tr = TargetAccessibilityTracker::new(10, 500);
    accessible(&mut tr, "a", 0);
    accessible(&mut tr, "b", 0);
    let runways = vec![runway("a"), runway("b")];
    let sel = engine.select_runway(T, &runways, &tr).unwrap();
    assert_eq!(sel.id, "a");
}

#[test]
fn round_robin_cycles_with_period_of_candidate_count() {
    let mut engine = RoutingEngine::new(RoutingMode::RoundRobin);
    let mut tr = TargetAccessibilityTracker::new(10, 500);
    accessible(&mut tr, "a", 1);
    accessible(&mut tr, "b", 1);
    accessible(&mut tr, "c", 1);
    let runways = vec![runway("a"), runway("b"), runway("c")];
    let mut picks: Vec<String> = Vec::new();
    for _ in 0..7 {
        picks.push(engine.select_runway(T, &runways, &tr).unwrap().id);
    }
    assert_eq!(picks, vec!["a", "b", "c", "a", "b", "c", "a"]);
    // each candidate is selected either floor(7/3) or ceil(7/3) times
    for id in ["a", "b", "c"] {
        let n = picks.iter().filter(|p| p.as_str() == id).count();
        assert!(n == 2 || n == 3);
    }
    // the cursor ended at 7 mod 3 = 1: the eighth call picks "b"
    assert_eq!(engine.select_runway(T, &runways, &tr).unwrap().id, "b");
}

#[test]
fn round_robin_cursors_are_per_target() {
    let mut engine = RoutingEngine::new(RoutingMode::RoundRobin);
    let mut tr = TargetAccessibilityTracker::new(10, 500);
    accessible(&mut tr, "a", 1);
    accessible(&mut tr, "b", 1);
    tr.update("other.example", "a", true, true, 1, 1);
    tr.update("other.example", "b", true, true, 1, 1);
    let runways = vec![runway("a"), runway("b")];
    assert_eq!(engine.select_runway(T, &runways, &tr).unwrap().id, "a");
    assert_eq!(engine.select_runway(T, &runways, &tr).unwrap().id, "b");
    // the other target starts at its own cursor
    assert_eq!(engine.select_runway("other.example", &runways, &tr).unwrap().id, "a");
}

#[test]
fn mode_change_governs_later_selections() {
    let mut engine = RoutingEngine::new(RoutingMode::FirstAccessible);
    assert_eq!(engine.mode(), RoutingMode::FirstAccessible);
    let mut tr = TargetAccessibilityTracker::new(10, 500);
    accessible(&mut tr, "slow", 900);
    accessible(&mut tr, "fast", 10);
    let runways = vec![runway("slow"), runway("fast")];
    assert_eq!(engine.select_runway(T, &runways, &tr).unwrap().id, "slow");
    engine.set_mode(RoutingMode::Latency);
    assert_eq!(engine.mode(), RoutingMode::Latency);
    assert_eq!(engine.select_runway(T, &runways, &tr).unwrap().id, "fast");
}
