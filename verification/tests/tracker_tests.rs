use smartproxy::runway::RunwayState;
use smartproxy::tracker::TargetAccessibilityTracker;

const T: &str = "example.com";
const R: &str = "direct_eth0_8.8.8.8_0";

fn tracker() -> TargetAccessibilityTracker {
    TargetAccessibilityTracker::new(10, 500)
}

#[test]
fn state_transitions_to_inaccessible_and_recovers() {
    let mut tr = tracker();
    tr.update(T, R, true, true, 100, 1);
    for step in 0..4u64 {
        tr.update(T, R, false, false, 100, 2 + step);
    }
    let m = tr.get_metrics(T, R).expect("the pair has a record");
    assert!(matches!(m.state, RunwayState::Inaccessible));
    assert_eq!(m.consecutive_failures, 4);
    tr.update(T, R, true, true, 100, 10);
    let m = tr.get_metrics(T, R).expect("the pair has a record");
    assert!(matches!(m.state, RunwayState::Accessible));
    assert_eq!(m.recovery_count, 1);
    assert_eq!(m.consecutive_failures, 0);
}

#[test]
fn success_rate_window_drops_oldest() {
    let mut tr = TargetAccessibilityTracker::new(3, 500);
    tr.update(T, R, true, true, 0, 1);
    tr.update(T, R, true, true, 0, 2);
    tr.update(T, R, true, true, 0, 3);
    tr.update(T, R, true, false, 0, 4);
    let m = tr.get_metrics(T, R).unwrap();
    assert_eq!(m.recent_attempts, vec![true, true, false]);
    assert_eq!(m.success_rate_permille, 666);
}

#[test]
fn ewma_folds_in_new_samples() {
    let mut tr = tracker();
    tr.update(T, R, true, true, 1000, 1);
    let m = tr.get_metrics(T, R).unwrap();
    assert_eq!(m.avg_response_time_ms, 1000);
    tr.update(T, R, true, true, 2000, 2);
    let m = tr.get_metrics(T, R).unwrap();
    assert_eq!(m.avg_response_time_ms, 1300);
}

#[test]
fn window_never_exceeds_bound() {
    let mut tr = tracker();
    for step in 0..25u64 {
        tr.update(T, R, step % 2 == 0, step % 3 == 0, 10, step);
        let m = tr.get_metrics(T, R).unwrap();
        assert!(m.recent_attempts.len() <= 10);
    }
}

#[test]
fn counters_stay_consistent() {
    let mut tr = tracker();
    let outcomes = [
        (true, true),
        (true, false),
        (false, false),
        (true, true),
        (false, false),
        (true, false),
    ];
    for (step, (net, user)) in outcomes.iter().enumerate() {
        tr.update(T, R, *net, *user, 50, step as u64);
    }
    let m = tr.get_metrics(T, R).unwrap();
    assert_eq!(m.total_attempts, 6);
    assert_eq!(m.total_attempts, m.failure_count + m.network_success_count);
    assert_eq!(m.network_success_count, m.user_success_count + m.partial_success_count);
    assert_eq!(m.user_success_count, 2);
    assert_eq!(m.partial_success_count, 2);
    assert_eq!(m.failure_count, 2);
}

#[test]
fn full_success_resets_consecutive_failures() {
    let mut tr = tracker();
    tr.update(T, R, false, false, 10, 1);
    tr.update(T, R, false, false, 10, 2);
    tr.update(T, R, true, true, 10, 3);
    let m = tr.get_metrics(T, R).unwrap();
    assert_eq!(m.consecutive_failures, 0);
    assert_eq!(m.last_success_time_ms, Some(3));
}

#[test]
fn partial_success_keeps_consecutive_failures() {
    let mut tr = tracker();
    tr.update(T, R, false, false, 10, 1);
    tr.update(T, R, true, false, 10, 2);
    let m = tr.get_metrics(T, R).unwrap();
    assert_eq!(m.consecutive_failures, 1);
    assert!(matches!(m.state, RunwayState::PartiallyAccessible));
}

#[test]
fn accessible_runways_filter_by_state_and_rate() {
    let mut tr = tracker();
    // accessible pair
    tr.update(T, "rw_ok", true, true, 10, 1);
    // inaccessible pair
    for step in 0..4u64 {
        tr.update(T, "rw_bad", false, false, 10, step);
    }
    // unknown pair stays unknown: never updated, so never listed
    let ids = tr.get_accessible_runways(T);
    assert_eq!(ids, vec!["rw_ok".to_string()]);
}

#[test]
fn partially_accessible_admission_threshold() {
    let mut tr = tracker();
    // rate 2/5 = 0.4 with state PartiallyAccessible: excluded at 0.5
    tr.update(T, "rw_04", true, true, 10, 1);
    tr.update(T, "rw_04", true, true, 10, 2);
    tr.update(T, "rw_04", true, false, 10, 3);
    tr.update(T, "rw_04", true, false, 10, 4);
    tr.update(T, "rw_04", true, false, 10, 5);
    let m = tr.get_metrics(T, "rw_04").unwrap();
    assert!(matches!(m.state, RunwayState::PartiallyAccessible));
    assert_eq!(m.success_rate_permille, 400);
    assert!(tr.get_accessible_runways(T).is_empty());

    // rate 2/4 = 0.5 with state PartiallyAccessible: included at 0.5
    let mut tr2 = tracker();
    tr2.update(T, "rw_05", true, true, 10, 1);
    tr2.update(T, "rw_05", true, true, 10, 2);
    tr2.update(T, "rw_05", true, false, 10, 3);
    tr2.update(T, "rw_05", true, false, 10, 4);
    let m = tr2.get_metrics(T, "rw_05").unwrap();
    assert!(matches!(m.state, RunwayState::PartiallyAccessible));
    assert_eq!(m.success_rate_permille, 500);
    assert_eq!(tr2.get_accessible_runways(T), vec!["rw_05".to_string()]);
}

#[test]
fn repeated_update_doubles_counters() {
    let mut tr = tracker();
    tr.update(T, R, true, true, 700, 5);
    let once = tr.get_metrics(T, R).unwrap();
    let mut tr2 = tracker();
    tr2.update(T, R, true, true, 700, 5);
    tr2.update(T, R, true, true, 700, 5);
    let twice = tr2.get_metrics(T, R).unwrap();
    assert_eq!(twice.total_attempts, once.total_attempts + 1);
    assert_eq!(twice.network_success_count, once.network_success_count + 1);
    assert_eq!(twice.user_success_count, once.user_success_count + 1);
    assert_eq!(twice.recent_attempts.len(), once.recent_attempts.len() + 1);
    // the state, timestamps and reset failure counter agree with one update
    assert!(matches!(twice.state, RunwayState::Accessible));
    assert_eq!(twice.consecutive_failures, 0);
    assert_eq!(twice.last_success_time_ms, once.last_success_time_ms);
    // a recovery is not counted twice
    assert_eq!(twice.recovery_count, once.recovery_count);
}

#[test]
fn metrics_update_survives_map_storage() {
    // if the map discarded writes, nothing could ever be read back
    let mut tr = tracker();
    assert!(tr.get_metrics(T, R).is_none());
    tr.update(T, R, true, true, 10, 1);
    assert!(tr.get_metrics(T, R).is_some());
    assert_eq!(tr.get_all_targets(), vec![T.to_string()]);
    let per_target = tr.get_target_metrics(T);
    assert_eq!(per_target.len(), 1);
    assert_eq!(per_target[0].runway_id, R);
    assert_eq!(per_target[0].target, T);
}

#[test]
fn distinct_pairs_are_independent() {
    let mut tr = tracker();
    tr.update("a.example", "rw1", true, true, 10, 1);
    tr.update("b.example", "rw1", false, false, 10, 1);
    let ma = tr.get_metrics("a.example", "rw1").unwrap();
    let mb = tr.get_metrics("b.example", "rw1").unwrap();
    assert!(matches!(ma.state, RunwayState::Accessible));
    assert_eq!(mb.failure_count, 1);
    let mut targets = tr.get_all_targets();
    targets.sort();
    assert_eq!(targets, vec!["a.example".to_string(), "b.example".to_string()]);
}
