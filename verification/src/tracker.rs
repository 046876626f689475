//! Per-(target, runway) accessibility accounting: rolling metrics, the
//! state machine driven by update events, and the tracker map that owns one
//! metric record per (target, runway) pair.

use vstd::prelude::*;
use dashmap::DashMap;
use crate::runway::RunwayState;
use crate::strutil::{str_eq, vec_contains_str};

verus! {

/// Rolling metrics for one (target, runway) pair. Durations are millisecond
/// counts; `success_rate_permille` is the success rate over
/// `recent_attempts` in thousandths, rounded down.
#[derive(Debug, Clone)]
pub struct TargetMetrics {
    pub target: String,
    pub runway_id: String,
    pub state: RunwayState,
    pub network_success_count: u64,
    pub user_success_count: u64,
    pub failure_count: u64,
    pub partial_success_count: u64,
    pub total_attempts: u64,
    pub avg_response_time_ms: u64,
    pub last_success_time_ms: Option<u64>,
    pub last_failure_time_ms: Option<u64>,
    pub consecutive_failures: u32,
    pub recovery_count: u64,
    pub success_rate_permille: u32,
    pub recent_attempts: Vec<bool>,
}

/// The mathematical shadow of `TargetMetrics`.
pub struct MetricsView {
    pub target: Seq<char>,
    pub runway_id: Seq<char>,
    pub state: RunwayState,
    pub network_success_count: int,
    pub user_success_count: int,
    pub failure_count: int,
    pub partial_success_count: int,
    pub total_attempts: int,
    pub avg_response_time_ms: int,
    pub last_success_time_ms: Option<int>,
    pub last_failure_time_ms: Option<int>,
    pub consecutive_failures: int,
    pub recovery_count: int,
    pub success_rate_permille: int,
    pub recent_attempts: Seq<bool>,
}

impl View for TargetMetrics {
    type V = MetricsView;

    open spec fn view(&self) -> MetricsView {
        MetricsView {
            target: self.target@,
            runway_id: self.runway_id@,
            state: self.state,
            network_success_count: self.network_success_count as int,
            user_success_count: self.user_success_count as int,
            failure_count: self.failure_count as int,
            partial_success_count: self.partial_success_count as int,
            total_attempts: self.total_attempts as int,
            avg_response_time_ms: self.avg_response_time_ms as int,
            last_success_time_ms: match self.last_success_time_ms {
                Some(v) => Some(v as int),
                None => None,
            },
            last_failure_time_ms: match self.last_failure_time_ms {
                Some(v) => Some(v as int),
                None => None,
            },
            consecutive_failures: self.consecutive_failures as int,
            recovery_count: self.recovery_count as int,
            success_rate_permille: self.success_rate_permille as int,
            recent_attempts: self.recent_attempts@,
        }
    }
}

/// How many entries of a window are true.
pub open spec fn count_true(s: Seq<bool>) -> int
    decreases s.len(),
{
    if s.len() == 0 {
        0
    } else {
        count_true(s.drop_last()) + if s.last() {
            1int
        } else {
            0int
        }
    }
}

/// The success rate over a window, in thousandths rounded down; 0 when the
/// window is empty.
pub open spec fn spec_rate_permille(s: Seq<bool>) -> int {
    if s.len() == 0 {
        0
    } else {
        count_true(s) * 1000 / s.len() as int
    }
}

/// Appends an outcome to the window, dropping the oldest entry once the
/// window would exceed `w` entries.
pub open spec fn push_window(s: Seq<bool>, u: bool, w: int) -> Seq<bool> {
    let s1 = s.push(u);
    if s1.len() > w {
        s1.subrange(1, s1.len() as int)
    } else {
        s1
    }
}

/// The exponentially weighted moving average with weight 0.3 on the new
/// sample, over millisecond counts (rounded down); a first sample replaces
/// the zero average outright.
pub open spec fn spec_ewma(avg: int, rt: int) -> int {
    if avg == 0 {
        rt
    } else {
        (7 * avg + 3 * rt) / 10
    }
}

/// The metrics a pair starts with: state Unknown, all counters zero, an
/// empty window.
pub open spec fn fresh_metrics_view(target: Seq<char>, runway_id: Seq<char>) -> MetricsView {
    MetricsView {
        target: target,
        runway_id: runway_id,
        state: RunwayState::Unknown,
        network_success_count: 0,
        user_success_count: 0,
        failure_count: 0,
        partial_success_count: 0,
        total_attempts: 0,
        avg_response_time_ms: 0,
        last_success_time_ms: None,
        last_failure_time_ms: None,
        consecutive_failures: 0,
        recovery_count: 0,
        success_rate_permille: 0,
        recent_attempts: Seq::empty(),
    }
}

/// One update step. Every attempt lands in exactly one of three cases: full
/// success (network and user), partial success (network only), or failure
/// (no network success). A full success out of the Inaccessible state is a
/// recovery. More than three consecutive failures make the pair
/// Inaccessible.
pub open spec fn spec_update(
    m: MetricsView,
    w: int,
    network_success: bool,
    user_success: bool,
    response_time_ms: int,
    now_ms: int,
) -> MetricsView {
    let recent = push_window(m.recent_attempts, user_success, w);
    let rate = spec_rate_permille(recent);
    if network_success && user_success {
        MetricsView {
            total_attempts: m.total_attempts + 1,
            network_success_count: m.network_success_count + 1,
            user_success_count: m.user_success_count + 1,
            consecutive_failures: 0,
            last_success_time_ms: Some(now_ms),
            recovery_count: m.recovery_count + if m.state == RunwayState::Inaccessible {
                1int
            } else {
                0int
            },
            state: RunwayState::Accessible,
            avg_response_time_ms: spec_ewma(m.avg_response_time_ms, response_time_ms),
            success_rate_permille: rate,
            recent_attempts: recent,
            ..m
        }
    } else if network_success {
        MetricsView {
            total_attempts: m.total_attempts + 1,
            network_success_count: m.network_success_count + 1,
            partial_success_count: m.partial_success_count + 1,
            state: RunwayState::PartiallyAccessible,
            success_rate_permille: rate,
            recent_attempts: recent,
            ..m
        }
    } else {
        MetricsView {
            total_attempts: m.total_attempts + 1,
            failure_count: m.failure_count + 1,
            last_failure_time_ms: Some(now_ms),
            consecutive_failures: m.consecutive_failures + 1,
            state: if m.consecutive_failures + 1 > 3 {
                RunwayState::Inaccessible
            } else {
                m.state
            },
            success_rate_permille: rate,
            recent_attempts: recent,
            ..m
        }
    }
}

/// Internal consistency of a metric record, for a window bound `w`.
pub open spec fn metrics_wf(m: MetricsView, w: int) -> bool {
    &&& m.recent_attempts.len() <= w
    &&& m.success_rate_permille == spec_rate_permille(m.recent_attempts)
    &&& m.total_attempts == m.failure_count + m.network_success_count
    &&& m.network_success_count == m.user_success_count + m.partial_success_count
    &&& m.recovery_count <= m.user_success_count
    &&& 0 <= m.user_success_count
    &&& 0 <= m.partial_success_count
    &&& 0 <= m.failure_count
    &&& 0 <= m.recovery_count
    &&& 0 <= m.consecutive_failures
    &&& 0 <= m.avg_response_time_ms
}

/// An update step can be accounted without exceeding the counter widths.
pub open spec fn has_update_room(m: MetricsView) -> bool {
    m.total_attempts < u64::MAX && m.consecutive_failures < u32::MAX
}

/// Some record in the map is filed under this target.
pub open spec fn has_target(c: Map<(Seq<char>, Seq<char>), TargetMetrics>, t: Seq<char>) -> bool {
    exists|k: (Seq<char>, Seq<char>)| #[trigger] c.contains_key(k) && k.0 == t
}

/// A metric record admits its runway into the accessible set: Accessible
/// outright, or PartiallyAccessible with a success rate at or above the
/// threshold (in thousandths).
pub open spec fn spec_admissible(m: MetricsView, threshold_permille: int) -> bool {
    m.state == RunwayState::Accessible || (m.state == RunwayState::PartiallyAccessible
        && m.success_rate_permille >= threshold_permille)
}

impl TargetMetrics {
    /// Fresh metrics for a pair: Unknown, nothing counted yet.
    pub fn new(target: String, runway_id: String) -> (r: Self)
        ensures
            r@ == fresh_metrics_view(target@, runway_id@),
    {
        let r = TargetMetrics {
            target,
            runway_id,
            state: RunwayState::Unknown,
            network_success_count: 0,
            user_success_count: 0,
            failure_count: 0,
            partial_success_count: 0,
            total_attempts: 0,
            avg_response_time_ms: 0,
            last_success_time_ms: None,
            last_failure_time_ms: None,
            consecutive_failures: 0,
            recovery_count: 0,
            success_rate_permille: 0,
            recent_attempts: Vec::new(),
        };
        assert(r@ =~= fresh_metrics_view(r.target@, r.runway_id@));
        r
    }

    /// An explicit copy whose view equals this record's view.
    pub fn duplicate(&self) -> (r: Self)
        ensures
            r@ == self@,
    {
        let r = TargetMetrics {
            target: self.target.clone(),
            runway_id: self.runway_id.clone(),
            state: self.state,
            network_success_count: self.network_success_count,
            user_success_count: self.user_success_count,
            failure_count: self.failure_count,
            partial_success_count: self.partial_success_count,
            total_attempts: self.total_attempts,
            avg_response_time_ms: self.avg_response_time_ms,
            last_success_time_ms: self.last_success_time_ms,
            last_failure_time_ms: self.last_failure_time_ms,
            consecutive_failures: self.consecutive_failures,
            recovery_count: self.recovery_count,
            success_rate_permille: self.success_rate_permille,
            recent_attempts: self.recent_attempts.clone(),
        };
        assert(r@ =~= self@);
        r
    }
}

proof fn lemma_count_true_bounds(s: Seq<bool>)
    ensures
        0 <= count_true(s) <= s.len(),
    decreases s.len(),
{
    if s.len() > 0 {
        lemma_count_true_bounds(s.drop_last());
    }
}

/// The stored success rate always lies in [0, 1000].
pub proof fn lemma_rate_permille_bounds(s: Seq<bool>)
    ensures
        0 <= spec_rate_permille(s) <= 1000,
{
    if s.len() > 0 {
        lemma_count_true_bounds(s);
        assert(count_true(s) * 1000 <= s.len() * 1000) by (nonlinear_arith)
            requires
                count_true(s) <= s.len(),
        ;
        assert(count_true(s) * 1000 / s.len() as int <= 1000) by (nonlinear_arith)
            requires
                count_true(s) * 1000 <= s.len() * 1000,
                s.len() > 0,
        ;
        assert(count_true(s) * 1000 / s.len() as int >= 0) by (nonlinear_arith)
            requires
                count_true(s) >= 0,
                s.len() > 0,
        ;
    }
}

fn ewma(avg: u64, rt: u64) -> (r: u64)
    ensures
        r as int == spec_ewma(avg as int, rt as int),
{
    if avg == 0 {
        rt
    } else {
        let wide: u128 = 7u128 * (avg as u128) + 3u128 * (rt as u128);
        let res: u128 = wide / 10u128;
        proof {
            let hi: int = if avg as int >= rt as int {
                avg as int
            } else {
                rt as int
            };
            assert(7 * (avg as int) + 3 * (rt as int) <= 10 * hi);
            assert((7 * (avg as int) + 3 * (rt as int)) / 10 <= 10 * hi / 10) by (nonlinear_arith)
                requires
                    7 * (avg as int) + 3 * (rt as int) <= 10 * hi,
            ;
            assert(10 * hi / 10 == hi) by (nonlinear_arith);
        }
        res as u64
    }
}

fn rate_permille(recent: &Vec<bool>) -> (r: u32)
    ensures
        r as int == spec_rate_permille(recent@),
{
    if recent.len() == 0 {
        return 0;
    }
    let n = recent.len();
    let mut cnt: usize = 0;
    let mut i: usize = 0;
    while i < n
        invariant
            recent@.len() == n,
            0 <= i <= n,
            cnt <= i,
            cnt == count_true(recent@.subrange(0, i as int)),
        decreases n - i,
    {
        proof {
            assert(recent@.subrange(0, i + 1).drop_last() =~= recent@.subrange(0, i as int));
            assert(recent@.subrange(0, i + 1).last() == recent@[i as int]);
        }
        if recent[i] {
            cnt = cnt + 1;
        }
        i = i + 1;
    }
    assert(recent@.subrange(0, n as int) =~= recent@);
    let wide: u128 = (cnt as u128) * 1000u128 / (n as u128);
    proof {
        lemma_rate_permille_bounds(recent@);
        assert(wide == spec_rate_permille(recent@));
    }
    wide as u32
}

/// Applies one update step to a metric record.
fn apply_update(
    m: TargetMetrics,
    window: usize,
    network_success: bool,
    user_success: bool,
    response_time_ms: u64,
    now_ms: u64,
) -> (r: TargetMetrics)
    requires
        metrics_wf(m@, window as int),
        has_update_room(m@),
    ensures
        r@ == spec_update(
            m@,
            window as int,
            network_success,
            user_success,
            response_time_ms as int,
            now_ms as int,
        ),
        r.target == m.target,
        r.runway_id == m.runway_id,
{
    let TargetMetrics {
        target,
        runway_id,
        state,
        network_success_count,
        user_success_count,
        failure_count,
        partial_success_count,
        total_attempts,
        avg_response_time_ms,
        last_success_time_ms,
        last_failure_time_ms,
        consecutive_failures,
        recovery_count,
        success_rate_permille: _,
        recent_attempts: mut recent,
    } = m;
    recent.push(user_success);
    if recent.len() > window {
        recent.remove(0);
        proof {
            assert(m@.recent_attempts.push(user_success).remove(0) =~= m@.recent_attempts.push(
                user_success,
            ).subrange(1, m@.recent_attempts.push(user_success).len() as int));
        }
    }
    assert(recent@ == push_window(m@.recent_attempts, user_success, window as int));
    let rate = rate_permille(&recent);
    let r = if network_success && user_success {
        let new_recovery: u64 = if matches!(state, RunwayState::Inaccessible) {
            recovery_count + 1
        } else {
            recovery_count
        };
        TargetMetrics {
            target,
            runway_id,
            state: RunwayState::Accessible,
            network_success_count: network_success_count + 1,
            user_success_count: user_success_count + 1,
            failure_count,
            partial_success_count,
            total_attempts: total_attempts + 1,
            avg_response_time_ms: ewma(avg_response_time_ms, response_time_ms),
            last_success_time_ms: Some(now_ms),
            last_failure_time_ms,
            consecutive_failures: 0,
            recovery_count: new_recovery,
            success_rate_permille: rate,
            recent_attempts: recent,
        }
    } else if network_success {
        TargetMetrics {
            target,
            runway_id,
            state: RunwayState::PartiallyAccessible,
            network_success_count: network_success_count + 1,
            user_success_count,
            failure_count,
            partial_success_count: partial_success_count + 1,
            total_attempts: total_attempts + 1,
            avg_response_time_ms,
            last_success_time_ms,
            last_failure_time_ms,
            consecutive_failures,
            recovery_count,
            success_rate_permille: rate,
            recent_attempts: recent,
        }
    } else {
        let new_cf: u32 = consecutive_failures + 1;
        TargetMetrics {
            target,
            runway_id,
            state: if new_cf > 3 {
                RunwayState::Inaccessible
            } else {
                state
            },
            network_success_count,
            user_success_count,
            failure_count: failure_count + 1,
            partial_success_count,
            total_attempts: total_attempts + 1,
            avg_response_time_ms,
            last_success_time_ms,
            last_failure_time_ms: Some(now_ms),
            consecutive_failures: new_cf,
            recovery_count,
            success_rate_permille: rate,
            recent_attempts: recent,
        }
    };
    assert(r@ =~= spec_update(
        m@,
        window as int,
        network_success,
        user_success,
        response_time_ms as int,
        now_ms as int,
    ));
    r
}

/// Declares `dashmap::DashMap` so metric records can live in it.
#[verifier::external_type_specification]
#[verifier::external_body]
#[verifier::reject_recursive_types(K)]
#[verifier::reject_recursive_types(V)]
#[verifier::reject_recursive_types(S)]
pub struct ExDashMap<K, V, S>(DashMap<K, V, S>);

/// What the tracker's map holds: a metric record per (target, runway) pair.
pub uninterp spec fn dash_contents(m: DashMap<(String, String), TargetMetrics>) -> Map<
    (Seq<char>, Seq<char>),
    TargetMetrics,
>;

/// Relies on `DashMap::new`: a fresh map holds nothing.
#[verifier::external_body]
fn dash_new() -> (r: DashMap<(String, String), TargetMetrics>)
    ensures
        forall|k: (Seq<char>, Seq<char>)| !dash_contents(r).contains_key(k),
{
    DashMap::new()
}

/// Relies on `DashMap::insert`: it maps the key to the new value and leaves
/// every other key alone.
#[verifier::external_body]
fn dash_insert(
    m: &mut DashMap<(String, String), TargetMetrics>,
    target: String,
    runway_id: String,
    v: TargetMetrics,
)
    ensures
        dash_contents(*final(m)) == dash_contents(*old(m)).insert((target@, runway_id@), v),
{
    m.insert((target, runway_id), v);
}

/// Relies on `DashMap::get`: it returns the value mapped to the key, if any.
#[verifier::external_body]
fn dash_get(m: &DashMap<(String, String), TargetMetrics>, target: &str, runway_id: &str) -> (r:
    Option<TargetMetrics>)
    ensures
        r matches Some(v) ==> dash_contents(*m).contains_key((target@, runway_id@)) && v
            == dash_contents(*m)[(target@, runway_id@)],
        r is None ==> !dash_contents(*m).contains_key((target@, runway_id@)),
{
    m.get(&(target.to_owned(), runway_id.to_owned())).map(|e| e.value().clone())
}

/// Relies on `DashMap::iter`: it yields each entry exactly once, in no
/// promised order.
#[verifier::external_body]
fn dash_entries(m: &DashMap<(String, String), TargetMetrics>) -> (r: Vec<
    ((String, String), TargetMetrics),
>)
    ensures
        forall|i: int|
            0 <= i < r@.len() ==> dash_contents(*m).contains_key(
                ((#[trigger] r@[i]).0.0@, r@[i].0.1@),
            ) && dash_contents(*m)[(r@[i].0.0@, r@[i].0.1@)] == r@[i].1,
        forall|k: (Seq<char>, Seq<char>)|
            #[trigger] dash_contents(*m).contains_key(k) ==> exists|i: int|
                0 <= i < r@.len() && ((#[trigger] r@[i]).0.0@, r@[i].0.1@) == k,
        forall|i: int, j: int|
            0 <= i < r@.len() && 0 <= j < r@.len() && i != j ==> ((#[trigger] r@[i]).0.0@,
            r@[i].0.1@) != ((#[trigger] r@[j]).0.0@, r@[j].0.1@),
{
    m.iter().map(|e| (e.key().clone(), e.value().clone())).collect()
}

/// The tracker: one metric record per (target, runway) pair, created lazily
/// on first update, plus the success-rate window length and the admission
/// threshold.
pub struct TargetAccessibilityTracker {
    metrics: DashMap<(String, String), TargetMetrics>,
    success_rate_window: usize,
    success_rate_threshold_permille: u32,
}

impl TargetAccessibilityTracker {
    /// The records the tracker currently holds.
    pub closed spec fn spec_contents(self) -> Map<(Seq<char>, Seq<char>), TargetMetrics> {
        dash_contents(self.metrics)
    }

    /// The configured window length.
    pub closed spec fn spec_window(self) -> int {
        self.success_rate_window as int
    }

    /// The configured admission threshold, in thousandths.
    pub closed spec fn spec_threshold(self) -> int {
        self.success_rate_threshold_permille as int
    }

    /// Every record is internally consistent and filed under its own
    /// (target, runway) pair.
    pub closed spec fn wf(self) -> bool {
        forall|k: (Seq<char>, Seq<char>)|
            #[trigger] dash_contents(self.metrics).contains_key(k) ==> {
                let m = dash_contents(self.metrics)[k]@;
                m.target == k.0 && m.runway_id == k.1 && metrics_wf(m, self.spec_window())
            }
    }

    pub fn new(success_rate_window: usize, success_rate_threshold_permille: u32) -> (r: Self)
        ensures
            r.wf(),
            r.spec_window() == success_rate_window as int,
            r.spec_threshold() == success_rate_threshold_permille as int,
            r.spec_contents() == Map::<(Seq<char>, Seq<char>), TargetMetrics>::empty(),
    {
        let metrics = dash_new();
        proof {
            assert(dash_contents(metrics).dom() =~= Set::<(Seq<char>, Seq<char>)>::empty());
            assert(dash_contents(metrics) =~= Map::<(Seq<char>, Seq<char>), TargetMetrics>::empty());
        }
        TargetAccessibilityTracker {
            metrics,
            success_rate_window,
            success_rate_threshold_permille,
        }
    }

    /// Records one attempt for the pair. The pair's record (fresh when the
    /// pair is new) advances by exactly one `spec_update` step; every other
    /// record stays as it is. A record whose counters have hit their width
    /// is left unchanged.
    pub fn update(
        &mut self,
        target: &str,
        runway_id: &str,
        network_success: bool,
        user_success: bool,
        response_time_ms: u64,
        now_ms: u64,
    )
        requires
            old(self).wf(),
        ensures
            final(self).wf(),
            final(self).spec_window() == old(self).spec_window(),
            final(self).spec_threshold() == old(self).spec_threshold(),
            ({
                let key = (target@, runway_id@);
                let c0 = old(self).spec_contents();
                let c1 = final(self).spec_contents();
                let prior: MetricsView = if c0.contains_key(key) {
                    c0[key]@
                } else {
                    fresh_metrics_view(target@, runway_id@)
                };
                if has_update_room(prior) {
                    c1.contains_key(key) && c1[key]@ == spec_update(
                        prior,
                        old(self).spec_window(),
                        network_success,
                        user_success,
                        response_time_ms as int,
                        now_ms as int,
                    ) && (forall|k2: (Seq<char>, Seq<char>)|
                        k2 != key ==> (#[trigger] c1.contains_key(k2)) == c0.contains_key(k2)) && (
                    forall|k2: (Seq<char>, Seq<char>)|
                        k2 != key && #[trigger] c0.contains_key(k2) ==> c1[k2] == c0[k2])
                } else {
                    c1 == c0
                }
            }),
    {
        let found = dash_get(&self.metrics, target, runway_id);
        let m = match found {
            Some(m) => m,
            None => TargetMetrics::new(target.to_owned(), runway_id.to_owned()),
        };
        if !(m.total_attempts < u64::MAX && m.consecutive_failures < u32::MAX) {
            return ;
        }
        proof {
            lemma_update_preserves_wf(
                m@,
                self.spec_window(),
                network_success,
                user_success,
                response_time_ms as int,
                now_ms as int,
            );
        }
        let m2 = apply_update(
            m,
            self.success_rate_window,
            network_success,
            user_success,
            response_time_ms,
            now_ms,
        );
        dash_insert(&mut self.metrics, target.to_owned(), runway_id.to_owned(), m2);
    }

    /// The ids of the runways currently admitted for the target: Accessible
    /// ones, and PartiallyAccessible ones at or above the threshold, each
    /// listed once, in no promised order.
    pub fn get_accessible_runways(&self, target: &str) -> (r: Vec<String>)
        requires
            self.wf(),
        ensures
            forall|i: int|
                0 <= i < r@.len() ==> self.spec_contents().contains_key(
                    (target@, (#[trigger] r@[i])@),
                ) && spec_admissible(
                    self.spec_contents()[(target@, r@[i]@)]@,
                    self.spec_threshold(),
                ),
            forall|k: (Seq<char>, Seq<char>)|
                #[trigger] self.spec_contents().contains_key(k) && k.0 == target@
                    && spec_admissible(self.spec_contents()[k]@, self.spec_threshold())
                    ==> exists|i: int| 0 <= i < r@.len() && (#[trigger] r@[i])@ == k.1,
            forall|i: int, j: int|
                0 <= i < r@.len() && 0 <= j < r@.len() && i != j ==> (#[trigger] r@[i])@ != (
                #[trigger] r@[j])@,
    {
        let entries = dash_entries(&self.metrics);
        let ghost c = self.spec_contents();
        let mut r: Vec<String> = Vec::new();
        let ghost mut srcs: Seq<int> = Seq::empty();
        let mut i: usize = 0;
        while i < entries.len()
            invariant
                c == dash_contents(self.metrics),
                self.wf(),
                0 <= i <= entries@.len(),
                forall|j: int|
                    0 <= j < entries@.len() ==> c.contains_key(
                        ((#[trigger] entries@[j]).0.0@, entries@[j].0.1@),
                    ) && c[(entries@[j].0.0@, entries@[j].0.1@)] == entries@[j].1,
                forall|k: (Seq<char>, Seq<char>)|
                    #[trigger] c.contains_key(k) ==> exists|j: int|
                        0 <= j < entries@.len() && ((#[trigger] entries@[j]).0.0@,
                        entries@[j].0.1@) == k,
                forall|j1: int, j2: int|
                    0 <= j1 < entries@.len() && 0 <= j2 < entries@.len() && j1 != j2 ==> ((
                    #[trigger] entries@[j1]).0.0@, entries@[j1].0.1@) != ((
                    #[trigger] entries@[j2]).0.0@, entries@[j2].0.1@),
                srcs.len() == r@.len(),
                forall|x: int|
                    0 <= x < srcs.len() ==> 0 <= #[trigger] srcs[x] < i
                        && entries@[srcs[x]].0.0@ == target@ && entries@[srcs[x]].0.1@ == r@[x]@,
                forall|x1: int, x2: int|
                    0 <= x1 < x2 < srcs.len() ==> #[trigger] srcs[x1] < #[trigger] srcs[x2],
                forall|x: int|
                    0 <= x < r@.len() ==> c.contains_key((target@, (#[trigger] r@[x])@))
                        && spec_admissible(
                        c[(target@, r@[x]@)]@,
                        self.spec_threshold(),
                    ),
                forall|j: int|
                    0 <= j < i && (#[trigger] entries@[j]).0.0@ == target@ && spec_admissible(
                        entries@[j].1@,
                        self.spec_threshold(),
                    ) ==> exists|x: int| 0 <= x < r@.len() && (#[trigger] r@[x])@ == entries@[j].0.1@,
            decreases entries@.len() - i,
        {
            let ghost r_old = r@;
            let ghost ii = i as int;
            let same_target = str_eq(entries[i].0.0.as_str(), target);
            if same_target && is_admissible(&entries[i].1, self.success_rate_threshold_permille) {
                r.push(entries[i].0.1.clone());
                proof {
                    srcs = srcs.push(ii);
                    assert(r@ == r_old.push(entries@[ii].0.1));
                }
            }
            i = i + 1;
            proof {
                assert forall|j: int|
                    0 <= j < i && (#[trigger] entries@[j]).0.0@ == target@ && spec_admissible(
                        entries@[j].1@,
                        self.spec_threshold(),
                    ) implies exists|x: int|
                    0 <= x < r@.len() && (#[trigger] r@[x])@ == entries@[j].0.1@ by {
                    if j < ii {
                        let x = choose|x: int|
                            0 <= x < r_old.len() && (#[trigger] r_old[x])@ == entries@[j].0.1@;
                        assert(0 <= x < r@.len() && r@[x]@ == entries@[j].0.1@);
                    } else {
                        assert(r@.len() > r_old.len() && r@[r@.len() - 1]@ == entries@[ii].0.1@);
                    }
                }
            }
        }
        proof {
            assert forall|k: (Seq<char>, Seq<char>)|
                #[trigger] c.contains_key(k) && k.0 == target@ && spec_admissible(
                    c[k]@,
                    self.spec_threshold(),
                ) implies exists|x: int| 0 <= x < r@.len() && (#[trigger] r@[x])@ == k.1 by {
                let j = choose|j: int|
                    0 <= j < entries@.len() && ((#[trigger] entries@[j]).0.0@, entries@[j].0.1@)
                        == k;
                assert(entries@[j].1 == c[k]);
                assert(exists|x: int|
                    0 <= x < r@.len() && (#[trigger] r@[x])@ == entries@[j].0.1@);
            }
            assert forall|x1: int, x2: int|
                0 <= x1 < r@.len() && 0 <= x2 < r@.len() && x1 != x2 implies (#[trigger] r@[x1])@
                != (#[trigger] r@[x2])@ by {
                let lo = if x1 < x2 {
                    x1
                } else {
                    x2
                };
                let hi = if x1 < x2 {
                    x2
                } else {
                    x1
                };
                assert(srcs[lo] < srcs[hi]);
                assert(((entries@[srcs[lo]]).0.0@, entries@[srcs[lo]].0.1@) != ((
                entries@[srcs[hi]]).0.0@, entries@[srcs[hi]].0.1@));
            }
        }
        r
    }

    /// Every target that has at least one record, each listed once, in no
    /// promised order.
    pub fn get_all_targets(&self) -> (r: Vec<String>)
        ensures
            forall|x: int|
                0 <= x < r@.len() ==> has_target(self.spec_contents(), (#[trigger] r@[x])@),
            forall|k: (Seq<char>, Seq<char>)|
                #[trigger] self.spec_contents().contains_key(k) ==> exists|x: int|
                    0 <= x < r@.len() && (#[trigger] r@[x])@ == k.0,
            forall|x1: int, x2: int|
                0 <= x1 < r@.len() && 0 <= x2 < r@.len() && x1 != x2 ==> (#[trigger] r@[x1])@ != (
                #[trigger] r@[x2])@,
    {
        let entries = dash_entries(&self.metrics);
        let ghost c = self.spec_contents();
        let mut r: Vec<String> = Vec::new();
        let ghost mut srcs: Seq<int> = Seq::empty();
        let mut i: usize = 0;
        while i < entries.len()
            invariant
                c == dash_contents(self.metrics),
                0 <= i <= entries@.len(),
                forall|j: int|
                    0 <= j < entries@.len() ==> c.contains_key(
                        ((#[trigger] entries@[j]).0.0@, entries@[j].0.1@),
                    ),
                forall|k: (Seq<char>, Seq<char>)|
                    #[trigger] c.contains_key(k) ==> exists|j: int|
                        0 <= j < entries@.len() && ((#[trigger] entries@[j]).0.0@,
                        entries@[j].0.1@) == k,
                srcs.len() == r@.len(),
                forall|x: int|
                    0 <= x < srcs.len() ==> 0 <= #[trigger] srcs[x] < i
                        && entries@[srcs[x]].0.0@ == r@[x]@,
                forall|j: int|
                    0 <= j < i ==> exists|x: int|
                        0 <= x < r@.len() && (#[trigger] r@[x])@ == (#[trigger] entries@[j]).0.0@,
                forall|x1: int, x2: int|
                    0 <= x1 < r@.len() && 0 <= x2 < r@.len() && x1 != x2 ==> (#[trigger] r@[x1])@
                        != (#[trigger] r@[x2])@,
            decreases entries@.len() - i,
        {
            let ghost r_old = r@;
            let ghost ii = i as int;
            let seen = vec_contains_str(&r, entries[i].0.0.as_str());
            if !seen {
                r.push(entries[i].0.0.clone());
                proof {
                    srcs = srcs.push(ii);
                    assert(r@ == r_old.push(entries@[ii].0.0));
                }
            }
            i = i + 1;
            proof {
                assert forall|j: int| 0 <= j < i implies exists|x: int|
                    0 <= x < r@.len() && (#[trigger] r@[x])@ == (#[trigger] entries@[j]).0.0@ by {
                    if j < ii {
                        let x = choose|x: int|
                            0 <= x < r_old.len() && (#[trigger] r_old[x])@ == entries@[j].0.0@;
                        assert(0 <= x < r@.len() && r@[x]@ == entries@[j].0.0@);
                    } else {
                        if seen {
                            let x = choose|x: int|
                                0 <= x < r_old.len() && (#[trigger] r_old[x])@
                                    == entries@[ii].0.0@;
                            assert(0 <= x < r@.len() && r@[x]@ == entries@[j].0.0@);
                        } else {
                            assert(r@[r@.len() - 1]@ == entries@[ii].0.0@);
                        }
                    }
                }
            }
        }
        proof {
            assert forall|x: int| 0 <= x < r@.len() implies has_target(
                self.spec_contents(),
                (#[trigger] r@[x])@,
            ) by {
                let j = srcs[x];
                assert(self.spec_contents().contains_key(((entries@[j]).0.0@, entries@[j].0.1@)));
            }
            assert forall|k: (Seq<char>, Seq<char>)|
                #[trigger] self.spec_contents().contains_key(k) implies exists|x: int|
                0 <= x < r@.len() && (#[trigger] r@[x])@ == k.0 by {
                let j = choose|j: int|
                    0 <= j < entries@.len() && ((#[trigger] entries@[j]).0.0@, entries@[j].0.1@)
                        == k;
                assert(exists|x: int|
                    0 <= x < r@.len() && (#[trigger] r@[x])@ == entries@[j].0.0@);
            }
        }
        r
    }

    /// A snapshot of every record filed for the target, each runway once, in
    /// no promised order.
    pub fn get_target_metrics(&self, target: &str) -> (r: Vec<TargetMetrics>)
        requires
            self.wf(),
        ensures
            forall|x: int|
                0 <= x < r@.len() ==> self.spec_contents().contains_key(
                    (target@, (#[trigger] r@[x])@.runway_id),
                ) && r@[x]@ == self.spec_contents()[(target@, r@[x]@.runway_id)]@,
            forall|k: (Seq<char>, Seq<char>)|
                #[trigger] self.spec_contents().contains_key(k) && k.0 == target@ ==> exists|x: int|
                    0 <= x < r@.len() && (#[trigger] r@[x])@.runway_id == k.1,
            forall|x1: int, x2: int|
                0 <= x1 < r@.len() && 0 <= x2 < r@.len() && x1 != x2 ==> (#[trigger] r@[x1])@.runway_id
                    != (#[trigger] r@[x2])@.runway_id,
    {
        let entries = dash_entries(&self.metrics);
        let ghost c = self.spec_contents();
        let mut r: Vec<TargetMetrics> = Vec::new();
        let ghost mut srcs: Seq<int> = Seq::empty();
        let mut i: usize = 0;
        while i < entries.len()
            invariant
                c == dash_contents(self.metrics),
                self.wf(),
                0 <= i <= entries@.len(),
                forall|j: int|
                    0 <= j < entries@.len() ==> c.contains_key(
                        ((#[trigger] entries@[j]).0.0@, entries@[j].0.1@),
                    ) && c[(entries@[j].0.0@, entries@[j].0.1@)] == entries@[j].1,
                forall|k: (Seq<char>, Seq<char>)|
                    #[trigger] c.contains_key(k) ==> exists|j: int|
                        0 <= j < entries@.len() && ((#[trigger] entries@[j]).0.0@,
                        entries@[j].0.1@) == k,
                forall|j1: int, j2: int|
                    0 <= j1 < entries@.len() && 0 <= j2 < entries@.len() && j1 != j2 ==> ((
                    #[trigger] entries@[j1]).0.0@, entries@[j1].0.1@) != ((
                    #[trigger] entries@[j2]).0.0@, entries@[j2].0.1@),
                srcs.len() == r@.len(),
                forall|x: int|
                    0 <= x < srcs.len() ==> 0 <= #[trigger] srcs[x] < i
                        && entries@[srcs[x]].0.0@ == target@ && r@[x]@ == entries@[srcs[x]].1@,
                forall|x1: int, x2: int|
                    0 <= x1 < x2 < srcs.len() ==> #[trigger] srcs[x1] < #[trigger] srcs[x2],
                forall|j: int|
                    0 <= j < i && (#[trigger] entries@[j]).0.0@ == target@ ==> exists|x: int|
                        0 <= x < r@.len() && (#[trigger] r@[x])@.runway_id == entries@[j].0.1@,
            decreases entries@.len() - i,
        {
            let ghost r_old = r@;
            let ghost ii = i as int;
            let same_target = str_eq(entries[i].0.0.as_str(), target);
            if same_target {
                r.push(entries[i].1.duplicate());
                proof {
                    srcs = srcs.push(ii);
                }
            }
            i = i + 1;
            proof {
                assert forall|j: int|
                    0 <= j < i && (#[trigger] entries@[j]).0.0@ == target@ implies exists|x: int|
                    0 <= x < r@.len() && (#[trigger] r@[x])@.runway_id == entries@[j].0.1@ by {
                    if j < ii {
                        let x = choose|x: int|
                            0 <= x < r_old.len() && (#[trigger] r_old[x])@.runway_id
                                == entries@[j].0.1@;
                        assert(0 <= x < r@.len() && r@[x]@.runway_id == entries@[j].0.1@);
                    } else {
                        assert(r@[r@.len() - 1]@.runway_id == entries@[ii].1@.runway_id);
                        assert(entries@[ii].1@.runway_id == entries@[ii].0.1@);
                    }
                }
            }
        }
        proof {
            assert forall|x: int| 0 <= x < r@.len() implies self.spec_contents().contains_key(
                (target@, (#[trigger] r@[x])@.runway_id),
            ) && r@[x]@ == self.spec_contents()[(target@, r@[x]@.runway_id)]@ by {
                let j = srcs[x];
                assert(c.contains_key(((entries@[j]).0.0@, entries@[j].0.1@)));
                assert(r@[x]@.runway_id == entries@[j].0.1@);
            }
            assert forall|k: (Seq<char>, Seq<char>)|
                #[trigger] c.contains_key(k) && k.0 == target@ implies exists|x: int|
                0 <= x < r@.len() && (#[trigger] r@[x])@.runway_id == k.1 by {
                let j = choose|j: int|
                    0 <= j < entries@.len() && ((#[trigger] entries@[j]).0.0@, entries@[j].0.1@)
                        == k;
                assert(exists|x: int|
                    0 <= x < r@.len() && (#[trigger] r@[x])@.runway_id == entries@[j].0.1@);
            }
            assert forall|x1: int, x2: int|
                0 <= x1 < r@.len() && 0 <= x2 < r@.len() && x1 != x2 implies (
            #[trigger] r@[x1])@.runway_id != (#[trigger] r@[x2])@.runway_id by {
                let lo = if x1 < x2 {
                    x1
                } else {
                    x2
                };
                let hi = if x1 < x2 {
                    x2
                } else {
                    x1
                };
                assert(srcs[lo] < srcs[hi]);
                assert(((entries@[srcs[lo]]).0.0@, entries@[srcs[lo]].0.1@) != ((
                entries@[srcs[hi]]).0.0@, entries@[srcs[hi]].0.1@));
            }
        }
        r
    }

    /// The record for a pair, if the pair has ever been updated.
    pub fn get_metrics(&self, target: &str, runway_id: &str) -> (r: Option<TargetMetrics>)
        ensures
            r matches Some(v) ==> self.spec_contents().contains_key((target@, runway_id@)) && v
                == self.spec_contents()[(target@, runway_id@)],
            r is None ==> !self.spec_contents().contains_key((target@, runway_id@)),
    {
        dash_get(&self.metrics, target, runway_id)
    }
}

fn is_admissible(m: &TargetMetrics, threshold_permille: u32) -> (r: bool)
    ensures
        r == spec_admissible(m@, threshold_permille as int),
{
    match m.state {
        RunwayState::Accessible => true,
        RunwayState::PartiallyAccessible => m.success_rate_permille >= threshold_permille,
        _ => false,
    }
}

/// Internal consistency is preserved by every update step: in particular
/// the window never exceeds its bound and the counters keep satisfying
/// `total_attempts == failure_count + network_success_count` and
/// `network_success_count == user_success_count + partial_success_count`.
pub proof fn lemma_update_preserves_wf(
    m: MetricsView,
    w: int,
    network_success: bool,
    user_success: bool,
    response_time_ms: int,
    now_ms: int,
)
    requires
        metrics_wf(m, w),
        0 <= response_time_ms,
    ensures
        metrics_wf(spec_update(m, w, network_success, user_success, response_time_ms, now_ms), w),
{
    let r = spec_update(m, w, network_success, user_success, response_time_ms, now_ms);
    assert(r.recent_attempts == push_window(m.recent_attempts, user_success, w));
    assert(r.recent_attempts.len() <= w);
    assert(r.success_rate_permille == spec_rate_permille(r.recent_attempts));
}

/// One update event: the outcomes observed and the clock readings handed in.
pub struct UpdateEvent {
    pub network_success: bool,
    pub user_success: bool,
    pub response_time_ms: int,
    pub now_ms: int,
}

/// A whole sequence of update steps, applied oldest first.
pub open spec fn spec_update_all(m: MetricsView, w: int, events: Seq<UpdateEvent>) -> MetricsView
    decreases events.len(),
{
    if events.len() == 0 {
        m
    } else {
        spec_update_all(
            spec_update(
                m,
                w,
                events[0].network_success,
                events[0].user_success,
                events[0].response_time_ms,
                events[0].now_ms,
            ),
            w,
            events.drop_first(),
        )
    }
}

/// However many updates are applied, the recent-attempts window never
/// exceeds its configured bound.
pub proof fn lemma_window_never_exceeds(m: MetricsView, w: int, events: Seq<UpdateEvent>)
    requires
        m.recent_attempts.len() <= w,
    ensures
        spec_update_all(m, w, events).recent_attempts.len() <= w,
    decreases events.len(),
{
    if events.len() > 0 {
        let m1 = spec_update(
            m,
            w,
            events[0].network_success,
            events[0].user_success,
            events[0].response_time_ms,
            events[0].now_ms,
        );
        assert(m1.recent_attempts.len() <= w);
        lemma_window_never_exceeds(m1, w, events.drop_first());
    }
}

/// An update that carries a user success alongside its network success
/// leaves no consecutive failures behind.
pub proof fn lemma_user_success_resets_failures(
    m: MetricsView,
    w: int,
    network_success: bool,
    response_time_ms: int,
    now_ms: int,
)
    requires
        network_success,
    ensures
        spec_update(m, w, network_success, true, response_time_ms, now_ms).consecutive_failures
            == 0,
{
}

proof fn lemma_failures_accumulate(m: MetricsView, w: int, events: Seq<UpdateEvent>)
    requires
        events.len() >= 1,
        forall|i: int| 0 <= i < events.len() ==> !(#[trigger] events[i]).network_success,
    ensures
        spec_update_all(m, w, events).consecutive_failures == m.consecutive_failures
            + events.len(),
        m.consecutive_failures + events.len() > 3 ==> spec_update_all(m, w, events).state
            == RunwayState::Inaccessible,
    decreases events.len(),
{
    assert(!events[0].network_success);
    let m1 = spec_update(
        m,
        w,
        events[0].network_success,
        events[0].user_success,
        events[0].response_time_ms,
        events[0].now_ms,
    );
    assert(m1.consecutive_failures == m.consecutive_failures + 1);
    assert(spec_update_all(m, w, events) == spec_update_all(m1, w, events.drop_first()));
    if events.len() > 1 {
        assert(forall|i: int|
            0 <= i < events.drop_first().len() ==> !(#[trigger] events.drop_first()[i]).network_success);
        lemma_failures_accumulate(m1, w, events.drop_first());
    } else {
        assert(events.drop_first().len() == 0);
        assert(spec_update_all(m1, w, events.drop_first()) == m1);
    }
}

/// More than three consecutive updates without network success leave the
/// pair Inaccessible, with the consecutive-failure counter grown by the run
/// length.
pub proof fn lemma_consecutive_failures_inaccessible(
    m: MetricsView,
    w: int,
    events: Seq<UpdateEvent>,
)
    requires
        0 <= m.consecutive_failures,
        events.len() > 3,
        forall|i: int| 0 <= i < events.len() ==> !(#[trigger] events[i]).network_success,
    ensures
        spec_update_all(m, w, events).state == RunwayState::Inaccessible,
        spec_update_all(m, w, events).consecutive_failures == m.consecutive_failures
            + events.len(),
{
    lemma_failures_accumulate(m, w, events);
}

/// A full success is a recovery exactly when the pair was Inaccessible: the
/// recovery counter then grows by one (and only then), and the pair becomes
/// Accessible.
pub proof fn lemma_recovery(m: MetricsView, w: int, response_time_ms: int, now_ms: int)
    ensures
        spec_update(m, w, true, true, response_time_ms, now_ms).state == RunwayState::Accessible,
        spec_update(m, w, true, true, response_time_ms, now_ms).recovery_count == m.recovery_count
            + if m.state == RunwayState::Inaccessible {
            1int
        } else {
            0int
        },
{
}

/// An admissible record is never Unknown, Testing or Inaccessible; hence
/// `get_accessible_runways` never lists a runway in one of those states.
pub proof fn lemma_admissible_states(m: MetricsView, threshold_permille: int)
    requires
        spec_admissible(m, threshold_permille),
    ensures
        m.state != RunwayState::Unknown,
        m.state != RunwayState::Testing,
        m.state != RunwayState::Inaccessible,
{
}

/// Applying one event twice, against applying it once: the touched counters
/// grow by two instead of one, the window receives the outcome twice, and
/// the timestamps agree. The state agrees too, except that the doubled
/// failure can cross the consecutive-failure limit where the single one did
/// not; the response-time average folds the sample in twice rather than
/// once; and a recovery is counted on the first of the two successes alone.
pub proof fn lemma_update_twice(
    m: MetricsView,
    w: int,
    network_success: bool,
    user_success: bool,
    response_time_ms: int,
    now_ms: int,
)
    ensures
        ({
            let once = spec_update(m, w, network_success, user_success, response_time_ms, now_ms);
            let twice = spec_update(
                once,
                w,
                network_success,
                user_success,
                response_time_ms,
                now_ms,
            );
            &&& twice.total_attempts == m.total_attempts + 2
            &&& twice.recent_attempts == push_window(
                push_window(m.recent_attempts, user_success, w),
                user_success,
                w,
            )
            &&& twice.last_success_time_ms == once.last_success_time_ms
            &&& twice.last_failure_time_ms == once.last_failure_time_ms
            &&& (network_success && user_success ==> {
                &&& twice.network_success_count == m.network_success_count + 2
                &&& twice.user_success_count == m.user_success_count + 2
                &&& twice.consecutive_failures == 0
                &&& twice.state == once.state && once.state == RunwayState::Accessible
                &&& twice.recovery_count == once.recovery_count
                &&& twice.avg_response_time_ms == spec_ewma(
                    once.avg_response_time_ms,
                    response_time_ms,
                )
            })
            &&& (network_success && !user_success ==> {
                &&& twice.network_success_count == m.network_success_count + 2
                &&& twice.partial_success_count == m.partial_success_count + 2
                &&& twice.consecutive_failures == m.consecutive_failures
                &&& twice.state == once.state && once.state == RunwayState::PartiallyAccessible
                &&& twice.recovery_count == m.recovery_count
                &&& twice.avg_response_time_ms == m.avg_response_time_ms
            })
            &&& (!network_success ==> {
                &&& twice.failure_count == m.failure_count + 2
                &&& twice.consecutive_failures == m.consecutive_failures + 2
                &&& twice.state == if m.consecutive_failures + 2 > 3 {
                    RunwayState::Inaccessible
                } else {
                    m.state
                }
                &&& twice.recovery_count == m.recovery_count
                &&& twice.avg_response_time_ms == m.avg_response_time_ms
            })
        }),
{
}

} // verus!
