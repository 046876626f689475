//! The health monitor's planning: which (target, runway) pairs a cycle
//! re-probes. The periodic loop, its sleeps and the probes themselves run
//! outside; they feed every probe result back into the tracker.

use vstd::prelude::*;
use crate::runway::RunwayState;
use crate::tracker::{has_target, TargetAccessibilityTracker, TargetMetrics};

verus! {

/// How many targets one cycle examines at most.
pub const MAX_TARGETS_PER_CYCLE: usize = 10;

/// How many Inaccessible runways one cycle re-probes per target at most.
pub const MAX_INACCESSIBLE_PROBES: usize = 5;

/// How many PartiallyAccessible runways one cycle re-probes per target at
/// most.
pub const MAX_PARTIAL_PROBES: usize = 3;

/// The probe timeout a health cycle uses, in milliseconds.
pub const HEALTH_PROBE_TIMEOUT_MS: u64 = 5000;

/// One probe a health cycle plans.
#[derive(Debug, Clone)]
pub struct HealthProbe {
    pub target: String,
    pub runway_id: String,
}

/// One target's slice of a cycle plan, split at `s`: positions before `s`
/// name the target's Inaccessible runways, the rest its PartiallyAccessible
/// ones; each part within its cap, no runway named twice, and each part
/// exhaustive whenever it stays under its cap.
pub open spec fn spec_target_plan_split(
    c: Map<(Seq<char>, Seq<char>), TargetMetrics>,
    t: Seq<char>,
    probes: Seq<HealthProbe>,
    s: int,
) -> bool {
    &&& 0 <= s <= probes.len()
    &&& s <= MAX_INACCESSIBLE_PROBES
    &&& probes.len() - s <= MAX_PARTIAL_PROBES
    &&& (forall|x: int|
        0 <= x < probes.len() ==> (#[trigger] probes[x]).target@ == t && c.contains_key(
            (t, probes[x].runway_id@),
        ))
    &&& (forall|x: int|
        0 <= x < s ==> c[(t, (#[trigger] probes[x]).runway_id@)]@.state
            == RunwayState::Inaccessible)
    &&& (forall|x: int|
        s <= x < probes.len() ==> c[(t, (#[trigger] probes[x]).runway_id@)]@.state
            == RunwayState::PartiallyAccessible)
    &&& (forall|x1: int, x2: int|
        0 <= x1 < probes.len() && 0 <= x2 < probes.len() && x1 != x2 ==> (
        #[trigger] probes[x1]).runway_id@ != (#[trigger] probes[x2]).runway_id@)
    &&& (s < MAX_INACCESSIBLE_PROBES ==> forall|k: (Seq<char>, Seq<char>)|
        #[trigger] c.contains_key(k) && k.0 == t && c[k]@.state == RunwayState::Inaccessible
            ==> exists|x: int| 0 <= x < s && (#[trigger] probes[x]).runway_id@ == k.1)
    &&& (probes.len() - s < MAX_PARTIAL_PROBES ==> forall|k: (Seq<char>, Seq<char>)|
        #[trigger] c.contains_key(k) && k.0 == t && c[k]@.state
            == RunwayState::PartiallyAccessible ==> exists|x: int|
            s <= x < probes.len() && (#[trigger] probes[x]).runway_id@ == k.1)
}

/// One target's slice of a cycle plan: exactly min(5, its Inaccessible
/// records) Inaccessible probes followed by exactly min(3, its
/// PartiallyAccessible records) Partial probes.
pub open spec fn spec_target_plan(
    c: Map<(Seq<char>, Seq<char>), TargetMetrics>,
    t: Seq<char>,
    probes: Seq<HealthProbe>,
) -> bool {
    exists|s: int| #[trigger] spec_target_plan_split(c, t, probes, s)
}

/// A whole cycle's plan: the examined targets' slices, in their order.
pub open spec fn spec_cycle_plan(
    c: Map<(Seq<char>, Seq<char>), TargetMetrics>,
    ts: Seq<Seq<char>>,
    probes: Seq<HealthProbe>,
) -> bool
    decreases ts.len(),
{
    if ts.len() == 0 {
        probes.len() == 0
    } else {
        exists|n: int|
            0 <= n <= probes.len() && spec_target_plan(c, ts[0], #[trigger] probes.subrange(0, n))
                && spec_cycle_plan(c, ts.drop_first(), probes.subrange(n, probes.len() as int))
    }
}

proof fn lemma_cycle_plan_append(
    c: Map<(Seq<char>, Seq<char>), TargetMetrics>,
    ts: Seq<Seq<char>>,
    probes: Seq<HealthProbe>,
    t: Seq<char>,
    seg: Seq<HealthProbe>,
)
    requires
        spec_cycle_plan(c, ts, probes),
        spec_target_plan(c, t, seg),
    ensures
        spec_cycle_plan(c, ts.push(t), probes + seg),
    decreases ts.len(),
{
    let whole = probes + seg;
    if ts.len() == 0 {
        assert(probes.len() == 0);
        assert(ts.push(t)[0] == t);
        assert(ts.push(t).drop_first() =~= Seq::<Seq<char>>::empty());
        let n = seg.len() as int;
        assert(whole.subrange(0, n) =~= seg);
        assert(whole.subrange(n, whole.len() as int) =~= Seq::<HealthProbe>::empty());
        assert(spec_target_plan(c, ts.push(t)[0], whole.subrange(0, n)));
        assert(spec_cycle_plan(
            c,
            ts.push(t).drop_first(),
            whole.subrange(n, whole.len() as int),
        ));
    } else {
        let n0 = choose|n: int|
            0 <= n <= probes.len() && spec_target_plan(c, ts[0], #[trigger] probes.subrange(0, n))
                && spec_cycle_plan(c, ts.drop_first(), probes.subrange(n, probes.len() as int));
        lemma_cycle_plan_append(
            c,
            ts.drop_first(),
            probes.subrange(n0, probes.len() as int),
            t,
            seg,
        );
        assert(ts.push(t)[0] == ts[0]);
        assert(ts.push(t).drop_first() =~= ts.drop_first().push(t));
        assert(whole.subrange(0, n0) =~= probes.subrange(0, n0));
        assert(whole.subrange(n0, whole.len() as int) =~= probes.subrange(
            n0,
            probes.len() as int,
        ) + seg);
        assert(spec_target_plan(c, ts.push(t)[0], whole.subrange(0, n0)));
        assert(spec_cycle_plan(
            c,
            ts.push(t).drop_first(),
            whole.subrange(n0, whole.len() as int),
        ));
    }
}

/// Plans one health cycle. Some sequence of examined targets witnesses the
/// plan: at most ten targets, each one listed in the tracker, no target
/// twice, and — whenever fewer than ten are examined — every target of the
/// tracker among them. The plan is the examined targets' slices in order:
/// per target, exactly min(5, its Inaccessible records) Inaccessible probes
/// followed by exactly min(3, its PartiallyAccessible records) Partial
/// probes, no runway twice. Which records fill a capped slice follows the
/// tracker's unpromised traversal order.
pub fn plan_health_checks(tracker: &TargetAccessibilityTracker) -> (r: Vec<HealthProbe>)
    requires
        tracker.wf(),
    ensures
        r@.len() <= MAX_TARGETS_PER_CYCLE * (MAX_INACCESSIBLE_PROBES + MAX_PARTIAL_PROBES),
        forall|x: int|
            0 <= x < r@.len() ==> {
                let k = ((#[trigger] r@[x]).target@, r@[x].runway_id@);
                tracker.spec_contents().contains_key(k) && (tracker.spec_contents()[k]@.state
                    == RunwayState::Inaccessible || tracker.spec_contents()[k]@.state
                    == RunwayState::PartiallyAccessible)
            },
        exists|ts: Seq<Seq<char>>|
            {
                &&& ts.len() <= MAX_TARGETS_PER_CYCLE
                &&& (forall|i: int, j: int|
                    0 <= i < ts.len() && 0 <= j < ts.len() && i != j ==> #[trigger] ts[i]
                        != #[trigger] ts[j])
                &&& (forall|i: int|
                    0 <= i < ts.len() ==> has_target(tracker.spec_contents(), #[trigger] ts[i]))
                &&& (ts.len() < MAX_TARGETS_PER_CYCLE ==> forall|k: (Seq<char>, Seq<char>)|
                    #[trigger] tracker.spec_contents().contains_key(k) ==> exists|i: int|
                        0 <= i < ts.len() && #[trigger] ts[i] == k.0)
                &&& #[trigger] spec_cycle_plan(tracker.spec_contents(), ts, r@)
            },
{
    let ghost c = tracker.spec_contents();
    let targets = tracker.get_all_targets();
    let mut n_targets = targets.len();
    if n_targets > MAX_TARGETS_PER_CYCLE {
        n_targets = MAX_TARGETS_PER_CYCLE;
    }
    let mut r: Vec<HealthProbe> = Vec::new();
    let ghost mut ts: Seq<Seq<char>> = Seq::empty();
    let mut t: usize = 0;
    while t < n_targets
        invariant
            tracker.wf(),
            c == tracker.spec_contents(),
            n_targets <= targets@.len(),
            n_targets <= MAX_TARGETS_PER_CYCLE,
            n_targets == targets@.len() || n_targets == MAX_TARGETS_PER_CYCLE,
            forall|i: int|
                0 <= i < targets@.len() ==> has_target(c, (#[trigger] targets@[i])@),
            forall|k: (Seq<char>, Seq<char>)|
                #[trigger] c.contains_key(k) ==> exists|i: int|
                    0 <= i < targets@.len() && (#[trigger] targets@[i])@ == k.0,
            forall|i: int, j: int|
                0 <= i < targets@.len() && 0 <= j < targets@.len() && i != j ==> (
                #[trigger] targets@[i])@ != (#[trigger] targets@[j])@,
            0 <= t <= n_targets,
            ts.len() == t,
            forall|i: int| 0 <= i < t ==> #[trigger] ts[i] == targets@[i]@,
            spec_cycle_plan(c, ts, r@),
            r@.len() <= t * (MAX_INACCESSIBLE_PROBES + MAX_PARTIAL_PROBES),
            forall|x: int|
                0 <= x < r@.len() ==> {
                    let k = ((#[trigger] r@[x]).target@, r@[x].runway_id@);
                    c.contains_key(k) && (c[k]@.state == RunwayState::Inaccessible || c[k]@.state
                        == RunwayState::PartiallyAccessible)
                },
        decreases n_targets - t,
    {
        let ghost r_before = r@;
        let ghost len0 = r@.len() as int;
        let target = &targets[t];
        let ghost tv = target@;
        plan_one_target(tracker, &mut r, target);
        proof {
            let seg = r@.subrange(len0, r@.len() as int);
            assert(r@ =~= r_before + seg);
            lemma_cycle_plan_append(c, ts, r_before, tv, seg);
            ts = ts.push(tv);
            let s = choose|s: int| #[trigger] spec_target_plan_split(c, tv, seg, s);
            assert forall|x: int|
                0 <= x < r@.len() implies {
                let k = ((#[trigger] r@[x]).target@, r@[x].runway_id@);
                c.contains_key(k) && (c[k]@.state == RunwayState::Inaccessible || c[k]@.state
                    == RunwayState::PartiallyAccessible)
            } by {
                if x >= len0 {
                    assert(seg[x - len0] == r@[x]);
                } else {
                    assert(r_before[x] == r@[x]);
                }
            }
            assert(r@.len() <= len0 + (MAX_INACCESSIBLE_PROBES + MAX_PARTIAL_PROBES));
            assert(len0 + (MAX_INACCESSIBLE_PROBES + MAX_PARTIAL_PROBES) <= (t + 1) * (
            MAX_INACCESSIBLE_PROBES + MAX_PARTIAL_PROBES)) by (nonlinear_arith)
                requires
                    len0 <= t * ((MAX_INACCESSIBLE_PROBES + MAX_PARTIAL_PROBES) as int),
                    t >= 0,
            ;
        }
        t = t + 1;
    }
    proof {
        assert forall|i: int| 0 <= i < ts.len() implies has_target(c, #[trigger] ts[i]) by {
            assert(ts[i] == targets@[i]@);
        }
        assert forall|i: int, j: int|
            0 <= i < ts.len() && 0 <= j < ts.len() && i != j implies #[trigger] ts[i]
            != #[trigger] ts[j] by {
            assert(ts[i] == targets@[i]@ && ts[j] == targets@[j]@);
        }
        if ts.len() < MAX_TARGETS_PER_CYCLE {
            assert(n_targets == targets@.len());
            assert forall|k: (Seq<char>, Seq<char>)|
                #[trigger] c.contains_key(k) implies exists|i: int|
                0 <= i < ts.len() && #[trigger] ts[i] == k.0 by {
                let x = choose|x: int|
                    0 <= x < targets@.len() && (#[trigger] targets@[x])@ == k.0;
                assert(ts[x] == k.0);
            }
        }
        assert(spec_cycle_plan(tracker.spec_contents(), ts, r@));
    }
    r
}

/// Appends one target's slice: its Inaccessible runways up to five, then its
/// PartiallyAccessible ones up to three, each part exhaustive while under
/// its cap.
fn plan_one_target(tracker: &TargetAccessibilityTracker, r: &mut Vec<HealthProbe>, target: &String)
    requires
        tracker.wf(),
    ensures
        final(r)@.len() >= old(r)@.len(),
        final(r)@.subrange(0, old(r)@.len() as int) == old(r)@,
        final(r)@.len() - old(r)@.len() <= MAX_INACCESSIBLE_PROBES + MAX_PARTIAL_PROBES,
        spec_target_plan(
            tracker.spec_contents(),
            target@,
            final(r)@.subrange(old(r)@.len() as int, final(r)@.len() as int),
        ),
{
    let ghost c = tracker.spec_contents();
    let ghost tv = target@;
    let metrics = tracker.get_target_metrics(target.as_str());
    let ghost len0 = r@.len() as int;
    let mut picked_inaccessible: usize = 0;
    let ghost mut srcs: Seq<int> = Seq::empty();
    let mut m: usize = 0;
    while m < metrics.len()
        invariant
            tv == target@,
            forall|x: int|
                0 <= x < metrics@.len() ==> c.contains_key(
                    (tv, (#[trigger] metrics@[x])@.runway_id),
                ) && metrics@[x]@ == c[(tv, metrics@[x]@.runway_id)]@,
            forall|x1: int, x2: int|
                0 <= x1 < metrics@.len() && 0 <= x2 < metrics@.len() && x1 != x2 ==> (
                #[trigger] metrics@[x1])@.runway_id != (#[trigger] metrics@[x2])@.runway_id,
            0 <= m <= metrics@.len(),
            picked_inaccessible <= MAX_INACCESSIBLE_PROBES,
            len0 == old(r)@.len(),
            r@.len() == len0 + picked_inaccessible,
            r@.subrange(0, len0) == old(r)@,
            srcs.len() == picked_inaccessible,
            forall|x: int|
                0 <= x < srcs.len() ==> 0 <= #[trigger] srcs[x] < m && metrics@[srcs[x]]@.runway_id
                    == r@[len0 + x].runway_id@,
            forall|x1: int, x2: int| 0 <= x1 < x2 < srcs.len() ==> #[trigger] srcs[x1] < #[trigger] srcs[x2],
            forall|x: int|
                len0 <= x < r@.len() ==> (#[trigger] r@[x]).target@ == tv && c.contains_key(
                    (tv, r@[x].runway_id@),
                ) && c[(tv, r@[x].runway_id@)]@.state == RunwayState::Inaccessible,
            picked_inaccessible < MAX_INACCESSIBLE_PROBES ==> forall|j: int|
                0 <= j < m && (#[trigger] metrics@[j])@.state == RunwayState::Inaccessible
                    ==> exists|x: int| 0 <= x < srcs.len() && #[trigger] srcs[x] == j,
        decreases metrics@.len() - m,
    {
        if picked_inaccessible < MAX_INACCESSIBLE_PROBES && matches!(
            metrics[m].state,
            RunwayState::Inaccessible,
        ) {
            let ghost r_old = r@;
            let ghost srcs_old = srcs;
            r.push(
                HealthProbe { target: target.clone(), runway_id: metrics[m].runway_id.clone() },
            );
            picked_inaccessible = picked_inaccessible + 1;
            proof {
                srcs = srcs.push(m as int);
                assert(r@ == r_old.push(r@.last()));
                assert(r@.subrange(0, len0) =~= r_old.subrange(0, len0));
                assert(r@.last().runway_id@ == metrics@[m as int]@.runway_id);
                assert(srcs[srcs.len() - 1] == m as int);
                assert forall|j: int|
                    0 <= j < m + 1 && (#[trigger] metrics@[j])@.state
                        == RunwayState::Inaccessible implies exists|x: int|
                    0 <= x < srcs.len() && #[trigger] srcs[x] == j by {
                    if j == m as int {
                        assert(srcs[srcs.len() - 1] == j);
                    } else {
                        let x = choose|x: int| 0 <= x < srcs_old.len() && #[trigger] srcs_old[x] == j;
                        assert(srcs[x] == srcs_old[x]);
                    }
                }
            }
        }
        m = m + 1;
    }
    let ghost s = picked_inaccessible as int;
    let mut picked_partial: usize = 0;
    let ghost mut srcs2: Seq<int> = Seq::empty();
    let mut m2: usize = 0;
    while m2 < metrics.len()
        invariant
            tv == target@,
            forall|x: int|
                0 <= x < metrics@.len() ==> c.contains_key(
                    (tv, (#[trigger] metrics@[x])@.runway_id),
                ) && metrics@[x]@ == c[(tv, metrics@[x]@.runway_id)]@,
            forall|x1: int, x2: int|
                0 <= x1 < metrics@.len() && 0 <= x2 < metrics@.len() && x1 != x2 ==> (
                #[trigger] metrics@[x1])@.runway_id != (#[trigger] metrics@[x2])@.runway_id,
            0 <= m2 <= metrics@.len(),
            s == picked_inaccessible as int,
            picked_inaccessible <= MAX_INACCESSIBLE_PROBES,
            picked_partial <= MAX_PARTIAL_PROBES,
            len0 == old(r)@.len(),
            r@.len() == len0 + picked_inaccessible + picked_partial,
            r@.subrange(0, len0) == old(r)@,
            srcs.len() == picked_inaccessible,
            forall|x: int|
                0 <= x < srcs.len() ==> 0 <= #[trigger] srcs[x] < metrics@.len()
                    && metrics@[srcs[x]]@.runway_id == r@[len0 + x].runway_id@,
            forall|x1: int, x2: int| 0 <= x1 < x2 < srcs.len() ==> #[trigger] srcs[x1] < #[trigger] srcs[x2],
            srcs2.len() == picked_partial,
            forall|x: int|
                0 <= x < srcs2.len() ==> 0 <= #[trigger] srcs2[x] < m2
                    && metrics@[srcs2[x]]@.runway_id == r@[len0 + s + x].runway_id@,
            forall|x1: int, x2: int|
                0 <= x1 < x2 < srcs2.len() ==> #[trigger] srcs2[x1] < #[trigger] srcs2[x2],
            forall|x: int|
                len0 <= x < len0 + s ==> (#[trigger] r@[x]).target@ == tv && c.contains_key(
                    (tv, r@[x].runway_id@),
                ) && c[(tv, r@[x].runway_id@)]@.state == RunwayState::Inaccessible,
            forall|x: int|
                len0 + s <= x < r@.len() ==> (#[trigger] r@[x]).target@ == tv && c.contains_key(
                    (tv, r@[x].runway_id@),
                ) && c[(tv, r@[x].runway_id@)]@.state == RunwayState::PartiallyAccessible,
            picked_inaccessible < MAX_INACCESSIBLE_PROBES ==> forall|j: int|
                0 <= j < metrics@.len() && (#[trigger] metrics@[j])@.state
                    == RunwayState::Inaccessible ==> exists|x: int|
                    0 <= x < srcs.len() && #[trigger] srcs[x] == j,
            picked_partial < MAX_PARTIAL_PROBES ==> forall|j: int|
                0 <= j < m2 && (#[trigger] metrics@[j])@.state == RunwayState::PartiallyAccessible
                    ==> exists|x: int| 0 <= x < srcs2.len() && #[trigger] srcs2[x] == j,
        decreases metrics@.len() - m2,
    {
        if picked_partial < MAX_PARTIAL_PROBES && matches!(
            metrics[m2].state,
            RunwayState::PartiallyAccessible,
        ) {
            let ghost r_old = r@;
            let ghost srcs2_old = srcs2;
            r.push(
                HealthProbe { target: target.clone(), runway_id: metrics[m2].runway_id.clone() },
            );
            picked_partial = picked_partial + 1;
            proof {
                srcs2 = srcs2.push(m2 as int);
                assert(r@ == r_old.push(r@.last()));
                assert(r@.subrange(0, len0) =~= r_old.subrange(0, len0));
                assert(r@.last().runway_id@ == metrics@[m2 as int]@.runway_id);
                assert(srcs2[srcs2.len() - 1] == m2 as int);
                assert forall|j: int|
                    0 <= j < m2 + 1 && (#[trigger] metrics@[j])@.state
                        == RunwayState::PartiallyAccessible implies exists|x: int|
                    0 <= x < srcs2.len() && #[trigger] srcs2[x] == j by {
                    if j == m2 as int {
                        assert(srcs2[srcs2.len() - 1] == j);
                    } else {
                        let x = choose|x: int|
                            0 <= x < srcs2_old.len() && #[trigger] srcs2_old[x] == j;
                        assert(srcs2[x] == srcs2_old[x]);
                    }
                }
            }
        }
        m2 = m2 + 1;
    }
    proof {
        let seg = r@.subrange(len0, r@.len() as int);
        assert(seg.len() == picked_inaccessible + picked_partial);
        assert forall|x: int|
            0 <= x < seg.len() implies (#[trigger] seg[x]).target@ == tv && c.contains_key(
            (tv, seg[x].runway_id@),
        ) by {
            assert(seg[x] == r@[len0 + x]);
        }
        assert forall|x: int| 0 <= x < s implies c[(tv, (#[trigger] seg[x]).runway_id@)]@.state
            == RunwayState::Inaccessible by {
            assert(seg[x] == r@[len0 + x]);
        }
        assert forall|x: int|
            s <= x < seg.len() implies c[(tv, (#[trigger] seg[x]).runway_id@)]@.state
            == RunwayState::PartiallyAccessible by {
            assert(seg[x] == r@[len0 + x]);
        }
        assert forall|x1: int, x2: int|
            0 <= x1 < seg.len() && 0 <= x2 < seg.len() && x1 != x2 implies (
        #[trigger] seg[x1]).runway_id@ != (#[trigger] seg[x2]).runway_id@ by {
            assert(seg[x1] == r@[len0 + x1] && seg[x2] == r@[len0 + x2]);
            if x1 < s && x2 < s {
                assert(metrics@[srcs[x1]]@.runway_id == seg[x1].runway_id@);
                assert(metrics@[srcs[x2]]@.runway_id == seg[x2].runway_id@);
                assert(srcs[x1] != srcs[x2]);
            } else if x1 >= s && x2 >= s {
                assert(metrics@[srcs2[x1 - s]]@.runway_id == seg[x1].runway_id@);
                assert(metrics@[srcs2[x2 - s]]@.runway_id == seg[x2].runway_id@);
                assert(srcs2[x1 - s] != srcs2[x2 - s]);
            } else {
                // one Inaccessible, one PartiallyAccessible: a shared runway
                // would give the same record two states
                assert(c[(tv, seg[x1].runway_id@)]@.state != c[(tv, seg[x2].runway_id@)]@.state);
            }
        }
        if s < MAX_INACCESSIBLE_PROBES {
            assert forall|k: (Seq<char>, Seq<char>)|
                #[trigger] c.contains_key(k) && k.0 == tv && c[k]@.state
                    == RunwayState::Inaccessible implies exists|x: int|
                0 <= x < s && (#[trigger] seg[x]).runway_id@ == k.1 by {
                let j = choose|j: int|
                    0 <= j < metrics@.len() && (#[trigger] metrics@[j])@.runway_id == k.1;
                assert(metrics@[j]@ == c[k]@);
                assert(metrics@[j]@.state == RunwayState::Inaccessible);
                let x = choose|x: int| 0 <= x < srcs.len() && #[trigger] srcs[x] == j;
                assert(seg[x] == r@[len0 + x]);
                assert(0 <= x < s && seg[x].runway_id@ == k.1);
            }
        }
        if seg.len() - s < MAX_PARTIAL_PROBES {
            assert forall|k: (Seq<char>, Seq<char>)|
                #[trigger] c.contains_key(k) && k.0 == tv && c[k]@.state
                    == RunwayState::PartiallyAccessible implies exists|x: int|
                s <= x < seg.len() && (#[trigger] seg[x]).runway_id@ == k.1 by {
                let j = choose|j: int|
                    0 <= j < metrics@.len() && (#[trigger] metrics@[j])@.runway_id == k.1;
                assert(metrics@[j]@ == c[k]@);
                assert(metrics@[j]@.state == RunwayState::PartiallyAccessible);
                let x = choose|x: int| 0 <= x < srcs2.len() && #[trigger] srcs2[x] == j;
                assert(seg[s + x] == r@[len0 + s + x]);
                assert(s <= s + x < seg.len() && seg[s + x].runway_id@ == k.1);
            }
        }
        assert(spec_target_plan_split(c, tv, seg, s));
    }
}

} // verus!
