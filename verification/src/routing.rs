//! The routing engine: picks a runway for a target under one of three
//! policies, over the accessibility tracker's current knowledge.

use vstd::prelude::*;
use vstd::arithmetic::div_mod::{
    lemma_fundamental_div_mod, lemma_fundamental_div_mod_converse_div,
    lemma_fundamental_div_mod_converse_mod, lemma_mod_division_less_than_divisor,
};
use crate::runway::Runway;
use crate::strutil::{str_eq, vec_contains_str};
use crate::tracker::{spec_admissible, TargetAccessibilityTracker, TargetMetrics};

verus! {

/// Routing policy.
#[derive(Debug, Clone, Copy, PartialEq, Eq, Structural)]
pub enum RoutingMode {
    Latency,
    FirstAccessible,
    RoundRobin,
}

/// A runway is a candidate for a target when the tracker admits its id.
pub open spec fn spec_is_candidate(
    c: Map<(Seq<char>, Seq<char>), TargetMetrics>,
    threshold_permille: int,
    t: Seq<char>,
    rw: Runway,
) -> bool {
    c.contains_key((t, rw.id@)) && spec_admissible(c[(t, rw.id@)]@, threshold_permille)
}

/// The candidates among `rws`, in the traversal order of `rws`.
pub open spec fn spec_candidates(
    rws: Seq<Runway>,
    c: Map<(Seq<char>, Seq<char>), TargetMetrics>,
    threshold_permille: int,
    t: Seq<char>,
) -> Seq<Runway>
    decreases rws.len(),
{
    if rws.len() == 0 {
        Seq::empty()
    } else {
        let prefix = spec_candidates(rws.drop_last(), c, threshold_permille, t);
        if spec_is_candidate(c, threshold_permille, t, rws.last()) {
            prefix.push(rws.last())
        } else {
            prefix
        }
    }
}

/// The average response time the tracker records for a candidate's pair.
pub open spec fn spec_avg(
    c: Map<(Seq<char>, Seq<char>), TargetMetrics>,
    t: Seq<char>,
    rw: Runway,
) -> int {
    c[(t, rw.id@)]@.avg_response_time_ms
}

/// The latency scan: walk the candidates in order, keep the first with a
/// positive average, and replace it only on a strictly smaller average.
pub open spec fn spec_latency_best(
    cands: Seq<Runway>,
    c: Map<(Seq<char>, Seq<char>), TargetMetrics>,
    t: Seq<char>,
) -> Option<Runway>
    decreases cands.len(),
{
    if cands.len() == 0 {
        None
    } else {
        let b = spec_latency_best(cands.drop_last(), c, t);
        let x = cands.last();
        match b {
            None => if spec_avg(c, t, x) > 0 {
                Some(x)
            } else {
                None
            },
            Some(y) => if spec_avg(c, t, x) > 0 && spec_avg(c, t, x) < spec_avg(c, t, y) {
                Some(x)
            } else {
                Some(y)
            },
        }
    }
}

/// What Latency mode selects: the latency scan's winner, or the first
/// candidate when no candidate has a positive average.
pub open spec fn spec_latency_choice(
    cands: Seq<Runway>,
    c: Map<(Seq<char>, Seq<char>), TargetMetrics>,
    t: Seq<char>,
) -> Runway {
    match spec_latency_best(cands, c, t) {
        Some(y) => y,
        None => cands[0],
    }
}

/// The position of a target's entry in the cursor table, or -1.
pub open spec fn cursor_idx(m: Seq<(String, usize)>, t: Seq<char>) -> int
    decreases m.len(),
{
    if m.len() == 0 {
        -1
    } else if m[0].0@ == t {
        0
    } else {
        let k = cursor_idx(m.drop_first(), t);
        if k == -1 {
            -1
        } else {
            k + 1
        }
    }
}

/// A target's round-robin cursor; 0 when the target has no entry yet.
pub open spec fn spec_cursor(m: Seq<(String, usize)>, t: Seq<char>) -> int {
    let k = cursor_idx(m, t);
    if k == -1 {
        0
    } else {
        m[k].1 as int
    }
}

proof fn lemma_cursor_idx_bounds(m: Seq<(String, usize)>, t: Seq<char>)
    ensures
        -1 <= cursor_idx(m, t) < m.len(),
        cursor_idx(m, t) >= 0 ==> m[cursor_idx(m, t)].0@ == t,
    decreases m.len(),
{
    if m.len() > 0 && m[0].0@ != t {
        lemma_cursor_idx_bounds(m.drop_first(), t);
    }
}

proof fn lemma_cursor_idx_is(m: Seq<(String, usize)>, t: Seq<char>, j: int)
    requires
        0 <= j < m.len(),
        m[j].0@ == t,
        forall|x: int| 0 <= x < j ==> (#[trigger] m[x]).0@ != t,
    ensures
        cursor_idx(m, t) == j,
    decreases m.len(),
{
    if j > 0 {
        lemma_cursor_idx_is(m.drop_first(), t, j - 1);
    }
}

proof fn lemma_cursor_idx_none(m: Seq<(String, usize)>, t: Seq<char>)
    requires
        forall|x: int| 0 <= x < m.len() ==> (#[trigger] m[x]).0@ != t,
    ensures
        cursor_idx(m, t) == -1,
    decreases m.len(),
{
    if m.len() > 0 {
        lemma_cursor_idx_none(m.drop_first(), t);
    }
}

proof fn lemma_cursor_idx_update(m: Seq<(String, usize)>, j: int, e: (String, usize), t: Seq<char>)
    requires
        0 <= j < m.len(),
        e.0@ == m[j].0@,
    ensures
        cursor_idx(m.update(j, e), t) == cursor_idx(m, t),
    decreases m.len(),
{
    if m.len() > 0 {
        if j == 0 {
            assert(m.update(j, e)[0].0@ == m[0].0@);
            if m[0].0@ != t {
                assert(m.update(j, e).drop_first() =~= m.drop_first());
            }
        } else {
            assert(m.update(j, e)[0] == m[0]);
            if m[0].0@ != t {
                assert(m.update(j, e).drop_first() =~= m.drop_first().update(j - 1, e));
                lemma_cursor_idx_update(m.drop_first(), j - 1, e, t);
            }
        }
    }
}

proof fn lemma_cursor_idx_push(m: Seq<(String, usize)>, e: (String, usize), t: Seq<char>)
    ensures
        cursor_idx(m.push(e), t) == if cursor_idx(m, t) != -1 {
            cursor_idx(m, t)
        } else if e.0@ == t {
            m.len() as int
        } else {
            -1
        },
    decreases m.len(),
{
    lemma_cursor_idx_bounds(m, t);
    if m.len() == 0 {
        assert(m.push(e)[0] == e);
        if e.0@ != t {
            assert(m.push(e).drop_first() =~= Seq::<(String, usize)>::empty());
            assert(cursor_idx(Seq::<(String, usize)>::empty(), t) == -1);
            assert(cursor_idx(m.push(e), t) == -1);
        } else {
            assert(cursor_idx(m.push(e), t) == 0);
        }
    } else {
        assert(m.push(e)[0] == m[0]);
        if m[0].0@ == t {
            assert(cursor_idx(m, t) == 0);
            assert(cursor_idx(m.push(e), t) == 0);
        } else {
            lemma_cursor_idx_bounds(m.drop_first(), t);
            assert(m.push(e).drop_first() =~= m.drop_first().push(e));
            lemma_cursor_idx_push(m.drop_first(), e, t);
            let kd = cursor_idx(m.drop_first(), t);
            let k = cursor_idx(m.push(e).drop_first(), t);
            if kd != -1 {
                assert(k == kd);
                assert(cursor_idx(m.push(e), t) == k + 1);
                assert(cursor_idx(m, t) == kd + 1);
            } else if e.0@ == t {
                assert(k == m.len() - 1);
                assert(cursor_idx(m.push(e), t) == k + 1);
                assert(cursor_idx(m, t) == -1);
            } else {
                assert(k == -1);
                assert(cursor_idx(m.push(e), t) == -1);
                assert(cursor_idx(m, t) == -1);
            }
        }
    }
}

/// The routing engine: the current policy and the per-target round-robin
/// cursors.
pub struct RoutingEngine {
    mode: RoutingMode,
    round_robin_index: Vec<(String, usize)>,
}

impl RoutingEngine {
    /// The current policy.
    pub closed spec fn spec_mode(self) -> RoutingMode {
        self.mode
    }

    /// The cursor table.
    pub closed spec fn spec_cursors(self) -> Seq<(String, usize)> {
        self.round_robin_index@
    }

    /// No target has two cursor entries.
    pub closed spec fn wf(self) -> bool {
        forall|i: int, j: int|
            0 <= i < self.round_robin_index@.len() && 0 <= j < self.round_robin_index@.len() && i
                != j ==> (#[trigger] self.round_robin_index@[i]).0@ != (
            #[trigger] self.round_robin_index@[j]).0@
    }

    pub fn new(mode: RoutingMode) -> (r: Self)
        ensures
            r.wf(),
            r.spec_mode() == mode,
            r.spec_cursors() == Seq::<(String, usize)>::empty(),
    {
        RoutingEngine { mode, round_robin_index: Vec::new() }
    }

    /// Switches the policy; it governs every later selection.
    pub fn set_mode(&mut self, mode: RoutingMode)
        requires
            old(self).wf(),
        ensures
            final(self).wf(),
            final(self).spec_mode() == mode,
            final(self).spec_cursors() == old(self).spec_cursors(),
    {
        self.mode = mode;
    }

    /// The current policy.
    pub fn mode(&self) -> (r: RoutingMode)
        ensures
            r == self.spec_mode(),
    {
        self.mode
    }
}

/// The runways a sequence of references points at.
pub open spec fn derefs(s: Seq<&Runway>) -> Seq<Runway> {
    s.map_values(|r: &Runway| *r)
}

/// Every element of the candidate sequence is a candidate.
pub proof fn lemma_candidates_members(
    rws: Seq<Runway>,
    c: Map<(Seq<char>, Seq<char>), TargetMetrics>,
    threshold_permille: int,
    t: Seq<char>,
)
    ensures
        forall|x: int|
            0 <= x < spec_candidates(rws, c, threshold_permille, t).len() ==> spec_is_candidate(
                c,
                threshold_permille,
                t,
                #[trigger] spec_candidates(rws, c, threshold_permille, t)[x],
            ),
    decreases rws.len(),
{
    if rws.len() > 0 {
        lemma_candidates_members(rws.drop_last(), c, threshold_permille, t);
        let prefix = spec_candidates(rws.drop_last(), c, threshold_permille, t);
        let full = spec_candidates(rws, c, threshold_permille, t);
        assert forall|x: int| 0 <= x < full.len() implies spec_is_candidate(
            c,
            threshold_permille,
            t,
            full[x],
        ) by {
            if spec_is_candidate(c, threshold_permille, t, rws.last()) {
                assert(full == prefix.push(rws.last()));
                if x < prefix.len() {
                    assert(full[x] == prefix[x]);
                } else {
                    assert(full[x] == rws.last());
                }
            } else {
                assert(full == prefix);
            }
        }
    }
}

fn collect_candidates<'a>(
    target: &str,
    runways: &'a Vec<Runway>,
    tracker: &TargetAccessibilityTracker,
) -> (cands: Vec<&'a Runway>)
    requires
        tracker.wf(),
    ensures
        ({
            let sc = spec_candidates(
                runways@,
                tracker.spec_contents(),
                tracker.spec_threshold(),
                target@,
            );
            cands@.len() == sc.len() && forall|x: int|
                0 <= x < cands@.len() ==> *(#[trigger] cands@[x]) == sc[x]
        }),
{
    let ids = tracker.get_accessible_runways(target);
    let ghost c = tracker.spec_contents();
    let ghost thr = tracker.spec_threshold();
    let mut cands: Vec<&'a Runway> = Vec::new();
    let mut i: usize = 0;
    while i < runways.len()
        invariant
            tracker.wf(),
            c == tracker.spec_contents(),
            thr == tracker.spec_threshold(),
            0 <= i <= runways@.len(),
            forall|x: int|
                0 <= x < ids@.len() ==> c.contains_key((target@, (#[trigger] ids@[x])@))
                    && spec_admissible(c[(target@, ids@[x]@)]@, thr),
            forall|k: (Seq<char>, Seq<char>)|
                #[trigger] c.contains_key(k) && k.0 == target@ && spec_admissible(c[k]@, thr)
                    ==> exists|x: int| 0 <= x < ids@.len() && (#[trigger] ids@[x])@ == k.1,
            cands@.len() == spec_candidates(
                runways@.subrange(0, i as int),
                c,
                thr,
                target@,
            ).len(),
            forall|x: int|
                0 <= x < cands@.len() ==> *(#[trigger] cands@[x]) == spec_candidates(
                    runways@.subrange(0, i as int),
                    c,
                    thr,
                    target@,
                )[x],
        decreases runways@.len() - i,
    {
        let ghost prefix = runways@.subrange(0, i as int);
        let is_mem = vec_contains_str(&ids, runways[i].id.as_str());
        proof {
            assert(runways@.subrange(0, i + 1).drop_last() =~= prefix);
            assert(runways@.subrange(0, i + 1).last() == runways@[i as int]);
            if is_mem {
                let x = choose|x: int| 0 <= x < ids@.len() && (#[trigger] ids@[x])@ == runways@[i as int].id@;
                assert(c.contains_key((target@, runways@[i as int].id@)));
                assert(spec_is_candidate(c, thr, target@, runways@[i as int]));
            } else {
                if spec_is_candidate(c, thr, target@, runways@[i as int]) {
                    let k = (target@, runways@[i as int].id@);
                    assert(c.contains_key(k) && k.0 == target@ && spec_admissible(c[k]@, thr));
                    assert(false);
                }
            }
        }
        if is_mem {
            cands.push(&runways[i]);
        }
        i = i + 1;
    }
    proof {
        assert(runways@.subrange(0, runways@.len() as int) =~= runways@);
    }
    cands
}

fn find_entry(m: &Vec<(String, usize)>, t: &str) -> (r: Option<usize>)
    ensures
        r matches Some(j) ==> 0 <= j < m@.len() && (#[trigger] m@[j as int]).0@ == t@ && forall|
            y: int,
        | 0 <= y < j ==> (#[trigger] m@[y]).0@ != t@,
        r is None ==> forall|y: int| 0 <= y < m@.len() ==> (#[trigger] m@[y]).0@ != t@,
{
    let mut j: usize = 0;
    while j < m.len()
        invariant
            0 <= j <= m@.len(),
            forall|y: int| 0 <= y < j ==> (#[trigger] m@[y]).0@ != t@,
        decreases m@.len() - j,
    {
        if str_eq(m[j].0.as_str(), t) {
            return Some(j);
        }
        j = j + 1;
    }
    None
}

impl RoutingEngine {
    fn latency_best_index(
        target: &str,
        cands: &Vec<&Runway>,
        tracker: &TargetAccessibilityTracker,
    ) -> (idx: usize)
        requires
            tracker.wf(),
            cands@.len() > 0,
            forall|x: int|
                0 <= x < cands@.len() ==> spec_is_candidate(
                    tracker.spec_contents(),
                    tracker.spec_threshold(),
                    target@,
                    *(#[trigger] cands@[x]),
                ),
        ensures
            idx < cands@.len(),
            *cands@[idx as int] == spec_latency_choice(
                derefs(cands@),
                tracker.spec_contents(),
                target@,
            ),
    {
        let ghost c = tracker.spec_contents();
        let ghost dc = derefs(cands@);
        let mut best_idx: usize = 0;
        let mut best_avg: u64 = 0;
        let mut found = false;
        let mut x: usize = 0;
        while x < cands.len()
            invariant
                tracker.wf(),
                c == tracker.spec_contents(),
                dc == derefs(cands@),
                dc.len() == cands@.len(),
                forall|y: int| 0 <= y < cands@.len() ==> dc[y] == *(#[trigger] cands@[y]),
                forall|y: int|
                    0 <= y < cands@.len() ==> spec_is_candidate(
                        c,
                        tracker.spec_threshold(),
                        target@,
                        *(#[trigger] cands@[y]),
                    ),
                0 <= x <= cands@.len(),
                found ==> 0 <= best_idx < x && best_avg as int == spec_avg(
                    c,
                    target@,
                    dc[best_idx as int],
                ) && spec_latency_best(dc.subrange(0, x as int), c, target@) == Some(
                    dc[best_idx as int],
                ),
                !found ==> spec_latency_best(dc.subrange(0, x as int), c, target@) is None,
            decreases cands@.len() - x,
        {
            proof {
                assert(dc.subrange(0, x + 1).drop_last() =~= dc.subrange(0, x as int));
                assert(dc.subrange(0, x + 1).last() == dc[x as int]);
            }
            let m = tracker.get_metrics(target, cands[x].id.as_str());
            match m {
                Some(mm) => {
                    proof {
                        assert(spec_is_candidate(c, tracker.spec_threshold(), target@, dc[x as int]));
                        assert(mm == c[(target@, dc[x as int].id@)]);
                    }
                    if mm.avg_response_time_ms > 0 && (!found || mm.avg_response_time_ms
                        < best_avg) {
                        found = true;
                        best_idx = x;
                        best_avg = mm.avg_response_time_ms;
                    }
                },
                None => {
                    proof {
                        assert(spec_is_candidate(c, tracker.spec_threshold(), target@, dc[x as int]));
                        assert(false);
                    }
                },
            }
            x = x + 1;
        }
        proof {
            assert(dc.subrange(0, cands@.len() as int) =~= dc);
        }
        if found {
            best_idx
        } else {
            0
        }
    }

    fn bump_cursor(&mut self, target: &str, n: usize) -> (cursor: usize)
        requires
            old(self).wf(),
            n > 0,
        ensures
            final(self).wf(),
            final(self).spec_mode() == old(self).spec_mode(),
            cursor as int == spec_cursor(old(self).spec_cursors(), target@),
            spec_cursor(final(self).spec_cursors(), target@) == (cursor as int + 1) % (n as int),
            forall|t2: Seq<char>|
                t2 != target@ ==> spec_cursor(final(self).spec_cursors(), t2) == spec_cursor(
                    old(self).spec_cursors(),
                    t2,
                ),
    {
        let ghost m0 = self.round_robin_index@;
        let idx_opt = find_entry(&self.round_robin_index, target);
        let cursor: usize = match idx_opt {
            Some(j) => self.round_robin_index[j].1,
            None => 0,
        };
        proof {
            match idx_opt {
                Some(j) => {
                    lemma_cursor_idx_is(m0, target@, j as int);
                },
                None => {
                    lemma_cursor_idx_none(m0, target@);
                },
            }
        }
        let reduced = cursor % n;
        let newv = (reduced + 1) % n;
        proof {
            vstd::arithmetic::div_mod::lemma_add_mod_noop(cursor as int, 1, n as int);
            if n == 1 {
                assert(newv as int == (cursor as int + 1) % (n as int));
            } else {
                vstd::arithmetic::div_mod::lemma_small_mod(1nat, n as nat);
                assert(newv as int == (cursor as int + 1) % (n as int));
            }
        }
        match idx_opt {
            Some(j) => {
                let key = self.round_robin_index[j].0.clone();
                self.round_robin_index[j] = (key, newv);
                proof {
                    let m1 = self.round_robin_index@;
                    assert(m1 == m0.update(j as int, (key, newv)));
                    assert forall|t2: Seq<char>| true implies cursor_idx(m1, t2) == cursor_idx(
                        m0,
                        t2,
                    ) by {
                        lemma_cursor_idx_update(m0, j as int, (key, newv), t2);
                    }
                    lemma_cursor_idx_bounds(m0, target@);
                    assert(spec_cursor(m1, target@) == newv as int);
                    assert forall|t2: Seq<char>| t2 != target@ implies spec_cursor(m1, t2)
                        == spec_cursor(m0, t2) by {
                        lemma_cursor_idx_bounds(m0, t2);
                        if cursor_idx(m0, t2) >= 0 {
                            assert(cursor_idx(m0, t2) != j as int);
                        }
                    }
                }
            },
            None => {
                self.round_robin_index.push((target.to_owned(), newv));
                proof {
                    let m1 = self.round_robin_index@;
                    let e = m1.last();
                    assert(m1 == m0.push(e));
                    assert(e.0@ == target@);
                    lemma_cursor_idx_push(m0, e, target@);
                    lemma_cursor_idx_none(m0, target@);
                    assert(spec_cursor(m1, target@) == newv as int);
                    assert forall|t2: Seq<char>| t2 != target@ implies spec_cursor(m1, t2)
                        == spec_cursor(m0, t2) by {
                        lemma_cursor_idx_push(m0, e, t2);
                        lemma_cursor_idx_bounds(m0, t2);
                    }
                }
            },
        }
        cursor
    }

    /// Selects a runway for the target: the tracker's admitted ids are
    /// intersected with `runways` (in their order), and the current policy
    /// picks among those candidates. Returns None exactly when no candidate
    /// remains. In RoundRobin mode the target's cursor selects the candidate
    /// and advances by one, modulo the candidate count.
    pub fn select_runway(
        &mut self,
        target: &str,
        runways: &Vec<Runway>,
        tracker: &TargetAccessibilityTracker,
    ) -> (r: Option<Runway>)
        requires
            old(self).wf(),
            tracker.wf(),
        ensures
            final(self).wf(),
            final(self).spec_mode() == old(self).spec_mode(),
            ({
                let cands = spec_candidates(
                    runways@,
                    tracker.spec_contents(),
                    tracker.spec_threshold(),
                    target@,
                );
                &&& (r is None <==> cands.len() == 0)
                &&& (match r {
                    Some(rw) => cands.len() > 0 && (match old(self).spec_mode() {
                        RoutingMode::FirstAccessible => rw@ == cands[0]@,
                        RoutingMode::Latency => rw@ == spec_latency_choice(
                            cands,
                            tracker.spec_contents(),
                            target@,
                        )@,
                        RoutingMode::RoundRobin => rw@ == cands[spec_cursor(
                            old(self).spec_cursors(),
                            target@,
                        ) % (cands.len() as int)]@,
                    }),
                    None => true,
                })
            }),
            old(self).spec_mode() != RoutingMode::RoundRobin || spec_candidates(
                runways@,
                tracker.spec_contents(),
                tracker.spec_threshold(),
                target@,
            ).len() == 0 ==> final(self).spec_cursors() == old(self).spec_cursors(),
            ({
                let cands = spec_candidates(
                    runways@,
                    tracker.spec_contents(),
                    tracker.spec_threshold(),
                    target@,
                );
                old(self).spec_mode() == RoutingMode::RoundRobin && cands.len() > 0 ==> {
                    &&& spec_cursor(final(self).spec_cursors(), target@) == (spec_cursor(
                        old(self).spec_cursors(),
                        target@,
                    ) + 1) % (cands.len() as int)
                    &&& (forall|t2: Seq<char>|
                        t2 != target@ ==> spec_cursor(final(self).spec_cursors(), t2)
                            == spec_cursor(old(self).spec_cursors(), t2))
                }
            }),
    {
        let ghost c = tracker.spec_contents();
        let ghost thr = tracker.spec_threshold();
        let ghost sc = spec_candidates(runways@, c, thr, target@);
        let cands = collect_candidates(target, runways, tracker);
        if cands.len() == 0 {
            return None;
        }
        proof {
            lemma_candidates_members(runways@, c, thr, target@);
            assert forall|x: int| 0 <= x < cands@.len() implies spec_is_candidate(
                c,
                thr,
                target@,
                *(#[trigger] cands@[x]),
            ) by {
                assert(*cands@[x] == sc[x]);
            }
            assert(derefs(cands@) =~= sc);
        }
        match self.mode {
            RoutingMode::FirstAccessible => {
                let chosen: &Runway = cands[0];
                Some(chosen.duplicate())
            },
            RoutingMode::Latency => {
                let idx = Self::latency_best_index(target, &cands, tracker);
                let chosen: &Runway = cands[idx];
                Some(chosen.duplicate())
            },
            RoutingMode::RoundRobin => {
                let n = cands.len();
                let cursor = self.bump_cursor(target, n);
                let sel = cursor % n;
                proof {
                    assert(sel as int == spec_cursor(old(self).spec_cursors(), target@) % (
                    sc.len() as int));
                }
                let chosen: &Runway = cands[sel];
                Some(chosen.duplicate())
            },
        }
    }
}

/// The latency scan picks a candidate with a positive average response time
/// that is minimal among all candidates with a positive average; when no
/// candidate has one, it picks nothing and the choice falls back to the
/// first candidate.
pub proof fn lemma_latency_choice_min(
    cands: Seq<Runway>,
    c: Map<(Seq<char>, Seq<char>), TargetMetrics>,
    t: Seq<char>,
)
    ensures
        match spec_latency_best(cands, c, t) {
            Some(b) => spec_avg(c, t, b) > 0 && (exists|i: int|
                0 <= i < cands.len() && cands[i] == b) && (forall|i: int|
                0 <= i < cands.len() && spec_avg(c, t, #[trigger] cands[i]) > 0 ==> spec_avg(
                    c,
                    t,
                    b,
                ) <= spec_avg(c, t, cands[i])),
            None => forall|i: int| 0 <= i < cands.len() ==> spec_avg(c, t, #[trigger] cands[i]) <= 0,
        },
        cands.len() > 0 && spec_latency_best(cands, c, t) is None ==> spec_latency_choice(cands, c, t)
            == cands[0],
    decreases cands.len(),
{
    if cands.len() > 0 {
        lemma_latency_choice_min(cands.drop_last(), c, t);
        let prefix = cands.drop_last();
        let x = cands.last();
        assert(forall|i: int| 0 <= i < prefix.len() ==> #[trigger] cands[i] == prefix[i]);
        match spec_latency_best(cands, c, t) {
            Some(b) => {
                match spec_latency_best(prefix, c, t) {
                    Some(y) => {
                        if spec_avg(c, t, x) > 0 && spec_avg(c, t, x) < spec_avg(c, t, y) {
                            assert(cands[cands.len() - 1] == b);
                        } else {
                            let i0 = choose|i: int| 0 <= i < prefix.len() && prefix[i] == y;
                            assert(cands[i0] == b);
                        }
                    },
                    None => {
                        assert(cands[cands.len() - 1] == b);
                    },
                }
            },
            None => {
            },
        }
    }
}

/// The index the round-robin policy picks on selection number `s` (counting
/// from 0) is `(c0 + s) % cc`, for a starting cursor `c0` over `cc` stable
/// candidates; this counts how many of the first `k` selections pick `j`.
pub open spec fn rr_count(c0: int, k: int, cc: int, j: int) -> int
    decreases k,
{
    if k <= 0 {
        0
    } else {
        rr_count(c0, k - 1, cc, j) + if (c0 + (k - 1)) % cc == j {
            1int
        } else {
            0int
        }
    }
}

proof fn lemma_rr_count_formula(c0: int, k: int, cc: int, j: int)
    requires
        cc >= 1,
        0 <= j < cc,
        k >= 0,
    ensures
        rr_count(c0, k, cc, j) == k / cc + if (j - c0) % cc < k % cc {
            1int
        } else {
            0int
        },
    decreases k,
{
    let d = (j - c0) % cc;
    lemma_mod_division_less_than_divisor(j - c0, cc);
    lemma_fundamental_div_mod(j - c0, cc);
    let qd = (j - c0) / cc;
    if k == 0 {
        assert(0int / cc == 0) by (nonlinear_arith)
            requires
                cc >= 1,
        ;
        assert(0int % cc == 0) by (nonlinear_arith)
            requires
                cc >= 1,
        ;
    } else {
        lemma_rr_count_formula(c0, k - 1, cc, j);
        let q1 = (k - 1) / cc;
        let r1 = (k - 1) % cc;
        lemma_fundamental_div_mod(k - 1, cc);
        lemma_mod_division_less_than_divisor(k - 1, cc);
        // the selection on step k-1 picks j exactly when r1 == d
        if r1 == d {
            assert(c0 + k - 1 == (q1 - qd) * cc + j) by (nonlinear_arith)
                requires
                    k - 1 == cc * q1 + r1,
                    j - c0 == cc * qd + d,
                    r1 == d,
            ;
            lemma_fundamental_div_mod_converse_mod(c0 + k - 1, cc, q1 - qd, j);
            assert((c0 + (k - 1)) % cc == j);
        } else {
            if (c0 + k - 1) % cc == j {
                lemma_fundamental_div_mod(c0 + k - 1, cc);
                let q2 = (c0 + k - 1) / cc;
                assert(j - c0 == (q1 - q2) * cc + r1) by (nonlinear_arith)
                    requires
                        k - 1 == cc * q1 + r1,
                        c0 + k - 1 == cc * q2 + j,
                ;
                lemma_fundamental_div_mod_converse_mod(j - c0, cc, q1 - q2, r1);
                assert(false);
            }
        }
        // relate k's quotient and remainder to those of k - 1
        if r1 + 1 == cc {
            assert(k == (q1 + 1) * cc + 0) by (nonlinear_arith)
                requires
                    k - 1 == cc * q1 + r1,
                    r1 + 1 == cc,
            ;
            lemma_fundamental_div_mod_converse_div(k, cc, q1 + 1, 0);
            lemma_fundamental_div_mod_converse_mod(k, cc, q1 + 1, 0);
        } else {
            assert(k == q1 * cc + (r1 + 1)) by (nonlinear_arith)
                requires
                    k - 1 == cc * q1 + r1,
            ;
            lemma_fundamental_div_mod_converse_div(k, cc, q1, r1 + 1);
            lemma_fundamental_div_mod_converse_mod(k, cc, q1, r1 + 1);
        }
    }
}

/// Over any `k` consecutive round-robin selections for a target with a
/// stable candidate list of length `cc`, each candidate index is selected
/// either ⌊k/cc⌋ or ⌈k/cc⌉ times; the exact count is given by the first
/// conclusion.
pub proof fn lemma_round_robin_fair(c0: int, k: int, cc: int, j: int)
    requires
        cc >= 1,
        0 <= j < cc,
        k >= 0,
    ensures
        rr_count(c0, k, cc, j) == k / cc + if (j - c0) % cc < k % cc {
            1int
        } else {
            0int
        },
        rr_count(c0, k, cc, j) == k / cc || rr_count(c0, k, cc, j) == (k + cc - 1) / cc,
        k % cc == 0 ==> rr_count(c0, k, cc, j) == k / cc,
{
    lemma_rr_count_formula(c0, k, cc, j);
    lemma_mod_division_less_than_divisor(j - c0, cc);
    lemma_fundamental_div_mod(k, cc);
    lemma_mod_division_less_than_divisor(k, cc);
    let q = k / cc;
    let r = k % cc;
    if r == 0 {
        assert(k + cc - 1 == q * cc + (cc - 1)) by (nonlinear_arith)
            requires
                k == cc * q + r,
                r == 0,
        ;
        lemma_fundamental_div_mod_converse_div(k + cc - 1, cc, q, cc - 1);
    } else {
        assert(k + cc - 1 == (q + 1) * cc + (r - 1)) by (nonlinear_arith)
            requires
                k == cc * q + r,
        ;
        lemma_fundamental_div_mod_converse_div(k + cc - 1, cc, q + 1, r - 1);
    }
}

} // verus!
