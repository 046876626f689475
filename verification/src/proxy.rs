//! The proxy's dispatch decisions: how a request's method is handled, how a
//! target is split from a host:port text, which headers are forwarded, in
//! which order first-contact probes run, how an upstream response is
//! classified, and whether a failed forward retries through an alternate
//! runway. The sockets, the HTTP client and the listener live outside.

use vstd::prelude::*;
use vstd::string::StringSliceAdditionalSpecFns;
use vstd::utf8::{encode_utf8, is_char_boundary};
use crate::ip::{dec_run, dec_value, is_dec_digit, lemma_dec_run_digits, lemma_dec_value_bound, seg_run};
use crate::runway::Runway;
use crate::runway_manager::RunwayManager;
use crate::strutil::{find_at, lemma_find_at_bounds, str_eq};
use crate::tracker::{spec_admissible, TargetAccessibilityTracker};
use crate::validator::{has_error_marker, lower_of, SuccessValidator};

verus! {

/// How many times one request is forwarded at most (first try plus one
/// retry through an alternate runway).
pub const MAX_FORWARD_ATTEMPTS: u32 = 2;

/// How many first-contact probes run concurrently at most.
pub const PROBE_BATCH_SIZE: usize = 5;

/// What the proxy does with an inbound request before any forwarding.
#[derive(Debug, Clone, Copy, PartialEq, Eq, Structural)]
pub enum RequestPlan {
    RejectConnect { status: u16 },
    Forward,
}

/// CONNECT is not implemented and is answered 501; everything else is
/// forwarded.
pub fn plan_request(is_connect: bool) -> (r: RequestPlan)
    ensures
        r == if is_connect {
            RequestPlan::RejectConnect { status: 501 }
        } else {
            RequestPlan::Forward
        },
{
    if is_connect {
        RequestPlan::RejectConnect { status: 501 }
    } else {
        RequestPlan::Forward
    }
}

/// The port named after the first colon, when it is one to five decimal
/// digits valuing at most 65535; else the default.
pub open spec fn spec_port_after(bytes: Seq<u8>, i: int, default_port: u16) -> u16 {
    let run = dec_run(bytes, i, bytes.len() as int) as int;
    if i + run == bytes.len() && 1 <= run <= 5 && dec_value(bytes, i, i + run) <= 65535 {
        dec_value(bytes, i, i + run) as u16
    } else {
        default_port
    }
}

/// Splits a "host:port" text at its first colon. Without a colon the whole
/// text is the host and the default port applies; an unusable port text
/// also falls back to the default.
pub fn split_host_port(s: &str, default_port: u16) -> (r: (String, u16))
    ensures
        ({
            let bytes = s.spec_bytes();
            let c = seg_run(bytes, 0, bytes.len() as int) as int;
            if c == bytes.len() {
                r.0@ == s@ && r.1 == default_port
            } else if is_char_boundary(bytes, c) {
                encode_utf8(r.0@) == bytes.subrange(0, c) && r.1 == spec_port_after(
                    bytes,
                    c + 1,
                    default_port,
                )
            } else {
                r.0@ == s@ && r.1 == default_port
            }
        }),
{
    let b = s.as_bytes();
    let n = b.len();
    let mut c: usize = 0;
    while c < n && b[c] != 58
        invariant
            n == b@.len(),
            b@ == s.spec_bytes(),
            0 <= c <= n,
            seg_run(b@, 0, n as int) == c + seg_run(b@, c as int, n as int),
        decreases n - c,
    {
        c = c + 1;
    }
    if c == n {
        return (s.to_owned(), default_port);
    }
    if !s.is_char_boundary(c) {
        return (s.to_owned(), default_port);
    }
    let (host_str, _rest) = s.split_at(c);
    let host = host_str.to_owned();
    let i = c + 1;
    let mut e: usize = i;
    while e < n && 48 <= b[e] && b[e] <= 57
        invariant
            n == b@.len(),
            b@ == s.spec_bytes(),
            i <= e <= n,
            dec_run(b@, i as int, n as int) == (e - i) + dec_run(b@, e as int, n as int),
        decreases n - e,
    {
        e = e + 1;
    }
    if e == n && 1 <= e - i && e - i <= 5 {
        proof {
            lemma_dec_run_digits(b@, i as int, n as int);
        }
        let mut acc: u32 = 0;
        let mut x = i;
        while x < e
            invariant
                n == b@.len(),
                b@ == s.spec_bytes(),
                i <= x <= e <= n,
                e - i <= 5,
                forall|y: int| i <= y < e ==> is_dec_digit(#[trigger] b@[y]),
                acc as int == dec_value(b@, i as int, x as int),
            decreases e - x,
        {
            proof {
                lemma_dec_value_bound(b@, i as int, x as int);
            }
            acc = acc * 10 + (b[x] - 48) as u32;
            x = x + 1;
        }
        if acc <= 65535 {
            return (host, acc as u16);
        }
    }
    (host, default_port)
}

/// Filters hop-by-hop headers: everything is forwarded but `host`,
/// `connection` and `proxy-connection`.
pub fn should_forward_header(name: &str) -> (r: bool)
    ensures
        r == (name@ != "host"@ && name@ != "connection"@ && name@ != "proxy-connection"@),
{
    !str_eq(name, "host") && !str_eq(name, "connection") && !str_eq(name, "proxy-connection")
}

/// Classifies a forwarded response: network success is a status in
/// [200, 400); user success is the validator's verdict, which additionally
/// needs a non-empty body whose lowercasing carries no error marker.
pub fn classify_response(validator: &SuccessValidator, status: u16, body: &[u8]) -> (r: (
    bool,
    bool,
))
    ensures
        r.0 == (200 <= status && status < 400),
        r.1 == (200 <= status && status < 400 && body@.len() > 0 && !has_error_marker(
            lower_of(body@),
        )),
{
    validator.validate_http(status, body)
}

/// The direct runways of a list, in order.
pub open spec fn spec_directs(rws: Seq<Runway>) -> Seq<Runway>
    decreases rws.len(),
{
    if rws.len() == 0 {
        Seq::empty()
    } else {
        let prefix = spec_directs(rws.drop_last());
        if rws.last().is_direct {
            prefix.push(rws.last())
        } else {
            prefix
        }
    }
}

/// The proxy runways of a list, in order.
pub open spec fn spec_proxied(rws: Seq<Runway>) -> Seq<Runway>
    decreases rws.len(),
{
    if rws.len() == 0 {
        Seq::empty()
    } else {
        let prefix = spec_proxied(rws.drop_last());
        if !rws.last().is_direct {
            prefix.push(rws.last())
        } else {
            prefix
        }
    }
}

/// Orders runways for first-contact probing: every direct runway first,
/// then every proxy runway, each group in its original order. Probes then
/// run over this list in batches of at most `PROBE_BATCH_SIZE`.
pub fn prioritize_runways(runways: &Vec<Runway>) -> (r: Vec<Runway>)
    ensures
        ({
            let want = spec_directs(runways@) + spec_proxied(runways@);
            r@.len() == want.len() && forall|x: int|
                0 <= x < r@.len() ==> (#[trigger] r@[x])@ == want[x]@
        }),
{
    let mut r: Vec<Runway> = Vec::new();
    let mut i: usize = 0;
    while i < runways.len()
        invariant
            0 <= i <= runways@.len(),
            ({
                let want = spec_directs(runways@.subrange(0, i as int));
                r@.len() == want.len() && forall|x: int|
                    0 <= x < r@.len() ==> (#[trigger] r@[x])@ == want[x]@
            }),
        decreases runways@.len() - i,
    {
        proof {
            assert(runways@.subrange(0, i + 1).drop_last() =~= runways@.subrange(0, i as int));
            assert(runways@.subrange(0, i + 1).last() == runways@[i as int]);
        }
        if runways[i].is_direct {
            r.push(runways[i].duplicate());
        }
        i = i + 1;
    }
    proof {
        assert(runways@.subrange(0, runways@.len() as int) =~= runways@);
    }
    let ghost nd = spec_directs(runways@).len();
    let mut j: usize = 0;
    while j < runways.len()
        invariant
            0 <= j <= runways@.len(),
            nd == spec_directs(runways@).len(),
            ({
                let want = spec_directs(runways@) + spec_proxied(runways@.subrange(0, j as int));
                r@.len() == want.len() && forall|x: int|
                    0 <= x < r@.len() ==> (#[trigger] r@[x])@ == want[x]@
            }),
        decreases runways@.len() - j,
    {
        proof {
            assert(runways@.subrange(0, j + 1).drop_last() =~= runways@.subrange(0, j as int));
            assert(runways@.subrange(0, j + 1).last() == runways@[j as int]);
        }
        if !runways[j].is_direct {
            r.push(runways[j].duplicate());
        }
        j = j + 1;
    }
    proof {
        assert(runways@.subrange(0, runways@.len() as int) =~= runways@);
    }
    r
}

/// What a finished forward attempt leads to.
#[derive(Debug, Clone)]
pub enum ForwardDecision {
    Respond,
    Retry(Runway),
    Fail,
}

/// After a forward attempt: a network success is answered to the client; a
/// failure retries through the offered alternate runway while attempts
/// remain; otherwise the request fails with 502.
pub fn next_attempt(attempt: u32, network_success: bool, alternative: Option<Runway>) -> (r:
    ForwardDecision)
    ensures
        r == (if network_success {
            ForwardDecision::Respond
        } else if attempt + 1 < MAX_FORWARD_ATTEMPTS && alternative is Some {
            ForwardDecision::Retry(alternative->0)
        } else {
            ForwardDecision::Fail
        }),
{
    if network_success {
        ForwardDecision::Respond
    } else if attempt < MAX_FORWARD_ATTEMPTS - 1 {
        match alternative {
            Some(rw) => ForwardDecision::Retry(rw),
            None => ForwardDecision::Fail,
        }
    } else {
        ForwardDecision::Fail
    }
}

/// An alternate runway for a failed forward: scanning the tracker's
/// admitted ids for the target, the first one that differs from the current
/// runway and is known to the inventory. None exactly when no admitted id
/// other than the current one is in the inventory.
pub fn get_alternative_runway(
    tracker: &TargetAccessibilityTracker,
    manager: &RunwayManager,
    target: &str,
    current_id: &str,
) -> (r: Option<Runway>)
    requires
        tracker.wf(),
    ensures
        match r {
            Some(v) => {
                let k = find_at(manager.spec_runways(), |rw: Runway| rw.id@ == v@.id);
                &&& v@.id != current_id@
                &&& tracker.spec_contents().contains_key((target@, v@.id))
                &&& spec_admissible(
                    tracker.spec_contents()[(target@, v@.id)]@,
                    tracker.spec_threshold(),
                )
                &&& k >= 0 && v@ == manager.spec_runways()[k]@
            },
            None => forall|k: (Seq<char>, Seq<char>)|
                #[trigger] tracker.spec_contents().contains_key(k) && k.0 == target@
                    && spec_admissible(tracker.spec_contents()[k]@, tracker.spec_threshold())
                    && k.1 != current_id@ ==> find_at(
                    manager.spec_runways(),
                    |rw: Runway| rw.id@ == k.1,
                ) == -1,
        },
{
    let ids = tracker.get_accessible_runways(target);
    let mut i: usize = 0;
    while i < ids.len()
        invariant
            tracker.wf(),
            0 <= i <= ids@.len(),
            forall|x: int|
                0 <= x < ids@.len() ==> tracker.spec_contents().contains_key(
                    (target@, (#[trigger] ids@[x])@),
                ) && spec_admissible(
                    tracker.spec_contents()[(target@, ids@[x]@)]@,
                    tracker.spec_threshold(),
                ),
            forall|k: (Seq<char>, Seq<char>)|
                #[trigger] tracker.spec_contents().contains_key(k) && k.0 == target@
                    && spec_admissible(tracker.spec_contents()[k]@, tracker.spec_threshold())
                    ==> exists|x: int| 0 <= x < ids@.len() && (#[trigger] ids@[x])@ == k.1,
            forall|x: int|
                0 <= x < i ==> (#[trigger] ids@[x])@ == current_id@ || find_at(
                    manager.spec_runways(),
                    |rw: Runway| rw.id@ == ids@[x]@,
                ) == -1,
        decreases ids@.len() - i,
    {
        if !str_eq(ids[i].as_str(), current_id) {
            match manager.get_runway(ids[i].as_str()) {
                Some(rw) => {
                    proof {
                        let p1 = |rw2: Runway| rw2.id@ == ids@[i as int]@;
                        lemma_find_at_bounds(manager.spec_runways(), p1);
                        assert(rw@.id == ids@[i as int]@);
                        let p2 = |rw2: Runway| rw2.id@ == rw@.id;
                        assert(p1 =~= p2);
                        assert(find_at(manager.spec_runways(), p2) == find_at(
                            manager.spec_runways(),
                            p1,
                        ));
                    }
                    return Some(rw);
                },
                None => {},
            }
        }
        i = i + 1;
    }
    proof {
        assert forall|k: (Seq<char>, Seq<char>)|
            #[trigger] tracker.spec_contents().contains_key(k) && k.0 == target@
                && spec_admissible(tracker.spec_contents()[k]@, tracker.spec_threshold()) && k.1
                != current_id@ implies find_at(manager.spec_runways(), |rw: Runway| rw.id@ == k.1)
            == -1 by {
            let x = choose|x: int| 0 <= x < ids@.len() && (#[trigger] ids@[x])@ == k.1;
            assert(ids@[x]@ == current_id@ || find_at(
                manager.spec_runways(),
                |rw: Runway| rw.id@ == ids@[x]@,
            ) == -1);
        }
    }
    None
}

} // verus!
