//! DNS resolution planning: literal-address short-cuts, a TTL-bounded
//! forward cache, and the server-by-server query plan. The network lookups
//! themselves happen outside; this module decides what to do next and
//! remembers the answers.

use vstd::prelude::*;
use vstd::string::StringSliceAdditionalSpecFns;
use vstd::utf8::encode_utf8;
use crate::config::DNSServerConfig;
use crate::ip::{parse_ip_str, spec_is_private, spec_parse_ip, IpAddress};
use crate::strutil::str_eq;

verus! {

/// How long a cached answer stays fresh, in milliseconds.
pub const CACHE_TTL_MS: u64 = 300000;

/// One cached forward lookup.
#[derive(Debug, Clone)]
pub struct CacheEntry {
    pub domain: String,
    pub ip: Option<IpAddress>,
    pub inserted_ms: u64,
}

/// The mathematical shadow of `CacheEntry`.
pub struct CacheEntryView {
    pub domain: Seq<char>,
    pub ip: Option<IpAddress>,
    pub inserted_ms: u64,
}

impl View for CacheEntry {
    type V = CacheEntryView;

    open spec fn view(&self) -> CacheEntryView {
        CacheEntryView { domain: self.domain@, ip: self.ip, inserted_ms: self.inserted_ms }
    }
}

/// A cached answer inserted at `inserted_ms` is fresh at `now_ms`.
pub open spec fn spec_fresh(inserted_ms: u64, now_ms: u64) -> bool {
    (now_ms as int) < inserted_ms + CACHE_TTL_MS
}

/// The position of a domain's cache entry, or -1.
pub open spec fn cache_idx(c: Seq<CacheEntry>, d: Seq<char>) -> int
    decreases c.len(),
{
    if c.len() == 0 {
        -1
    } else if c[0].domain@ == d {
        0
    } else {
        let k = cache_idx(c.drop_first(), d);
        if k == -1 {
            -1
        } else {
            k + 1
        }
    }
}

/// The cache entry for a domain, if one is present.
pub open spec fn spec_cache_lookup(c: Seq<CacheEntry>, d: Seq<char>) -> Option<CacheEntryView> {
    let k = cache_idx(c, d);
    if k == -1 {
        None
    } else {
        Some(c[k]@)
    }
}

proof fn lemma_cache_idx_bounds(c: Seq<CacheEntry>, d: Seq<char>)
    ensures
        -1 <= cache_idx(c, d) < c.len(),
        cache_idx(c, d) >= 0 ==> c[cache_idx(c, d)].domain@ == d,
    decreases c.len(),
{
    if c.len() > 0 && c[0].domain@ != d {
        lemma_cache_idx_bounds(c.drop_first(), d);
    }
}

proof fn lemma_cache_idx_is(c: Seq<CacheEntry>, d: Seq<char>, j: int)
    requires
        0 <= j < c.len(),
        c[j].domain@ == d,
        forall|x: int| 0 <= x < j ==> (#[trigger] c[x]).domain@ != d,
    ensures
        cache_idx(c, d) == j,
    decreases c.len(),
{
    if j > 0 {
        lemma_cache_idx_is(c.drop_first(), d, j - 1);
    }
}

proof fn lemma_cache_idx_none(c: Seq<CacheEntry>, d: Seq<char>)
    requires
        forall|x: int| 0 <= x < c.len() ==> (#[trigger] c[x]).domain@ != d,
    ensures
        cache_idx(c, d) == -1,
    decreases c.len(),
{
    if c.len() > 0 {
        lemma_cache_idx_none(c.drop_first(), d);
    }
}

proof fn lemma_cache_idx_update(c: Seq<CacheEntry>, j: int, e: CacheEntry, d: Seq<char>)
    requires
        0 <= j < c.len(),
        e.domain@ == c[j].domain@,
    ensures
        cache_idx(c.update(j, e), d) == cache_idx(c, d),
    decreases c.len(),
{
    if c.len() > 0 {
        if j == 0 {
            assert(c.update(j, e)[0].domain@ == c[0].domain@);
            if c[0].domain@ != d {
                assert(c.update(j, e).drop_first() =~= c.drop_first());
            }
        } else {
            assert(c.update(j, e)[0] == c[0]);
            if c[0].domain@ != d {
                assert(c.update(j, e).drop_first() =~= c.drop_first().update(j - 1, e));
                lemma_cache_idx_update(c.drop_first(), j - 1, e, d);
            }
        }
    }
}

proof fn lemma_cache_idx_push(c: Seq<CacheEntry>, e: CacheEntry, d: Seq<char>)
    ensures
        cache_idx(c.push(e), d) == if cache_idx(c, d) != -1 {
            cache_idx(c, d)
        } else if e.domain@ == d {
            c.len() as int
        } else {
            -1
        },
    decreases c.len(),
{
    lemma_cache_idx_bounds(c, d);
    if c.len() == 0 {
        assert(c.push(e)[0] == e);
        if e.domain@ != d {
            assert(c.push(e).drop_first() =~= Seq::<CacheEntry>::empty());
            assert(cache_idx(Seq::<CacheEntry>::empty(), d) == -1);
        }
    } else {
        assert(c.push(e)[0] == c[0]);
        if c[0].domain@ != d {
            lemma_cache_idx_bounds(c.drop_first(), d);
            assert(c.push(e).drop_first() =~= c.drop_first().push(e));
            lemma_cache_idx_push(c.drop_first(), e, d);
        }
    }
}

/// A configured DNS server whose host is not an IP literal.
#[derive(Debug, Clone)]
pub struct DnsConfigError {
    pub host: String,
}

/// What a resolution should do next: answer, or query one more server.
#[derive(Debug, Clone)]
pub enum ResolveStep {
    Done { ip: Option<IpAddress>, elapsed_ms: u64 },
    Query { server_index: usize },
}

/// The resolver: the configured servers in their trial order, the forward
/// cache, and the per-server timeout.
pub struct DNSResolver {
    servers: Vec<DNSServerConfig>,
    cache: Vec<CacheEntry>,
    timeout_ms: u64,
}

impl DNSResolver {
    /// The configured servers.
    pub closed spec fn spec_servers(self) -> Seq<DNSServerConfig> {
        self.servers@
    }

    /// The cached lookups.
    pub closed spec fn spec_cache(self) -> Seq<CacheEntry> {
        self.cache@
    }

    /// The per-server timeout in milliseconds.
    pub closed spec fn spec_timeout_ms(self) -> u64 {
        self.timeout_ms
    }

    /// No domain has two cache entries.
    pub closed spec fn wf(self) -> bool {
        forall|i: int, j: int|
            0 <= i < self.cache@.len() && 0 <= j < self.cache@.len() && i != j ==> (
            #[trigger] self.cache@[i]).domain@ != (#[trigger] self.cache@[j]).domain@
    }

    /// Accepts the configuration when every server host is an IP literal;
    /// otherwise reports the first host that is not.
    pub fn new(servers: Vec<DNSServerConfig>, timeout_ms: u64) -> (r: Result<Self, DnsConfigError>)
        ensures
            match r {
                Ok(res) => res.wf() && res.spec_servers() == servers@ && res.spec_cache()
                    == Seq::<CacheEntry>::empty() && res.spec_timeout_ms() == timeout_ms && (forall|
                    i: int,
                |
                    0 <= i < servers@.len() ==> spec_parse_ip(
                        encode_utf8((#[trigger] servers@[i]).host@),
                    ) is Some),
                Err(e) => exists|i: int|
                    0 <= i < servers@.len() && spec_parse_ip(
                        encode_utf8((#[trigger] servers@[i]).host@),
                    ) is None && e.host@ == servers@[i].host@,
            },
    {
        let mut i: usize = 0;
        while i < servers.len()
            invariant
                0 <= i <= servers@.len(),
                forall|j: int|
                    0 <= j < i ==> spec_parse_ip(
                        encode_utf8((#[trigger] servers@[j]).host@),
                    ) is Some,
            decreases servers@.len() - i,
        {
            if parse_ip_str(servers[i].host.as_str()).is_none() {
                return Err(DnsConfigError { host: servers[i].host.clone() });
            }
            i = i + 1;
        }
        Ok(DNSResolver { servers, cache: Vec::new(), timeout_ms })
    }

    /// The target parses as an IPv4 or IPv6 literal.
    pub fn is_ip_address(&self, target: &str) -> (r: bool)
        ensures
            r == (spec_parse_ip(target.spec_bytes()) is Some),
    {
        parse_ip_str(target).is_some()
    }

    /// The target parses as an IP literal lying in a private or local range.
    pub fn is_private_ip(&self, ip: &str) -> (r: bool)
        ensures
            r == match spec_parse_ip(ip.spec_bytes()) {
                Some(a) => spec_is_private(a),
                None => false,
            },
    {
        match parse_ip_str(ip) {
            Some(a) => a.is_private(),
            None => false,
        }
    }

    /// Starts resolving a domain at wall-clock `now_ms`: an IP literal is
    /// answered outright with no elapsed time; a fresh cached answer is
    /// served with no elapsed time; with no server configured the answer is
    /// a failure charged the full timeout; otherwise the first server is to
    /// be queried.
    pub fn resolve_start(&self, domain: &str, now_ms: u64) -> (r: ResolveStep)
        ensures
            r == ({
                let lit = spec_parse_ip(domain.spec_bytes());
                if lit is Some {
                    ResolveStep::Done { ip: lit, elapsed_ms: 0 }
                } else {
                    match spec_cache_lookup(self.spec_cache(), domain@) {
                        Some(e) if spec_fresh(e.inserted_ms, now_ms) => ResolveStep::Done {
                            ip: e.ip,
                            elapsed_ms: 0,
                        },
                        _ => if self.spec_servers().len() == 0 {
                            ResolveStep::Done { ip: None, elapsed_ms: self.spec_timeout_ms() }
                        } else {
                            ResolveStep::Query { server_index: 0 }
                        },
                    }
                }
            }),
    {
        let lit = parse_ip_str(domain);
        if lit.is_some() {
            return ResolveStep::Done { ip: lit, elapsed_ms: 0 };
        }
        let cached = self.cache_find(domain);
        match cached {
            Some(j) => {
                let e = &self.cache[j];
                if now_ms < e.inserted_ms || now_ms - e.inserted_ms < CACHE_TTL_MS {
                    return ResolveStep::Done { ip: e.ip, elapsed_ms: 0 };
                }
            },
            None => {},
        }
        if self.servers.len() == 0 {
            ResolveStep::Done { ip: None, elapsed_ms: self.timeout_ms }
        } else {
            ResolveStep::Query { server_index: 0 }
        }
    }

    /// Digests the outcome of querying one server: an answer is cached under
    /// the domain (stamped `now_ms`) and resolution is done with the
    /// server's measured time; no answer moves on to the next server, or
    /// gives up with a failure charged the full timeout once every server
    /// has been tried.
    pub fn resolve_next(
        &mut self,
        domain: &str,
        server_index: usize,
        outcome: Option<(IpAddress, u64)>,
        now_ms: u64,
    ) -> (r: ResolveStep)
        requires
            old(self).wf(),
        ensures
            final(self).wf(),
            final(self).spec_servers() == old(self).spec_servers(),
            final(self).spec_timeout_ms() == old(self).spec_timeout_ms(),
            match outcome {
                Some((ip, elapsed_ms)) => {
                    &&& r == ResolveStep::Done { ip: Some(ip), elapsed_ms }
                    &&& (match spec_cache_lookup(final(self).spec_cache(), domain@) {
                        Some(e) => e.ip == Some(ip) && e.inserted_ms == now_ms,
                        None => false,
                    })
                    &&& (forall|d2: Seq<char>|
                        d2 != domain@ ==> spec_cache_lookup(final(self).spec_cache(), d2)
                            == spec_cache_lookup(old(self).spec_cache(), d2))
                },
                None => final(self).spec_cache() == old(self).spec_cache() && r == (
                if server_index + 1 < old(self).spec_servers().len() {
                    ResolveStep::Query { server_index: (server_index + 1) as usize }
                } else {
                    ResolveStep::Done { ip: None, elapsed_ms: old(self).spec_timeout_ms() }
                }),
            },
    {
        match outcome {
            Some((ip, elapsed_ms)) => {
                self.cache_put(domain, Some(ip), now_ms);
                ResolveStep::Done { ip: Some(ip), elapsed_ms }
            },
            None => {
                if server_index < self.servers.len() && self.servers.len() - server_index > 1 {
                    ResolveStep::Query { server_index: server_index + 1 }
                } else {
                    ResolveStep::Done { ip: None, elapsed_ms: self.timeout_ms }
                }
            },
        }
    }

    fn cache_find(&self, domain: &str) -> (r: Option<usize>)
        ensures
            match r {
                Some(j) => cache_idx(self.spec_cache(), domain@) == j as int && j < self.spec_cache().len(),
                None => cache_idx(self.spec_cache(), domain@) == -1 && forall|y: int|
                    0 <= y < self.spec_cache().len() ==> (#[trigger] self.spec_cache()[y]).domain@
                        != domain@,
            },
    {
        let mut j: usize = 0;
        while j < self.cache.len()
            invariant
                0 <= j <= self.cache@.len(),
                forall|y: int| 0 <= y < j ==> (#[trigger] self.cache@[y]).domain@ != domain@,
            decreases self.cache@.len() - j,
        {
            if str_eq(self.cache[j].domain.as_str(), domain) {
                proof {
                    lemma_cache_idx_is(self.cache@, domain@, j as int);
                }
                return Some(j);
            }
            j = j + 1;
        }
        proof {
            lemma_cache_idx_none(self.cache@, domain@);
        }
        None
    }

    fn cache_put(&mut self, domain: &str, ip: Option<IpAddress>, now_ms: u64)
        requires
            old(self).wf(),
        ensures
            final(self).wf(),
            final(self).spec_servers() == old(self).spec_servers(),
            final(self).spec_timeout_ms() == old(self).spec_timeout_ms(),
            match spec_cache_lookup(final(self).spec_cache(), domain@) {
                Some(e) => e.ip == ip && e.inserted_ms == now_ms,
                None => false,
            },
            forall|d2: Seq<char>|
                d2 != domain@ ==> spec_cache_lookup(final(self).spec_cache(), d2)
                    == spec_cache_lookup(old(self).spec_cache(), d2),
    {
        let ghost c0 = self.cache@;
        let found = self.cache_find(domain);
        match found {
            Some(j) => {
                let key = self.cache[j].domain.clone();
                self.cache[j] = CacheEntry { domain: key, ip, inserted_ms: now_ms };
                proof {
                    let c1 = self.cache@;
                    let e = c1[j as int];
                    assert(c1 == c0.update(j as int, e));
                    assert(forall|x: int|
                        0 <= x < c1.len() ==> (#[trigger] c1[x]).domain@ == c0[x].domain@);
                    assert forall|d2: Seq<char>| true implies cache_idx(c1, d2) == cache_idx(
                        c0,
                        d2,
                    ) by {
                        lemma_cache_idx_update(c0, j as int, e, d2);
                    }
                    lemma_cache_idx_bounds(c0, domain@);
                    assert forall|d2: Seq<char>| d2 != domain@ implies spec_cache_lookup(c1, d2)
                        == spec_cache_lookup(c0, d2) by {
                        lemma_cache_idx_bounds(c0, d2);
                        if cache_idx(c0, d2) >= 0 {
                            assert(cache_idx(c0, d2) != j as int);
                        }
                    }
                }
            },
            None => {
                self.cache.push(CacheEntry { domain: domain.to_owned(), ip, inserted_ms: now_ms });
                proof {
                    let c1 = self.cache@;
                    let e = c1.last();
                    assert(c1 == c0.push(e));
                    assert(e.domain@ == domain@);
                    lemma_cache_idx_push(c0, e, domain@);
                    assert forall|d2: Seq<char>| d2 != domain@ implies spec_cache_lookup(c1, d2)
                        == spec_cache_lookup(c0, d2) by {
                        lemma_cache_idx_push(c0, e, d2);
                        lemma_cache_idx_bounds(c0, d2);
                    }
                }
            },
        }
    }
}

} // verus!
