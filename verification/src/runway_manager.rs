//! The runway inventory: the host's IPv4 interfaces as last observed, the
//! configured upstream proxies and DNS servers, and the runways built from
//! their cross product.

use vstd::prelude::*;
use vstd::string::StringExecFns;
use vstd::arithmetic::div_mod::{
    lemma_fundamental_div_mod_converse_div, lemma_fundamental_div_mod_converse_mod,
};
use crate::config::{DNSServerConfig, UpstreamProxyConfig};
use crate::ip::IpAddress;
use crate::runway::{
    DNSServer, DNSServerView, Runway, RunwayView, UpstreamProxy, UpstreamProxyView,
};
use crate::strutil::{
    find_at, lemma_find_at_is, lemma_find_at_none, spec_dec, str_eq, u64_to_string,
    vec_contains_str,
};

verus! {

/// One local IPv4 interface as last observed.
#[derive(Debug, Clone)]
pub struct InterfaceInfo {
    pub name: String,
    pub ip: IpAddress,
    pub netmask: Option<String>,
}

/// The mathematical shadow of `InterfaceInfo`.
pub struct InterfaceInfoView {
    pub name: Seq<char>,
    pub ip: IpAddress,
    pub netmask: Option<Seq<char>>,
}

impl View for InterfaceInfo {
    type V = InterfaceInfoView;

    open spec fn view(&self) -> InterfaceInfoView {
        InterfaceInfoView {
            name: self.name@,
            ip: self.ip,
            netmask: match self.netmask {
                Some(ref m) => Some(m@),
                None => None,
            },
        }
    }
}

impl InterfaceInfo {
    /// An explicit copy whose view equals this record's view.
    pub fn duplicate(&self) -> (r: Self)
        ensures
            r@ == self@,
    {
        let netmask = match &self.netmask {
            Some(m) => Some(m.clone()),
            None => None,
        };
        let r = InterfaceInfo { name: self.name.clone(), ip: self.ip, netmask };
        assert(r@ =~= self@);
        r
    }
}

/// The views of a sequence of interface records.
pub open spec fn views_of_ifaces(s: Seq<InterfaceInfo>) -> Seq<InterfaceInfoView> {
    s.map_values(|f: InterfaceInfo| f@)
}

/// Replaces the entry carrying `e`'s name, or appends `e`.
pub open spec fn spec_upsert(acc: Seq<InterfaceInfoView>, e: InterfaceInfoView) -> Seq<
    InterfaceInfoView,
>
    decreases acc.len(),
{
    if acc.len() == 0 {
        seq![e]
    } else if acc[0].name == e.name {
        seq![e] + acc.drop_first()
    } else {
        seq![acc[0]] + spec_upsert(acc.drop_first(), e)
    }
}

/// The first `k` observations folded into an interface table, in order.
pub open spec fn spec_upsert_all(obs: Seq<InterfaceInfoView>, k: int) -> Seq<InterfaceInfoView>
    decreases k,
{
    if k <= 0 {
        Seq::empty()
    } else {
        spec_upsert(spec_upsert_all(obs, k - 1), obs[k - 1])
    }
}

proof fn lemma_spec_upsert_found(acc: Seq<InterfaceInfoView>, e: InterfaceInfoView, j: int)
    requires
        0 <= j < acc.len(),
        acc[j].name == e.name,
        forall|x: int| 0 <= x < j ==> (#[trigger] acc[x]).name != e.name,
    ensures
        spec_upsert(acc, e) == acc.update(j, e),
    decreases acc.len(),
{
    if j == 0 {
        assert(spec_upsert(acc, e) =~= acc.update(0, e));
    } else {
        lemma_spec_upsert_found(acc.drop_first(), e, j - 1);
        assert(spec_upsert(acc, e) =~= acc.update(j, e));
    }
}

proof fn lemma_spec_upsert_missing(acc: Seq<InterfaceInfoView>, e: InterfaceInfoView)
    requires
        forall|x: int| 0 <= x < acc.len() ==> (#[trigger] acc[x]).name != e.name,
    ensures
        spec_upsert(acc, e) == acc.push(e),
    decreases acc.len(),
{
    if acc.len() == 0 {
        assert(spec_upsert(acc, e) =~= acc.push(e));
    } else {
        lemma_spec_upsert_missing(acc.drop_first(), e);
        assert(spec_upsert(acc, e) =~= acc.push(e));
    }
}

fn find_iface(table: &Vec<InterfaceInfo>, name: &str) -> (r: Option<usize>)
    ensures
        match r {
            Some(j) => 0 <= j < table@.len() && (#[trigger] table@[j as int]).name@ == name@
                && forall|x: int| 0 <= x < j ==> (#[trigger] table@[x]).name@ != name@,
            None => forall|x: int| 0 <= x < table@.len() ==> (#[trigger] table@[x]).name@ != name@,
        },
{
    let mut j: usize = 0;
    while j < table.len()
        invariant
            0 <= j <= table@.len(),
            forall|x: int| 0 <= x < j ==> (#[trigger] table@[x]).name@ != name@,
        decreases table@.len() - j,
    {
        if str_eq(table[j].name.as_str(), name) {
            return Some(j);
        }
        j = j + 1;
    }
    None
}

/// The views of a sequence of proxies.
pub open spec fn views_of_proxies(s: Seq<UpstreamProxy>) -> Seq<UpstreamProxyView> {
    s.map_values(|p: UpstreamProxy| p@)
}

/// The views of a sequence of DNS servers.
pub open spec fn views_of_dns(s: Seq<DNSServer>) -> Seq<DNSServerView> {
    s.map_values(|d: DNSServer| d@)
}

/// The id of a direct runway: its interface, its DNS host, and the counter.
pub open spec fn spec_direct_id(iface: Seq<char>, dns_host: Seq<char>, n: int) -> Seq<char> {
    "direct_"@ + iface + "_"@ + dns_host + "_"@ + spec_dec(n as nat)
}

/// The id of a proxy runway: its interface, the proxy's type and host, the
/// DNS host, and the counter.
pub open spec fn spec_proxy_id(
    iface: Seq<char>,
    proxy_type: Seq<char>,
    proxy_host: Seq<char>,
    dns_host: Seq<char>,
    n: int,
) -> Seq<char> {
    "proxy_"@ + iface + "_"@ + proxy_type + "_"@ + proxy_host + "_"@ + dns_host + "_"@ + spec_dec(
        n as nat,
    )
}

/// The direct runway built for an interface, a DNS server and a counter.
pub open spec fn spec_direct_view(f: InterfaceInfoView, d: DNSServerView, n: int) -> RunwayView {
    RunwayView {
        id: spec_direct_id(f.name, d.config.host, n),
        interface: f.name,
        source_ip: Some(f.ip),
        upstream_proxy: None,
        dns_server: Some(d),
        resolved_ip: None,
        is_direct: true,
    }
}

/// The proxy runway built for an interface, a proxy, a DNS server and a
/// counter.
pub open spec fn spec_proxy_view(
    f: InterfaceInfoView,
    p: UpstreamProxyView,
    d: DNSServerView,
    n: int,
) -> RunwayView {
    RunwayView {
        id: spec_proxy_id(f.name, p.config.proxy_type, p.config.host, d.config.host, n),
        interface: f.name,
        source_ip: Some(f.ip),
        upstream_proxy: Some(p),
        dns_server: Some(d),
        resolved_ip: None,
        is_direct: false,
    }
}

/// Every runway a discovery yields, in order: all direct runways (interface
/// major, DNS server minor), then all proxy runways (interface major, proxy
/// middle, DNS server minor), numbered consecutively from zero.
pub open spec fn spec_discovered_views(
    sel: Seq<InterfaceInfoView>,
    proxies: Seq<UpstreamProxyView>,
    dns: Seq<DNSServerView>,
) -> Seq<RunwayView> {
    let nd = dns.len() as int;
    let np = proxies.len() as int;
    let ns = sel.len() as int;
    Seq::new((ns * nd) as nat, |k: int| spec_direct_view(sel[k / nd], dns[k % nd], k)) + Seq::new(
        ((ns * np) * nd) as nat,
        |k: int|
            spec_proxy_view(sel[k / (np * nd)], proxies[(k / nd) % np], dns[k % nd], ns * nd + k),
    )
}

/// The consecutive counter at the tail of every id keeps the discovered
/// runways' ids pairwise distinct, whatever the interface, proxy and server
/// names are.
pub proof fn lemma_discovered_ids_unique(
    sel: Seq<InterfaceInfoView>,
    proxies: Seq<UpstreamProxyView>,
    dns: Seq<DNSServerView>,
)
    ensures
        forall|k1: int, k2: int|
            0 <= k1 < spec_discovered_views(sel, proxies, dns).len() && 0 <= k2
                < spec_discovered_views(sel, proxies, dns).len() && k1 != k2 ==> (
            #[trigger] spec_discovered_views(sel, proxies, dns)[k1]).id != (
            #[trigger] spec_discovered_views(sel, proxies, dns)[k2]).id,
{
    let views = spec_discovered_views(sel, proxies, dns);
    let nd = dns.len() as int;
    let np = proxies.len() as int;
    let ns = sel.len() as int;
    assert forall|k: int| 0 <= k < views.len() implies exists|a: Seq<char>|
        (#[trigger] views[k]).id == a + "_"@ + spec_dec(k as nat) by {
        if k < ns * nd {
            let a = "direct_"@ + sel[k / nd].name + "_"@ + dns[k % nd].config.host;
            assert(views[k].id == a + "_"@ + spec_dec(k as nat));
        } else {
            let q = k - ns * nd;
            let p = proxies[(q / nd) % np];
            let a = "proxy_"@ + sel[q / (np * nd)].name + "_"@ + p.config.proxy_type + "_"@
                + p.config.host + "_"@ + dns[q % nd].config.host;
            assert(views[k].id == a + "_"@ + spec_dec((ns * nd + q) as nat));
            assert(ns * nd + q == k);
        }
    }
    assert forall|k1: int, k2: int|
        0 <= k1 < views.len() && 0 <= k2 < views.len() && k1 != k2 implies (
    #[trigger] views[k1]).id != (#[trigger] views[k2]).id by {
        if views[k1].id == views[k2].id {
            let a1 = choose|a: Seq<char>| views[k1].id == a + "_"@ + spec_dec(k1 as nat);
            let a2 = choose|a: Seq<char>| views[k2].id == a + "_"@ + spec_dec(k2 as nat);
            crate::strutil::lemma_counter_suffix_unique(a1, a2, k1 as nat, k2 as nat);
            assert(false);
        }
    }
}

/// The configuration names the pseudo-interface "auto".
pub open spec fn spec_auto(cfg: Seq<String>) -> bool {
    exists|i: int| 0 <= i < cfg.len() && (#[trigger] cfg[i])@ == "auto"@
}

/// The interfaces a discovery works over, resolved against the table: every
/// observed one under "auto", else the configured names present in the
/// table, in configuration order.
pub open spec fn spec_selected_list(cfg: Seq<String>, info: Seq<InterfaceInfo>) -> Seq<
    InterfaceInfo,
>
    decreases cfg.len(),
{
    if cfg.len() == 0 {
        Seq::empty()
    } else {
        let rest = spec_selected_list(cfg.drop_last(), info);
        let k = find_at(info, |f: InterfaceInfo| f.name@ == cfg.last()@);
        if k >= 0 {
            rest.push(info[k])
        } else {
            rest
        }
    }
}

/// See `spec_selected_list`; "auto" selects the whole table.
pub open spec fn spec_selected(cfg: Seq<String>, info: Seq<InterfaceInfo>) -> Seq<InterfaceInfo> {
    if spec_auto(cfg) {
        info
    } else {
        spec_selected_list(cfg, info)
    }
}

proof fn lemma_selected_list_len(cfg: Seq<String>, info: Seq<InterfaceInfo>)
    ensures
        spec_selected_list(cfg, info).len() <= cfg.len(),
    decreases cfg.len(),
{
    if cfg.len() > 0 {
        lemma_selected_list_len(cfg.drop_last(), info);
        let p = |f: InterfaceInfo| f.name@ == cfg.last()@;
        crate::strutil::lemma_find_at_bounds(info, p);
    }
}

fn make_direct_id(iface: &str, dns_host: &str, n: u64) -> (r: String)
    ensures
        r@ == spec_direct_id(iface@, dns_host@, n as int),
{
    let mut s = "direct_".to_owned();
    s.append(iface);
    s.append("_");
    s.append(dns_host);
    s.append("_");
    let num = u64_to_string(n);
    s.append(num.as_str());
    proof {
        assert(s@ =~= spec_direct_id(iface@, dns_host@, n as int));
    }
    s
}

fn make_proxy_id(iface: &str, proxy_type: &str, proxy_host: &str, dns_host: &str, n: u64) -> (r:
    String)
    ensures
        r@ == spec_proxy_id(iface@, proxy_type@, proxy_host@, dns_host@, n as int),
{
    let mut s = "proxy_".to_owned();
    s.append(iface);
    s.append("_");
    s.append(proxy_type);
    s.append("_");
    s.append(proxy_host);
    s.append("_");
    s.append(dns_host);
    s.append("_");
    let num = u64_to_string(n);
    s.append(num.as_str());
    proof {
        assert(s@ =~= spec_proxy_id(iface@, proxy_type@, proxy_host@, dns_host@, n as int));
    }
    s
}

/// The inventory.
pub struct RunwayManager {
    interfaces: Vec<String>,
    upstream_proxies: Vec<UpstreamProxy>,
    dns_servers: Vec<DNSServer>,
    runways: Vec<Runway>,
    interface_info: Vec<InterfaceInfo>,
}

/// How a probe should reach a target through a runway, decided before any
/// network work: refuse outright, connect directly, or go through the
/// runway's upstream proxy.
#[derive(Debug, Clone, Copy, PartialEq, Eq, Structural)]
pub enum ConnectionPlan {
    Refuse,
    Direct,
    ViaProxy,
}

impl RunwayManager {
    /// The configured interface names ("auto" admits every observed one).
    pub closed spec fn spec_interfaces(self) -> Seq<String> {
        self.interfaces@
    }

    /// The upstream proxies.
    pub closed spec fn spec_proxies(self) -> Seq<UpstreamProxy> {
        self.upstream_proxies@
    }

    /// The DNS servers.
    pub closed spec fn spec_dns(self) -> Seq<DNSServer> {
        self.dns_servers@
    }

    /// The runways of the last discovery.
    pub closed spec fn spec_runways(self) -> Seq<Runway> {
        self.runways@
    }

    /// The interface table.
    pub closed spec fn spec_info(self) -> Seq<InterfaceInfo> {
        self.interface_info@
    }

    /// Builds an inventory: proxies start accessible with no failures, DNS
    /// servers start unmeasured, and no interface or runway is known yet.
    pub fn new(
        interfaces: Vec<String>,
        upstream_proxies: Vec<UpstreamProxyConfig>,
        dns_servers: Vec<DNSServerConfig>,
    ) -> (r: Self)
        ensures
            r.spec_interfaces() == interfaces@,
            r.spec_proxies().len() == upstream_proxies@.len(),
            forall|i: int|
                0 <= i < upstream_proxies@.len() ==> (#[trigger] r.spec_proxies()[i])@
                    == (UpstreamProxyView {
                    config: upstream_proxies@[i]@,
                    accessible: true,
                    last_success_ms: None,
                    failure_count: 0,
                }),
            r.spec_dns().len() == dns_servers@.len(),
            forall|i: int|
                0 <= i < dns_servers@.len() ==> (#[trigger] r.spec_dns()[i])@ == (DNSServerView {
                    config: dns_servers@[i]@,
                    response_time_ms: 0,
                    last_success_ms: None,
                    failure_count: 0,
                }),
            r.spec_runways().len() == 0,
            r.spec_info().len() == 0,
    {
        let mut proxies: Vec<UpstreamProxy> = Vec::new();
        let mut i: usize = 0;
        while i < upstream_proxies.len()
            invariant
                0 <= i <= upstream_proxies@.len(),
                proxies@.len() == i,
                forall|x: int|
                    0 <= x < i ==> (#[trigger] proxies@[x])@ == (UpstreamProxyView {
                        config: upstream_proxies@[x]@,
                        accessible: true,
                        last_success_ms: None,
                        failure_count: 0,
                    }),
            decreases upstream_proxies@.len() - i,
        {
            let p = UpstreamProxy {
                config: upstream_proxies[i].duplicate(),
                accessible: true,
                last_success_ms: None,
                failure_count: 0,
            };
            proxies.push(p);
            i = i + 1;
        }
        let mut servers: Vec<DNSServer> = Vec::new();
        let mut j: usize = 0;
        while j < dns_servers.len()
            invariant
                0 <= j <= dns_servers@.len(),
                servers@.len() == j,
                forall|x: int|
                    0 <= x < j ==> (#[trigger] servers@[x])@ == (DNSServerView {
                        config: dns_servers@[x]@,
                        response_time_ms: 0,
                        last_success_ms: None,
                        failure_count: 0,
                    }),
            decreases dns_servers@.len() - j,
        {
            let d = DNSServer {
                config: dns_servers[j].duplicate(),
                response_time_ms: 0,
                last_success_ms: None,
                failure_count: 0,
            };
            servers.push(d);
            j = j + 1;
        }
        RunwayManager {
            interfaces,
            upstream_proxies: proxies,
            dns_servers: servers,
            runways: Vec::new(),
            interface_info: Vec::new(),
        }
    }

    /// Replaces the interface table with the observations, folded in order:
    /// a repeated name keeps its last observed address, and names no longer
    /// observed are gone. Runways are not regenerated here.
    pub fn refresh_interfaces(&mut self, observed: Vec<InterfaceInfo>)
        ensures
            views_of_ifaces(final(self).spec_info()) == spec_upsert_all(
                views_of_ifaces(observed@),
                observed@.len() as int,
            ),
            final(self).spec_interfaces() == old(self).spec_interfaces(),
            final(self).spec_proxies() == old(self).spec_proxies(),
            final(self).spec_dns() == old(self).spec_dns(),
            final(self).spec_runways() == old(self).spec_runways(),
    {
        let ghost obs_v = views_of_ifaces(observed@);
        let mut table: Vec<InterfaceInfo> = Vec::new();
        let mut k: usize = 0;
        while k < observed.len()
            invariant
                0 <= k <= observed@.len(),
                obs_v == views_of_ifaces(observed@),
                views_of_ifaces(table@) == spec_upsert_all(obs_v, k as int),
            decreases observed@.len() - k,
        {
            let ghost t0 = views_of_ifaces(table@);
            let e = observed[k].duplicate();
            proof {
                assert(e@ == obs_v[k as int]);
            }
            match find_iface(&table, e.name.as_str()) {
                Some(j) => {
                    let key = table[j].name.clone();
                    let nm = match &e.netmask {
                        Some(m) => Some(m.clone()),
                        None => None,
                    };
                    table[j] = InterfaceInfo { name: key, ip: e.ip, netmask: nm };
                    proof {
                        assert(table@[j as int]@ =~= e@);
                        assert(views_of_ifaces(table@) =~= t0.update(j as int, e@));
                        lemma_spec_upsert_found(t0, e@, j as int);
                        assert(spec_upsert(t0, e@) == spec_upsert_all(obs_v, k + 1));
                    }
                },
                None => {
                    table.push(e);
                    proof {
                        assert(views_of_ifaces(table@) =~= t0.push(table@.last()@));
                        lemma_spec_upsert_missing(t0, table@.last()@);
                        assert(spec_upsert(t0, table@.last()@) == spec_upsert_all(obs_v, k + 1));
                    }
                },
            }
            k = k + 1;
        }
        self.interface_info = table;
    }

    fn selected_interfaces(&self) -> (r: Vec<InterfaceInfo>)
        ensures
            ({
                let sel = spec_selected(self.spec_interfaces(), self.spec_info());
                r@.len() == sel.len() && forall|x: int|
                    0 <= x < r@.len() ==> (#[trigger] r@[x])@ == sel[x]@
            }),
    {
        if vec_contains_str(&self.interfaces, "auto") {
            let mut r: Vec<InterfaceInfo> = Vec::new();
            let mut j: usize = 0;
            while j < self.interface_info.len()
                invariant
                    0 <= j <= self.interface_info@.len(),
                    r@.len() == j,
                    forall|x: int| 0 <= x < j ==> (#[trigger] r@[x])@ == self.interface_info@[x]@,
                decreases self.interface_info@.len() - j,
            {
                r.push(self.interface_info[j].duplicate());
                j = j + 1;
            }
            r
        } else {
            assert(!spec_auto(self.interfaces@));
            let mut r: Vec<InterfaceInfo> = Vec::new();
            let mut i: usize = 0;
            while i < self.interfaces.len()
                invariant
                    0 <= i <= self.interfaces@.len(),
                    !spec_auto(self.interfaces@),
                    ({
                        let sel = spec_selected_list(
                            self.interfaces@.subrange(0, i as int),
                            self.interface_info@,
                        );
                        r@.len() == sel.len() && forall|x: int|
                            0 <= x < r@.len() ==> (#[trigger] r@[x])@ == sel[x]@
                    }),
                decreases self.interfaces@.len() - i,
            {
                let ghost prefix = self.interfaces@.subrange(0, i as int);
                proof {
                    assert(self.interfaces@.subrange(0, i + 1).drop_last() =~= prefix);
                    assert(self.interfaces@.subrange(0, i + 1).last() == self.interfaces@[i as int]);
                }
                let ghost p = |f: InterfaceInfo| f.name@ == self.interfaces@[i as int]@;
                match find_iface(&self.interface_info, self.interfaces[i].as_str()) {
                    Some(j) => {
                        proof {
                            lemma_find_at_is(self.interface_info@, p, j as int);
                        }
                        r.push(self.interface_info[j].duplicate());
                    },
                    None => {
                        proof {
                            lemma_find_at_none(self.interface_info@, p);
                        }
                    },
                }
                i = i + 1;
            }
            proof {
                assert(self.interfaces@.subrange(0, self.interfaces@.len() as int)
                    =~= self.interfaces@);
            }
            r
        }
    }

    /// Rebuilds and stores the runway set from the current interface table
    /// and configuration: first a direct runway for every (selected
    /// interface, DNS server) pair, then a proxy runway for every (selected
    /// interface, upstream proxy, DNS server) triple, with ids numbered
    /// consecutively so no two runways share an id's counter.
    pub fn discover_runways(&mut self) -> (r: Vec<Runway>)
        requires
            (old(self).spec_info().len() + old(self).spec_interfaces().len()) * (old(
                self,
            ).spec_dns().len() + old(self).spec_proxies().len() * old(self).spec_dns().len())
                < u64::MAX,
        ensures
            final(self).spec_interfaces() == old(self).spec_interfaces(),
            final(self).spec_proxies() == old(self).spec_proxies(),
            final(self).spec_dns() == old(self).spec_dns(),
            final(self).spec_info() == old(self).spec_info(),
            ({
                let views = spec_discovered_views(
                    views_of_ifaces(
                        spec_selected(old(self).spec_interfaces(), old(self).spec_info()),
                    ),
                    views_of_proxies(old(self).spec_proxies()),
                    views_of_dns(old(self).spec_dns()),
                );
                &&& r@.len() == views.len()
                &&& (forall|x: int| 0 <= x < r@.len() ==> (#[trigger] r@[x])@ == views[x])
                &&& final(self).spec_runways().len() == views.len()
                &&& (forall|x: int|
                    0 <= x < views.len() ==> (#[trigger] final(self).spec_runways()[x])@
                        == views[x])
            }),
    {
        let sel = self.selected_interfaces();
        let ghost sel_v = views_of_ifaces(spec_selected(self.spec_interfaces(), self.spec_info()));
        let ghost prox_v = views_of_proxies(self.spec_proxies());
        let ghost dns_v = views_of_dns(self.spec_dns());
        let ghost ns = sel_v.len() as int;
        let ghost np = prox_v.len() as int;
        let ghost nd = dns_v.len() as int;
        let ghost views = spec_discovered_views(sel_v, prox_v, dns_v);
        proof {
            assert(forall|x: int| 0 <= x < ns ==> (#[trigger] sel@[x])@ == sel_v[x]);
            if spec_auto(self.interfaces@) {
                assert(ns <= self.interface_info@.len() + self.interfaces@.len());
            } else {
                lemma_selected_list_len(self.interfaces@, self.interface_info@);
                assert(ns <= self.interface_info@.len() + self.interfaces@.len());
            }
            assert(ns * nd + (ns * np) * nd <= (self.interface_info@.len()
                + self.interfaces@.len()) * (nd + np * nd)) by (nonlinear_arith)
                requires
                    0 <= ns <= self.interface_info@.len() + self.interfaces@.len(),
                    0 <= np,
                    0 <= nd,
            ;
        }
        let ghost total = ns * nd + (ns * np) * nd;
        let mut r: Vec<Runway> = Vec::new();
        let mut counter: u64 = 0;
        let mut i: usize = 0;
        while i < sel.len()
            invariant
                sel_v == views_of_ifaces(spec_selected(self.spec_interfaces(), self.spec_info())),
                prox_v == views_of_proxies(self.spec_proxies()),
                dns_v == views_of_dns(self.spec_dns()),
                ns == sel_v.len() && np == prox_v.len() && nd == dns_v.len(),
                sel@.len() == ns,
                forall|x: int| 0 <= x < ns ==> (#[trigger] sel@[x])@ == sel_v[x],
                views == spec_discovered_views(sel_v, prox_v, dns_v),
                total == ns * nd + (ns * np) * nd,
                total < u64::MAX,
                0 <= i <= ns,
                r@.len() == i * nd,
                counter as int == r@.len(),
                forall|x: int| 0 <= x < r@.len() ==> (#[trigger] r@[x])@ == views[x],
            decreases ns - i,
        {
            let mut j: usize = 0;
            while j < self.dns_servers.len()
                invariant
                    sel_v == views_of_ifaces(
                        spec_selected(self.spec_interfaces(), self.spec_info()),
                    ),
                    prox_v == views_of_proxies(self.spec_proxies()),
                    dns_v == views_of_dns(self.spec_dns()),
                    ns == sel_v.len() && np == prox_v.len() && nd == dns_v.len(),
                    sel@.len() == ns,
                    forall|x: int| 0 <= x < ns ==> (#[trigger] sel@[x])@ == sel_v[x],
                    views == spec_discovered_views(sel_v, prox_v, dns_v),
                    total == ns * nd + (ns * np) * nd,
                    total < u64::MAX,
                    0 <= i < ns,
                    0 <= j <= nd,
                    self.dns_servers@.len() == nd,
                    r@.len() == i * nd + j,
                    counter as int == r@.len(),
                    forall|x: int| 0 <= x < r@.len() ==> (#[trigger] r@[x])@ == views[x],
                decreases nd - j,
            {
                proof {
                    assert(i * nd + j + 1 <= ns * nd) by (nonlinear_arith)
                        requires
                            0 <= i < ns,
                            0 <= j < nd,
                    ;
                    assert(ns * nd <= total) by (nonlinear_arith)
                        requires
                            total == ns * nd + (ns * np) * nd,
                            0 <= ns && 0 <= np && 0 <= nd,
                    ;
                }
                let id = make_direct_id(
                    sel[i].name.as_str(),
                    self.dns_servers[j].config.host.as_str(),
                    counter,
                );
                let rw = Runway::new(
                    id,
                    sel[i].name.clone(),
                    Some(sel[i].ip),
                    None,
                    Some(self.dns_servers[j].duplicate()),
                );
                proof {
                    let k0 = i * nd + j;
                    lemma_fundamental_div_mod_converse_div(k0, nd, i as int, j as int);
                    lemma_fundamental_div_mod_converse_mod(k0, nd, i as int, j as int);
                    assert(views[k0] == spec_direct_view(sel_v[i as int], dns_v[j as int], k0));
                    assert(rw@ =~~= spec_direct_view(sel_v[i as int], dns_v[j as int], k0));
                }
                r.push(rw);
                counter = counter + 1;
                j = j + 1;
            }
            i = i + 1;
            proof {
                assert(i * nd == (i - 1) * nd + nd) by (nonlinear_arith);
            }
        }
        let ghost base = ns * nd;
        let mut i2: usize = 0;
        while i2 < sel.len()
            invariant
                sel_v == views_of_ifaces(spec_selected(self.spec_interfaces(), self.spec_info())),
                prox_v == views_of_proxies(self.spec_proxies()),
                dns_v == views_of_dns(self.spec_dns()),
                ns == sel_v.len() && np == prox_v.len() && nd == dns_v.len(),
                sel@.len() == ns,
                forall|x: int| 0 <= x < ns ==> (#[trigger] sel@[x])@ == sel_v[x],
                views == spec_discovered_views(sel_v, prox_v, dns_v),
                total == ns * nd + (ns * np) * nd,
                total < u64::MAX,
                base == ns * nd,
                0 <= i2 <= ns,
                r@.len() == base + (i2 * np) * nd,
                counter as int == r@.len(),
                forall|x: int| 0 <= x < r@.len() ==> (#[trigger] r@[x])@ == views[x],
            decreases ns - i2,
        {
            let mut p: usize = 0;
            while p < self.upstream_proxies.len()
                invariant
                    sel_v == views_of_ifaces(
                        spec_selected(self.spec_interfaces(), self.spec_info()),
                    ),
                    prox_v == views_of_proxies(self.spec_proxies()),
                    dns_v == views_of_dns(self.spec_dns()),
                    ns == sel_v.len() && np == prox_v.len() && nd == dns_v.len(),
                    sel@.len() == ns,
                    forall|x: int| 0 <= x < ns ==> (#[trigger] sel@[x])@ == sel_v[x],
                    views == spec_discovered_views(sel_v, prox_v, dns_v),
                    total == ns * nd + (ns * np) * nd,
                    total < u64::MAX,
                    base == ns * nd,
                    0 <= i2 < ns,
                    0 <= p <= np,
                    self.upstream_proxies@.len() == np,
                    r@.len() == base + (i2 * np + p) * nd,
                    counter as int == r@.len(),
                    forall|x: int| 0 <= x < r@.len() ==> (#[trigger] r@[x])@ == views[x],
                decreases np - p,
            {
                let mut j2: usize = 0;
                while j2 < self.dns_servers.len()
                    invariant
                        sel_v == views_of_ifaces(
                            spec_selected(self.spec_interfaces(), self.spec_info()),
                        ),
                        prox_v == views_of_proxies(self.spec_proxies()),
                        dns_v == views_of_dns(self.spec_dns()),
                        ns == sel_v.len() && np == prox_v.len() && nd == dns_v.len(),
                        sel@.len() == ns,
                        forall|x: int| 0 <= x < ns ==> (#[trigger] sel@[x])@ == sel_v[x],
                        views == spec_discovered_views(sel_v, prox_v, dns_v),
                        total == ns * nd + (ns * np) * nd,
                        total < u64::MAX,
                        base == ns * nd,
                        0 <= i2 < ns,
                        0 <= p < np,
                        0 <= j2 <= nd,
                        self.upstream_proxies@.len() == np,
                        self.dns_servers@.len() == nd,
                        r@.len() == base + (i2 * np + p) * nd + j2,
                        counter as int == r@.len(),
                        forall|x: int| 0 <= x < r@.len() ==> (#[trigger] r@[x])@ == views[x],
                    decreases nd - j2,
                {
                    proof {
                        assert((i2 * np + p) * nd + j2 + 1 <= (ns * np) * nd) by (nonlinear_arith)
                            requires
                                0 <= i2 < ns,
                                0 <= p < np,
                                0 <= j2 < nd,
                        ;
                        assert(base + (ns * np) * nd == total);
                    }
                    let id = make_proxy_id(
                        sel[i2].name.as_str(),
                        self.upstream_proxies[p].config.proxy_type.as_str(),
                        self.upstream_proxies[p].config.host.as_str(),
                        self.dns_servers[j2].config.host.as_str(),
                        counter,
                    );
                    let rw = Runway::new(
                        id,
                        sel[i2].name.clone(),
                        Some(sel[i2].ip),
                        Some(self.upstream_proxies[p].duplicate()),
                        Some(self.dns_servers[j2].duplicate()),
                    );
                    proof {
                        let q = (i2 * np + p) * nd + j2;
                        assert(q == i2 * (np * nd) + (p * nd + j2)) by (nonlinear_arith)
                            requires
                                q == (i2 * np + p) * nd + j2,
                        ;
                        assert(0 <= p * nd + j2 < np * nd) by (nonlinear_arith)
                            requires
                                0 <= p < np,
                                0 <= j2 < nd,
                        ;
                        lemma_fundamental_div_mod_converse_div(q, np * nd, i2 as int, p * nd + j2);
                        lemma_fundamental_div_mod_converse_div(q, nd, i2 * np + p, j2 as int);
                        lemma_fundamental_div_mod_converse_mod(q, nd, i2 * np + p, j2 as int);
                        lemma_fundamental_div_mod_converse_mod(i2 * np + p, np, i2 as int, p as int);
                        assert(0 <= q < (ns * np) * nd) by (nonlinear_arith)
                            requires
                                0 <= i2 < ns,
                                0 <= p < np,
                                0 <= j2 < nd,
                                q == (i2 * np + p) * nd + j2,
                        ;
                        assert(views[base + q] == spec_proxy_view(
                            sel_v[q / (np * nd)],
                            prox_v[(q / nd) % np],
                            dns_v[q % nd],
                            base + q,
                        ));
                        assert(rw@ =~~= spec_proxy_view(
                            sel_v[i2 as int],
                            prox_v[p as int],
                            dns_v[j2 as int],
                            base + q,
                        ));
                    }
                    r.push(rw);
                    counter = counter + 1;
                    j2 = j2 + 1;
                }
                p = p + 1;
                proof {
                    assert((i2 * np + p) * nd == (i2 * np + (p - 1)) * nd + nd) by (nonlinear_arith);
                }
            }
            i2 = i2 + 1;
            proof {
                assert((i2 * np) * nd == ((i2 - 1) * np + np) * nd) by (nonlinear_arith);
            }
        }
        proof {
            assert(r@.len() == views.len());
        }
        let mut store: Vec<Runway> = Vec::new();
        let mut s2: usize = 0;
        while s2 < r.len()
            invariant
                0 <= s2 <= r@.len(),
                store@.len() == s2,
                forall|x: int| 0 <= x < s2 ==> (#[trigger] store@[x])@ == r@[x]@,
            decreases r@.len() - s2,
        {
            store.push(r[s2].duplicate());
            s2 = s2 + 1;
        }
        self.runways = store;
        r
    }

    /// The runway with this id from the last discovery, if any.
    pub fn get_runway(&self, runway_id: &str) -> (r: Option<Runway>)
        ensures
            ({
                let k = find_at(self.spec_runways(), |rw: Runway| rw.id@ == runway_id@);
                match r {
                    Some(v) => k >= 0 && v@ == self.spec_runways()[k]@,
                    None => k == -1,
                }
            }),
    {
        let ghost p = |rw: Runway| rw.id@ == runway_id@;
        let mut j: usize = 0;
        while j < self.runways.len()
            invariant
                0 <= j <= self.runways@.len(),
                p == (|rw: Runway| rw.id@ == runway_id@),
                forall|x: int| 0 <= x < j ==> !p((#[trigger] self.runways@[x])),
            decreases self.runways@.len() - j,
        {
            if str_eq(self.runways[j].id.as_str(), runway_id) {
                proof {
                    lemma_find_at_is(self.runways@, p, j as int);
                }
                return Some(self.runways[j].duplicate());
            }
            j = j + 1;
        }
        proof {
            lemma_find_at_none(self.runways@, p);
        }
        None
    }

    /// A snapshot of every runway from the last discovery, in order.
    pub fn get_all_runways(&self) -> (r: Vec<Runway>)
        ensures
            r@.len() == self.spec_runways().len(),
            forall|x: int|
                0 <= x < r@.len() ==> (#[trigger] r@[x])@ == self.spec_runways()[x]@,
    {
        let mut r: Vec<Runway> = Vec::new();
        let mut j: usize = 0;
        while j < self.runways.len()
            invariant
                0 <= j <= self.runways@.len(),
                r@.len() == j,
                forall|x: int| 0 <= x < j ==> (#[trigger] r@[x])@ == self.runways@[x]@,
            decreases self.runways@.len() - j,
        {
            r.push(self.runways[j].duplicate());
            j = j + 1;
        }
        r
    }

    /// Whether an interface name is currently present in the table.
    pub fn has_interface(&self, name: &str) -> (r: bool)
        ensures
            r == (find_at(self.spec_info(), |f: InterfaceInfo| f.name@ == name@) >= 0),
    {
        let ghost p = |f: InterfaceInfo| f.name@ == name@;
        let mut j: usize = 0;
        while j < self.interface_info.len()
            invariant
                0 <= j <= self.interface_info@.len(),
                p == (|f: InterfaceInfo| f.name@ == name@),
                forall|x: int| 0 <= x < j ==> !p((#[trigger] self.interface_info@[x])),
            decreases self.interface_info@.len() - j,
        {
            if str_eq(self.interface_info[j].name.as_str(), name) {
                proof {
                    lemma_find_at_is(self.interface_info@, p, j as int);
                }
                return true;
            }
            j = j + 1;
        }
        proof {
            lemma_find_at_none(self.interface_info@, p);
        }
        false
    }

    /// How a probe should try to reach a target through this runway: a proxy
    /// runway is refused when its proxy is marked inaccessible, a direct
    /// runway when its interface is no longer present; otherwise the probe
    /// goes through the proxy, or connects directly.
    pub fn probe_connection_plan(&self, runway: &Runway) -> (r: ConnectionPlan)
        ensures
            r == (match runway.upstream_proxy {
                Some(p) => if p.accessible {
                    ConnectionPlan::ViaProxy
                } else {
                    ConnectionPlan::Refuse
                },
                None => if find_at(
                    self.spec_info(),
                    |f: InterfaceInfo| f.name@ == runway.interface@,
                ) >= 0 {
                    ConnectionPlan::Direct
                } else {
                    ConnectionPlan::Refuse
                },
            }),
    {
        match &runway.upstream_proxy {
            Some(p) => {
                if p.accessible {
                    ConnectionPlan::ViaProxy
                } else {
                    ConnectionPlan::Refuse
                }
            },
            None => {
                if self.has_interface(runway.interface.as_str()) {
                    ConnectionPlan::Direct
                } else {
                    ConnectionPlan::Refuse
                }
            },
        }
    }
}

/// A probe takes transport success for user success: it has no response
/// body to validate.
pub fn probe_outcome(network_success: bool, elapsed_ms: u64) -> (r: (bool, bool, u64))
    ensures
        r == (network_success, network_success, elapsed_ms),
{
    (network_success, network_success, elapsed_ms)
}

} // verus!
