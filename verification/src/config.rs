//! Configuration as plain values. Durations are millisecond counts and the
//! success-rate threshold is given in thousandths, so that every derived
//! quantity stays exact.

use vstd::prelude::*;
use crate::routing::RoutingMode;
use crate::strutil::str_eq;

verus! {

/// One upstream DNS server.
#[derive(Debug, Clone)]
pub struct DNSServerConfig {
    pub host: String,
    pub port: u16,
    pub name: String,
}

/// The mathematical shadow of `DNSServerConfig`.
pub struct DNSServerConfigView {
    pub host: Seq<char>,
    pub port: u16,
    pub name: Seq<char>,
}

impl View for DNSServerConfig {
    type V = DNSServerConfigView;

    open spec fn view(&self) -> DNSServerConfigView {
        DNSServerConfigView { host: self.host@, port: self.port, name: self.name@ }
    }
}

impl DNSServerConfig {
    /// An explicit copy whose view equals this configuration's view.
    pub fn duplicate(&self) -> (r: Self)
        ensures
            r@ == self@,
    {
        let r = DNSServerConfig {
            host: self.host.clone(),
            port: self.port,
            name: self.name.clone(),
        };
        assert(r@ =~= self@);
        r
    }
}

/// One upstream proxy ("http", "https" or "socks5").
#[derive(Debug, Clone)]
pub struct UpstreamProxyConfig {
    pub proxy_type: String,
    pub host: String,
    pub port: u16,
}

/// The mathematical shadow of `UpstreamProxyConfig`.
pub struct UpstreamProxyConfigView {
    pub proxy_type: Seq<char>,
    pub host: Seq<char>,
    pub port: u16,
}

impl View for UpstreamProxyConfig {
    type V = UpstreamProxyConfigView;

    open spec fn view(&self) -> UpstreamProxyConfigView {
        UpstreamProxyConfigView { proxy_type: self.proxy_type@, host: self.host@, port: self.port }
    }
}

impl UpstreamProxyConfig {
    /// An explicit copy whose view equals this configuration's view.
    pub fn duplicate(&self) -> (r: Self)
        ensures
            r@ == self@,
    {
        let r = UpstreamProxyConfig {
            proxy_type: self.proxy_type.clone(),
            host: self.host.clone(),
            port: self.port,
        };
        assert(r@ =~= self@);
        r
    }
}

/// The port a DNS server listens on when none is configured.
pub fn default_dns_port() -> (r: u16)
    ensures
        r == 53,
{
    53
}

/// Service configuration; every field is optional and falls back to a
/// default.
#[derive(Debug, Clone)]
pub struct Config {
    pub routing_mode: Option<String>,
    pub dns_servers: Vec<DNSServerConfig>,
    pub upstream_proxies: Vec<UpstreamProxyConfig>,
    pub interfaces: Vec<String>,
    pub health_check_interval: Option<u64>,
    pub accessibility_timeout: Option<u64>,
    pub dns_timeout_ms: Option<u64>,
    pub network_timeout: Option<u64>,
    pub user_validation_timeout: Option<u64>,
    pub max_concurrent_connections: Option<usize>,
    pub max_connections_per_runway: Option<usize>,
    pub success_rate_threshold_permille: Option<u32>,
    pub success_rate_window: Option<usize>,
    pub log_level: Option<String>,
    pub log_file: Option<String>,
    pub log_max_bytes: Option<u64>,
    pub log_backup_count: Option<usize>,
    pub proxy_listen_host: Option<String>,
    pub proxy_listen_port: Option<u16>,
}

/// The routing mode a configured name selects; unknown names select Latency.
pub open spec fn spec_mode_of(s: Seq<char>) -> RoutingMode {
    if s == "latency"@ {
        RoutingMode::Latency
    } else if s == "first_accessible"@ {
        RoutingMode::FirstAccessible
    } else if s == "round_robin"@ {
        RoutingMode::RoundRobin
    } else {
        RoutingMode::Latency
    }
}

impl Config {
    /// The configured routing mode; Latency when absent or unrecognized.
    pub fn routing_mode(&self) -> (r: RoutingMode)
        ensures
            r == match self.routing_mode {
                Some(s) => spec_mode_of(s@),
                None => RoutingMode::Latency,
            },
    {
        match &self.routing_mode {
            Some(s) => {
                if str_eq(s.as_str(), "latency") {
                    RoutingMode::Latency
                } else if str_eq(s.as_str(), "first_accessible") {
                    RoutingMode::FirstAccessible
                } else if str_eq(s.as_str(), "round_robin") {
                    RoutingMode::RoundRobin
                } else {
                    RoutingMode::Latency
                }
            },
            None => RoutingMode::Latency,
        }
    }
}

impl Default for Config {
    /// The defaults: latency routing, automatic interface discovery, a
    /// 60 s health interval, 5 s probe timeout, 3 s DNS timeout, 10 s network
    /// timeout, a 0.5 admission threshold over a window of 10 attempts, and
    /// listening on 127.0.0.1:2123.
    fn default() -> (r: Self)
        ensures
            (r.routing_mode matches Some(m) && m@ == "latency"@),
            r.dns_servers@.len() == 0,
            r.upstream_proxies@.len() == 0,
            r.interfaces@.len() == 1 && r.interfaces@[0]@ == "auto"@,
            r.health_check_interval == Some(60u64),
            r.accessibility_timeout == Some(5u64),
            r.dns_timeout_ms == Some(3000u64),
            r.network_timeout == Some(10u64),
            r.user_validation_timeout == Some(15u64),
            r.max_concurrent_connections == Some(100usize),
            r.max_connections_per_runway == Some(10usize),
            r.success_rate_threshold_permille == Some(500u32),
            r.success_rate_window == Some(10usize),
            (r.log_level matches Some(l) && l@ == "INFO"@),
            (r.log_file matches Some(f) && f@ == "logs/proxy.log"@),
            r.log_max_bytes == Some(10485760u64),
            r.log_backup_count == Some(5usize),
            (r.proxy_listen_host matches Some(h) && h@ == "127.0.0.1"@),
            r.proxy_listen_port == Some(2123u16),
    {
        Config {
            routing_mode: Some("latency".to_owned()),
            dns_servers: Vec::new(),
            upstream_proxies: Vec::new(),
            interfaces: {
                let mut v: Vec<String> = Vec::new();
                v.push("auto".to_owned());
                v
            },
            health_check_interval: Some(60),
            accessibility_timeout: Some(5),
            dns_timeout_ms: Some(3000),
            network_timeout: Some(10),
            user_validation_timeout: Some(15),
            max_concurrent_connections: Some(100),
            max_connections_per_runway: Some(10),
            success_rate_threshold_permille: Some(500),
            success_rate_window: Some(10),
            log_level: Some("INFO".to_owned()),
            log_file: Some("logs/proxy.log".to_owned()),
            log_max_bytes: Some(10485760),
            log_backup_count: Some(5),
            proxy_listen_host: Some("127.0.0.1".to_owned()),
            proxy_listen_port: Some(2123),
        }
    }
}

} // verus!
