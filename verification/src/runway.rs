//! Runways: the network-path value objects, and the accessibility states a
//! (target, runway) pair can be in.

use vstd::prelude::*;
use crate::config::{DNSServerConfig, DNSServerConfigView, UpstreamProxyConfig, UpstreamProxyConfigView};
use crate::ip::IpAddress;

verus! {

/// Accessibility of a (target, runway) pair.
#[derive(Debug, Clone, Copy, PartialEq, Eq, Hash, Structural)]
pub enum RunwayState {
    Unknown,
    Accessible,
    PartiallyAccessible,
    Inaccessible,
    Testing,
}

/// A DNS server together with its measured health.
#[derive(Debug, Clone)]
pub struct DNSServer {
    pub config: DNSServerConfig,
    pub response_time_ms: u64,
    pub last_success_ms: Option<u64>,
    pub failure_count: u32,
}

/// The mathematical shadow of `DNSServer`.
pub struct DNSServerView {
    pub config: DNSServerConfigView,
    pub response_time_ms: u64,
    pub last_success_ms: Option<u64>,
    pub failure_count: u32,
}

impl View for DNSServer {
    type V = DNSServerView;

    open spec fn view(&self) -> DNSServerView {
        DNSServerView {
            config: self.config@,
            response_time_ms: self.response_time_ms,
            last_success_ms: self.last_success_ms,
            failure_count: self.failure_count,
        }
    }
}

impl DNSServer {
    /// An explicit copy whose view equals this server's view.
    pub fn duplicate(&self) -> (r: Self)
        ensures
            r@ == self@,
    {
        let r = DNSServer {
            config: self.config.duplicate(),
            response_time_ms: self.response_time_ms,
            last_success_ms: self.last_success_ms,
            failure_count: self.failure_count,
        };
        assert(r@ =~= self@);
        r
    }
}

/// An upstream proxy together with its measured health.
#[derive(Debug, Clone)]
pub struct UpstreamProxy {
    pub config: UpstreamProxyConfig,
    pub accessible: bool,
    pub last_success_ms: Option<u64>,
    pub failure_count: u32,
}

/// The mathematical shadow of `UpstreamProxy`.
pub struct UpstreamProxyView {
    pub config: UpstreamProxyConfigView,
    pub accessible: bool,
    pub last_success_ms: Option<u64>,
    pub failure_count: u32,
}

impl View for UpstreamProxy {
    type V = UpstreamProxyView;

    open spec fn view(&self) -> UpstreamProxyView {
        UpstreamProxyView {
            config: self.config@,
            accessible: self.accessible,
            last_success_ms: self.last_success_ms,
            failure_count: self.failure_count,
        }
    }
}

impl UpstreamProxy {
    /// An explicit copy whose view equals this proxy's view.
    pub fn duplicate(&self) -> (r: Self)
        ensures
            r@ == self@,
    {
        let r = UpstreamProxy {
            config: self.config.duplicate(),
            accessible: self.accessible,
            last_success_ms: self.last_success_ms,
            failure_count: self.failure_count,
        };
        assert(r@ =~= self@);
        r
    }
}

/// One outbound network path: a local interface, optionally an upstream
/// proxy, and optionally a DNS server. Value-like; identified by `id`.
#[derive(Debug, Clone)]
pub struct Runway {
    pub id: String,
    pub interface: String,
    pub source_ip: Option<IpAddress>,
    pub upstream_proxy: Option<UpstreamProxy>,
    pub dns_server: Option<DNSServer>,
    pub resolved_ip: Option<IpAddress>,
    pub is_direct: bool,
}

/// The mathematical shadow of `Runway`.
pub struct RunwayView {
    pub id: Seq<char>,
    pub interface: Seq<char>,
    pub source_ip: Option<IpAddress>,
    pub upstream_proxy: Option<UpstreamProxyView>,
    pub dns_server: Option<DNSServerView>,
    pub resolved_ip: Option<IpAddress>,
    pub is_direct: bool,
}

impl View for Runway {
    type V = RunwayView;

    open spec fn view(&self) -> RunwayView {
        RunwayView {
            id: self.id@,
            interface: self.interface@,
            source_ip: self.source_ip,
            upstream_proxy: match self.upstream_proxy {
                Some(p) => Some(p@),
                None => None,
            },
            dns_server: match self.dns_server {
                Some(d) => Some(d@),
                None => None,
            },
            resolved_ip: self.resolved_ip,
            is_direct: self.is_direct,
        }
    }
}

impl Runway {
    /// An explicit copy whose view equals this runway's view.
    pub fn duplicate(&self) -> (r: Self)
        ensures
            r@ == self@,
    {
        let upstream_proxy = match &self.upstream_proxy {
            Some(p) => Some(p.duplicate()),
            None => None,
        };
        let dns_server = match &self.dns_server {
            Some(d) => Some(d.duplicate()),
            None => None,
        };
        let r = Runway {
            id: self.id.clone(),
            interface: self.interface.clone(),
            source_ip: self.source_ip,
            upstream_proxy,
            dns_server,
            resolved_ip: self.resolved_ip,
            is_direct: self.is_direct,
        };
        assert(r@ =~= self@);
        r
    }

    /// Builds a runway; it is direct exactly when no upstream proxy is given,
    /// and starts with no resolved address.
    pub fn new(
        id: String,
        interface: String,
        source_ip: Option<IpAddress>,
        upstream_proxy: Option<UpstreamProxy>,
        dns_server: Option<DNSServer>,
    ) -> (r: Self)
        ensures
            r.id == id,
            r.interface == interface,
            r.source_ip == source_ip,
            r.upstream_proxy == upstream_proxy,
            r.dns_server == dns_server,
            r.resolved_ip is None,
            r.is_direct == (upstream_proxy is None),
    {
        let is_direct = upstream_proxy.is_none();
        Runway { id, interface, source_ip, upstream_proxy, dns_server, resolved_ip: None, is_direct }
    }
}

} // verus!
