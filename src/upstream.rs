//! The upstreams a rule can route to, with addresses held as plain integers.
use vstd::prelude::*;

verus! {

/// An IP address: an IPv4 address as its 32-bit big-endian value, an IPv6
/// address as its 128-bit big-endian value.
#[derive(Clone, Copy, Debug, PartialEq, Eq, Structural, Hash)]
pub enum IpAddress {
    V4(u32),
    V6(u128),
}

/// An IP address and a port.
#[derive(Clone, Copy, Debug, PartialEq, Eq, Structural, Hash)]
pub struct SocketAddress {
    pub ip: IpAddress,
    pub port: u16,
}

/// A fixed negative outcome.
#[allow(non_camel_case_types)]
#[derive(Clone, Copy, Debug, PartialEq, Eq, Structural, Hash)]
pub enum SpecialUpstream {
    NXDOMAIN,
    NODATA,
}

/// One resolution target: a resolver reached over some transport, a fixed
/// synthesized answer, or a fixed negative outcome.
#[allow(non_camel_case_types)]
#[derive(Debug, Eq, Hash)]
pub enum Upstream {
    UDP { udp: SocketAddress },
    TCP { tcp: SocketAddress },
    DoT { dot: SocketAddress, domain: String },
    DoH { doh: SocketAddress, domain: String, socks5_proxy: Option<SocketAddress> },
    IPv4 { ipv4: u32 },
    IPv6 { ipv6: u128 },
    Special(SpecialUpstream),
}

impl Upstream {
    /// Structural identity of two upstreams, names compared by their characters.
    pub open spec fn same_as(&self, other: &Upstream) -> bool {
        match (*self, *other) {
            (Upstream::UDP { udp: a }, Upstream::UDP { udp: b }) => a == b,
            (Upstream::TCP { tcp: a }, Upstream::TCP { tcp: b }) => a == b,
            (Upstream::DoT { dot: a, domain: d }, Upstream::DoT { dot: b, domain: e }) => a == b
                && d@ == e@,
            (
                Upstream::DoH { doh: a, domain: d, socks5_proxy: p },
                Upstream::DoH { doh: b, domain: e, socks5_proxy: q },
            ) => a == b && d@ == e@ && p == q,
            (Upstream::IPv4 { ipv4: a }, Upstream::IPv4 { ipv4: b }) => a == b,
            (Upstream::IPv6 { ipv6: a }, Upstream::IPv6 { ipv6: b }) => a == b,
            (Upstream::Special(a), Upstream::Special(b)) => a == b,
            _ => false,
        }
    }

    /// Whether the upstream is a recursive resolver reached over the network.
    pub open spec fn is_resolver(&self) -> bool {
        ||| self is UDP
        ||| self is TCP
        ||| self is DoT
        ||| self is DoH
    }
}

impl Clone for Upstream {
    fn clone(&self) -> (r: Self)
        ensures
            r == *self,
    {
        match self {
            Upstream::UDP { udp } => Upstream::UDP { udp: *udp },
            Upstream::TCP { tcp } => Upstream::TCP { tcp: *tcp },
            Upstream::DoT { dot, domain } => Upstream::DoT { dot: *dot, domain: domain.clone() },
            Upstream::DoH { doh, domain, socks5_proxy } => Upstream::DoH {
                doh: *doh,
                domain: domain.clone(),
                socks5_proxy: *socks5_proxy,
            },
            Upstream::IPv4 { ipv4 } => Upstream::IPv4 { ipv4: *ipv4 },
            Upstream::IPv6 { ipv6 } => Upstream::IPv6 { ipv6: *ipv6 },
            Upstream::Special(s) => Upstream::Special(*s),
        }
    }
}

impl PartialEq for Upstream {
    fn eq(&self, other: &Upstream) -> (r: bool)
        ensures
            r == self.same_as(other),
    {
        match (self, other) {
            (Upstream::UDP { udp: a }, Upstream::UDP { udp: b }) => *a == *b,
            (Upstream::TCP { tcp: a }, Upstream::TCP { tcp: b }) => *a == *b,
            (Upstream::DoT { dot: a, domain: d }, Upstream::DoT { dot: b, domain: e }) => *a == *b
                && *d == *e,
            (
                Upstream::DoH { doh: a, domain: d, socks5_proxy: p },
                Upstream::DoH { doh: b, domain: e, socks5_proxy: q },
            ) => *a == *b && *d == *e && *p == *q,
            (Upstream::IPv4 { ipv4: a }, Upstream::IPv4 { ipv4: b }) => *a == *b,
            (Upstream::IPv6 { ipv6: a }, Upstream::IPv6 { ipv6: b }) => *a == *b,
            (Upstream::Special(a), Upstream::Special(b)) => *a == *b,
            _ => false,
        }
    }
}

impl vstd::std_specs::cmp::PartialEqSpecImpl for Upstream {
    open spec fn obeys_eq_spec() -> bool {
        true
    }

    open spec fn eq_spec(&self, other: &Upstream) -> bool {
        self.same_as(other)
    }
}

} // verus!
