use std::cell::Cell;

use godns::proxy_runtime::{tcp_route, TcpRoute};
use godns::resolver_pool::{ResolverPool, ResolverSetup, Transport, CACHE_SIZE};
use godns::upstream::{IpAddress, SocketAddress, SpecialUpstream, Upstream};

fn addr(last: u8, port: u16) -> SocketAddress {
    SocketAddress { ip: IpAddress::V4(u32::from_be_bytes([10, 0, 0, last])), port }
}

#[test]
fn pool_memoization_counts_constructions() {
    let builds = Cell::new(0u32);
    let mut pool: ResolverPool<Result<u32, String>> = ResolverPool::new();
    let a = Upstream::UDP { udp: addr(1, 53) };
    let b = Upstream::UDP { udp: addr(2, 53) };
    let build = |n: u32| {
        builds.set(builds.get() + 1);
        Ok(n)
    };
    assert!(pool.get_or_build(&a, || build(1)));
    assert!(!pool.get_or_build(&a.clone(), || build(2)));
    assert!(pool.get_or_build(&b, || build(3)));
    assert_eq!(builds.get(), 2);
    assert_eq!(pool.get(&a), Some(&Ok(1)));
    assert_eq!(pool.get(&b), Some(&Ok(3)));
}

#[test]
fn pool_memoizes_failures() {
    let mut pool: ResolverPool<Result<u32, String>> = ResolverPool::new();
    let a = Upstream::DoT { dot: addr(1, 853), domain: "dns.test".to_string() };
    assert!(pool.get_or_build(&a, || Err("tls".to_string())));
    assert!(!pool.get_or_build(&a, || Ok(7)));
    assert_eq!(pool.get(&a), Some(&Err("tls".to_string())));
    let other = Upstream::DoT { dot: addr(1, 853), domain: "other.test".to_string() };
    assert_eq!(pool.get(&other), None);
}

#[test]
fn resolver_setup_per_upstream() {
    let udp = ResolverSetup::for_upstream(&Upstream::UDP { udp: addr(1, 53) }).unwrap();
    assert_eq!(udp.transport, Transport::Udp);
    assert_eq!(udp.addr, addr(1, 53));
    assert_eq!(udp.cache_size, CACHE_SIZE);
    assert_eq!(CACHE_SIZE, 128);
    assert!(!udp.use_proxy);
    let tcp = ResolverSetup::for_upstream(&Upstream::TCP { tcp: addr(2, 53) }).unwrap();
    assert_eq!(tcp.transport, Transport::Tcp);
    let dot = ResolverSetup::for_upstream(&Upstream::DoT { dot: addr(3, 853), domain: "dns.test".to_string() }).unwrap();
    assert_eq!(dot.transport, Transport::Tls);
    assert_eq!(dot.tls_name.as_deref(), Some("dns.test"));
    let doh = ResolverSetup::for_upstream(&Upstream::DoH {
        doh: addr(4, 443),
        domain: "doh.test".to_string(),
        socks5_proxy: Some(addr(9, 1080)),
    })
    .unwrap();
    assert_eq!(doh.transport, Transport::Https);
    assert!(doh.use_proxy);
    assert_eq!(doh.bind_addr, Some(addr(9, 1080)));
    let direct = ResolverSetup::for_upstream(&Upstream::DoH {
        doh: addr(4, 443),
        domain: "doh.test".to_string(),
        socks5_proxy: None,
    })
    .unwrap();
    assert!(!direct.use_proxy);
    assert_eq!(direct.bind_addr, None);
    assert!(ResolverSetup::for_upstream(&Upstream::IPv4 { ipv4: 1 }).is_none());
    assert!(ResolverSetup::for_upstream(&Upstream::Special(SpecialUpstream::NODATA)).is_none());
}

#[test]
fn tcp_connections_go_through_the_bind_address_proxy() {
    assert_eq!(tcp_route(addr(1, 443), None), TcpRoute::Direct { target: addr(1, 443) });
    assert_eq!(
        tcp_route(addr(1, 443), Some(addr(9, 1080))),
        TcpRoute::Socks5 { proxy: addr(9, 1080), target: addr(1, 443) }
    );
}
