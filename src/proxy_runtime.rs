//! How a TCP connection of a resolver is opened: directly, or through the
//! SOCKS5 proxy that the connection's bind address names.
use vstd::prelude::*;
use crate::upstream::SocketAddress;

verus! {

#[derive(Clone, Copy, Debug, PartialEq, Eq, Structural)]
pub enum TcpRoute {
    Direct { target: SocketAddress },
    Socks5 { proxy: SocketAddress, target: SocketAddress },
}

/// The route of a connection to `addr`: through the proxy at `bind_addr`
/// when one is given, else direct.
pub fn tcp_route(addr: SocketAddress, bind_addr: Option<SocketAddress>) -> (r: TcpRoute)
    ensures
        r == match bind_addr {
            Some(proxy) => TcpRoute::Socks5 { proxy, target: addr },
            None => TcpRoute::Direct { target: addr },
        },
{
    match bind_addr {
        Some(proxy) => TcpRoute::Socks5 { proxy, target: addr },
        None => TcpRoute::Direct { target: addr },
    }
}

} // verus!
