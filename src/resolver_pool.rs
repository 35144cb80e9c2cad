//! The resolver pool: one memoized build result per upstream, and how a
//! resolver client is configured for each kind of upstream.
use vstd::prelude::*;
use crate::upstream::{SocketAddress, Upstream};

verus! {

/// The size of the answer cache of each resolver client.
pub const CACHE_SIZE: usize = 128;

/// The transport of a resolver's single name server.
#[derive(Clone, Copy, Debug, PartialEq, Eq, Structural)]
pub enum Transport {
    Udp,
    Tcp,
    Tls,
    Https,
}

/// How the resolver client of an upstream is configured: one name server at
/// `addr` over `transport`, with the TLS server name `tls_name`; where
/// `use_proxy` holds, the client runs on the proxy runtime and `bind_addr`
/// carries the SOCKS5 proxy's address.
#[derive(Debug)]
pub struct ResolverSetup {
    pub addr: SocketAddress,
    pub transport: Transport,
    pub tls_name: Option<String>,
    pub bind_addr: Option<SocketAddress>,
    pub use_proxy: bool,
    pub cache_size: usize,
}

impl ResolverSetup {
    /// The configuration for `u`, for the upstreams that are resolvers.
    pub open spec fn spec_for(u: Upstream) -> Option<ResolverSetup> {
        match u {
            Upstream::UDP { udp } => Some(ResolverSetup {
                addr: udp,
                transport: Transport::Udp,
                tls_name: None,
                bind_addr: None,
                use_proxy: false,
                cache_size: CACHE_SIZE,
            }),
            Upstream::TCP { tcp } => Some(ResolverSetup {
                addr: tcp,
                transport: Transport::Tcp,
                tls_name: None,
                bind_addr: None,
                use_proxy: false,
                cache_size: CACHE_SIZE,
            }),
            Upstream::DoT { dot, domain } => Some(ResolverSetup {
                addr: dot,
                transport: Transport::Tls,
                tls_name: Some(domain),
                bind_addr: None,
                use_proxy: false,
                cache_size: CACHE_SIZE,
            }),
            Upstream::DoH { doh, domain, socks5_proxy } => Some(ResolverSetup {
                addr: doh,
                transport: Transport::Https,
                tls_name: Some(domain),
                bind_addr: socks5_proxy,
                use_proxy: socks5_proxy is Some,
                cache_size: CACHE_SIZE,
            }),
            _ => None,
        }
    }

    pub fn for_upstream(u: &Upstream) -> (r: Option<ResolverSetup>)
        ensures
            r == Self::spec_for(*u),
            r is Some <==> u.is_resolver(),
    {
        match u {
            Upstream::UDP { udp } => Some(ResolverSetup {
                addr: *udp,
                transport: Transport::Udp,
                tls_name: None,
                bind_addr: None,
                use_proxy: false,
                cache_size: CACHE_SIZE,
            }),
            Upstream::TCP { tcp } => Some(ResolverSetup {
                addr: *tcp,
                transport: Transport::Tcp,
                tls_name: None,
                bind_addr: None,
                use_proxy: false,
                cache_size: CACHE_SIZE,
            }),
            Upstream::DoT { dot, domain } => Some(ResolverSetup {
                addr: *dot,
                transport: Transport::Tls,
                tls_name: Some(domain.clone()),
                bind_addr: None,
                use_proxy: false,
                cache_size: CACHE_SIZE,
            }),
            Upstream::DoH { doh, domain, socks5_proxy } => Some(ResolverSetup {
                addr: *doh,
                transport: Transport::Https,
                tls_name: Some(domain.clone()),
                bind_addr: *socks5_proxy,
                use_proxy: socks5_proxy.is_some(),
                cache_size: CACHE_SIZE,
            }),
            _ => None,
        }
    }
}

/// The value recorded for `k`: that of the earliest entry whose upstream is
/// `k`.
pub open spec fn find<V>(e: Seq<(Upstream, V)>, k: Upstream) -> Option<V>
    decreases e.len(),
{
    if e.len() == 0 {
        None
    } else if e[0].0.same_as(&k) {
        Some(e[0].1)
    } else {
        find(e.drop_first(), k)
    }
}

/// The entries after a caller for `k` whose build would give `v`: a
/// recorded result stays, else `v` is recorded.
pub open spec fn offer<V>(e: Seq<(Upstream, V)>, k: Upstream, v: V) -> Seq<(Upstream, V)> {
    if find(e, k) is Some {
        e
    } else {
        e.push((k, v))
    }
}

/// The entries after callers for `k` whose builds would give `vs`, in turn.
pub open spec fn offer_all<V>(e: Seq<(Upstream, V)>, k: Upstream, vs: Seq<V>) -> Seq<(Upstream, V)>
    decreases vs.len(),
{
    if vs.len() == 0 {
        e
    } else {
        offer(offer_all(e, k, vs.drop_last()), k, vs.last())
    }
}

proof fn lemma_same_as_equiv(a: Upstream, b: Upstream, c: Upstream)
    ensures
        a.same_as(&a),
        a.same_as(&b) ==> b.same_as(&a),
        a.same_as(&b) && b.same_as(&c) ==> a.same_as(&c),
{
}

/// Looking up after appending an entry.
pub proof fn lemma_find_push<V>(e: Seq<(Upstream, V)>, x: (Upstream, V), k: Upstream)
    ensures
        find(e.push(x), k) == if find(e, k) is Some {
            find(e, k)
        } else if x.0.same_as(&k) {
            Some(x.1)
        } else {
            None
        },
    decreases e.len(),
{
    if e.len() > 0 {
        assert(e.push(x).drop_first() =~= e.drop_first().push(x));
        assert(e.push(x)[0] == e[0]);
        lemma_find_push(e.drop_first(), x, k);
    } else {
        let ex = e.push(x);
        assert(ex.drop_first() =~= Seq::<(Upstream, V)>::empty());
        assert(ex[0] == x);
        assert(find(ex.drop_first(), k) is None);
        assert(find(e, k) is None);
    }
}

/// What an offer leaves for each upstream.
pub proof fn lemma_find_offer<V>(e: Seq<(Upstream, V)>, k: Upstream, v: V, j: Upstream)
    ensures
        find(offer(e, k, v), j) == if find(e, j) is Some {
            find(e, j)
        } else if k.same_as(&j) {
            Some(v)
        } else {
            None
        },
{
    lemma_find_push(e, (k, v), j);
    if find(e, k) is Some && find(e, j) is None && k.same_as(&j) {
        lemma_find_same(e, k, j);
    }
}

/// Upstreams that are the same have the same recorded value.
pub proof fn lemma_find_same<V>(e: Seq<(Upstream, V)>, k: Upstream, j: Upstream)
    requires
        k.same_as(&j),
    ensures
        find(e, k) == find(e, j),
    decreases e.len(),
{
    if e.len() > 0 {
        lemma_same_as_equiv(e[0].0, k, j);
        lemma_same_as_equiv(e[0].0, j, k);
        lemma_same_as_equiv(k, j, k);
        lemma_find_same(e.drop_first(), k, j);
    }
}

/// At most one construction per upstream: of any number of callers for an
/// upstream without a recorded result, served one after the other, exactly
/// one records a result, that of the first, and every caller observes it.
pub proof fn law_single_construction<V>(e: Seq<(Upstream, V)>, k: Upstream, vs: Seq<V>)
    requires
        find(e, k) is None,
        vs.len() >= 1,
    ensures
        offer_all(e, k, vs).len() == e.len() + 1,
        find(offer_all(e, k, vs), k) == Some(vs[0]),
        forall|i: int| 1 <= i <= vs.len() ==> find(#[trigger] offer_all(e, k, vs.take(i)), k) == Some(vs[0]),
    decreases vs.len(),
{
    if vs.len() == 1 {
        assert(vs.drop_last() =~= Seq::<V>::empty());
        lemma_find_offer(e, k, vs[0], k);
        lemma_same_as_equiv(k, k, k);
        assert(vs.take(1) =~= vs);
    } else {
        let init = vs.drop_last();
        law_single_construction(e, k, init);
        assert(init[0] == vs[0]);
        lemma_find_offer(offer_all(e, k, init), k, vs.last(), k);
        assert forall|i: int| 1 <= i <= vs.len() implies find(#[trigger] offer_all(e, k, vs.take(i)), k) == Some(vs[0]) by {
            if i < vs.len() {
                assert(vs.take(i) =~= init.take(i));
            } else {
                assert(vs.take(i) =~= vs);
            }
        }
    }
}

/// Results are memoized alike whether they succeeded or failed: once a
/// result is recorded for `k`, every later caller observes it, whatever its
/// own build would have given.
pub proof fn law_memoized<V>(e: Seq<(Upstream, V)>, k: Upstream, v1: V, v2: V)
    ensures
        find(offer(offer(e, k, v1), k, v2), k) == find(offer(e, k, v1), k),
        find(offer(e, k, v1), k) == if find(e, k) is Some {
            find(e, k)
        } else {
            Some(v1)
        },
{
    lemma_same_as_equiv(k, k, k);
    lemma_find_offer(e, k, v1, k);
    lemma_find_offer(offer(e, k, v1), k, v2, k);
}

/// The memoized build results, one per upstream.
#[derive(Debug)]
pub struct ResolverPool<V> {
    entries: Vec<(Upstream, V)>,
}

impl<V> ResolverPool<V> {
    /// The recorded entries, in the order they were built.
    pub closed spec fn view(&self) -> Seq<(Upstream, V)> {
        self.entries@
    }

    pub fn new() -> (r: ResolverPool<V>)
        ensures
            r@.len() == 0,
    {
        ResolverPool { entries: Vec::new() }
    }

    /// The recorded result for `upstream`, if any.
    pub fn get(&self, upstream: &Upstream) -> (r: Option<&V>)
        ensures
            match r {
                Some(v) => find(self@, *upstream) == Some(*v),
                None => find(self@, *upstream) is None,
            },
    {
        let mut i: usize = 0;
        assert(self@.skip(0) =~= self@);
        while i < self.entries.len()
            invariant
                i <= self@.len(),
                find(self@, *upstream) == find(self@.skip(i as int), *upstream),
            decreases self@.len() - i,
        {
            let ghost rest = self@.skip(i as int);
            assert(rest.drop_first() =~= self@.skip(i + 1));
            if self.entries[i].0 == *upstream {
                return Some(&self.entries[i].1);
            }
            i = i + 1;
        }
        None
    }

    /// Records the result of `build` for `upstream` unless one is recorded:
    /// `build` runs only then, and `r` tells whether it ran.
    pub fn get_or_build<F: FnOnce() -> V>(&mut self, upstream: &Upstream, build: F) -> (r: bool)
        requires
            build.requires(()),
        ensures
            r == (find(old(self)@, *upstream) is None),
            !r ==> final(self)@ == old(self)@,
            r ==> exists|v: V| build.ensures((), v) && final(self)@ == offer(old(self)@, *upstream, v),
            find(final(self)@, *upstream) is Some,
    {
        if self.get(upstream).is_some() {
            return false;
        }
        let value = build();
        let ghost before = self@;
        let key = upstream.clone();
        self.entries.push((key, value));
        proof {
            assert(self@ == before.push((*upstream, value)));
            assert(self@ == offer(before, *upstream, value));
            assert(build.ensures((), value));
            lemma_find_push(before, (*upstream, value), *upstream);
            lemma_same_as_equiv(*upstream, *upstream, *upstream);
        }
        true
    }
}

} // verus!
