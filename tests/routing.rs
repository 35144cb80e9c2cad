use godns::config::{Pattern, Rule, RECORD_A, RECORD_AAAA};
use godns::dns_handler::DnsHandler;
use godns::dns_router::DnsRouter;
use godns::labels::domain_path_of;
use godns::upstream::{IpAddress, SocketAddress, SpecialUpstream, Upstream};

const RECORD_MX: u16 = 15;

fn names(list: &[&str]) -> Vec<String> {
    list.iter().map(|s| s.to_string()).collect()
}

fn ipv4(a: u8, b: u8, c: u8, d: u8) -> Upstream {
    Upstream::IPv4 { ipv4: u32::from_be_bytes([a, b, c, d]) }
}

fn udp(last: u8) -> Upstream {
    Upstream::UDP {
        udp: SocketAddress { ip: IpAddress::V4(u32::from_be_bytes([10, 0, 0, last])), port: 53 },
    }
}

fn exact(list: &[&str], record: Option<Vec<u16>>, upstream: Upstream) -> Rule {
    Rule { pattern: Pattern::Domain { domain: names(list), record }, upstream }
}

fn suffix(list: &[&str], record: Option<Vec<u16>>, upstream: Upstream) -> Rule {
    Rule { pattern: Pattern::Suffix { suffix: names(list), record }, upstream }
}

fn handler(rules: Vec<Rule>) -> DnsHandler {
    let mut h = DnsHandler::new();
    h.add_rules(rules);
    h
}

#[test]
fn labels_are_reversed_and_empty_ones_dropped() {
    assert_eq!(domain_path_of("www.example.test."), names(&["test", "example", "www"]));
    assert_eq!(domain_path_of("..a..b."), names(&["b", "a"]));
    assert_eq!(domain_path_of(""), Vec::<String>::new());
    assert_eq!(domain_path_of("."), Vec::<String>::new());
}

#[test]
fn exact_dominates_suffix() {
    let h = handler(vec![
        suffix(&["example.test"], None, udp(2)),
        exact(&["www.example.test"], None, udp(1)),
    ]);
    assert_eq!(h.search_upstream("www.example.test.".to_string(), RECORD_A), Some(udp(1)));
    assert_eq!(h.search_upstream("mail.example.test.".to_string(), RECORD_A), Some(udp(2)));
}

#[test]
fn typed_exact_dominates_untyped_exact() {
    let h = handler(vec![
        exact(&["n.test"], None, udp(1)),
        exact(&["n.test"], Some(vec![RECORD_MX, RECORD_AAAA]), udp(2)),
    ]);
    assert_eq!(h.search_upstream("n.test".to_string(), RECORD_AAAA), Some(udp(2)));
    assert_eq!(h.search_upstream("n.test".to_string(), RECORD_MX), Some(udp(2)));
    assert_eq!(h.search_upstream("n.test".to_string(), RECORD_A), Some(udp(1)));
}

#[test]
fn exact_rule_does_not_match_subdomains() {
    let h = handler(vec![exact(&["n.test"], None, udp(1))]);
    assert_eq!(h.search_upstream("x.n.test".to_string(), RECORD_A), None);
    assert_eq!(h.search_upstream("test".to_string(), RECORD_A), None);
}

#[test]
fn longest_suffix_wins() {
    let h = handler(vec![
        suffix(&["b.c"], None, ipv4(2, 2, 2, 2)),
        suffix(&["a.b.c"], None, ipv4(1, 1, 1, 1)),
    ]);
    assert_eq!(h.search_upstream("x.a.b.c".to_string(), RECORD_A), Some(ipv4(1, 1, 1, 1)));
    assert_eq!(h.search_upstream("x.b.c".to_string(), RECORD_A), Some(ipv4(2, 2, 2, 2)));
    assert_eq!(h.search_upstream("a.b.c".to_string(), RECORD_A), Some(ipv4(1, 1, 1, 1)));
    assert_eq!(h.search_upstream("c".to_string(), RECORD_A), None);
}

#[test]
fn deeper_suffix_beats_earlier_shallower_across_families() {
    let h = handler(vec![
        suffix(&["c"], Some(vec![RECORD_A]), udp(1)),
        suffix(&["b.c"], None, udp(2)),
    ]);
    assert_eq!(h.search_upstream("x.b.c".to_string(), RECORD_A), Some(udp(2)));
    assert_eq!(h.search_upstream("x.c".to_string(), RECORD_A), Some(udp(1)));
}

#[test]
fn equal_depth_suffix_tie_goes_to_earlier_rule() {
    let typed_first = handler(vec![
        suffix(&["b.c"], Some(vec![RECORD_A]), udp(1)),
        suffix(&["b.c"], None, udp(2)),
    ]);
    assert_eq!(typed_first.search_upstream("x.b.c".to_string(), RECORD_A), Some(udp(1)));
    assert_eq!(typed_first.search_upstream("x.b.c".to_string(), RECORD_AAAA), Some(udp(2)));
    let untyped_first = handler(vec![
        suffix(&["b.c"], None, udp(2)),
        suffix(&["b.c"], Some(vec![RECORD_A]), udp(1)),
    ]);
    assert_eq!(untyped_first.search_upstream("x.b.c".to_string(), RECORD_A), Some(udp(2)));
}

#[test]
fn earlier_rule_wins_within_one_trie() {
    let h = handler(vec![suffix(&["b.c"], None, udp(1)), suffix(&["b.c"], None, udp(2))]);
    assert_eq!(h.search_upstream("b.c".to_string(), RECORD_A), Some(udp(1)));
}

#[test]
fn equal_priority_keeps_first_writer() {
    let mut r = DnsRouter::new();
    r.add_rule(suffix(&["b.c"], None, udp(1)), 3);
    r.add_rule(suffix(&["b.c"], None, udp(2)), 3);
    r.add_rule(suffix(&["b.c"], None, udp(3)), 1);
    assert_eq!(r.search("b.c".to_string(), RECORD_A), Some(udp(1)));
    r.add_rule(suffix(&["b.c"], None, udp(4)), 4);
    assert_eq!(r.search("b.c".to_string(), RECORD_A), Some(udp(4)));
}

#[test]
fn root_suffix_matches_everything() {
    let h = handler(vec![
        suffix(&["example"], None, udp(1)),
        suffix(&["."], None, Upstream::Special(SpecialUpstream::NODATA)),
    ]);
    assert_eq!(
        h.search_upstream("anything.test".to_string(), RECORD_A),
        Some(Upstream::Special(SpecialUpstream::NODATA))
    );
    assert_eq!(h.search_upstream("a.example".to_string(), RECORD_A), Some(udp(1)));
}

#[test]
fn building_twice_gives_the_same_answers() {
    let rules = || {
        vec![
            exact(&["n.test"], Some(vec![RECORD_A]), udp(1)),
            suffix(&["test"], None, udp(2)),
            suffix(&["n.test"], Some(vec![RECORD_AAAA]), udp(3)),
        ]
    };
    let a = handler(rules());
    let b = handler(rules());
    for name in ["n.test", "m.n.test", "test", "other.zone", "x.test"] {
        for rt in [RECORD_A, RECORD_AAAA, RECORD_MX] {
            assert_eq!(
                a.search_upstream(name.to_string(), rt),
                b.search_upstream(name.to_string(), rt)
            );
        }
    }
    assert_eq!(a.search_upstream("m.n.test".to_string(), RECORD_AAAA), Some(udp(3)));
    assert_eq!(a.search_upstream("n.test".to_string(), RECORD_A), Some(udp(1)));
    assert_eq!(a.search_upstream("n.test".to_string(), RECORD_MX), Some(udp(2)));
}

#[test]
fn a_rule_with_several_names_and_records() {
    let h = handler(vec![exact(&["a.test", "b.test"], Some(vec![RECORD_A, RECORD_A, RECORD_MX]), udp(7))]);
    assert_eq!(h.search_upstream("a.test".to_string(), RECORD_A), Some(udp(7)));
    assert_eq!(h.search_upstream("b.test".to_string(), RECORD_MX), Some(udp(7)));
    assert_eq!(h.search_upstream("b.test".to_string(), RECORD_AAAA), None);
}
