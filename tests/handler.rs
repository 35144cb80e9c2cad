use godns::config::{Pattern, Rule, RECORD_A, RECORD_AAAA};
use godns::dns_handler::{Action, DnsHandler, MessageType, RequestInfo, ResponseCode, OPCODE_QUERY};
use godns::upstream::{IpAddress, SocketAddress, SpecialUpstream, Upstream};

const OPCODE_UPDATE: u8 = 5;

fn rule_exact(name: &str, record: Option<Vec<u16>>, upstream: Upstream) -> Rule {
    Rule { pattern: Pattern::Domain { domain: vec![name.to_string()], record }, upstream }
}

fn rule_suffix(name: &str, record: Option<Vec<u16>>, upstream: Upstream) -> Rule {
    Rule { pattern: Pattern::Suffix { suffix: vec![name.to_string()], record }, upstream }
}

fn query(name: &str, query_type: u16) -> RequestInfo {
    RequestInfo {
        message_type: MessageType::Query,
        op_code: OPCODE_QUERY,
        name: name.to_string(),
        query_type,
        has_edns: false,
    }
}

fn handler(rules: Vec<Rule>) -> DnsHandler {
    let mut h = DnsHandler::new();
    h.add_rules(rules);
    h
}

#[test]
fn exact_match_synthesis() {
    let h = handler(vec![rule_exact(
        "example.test",
        Some(vec![RECORD_A]),
        Upstream::IPv4 { ipv4: u32::from_be_bytes([10, 0, 0, 1]) },
    )]);
    assert!(matches!(
        h.handle_request(query("example.test.", RECORD_A)),
        Action::AnswerA(a) if a == u32::from_be_bytes([10, 0, 0, 1])
    ));
    // The rule is filed for `A` only, so an `AAAA` question matches no rule.
    assert!(matches!(
        h.handle_request(query("example.test.", RECORD_AAAA)),
        Action::Respond(ResponseCode::NXDomain)
    ));
}

#[test]
fn ipv4_upstream_with_other_record_type_gives_no_records() {
    let h = handler(vec![rule_exact(
        "example.test",
        Some(vec![RECORD_A, RECORD_AAAA]),
        Upstream::IPv4 { ipv4: u32::from_be_bytes([10, 0, 0, 1]) },
    )]);
    assert!(matches!(h.handle_request(query("example.test.", RECORD_AAAA)), Action::NoRecords));
    let untyped = handler(vec![rule_suffix("example.test", None, Upstream::IPv4 { ipv4: 1 })]);
    assert!(matches!(untyped.handle_request(query("www.example.test", RECORD_AAAA)), Action::NoRecords));
}

#[test]
fn ipv6_synthesis() {
    let h = handler(vec![rule_exact("six.test", Some(vec![RECORD_AAAA, RECORD_A]), Upstream::IPv6 { ipv6: 1 })]);
    assert!(matches!(h.handle_request(query("six.test", RECORD_AAAA)), Action::AnswerAAAA(1)));
    assert!(matches!(h.handle_request(query("six.test", RECORD_A)), Action::NoRecords));
}

#[test]
fn suffix_longest_match() {
    let h = handler(vec![
        rule_suffix("a.b.c", None, Upstream::IPv4 { ipv4: u32::from_be_bytes([1, 1, 1, 1]) }),
        rule_suffix("b.c", None, Upstream::IPv4 { ipv4: u32::from_be_bytes([2, 2, 2, 2]) }),
    ]);
    assert!(matches!(
        h.handle_request(query("x.a.b.c", RECORD_A)),
        Action::AnswerA(a) if a == u32::from_be_bytes([1, 1, 1, 1])
    ));
    assert!(matches!(
        h.handle_request(query("y.b.c", RECORD_A)),
        Action::AnswerA(a) if a == u32::from_be_bytes([2, 2, 2, 2])
    ));
}

#[test]
fn nxdomain_special() {
    let h = handler(vec![rule_suffix("ads.example", None, Upstream::Special(SpecialUpstream::NXDOMAIN))]);
    assert!(matches!(
        h.handle_request(query("banner.ads.example", RECORD_A)),
        Action::Respond(ResponseCode::NXDomain)
    ));
}

#[test]
fn nodata_special() {
    let h = handler(vec![rule_suffix("quiet.example", None, Upstream::Special(SpecialUpstream::NODATA))]);
    assert!(matches!(h.handle_request(query("a.quiet.example", RECORD_A)), Action::NoRecords));
}

#[test]
fn no_rule_gives_nxdomain() {
    let h = handler(vec![]);
    assert!(matches!(
        h.handle_request(query("anything.test", RECORD_A)),
        Action::Respond(ResponseCode::NXDomain)
    ));
}

#[test]
fn unmatched_query_gives_nxdomain() {
    let h = handler(vec![rule_suffix("other.test", None, Upstream::Special(SpecialUpstream::NODATA))]);
    assert!(matches!(
        h.handle_request(query("anything.test", RECORD_A)),
        Action::Respond(ResponseCode::NXDomain)
    ));
}

#[test]
fn update_opcode_gives_notimp() {
    let h = handler(vec![rule_suffix(".", None, Upstream::Special(SpecialUpstream::NODATA))]);
    let mut req = query("anything.test", RECORD_A);
    req.op_code = OPCODE_UPDATE;
    assert!(matches!(h.handle_request(req), Action::Respond(ResponseCode::NotImp)));
}

#[test]
fn response_message_gives_formerr() {
    let h = handler(vec![rule_suffix(".", None, Upstream::Special(SpecialUpstream::NODATA))]);
    let mut req = query("anything.test", RECORD_A);
    req.message_type = MessageType::Response;
    assert!(matches!(h.handle_request(req), Action::Respond(ResponseCode::FormErr)));
}

#[test]
fn resolver_upstream_is_resolved_with_edns_mirrored() {
    let up = Upstream::TCP { tcp: SocketAddress { ip: IpAddress::V4(0x08080808), port: 53 } };
    let h = handler(vec![rule_suffix("test", None, up.clone())]);
    let mut req = query("a.test", RECORD_A);
    req.has_edns = true;
    match h.handle_request(req) {
        Action::Resolve { upstream, use_edns } => {
            assert_eq!(upstream, up);
            assert!(use_edns);
        }
        other => panic!("unexpected action {:?}", other),
    }
    match h.handle_request(query("b.test", RECORD_AAAA)) {
        Action::Resolve { use_edns, .. } => assert!(!use_edns),
        other => panic!("unexpected action {:?}", other),
    }
}
