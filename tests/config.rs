use godns::cli::Args;
use godns::config::{default_host, default_port, Config, ConfigError, Pattern, Rule, RECORD_A, RECORD_AAAA};
use godns::log_level::LogLevel;
use godns::upstream::{SpecialUpstream, Upstream};

fn rule(record: Option<Vec<u16>>, upstream: Upstream) -> Rule {
    Rule { pattern: Pattern::Domain { domain: vec!["x.test".to_string()], record }, upstream }
}

fn config(rules: Vec<Rule>) -> Config {
    let mut c = Config::default();
    c.rule = rules;
    c
}

#[test]
fn defaults() {
    assert_eq!(default_host(), "127.0.0.1");
    assert_eq!(default_port(), 0);
    let c = Config::default();
    assert_eq!(c.host, "127.0.0.1");
    assert_eq!(c.port, 0);
    assert_eq!(c.log_level, LogLevel::Info);
    assert!(c.rule.is_empty());
    assert_eq!(LogLevel::default(), LogLevel::Info);
}

#[test]
fn log_level_names() {
    assert_eq!(LogLevel::Trace.to_string(), "trace");
    assert_eq!(LogLevel::Debug.to_string(), "debug");
    assert_eq!(LogLevel::Info.to_string(), "info");
    assert_eq!(LogLevel::Warn.to_string(), "warn");
    assert_eq!(LogLevel::Error.to_string(), "error");
}

#[test]
fn validation_rejects_ipv4_without_record() {
    let c = config(vec![rule(None, Upstream::IPv4 { ipv4: 1 })]);
    let e = c.validate_rules().unwrap_err();
    assert_eq!(e, ConfigError::IPv4WithoutA);
    assert!(e.message().contains("IPv4 should be used with 'A'"));
}

#[test]
fn validation_rejects_ipv4_with_other_first_record() {
    let c = config(vec![rule(Some(vec![RECORD_AAAA, RECORD_A]), Upstream::IPv4 { ipv4: 1 })]);
    assert_eq!(c.validate_rules(), Err(ConfigError::IPv4WithoutA));
    let c = config(vec![rule(Some(vec![]), Upstream::IPv4 { ipv4: 1 })]);
    assert_eq!(c.validate_rules(), Err(ConfigError::IPv4WithoutA));
}

#[test]
fn validation_rejects_ipv6_without_aaaa() {
    let c = config(vec![rule(Some(vec![RECORD_A]), Upstream::IPv6 { ipv6: 1 })]);
    let e = c.validate_rules().unwrap_err();
    assert_eq!(e, ConfigError::IPv6WithoutAAAA);
    assert_eq!(e.message(), "IPv6 should be used with 'AAAA'");
}

#[test]
fn validation_accepts_good_rules_and_reports_first_fault() {
    let good = config(vec![
        rule(Some(vec![RECORD_A]), Upstream::IPv4 { ipv4: 1 }),
        rule(Some(vec![RECORD_AAAA]), Upstream::IPv6 { ipv6: 1 }),
        rule(None, Upstream::Special(SpecialUpstream::NXDOMAIN)),
    ]);
    assert_eq!(good.validate_rules(), Ok(()));
    let bad = config(vec![
        rule(Some(vec![RECORD_A]), Upstream::IPv4 { ipv4: 1 }),
        rule(None, Upstream::IPv6 { ipv6: 1 }),
        rule(None, Upstream::IPv4 { ipv4: 1 }),
    ]);
    assert_eq!(bad.validate_rules(), Err(ConfigError::IPv6WithoutAAAA));
    assert_eq!(config(vec![]).validate_rules(), Ok(()));
}

#[test]
fn arguments_override_the_file() {
    let mut base = Config::default();
    base.host = "0.0.0.0".to_string();
    base.port = 53;
    let args = Args { host: None, port: Some(5353), log_level: Some(LogLevel::Debug), config: None };
    let c = Config::from_args(args, base);
    assert_eq!(c.host, "0.0.0.0");
    assert_eq!(c.port, 5353);
    assert_eq!(c.log_level, LogLevel::Debug);
    let args = Args { host: Some("::1".to_string()), port: None, log_level: None, config: None };
    let c = Config::from_args(args, Config::default());
    assert_eq!(c.host, "::1");
    assert_eq!(c.port, 0);
    assert_eq!(c.log_level, LogLevel::Info);
}
