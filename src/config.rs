//! The configuration: listening endpoint, log level and the ordered rule list.
use vstd::prelude::*;
use crate::cli::Args;
use crate::log_level::LogLevel;
use crate::upstream::Upstream;

verus! {

/// The DNS type code of an `A` record.
pub const RECORD_A: u16 = 1;

/// The DNS type code of an `AAAA` record.
pub const RECORD_AAAA: u16 = 28;

/// What a rule matches: names exactly (`Domain`) or names and everything
/// below them (`Suffix`), optionally restricted to some record types, given
/// by their DNS type codes.
#[derive(Debug)]
pub enum Pattern {
    Domain { domain: Vec<String>, record: Option<Vec<u16>> },
    Suffix { suffix: Vec<String>, record: Option<Vec<u16>> },
}

/// A routing rule: queries matching `pattern` go to `upstream`.
#[derive(Debug)]
pub struct Rule {
    pub pattern: Pattern,
    pub upstream: Upstream,
}

impl Pattern {
    /// The names of the pattern, as character sequences.
    pub open spec fn names(&self) -> Seq<Seq<char>> {
        match *self {
            Pattern::Domain { domain, .. } => crate::labels::strings_view(domain@),
            Pattern::Suffix { suffix, .. } => crate::labels::strings_view(suffix@),
        }
    }

    /// The record types the pattern is restricted to, if any.
    pub open spec fn records(&self) -> Option<Seq<u16>> {
        match *self {
            Pattern::Domain { record, .. } => match record {
                Some(r) => Some(r@),
                None => None,
            },
            Pattern::Suffix { record, .. } => match record {
                Some(r) => Some(r@),
                None => None,
            },
        }
    }
}

/// Why a configuration is refused.
#[derive(Clone, Copy, Debug, PartialEq, Eq, Structural)]
pub enum ConfigError {
    /// A rule with a fixed IPv4 answer whose record list does not start with `A`.
    IPv4WithoutA,
    /// A rule with a fixed IPv6 answer whose record list does not start with `AAAA`.
    IPv6WithoutAAAA,
}

impl ConfigError {
    pub open spec fn text(self) -> Seq<char> {
        match self {
            ConfigError::IPv4WithoutA => "IPv4 should be used with 'A'"@,
            ConfigError::IPv6WithoutAAAA => "IPv6 should be used with 'AAAA'"@,
        }
    }

    /// The message that explains the error.
    pub fn message(&self) -> (r: String)
        ensures
            r@ == self.text(),
    {
        match self {
            ConfigError::IPv4WithoutA => "IPv4 should be used with 'A'".to_string(),
            ConfigError::IPv6WithoutAAAA => "IPv6 should be used with 'AAAA'".to_string(),
        }
    }
}

/// The record list is given and its first type is `t`.
pub open spec fn records_start_with(records: Option<Seq<u16>>, t: u16) -> bool {
    records is Some && records->0.len() > 0 && records->0[0] == t
}

/// What is wrong with a rule, if anything: a fixed IPv4 answer needs a
/// record list starting with `A`, a fixed IPv6 answer one starting with `AAAA`.
pub open spec fn rule_error(r: Rule) -> Option<ConfigError> {
    match r.upstream {
        Upstream::IPv4 { .. } => if records_start_with(r.pattern.records(), RECORD_A) {
            None
        } else {
            Some(ConfigError::IPv4WithoutA)
        },
        Upstream::IPv6 { .. } => if records_start_with(r.pattern.records(), RECORD_AAAA) {
            None
        } else {
            Some(ConfigError::IPv6WithoutAAAA)
        },
        _ => None,
    }
}

/// The error of the first faulty rule.
pub open spec fn rules_error(rules: Seq<Rule>) -> Option<ConfigError>
    decreases rules.len(),
{
    if rules.len() == 0 {
        None
    } else {
        match rule_error(rules[0]) {
            Some(e) => Some(e),
            None => rules_error(rules.drop_first()),
        }
    }
}

pub open spec fn as_result(e: Option<ConfigError>) -> Result<(), ConfigError> {
    match e {
        Some(e) => Err(e),
        None => Ok(()),
    }
}

/// The listening endpoint, the log level and the ordered rules.
#[derive(Debug)]
pub struct Config {
    pub host: String,
    pub port: u16,
    pub log_level: LogLevel,
    pub rule: Vec<Rule>,
}

/// The host listened on when none is configured.
pub fn default_host() -> (r: String)
    ensures
        r@ == "127.0.0.1"@,
{
    "127.0.0.1".to_string()
}

/// The port listened on when none is configured: the system picks one.
pub fn default_port() -> (r: u16)
    ensures
        r == 0,
{
    0
}

impl Default for Config {
    fn default() -> (r: Config)
        ensures
            r.host@ == "127.0.0.1"@,
            r.port == 0,
            r.log_level == LogLevel::Info,
            r.rule@.len() == 0,
    {
        Config { host: default_host(), port: default_port(), log_level: LogLevel::Info, rule: Vec::new() }
    }
}

impl Config {
    /// `base` with each value that `args` gives in its place.
    pub fn from_args(args: Args, base: Config) -> (r: Config)
        ensures
            r.host == match args.host {
                Some(h) => h,
                None => base.host,
            },
            r.port == match args.port {
                Some(p) => p,
                None => base.port,
            },
            r.log_level == match args.log_level {
                Some(l) => l,
                None => base.log_level,
            },
            r.rule == base.rule,
    {
        let mut config = base;
        if let Some(host) = args.host {
            config.host = host;
        }
        if let Some(port) = args.port {
            config.port = port;
        }
        if let Some(log_level) = args.log_level {
            config.log_level = log_level;
        }
        config
    }

    /// Checks every rule, in order, and reports the first fault.
    pub fn validate_rules(&self) -> (r: Result<(), ConfigError>)
        ensures
            r == as_result(rules_error(self.rule@)),
    {
        let ghost all = self.rule@;
        let mut i: usize = 0;
        assert(all.skip(0) =~= all);
        while i < self.rule.len()
            invariant
                all == self.rule@,
                i <= all.len(),
                rules_error(all) == rules_error(all.skip(i as int)),
            decreases all.len() - i,
        {
            assert(all.skip(i as int).drop_first() =~= all.skip(i + 1));
            let checked = self.validate_rule(&self.rule[i]);
            if checked.is_err() {
                return checked;
            }
            i = i + 1;
        }
        Ok(())
    }

    /// Checks one rule.
    pub fn validate_rule(&self, rule: &Rule) -> (r: Result<(), ConfigError>)
        ensures
            r == as_result(rule_error(*rule)),
    {
        let records = match &rule.pattern {
            Pattern::Domain { record, .. } => record,
            Pattern::Suffix { record, .. } => record,
        };
        match &rule.upstream {
            Upstream::IPv4 { .. } => match records {
                Some(records) if records.len() > 0 && records[0] == RECORD_A => Ok(()),
                _ => Err(ConfigError::IPv4WithoutA),
            },
            Upstream::IPv6 { .. } => match records {
                Some(records) if records.len() > 0 && records[0] == RECORD_AAAA => Ok(()),
                _ => Err(ConfigError::IPv6WithoutAAAA),
            },
            _ => Ok(()),
        }
    }
}

} // verus!
