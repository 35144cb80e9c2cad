//! The command-line overrides of the configuration.
use vstd::prelude::*;
use crate::log_level::LogLevel;

verus! {

/// Command-line arguments: each given value overrides the configuration
/// file's; `config` is the path of that file.
#[derive(Debug)]
pub struct Args {
    pub host: Option<String>,
    pub port: Option<u16>,
    pub log_level: Option<LogLevel>,
    pub config: Option<String>,
}

} // verus!
