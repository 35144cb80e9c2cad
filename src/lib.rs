//! Rule-based DNS forwarding: routing of queries to upstreams, a memoizing
//! pool of resolver clients, and the decisions of the request handler.

pub mod cli;
pub mod config;
pub mod dns_handler;
pub mod dns_router;
pub mod labels;
pub mod log_level;
pub mod proxy_runtime;
pub mod resolver_pool;
pub mod routing;
pub mod trie;
pub mod upstream;
