//! Network-transport core of a machine-oriented HTTP client: a stub DNS
//! resolver speaking the wire protocol directly, a concurrency-bounded
//! connection pool, and the pure data structures around them (HTTP text
//! handling, binary DOM snapshots, deterministic time and randomness,
//! session state).

pub mod ip;
pub mod dns_types;
pub mod dns_codec;
pub mod dns_resolver;
pub mod connection_pool;
pub mod entropy;
pub mod clock;
pub mod deterministic;
pub mod dom;
pub mod http_text;
pub mod session;
pub mod text;
