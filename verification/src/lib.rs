//! A verified stub-resolver core for DNS nameserver (NS) lookups.
//!
//! The library covers the pure heart of one lookup: building the wire-format
//! query for a domain, decoding a raw response buffer (including compressed
//! names), extracting the nameserver names from NS answers, and the decisions
//! of a socket-reuse pool. The network round trip itself — binding a UDP
//! socket, sending the query, receiving the response — is left to the caller,
//! which hands the raw bytes in and gets plain values back.

pub mod errors;
pub mod name;
pub mod pool;
pub mod query;
pub mod response;

pub use errors::DnsError;
pub use name::{parse_compressed_name, parse_domain_name};
pub use pool::SocketPool;
pub use query::build_dns_query;
pub use response::{get_nameservers, parse_dns_response, DnsAnswer};
