//! A minimal verified HTTP/1.0 profiling library.
//!
//! The library builds the literal request text sent to a server, parses the
//! raw response into a status code, size and body, and aggregates repeated
//! measurements into summary statistics. Networking itself (TCP, TLS) is left
//! to the surrounding application; everything here is plain computation with
//! a proved contract.

pub mod config;
pub mod lines;
pub mod numbers;
pub mod request;
pub mod response;
pub mod stats;
