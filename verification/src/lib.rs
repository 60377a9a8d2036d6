//! A content-directory node for a simulated multi-hop overlay network.
//!
//! The node answers a small request/response protocol (server kind, content
//! listing, item lookup) over a transport that delivers only bounded-size
//! fragments, possibly out of order and interleaved across sessions. The
//! core of the crate is the fragment reassembly engine, the routing/send
//! layer that fragments outgoing payloads and correlates replies to the
//! originating session, and the directory-server dispatch that consumes
//! reassembled requests.

pub mod protocol;
pub mod store;
pub mod assembler;
pub mod ext;
pub mod routing;
pub mod server;
