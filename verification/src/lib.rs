pub mod authority;
pub mod buffer;
pub mod cache;
pub mod client;
pub mod context;
pub mod filter;
pub mod protocol;
pub mod resolve;
pub mod server;
pub mod text;
pub mod utils;

use vstd::prelude::*;

verus! {

/// The kinds of failure that the DNS engine reports.
#[derive(Clone, Copy, Debug, PartialEq, Eq, Structural)]
pub enum DnsError {
    /// Malformed wire data: bad lengths, an overlong name, a bad record length.
    InvalidInput,
    /// A name-pointer loop or an excessive label while decoding a name.
    LimitsExceeded,
    /// No reply from an upstream server within the allotted time.
    TimedOut,
    /// The resolver could not determine an authoritative answer.
    NotFound,
    /// A socket or stream failure reported by the transport.
    Io,
}

} // verus!
