use vstd::prelude::*;
use crate::protocol::{DnsPacket, QueryType};
use crate::DnsError;

verus! {

/// The capability of asking one DNS server one question.
///
/// The network client the server runs with implements this over a shared
/// UDP socket; tests implement it with a canned callback. Nothing can be
/// promised of what a server on the network answers, so the methods carry
/// no contract: callers state what holds of every possible reply.
pub trait DnsClient {
    /// Makes the client ready to send queries.
    fn run(&mut self) -> Result<(), DnsError>;

    /// Sends one query to `server` and awaits the matching reply.
    fn send_query(
        &self,
        qname: &str,
        qtype: QueryType,
        server: (&str, u16),
        recursion_desired: bool,
    ) -> Result<DnsPacket, DnsError>;
}

} // verus!
