use vstd::prelude::*;

verus! {

/// Failures of the wire codec and of the resolvers, following the
/// propagation rules of the server: a malformed query is answered with
/// FORMERR, an internal failure with SERVFAIL.
#[derive(PartialEq, Eq, Structural, Clone, Copy, Debug)]
pub enum DnsError {
    /// A read or write would pass the end of the datagram buffer.
    EndOfBuffer,
    /// The name-compression pointer chase exceeded the jump limit.
    MaxJumps,
    /// A label is longer than 63 bytes, or its length byte is malformed.
    BadLabel,
    /// Every configured upstream target failed to serve the request.
    AllTargetsFailed,
    /// The recursive resolver reached its recursion depth limit.
    MaxDepthExceeded,
    /// A transport failure that is not a timeout; fatal for the
    /// request rather than a reason to try the next target.
    Io,
}

} // verus!
