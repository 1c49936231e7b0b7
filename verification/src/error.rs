use vstd::prelude::*;

verus! {

/// The error kinds the core surfaces to callers.
///
/// Transport failures are terminal for the core; every other kind resolves
/// only the one request it belongs to.
#[derive(Debug, Clone)]
pub enum CdpError {
    /// The connection to the browser failed; terminal for the core.
    Transport,
    /// A payload could not be encoded or decoded.
    Serialization,
    /// The browser answered the request with an error payload.
    Protocol { code: i64, message: String },
    /// The browser answered with neither a result nor an error.
    NoResponse,
    /// The pending command outlived the timeout and was evicted.
    Timeout,
    /// The frame lifecycle reported that the navigation failed.
    Navigation { kind: String },
    /// A create-target response referenced a target the core does not know.
    UnknownTarget,
}

} // verus!
