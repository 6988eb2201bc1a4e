//! The error taxonomy of the pipeline. Every failure is explicit: the only
//! conditions ever swallowed are an unknown instrument key in a tick and a
//! duplicate row in the instrument file, both documented policy.

use vstd::prelude::*;

verus! {

/// One kind per failure disposition; all of them are fatal for the part of
/// the pipeline that raises them.
#[derive(Clone, Copy, Debug, PartialEq, Eq, Structural)]
pub enum FeedError {
    /// Missing credential or instrument source at startup.
    Config,
    /// Malformed row in the instrument file; no partial registry is kept.
    Parse,
    /// Non-2xx auth status or a malformed auth body; the session never opens.
    Auth,
    /// Transport handshake failure.
    Connection,
    /// Undecodable inbound frame; the read loop terminates.
    Protocol,
    /// Read error mid-stream.
    Transport,
    /// The mark-sent write failed and must be surfaced, never dropped.
    RuleStore,
}

} // verus!
