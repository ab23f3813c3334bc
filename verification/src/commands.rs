//! Marker types for console and chat commands. The session layer parses
//! input and dispatches on these; the streaming core never sees them.

use vstd::prelude::*;

verus! {

/// The command that reports the running server version (paths `version` and
/// `ver`). Carries no arguments; handling it is a plain message back to the
/// caller.
#[derive(Clone, Copy, PartialEq, Eq, Debug, Structural)]
pub struct VersionCommand;

} // verus!
