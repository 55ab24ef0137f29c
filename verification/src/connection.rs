//! What the connection loop does after a connection ends.
use vstd::prelude::*;

verus! {

/// How a connection ended.
#[derive(PartialEq, Eq, Structural, Clone, Copy, Debug)]
pub enum ConnectionEnd {
    /// The editor closed it: the client is done.
    Closed,
    /// The server, the network or the handshake ended it.
    Lost,
}

/// What to do next.
#[derive(PartialEq, Eq, Structural, Clone, Copy, Debug)]
pub enum Reconnect {
    /// Stop the loop.
    Stop,
    /// Connect again after this many milliseconds.
    RetryAfterMillis(u64),
}

/// After a closed connection the loop stops; after a lost one it connects
/// again a second later.
pub fn after_connection(end: ConnectionEnd) -> (r: Reconnect)
    ensures
        end == ConnectionEnd::Closed ==> r == Reconnect::Stop,
        end == ConnectionEnd::Lost ==> r == Reconnect::RetryAfterMillis(1000),
{
    match end {
        ConnectionEnd::Closed => Reconnect::Stop,
        ConnectionEnd::Lost => Reconnect::RetryAfterMillis(1000),
    }
}

} // verus!
