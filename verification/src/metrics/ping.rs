//! What is known of a ping before it is sent.

use vstd::prelude::*;
use crate::error::SendError;

verus! {

/// Stores information about a ping.
///
/// This is required so that given metric data queued on disk we can send
/// pings with the correct settings, e.g. whether it has a client_id.
#[derive(Clone, Debug)]
pub struct PingType {
    /// The name of the ping.
    pub name: String,
    /// Whether the ping should include the client ID.
    pub include_client_id: bool,
}

impl PingType {
    /// Create a new ping type for the given name and whether to include the client ID when
    /// sending.
    pub fn new(name: String, include_client_id: bool) -> (ping: Self)
        ensures
            ping.name == name,
            ping.include_client_id == include_client_id,
    {
        Self { name, include_client_id }
    }

    /// Send the ping.
    ///
    /// The engine assembles, encodes and submits the ping, and logs it
    /// after assembly if `log_ping` is set. This hands the ping to the
    /// engine and returns what the engine answers: whether the ping was
    /// submitted, or why it could not be.
    pub fn send<E: Fn(&PingType, bool) -> Result<bool, SendError>>(
        &self,
        engine: &E,
        log_ping: bool,
    ) -> (submitted: Result<bool, SendError>)
        requires
            call_requires(*engine, (self, log_ping)),
        ensures
            call_ensures(*engine, (self, log_ping), submitted),
    {
        engine(self, log_ping)
    }
}

} // verus!
