//! The client facade: an endpoint configuration paired with the
//! credentials presented during the handshake. Opening transports and
//! pumping the decode loop belong to the embedding application.

use vstd::prelude::*;

use crate::config::{NtripConfig, NtripCredentials};
use crate::error::NtripClientError;

verus! {

/// NTRIP client, used to list mounts on and subscribe to an NTRIP
/// (RTCM) service.
pub struct NtripClient {
    /// The endpoint to connect to.
    pub config: NtripConfig,
    /// The credentials presented during the handshake.
    pub creds: NtripCredentials,
}

impl NtripClient {
    /// A client for the given endpoint and credentials.
    pub fn new(config: NtripConfig, creds: NtripCredentials) -> (r: Result<
        NtripClient,
        NtripClientError,
    >)
        ensures
            r is Ok,
            r matches Ok(c) ==> c.config@ == config@ && c.creds@ == creds@,
    {
        Ok(NtripClient { config, creds })
    }
}

} // verus!
