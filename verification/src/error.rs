//! Error taxonomy of the client: transport, handshake and configuration
//! failures. Sourcetable line errors and recoverable frame errors never
//! surface here.

use vstd::prelude::*;

verus! {

/// Errors surfaced by client operations.
#[derive(Debug, PartialEq)]
pub enum NtripClientError {
    /// Transport-level failure; carries the underlying error text.
    Io(String),
    /// The configured host is not a valid TLS certificate name.
    InvalidDnsName(String),
    /// Non-success or empty handshake response; carries the offending
    /// status line, or `empty response`.
    ResponseError(String),
    /// A configuration string could not be parsed as a URL.
    InvalidUrl,
    /// A configuration string carried an invalid port number.
    InvalidPort,
}

} // verus!
