//! Credentials for the simpler client surface, and the Basic
//! authentication token shared with the handshake builder.

use base64::Engine;
use vstd::prelude::*;
use vstd::string::StringExecFns;

verus! {

/// What the standard base64 engine returns for the UTF-8 bytes of a
/// string; a function of the input alone.
pub uninterp spec fn base64_of(s: Seq<char>) -> Seq<char>;

/// Relies on base64's `general_purpose::STANDARD` engine (standard
/// alphabet, padded) applied to the string's UTF-8 bytes; the result
/// depends on the input alone.
#[verifier::external_body]
pub(crate) fn base64_string(s: &str) -> (r: String)
    ensures
        r@ == base64_of(s@),
{
    base64::engine::general_purpose::STANDARD.encode(s.as_bytes())
}

/// Credentials holding the user and password as one unit, able to
/// render themselves as a Basic authentication token.
pub struct NTRIPCredentials {
    user: String,
    password: String,
}

/// Mathematical image of [`NTRIPCredentials`].
pub struct NTRIPCredentialsV {
    pub user: Seq<char>,
    pub password: Seq<char>,
}

impl View for NTRIPCredentials {
    type V = NTRIPCredentialsV;

    closed spec fn view(&self) -> NTRIPCredentialsV {
        NTRIPCredentialsV { user: self.user@, password: self.password@ }
    }
}

impl NTRIPCredentials {
    /// Credentials from a user name and password.
    pub fn new(user: &str, password: &str) -> (r: Self)
        ensures
            r@.user == user@,
            r@.password == password@,
    {
        NTRIPCredentials { user: user.to_owned(), password: password.to_owned() }
    }

    /// The base64 Basic authentication token of `user:password`.
    pub fn encode(&self) -> (r: String)
        ensures
            r@ == base64_of(self@.user + ":"@ + self@.password),
    {
        let mut joined = self.user.clone();
        joined.append(":");
        joined.append(self.password.as_str());
        base64_string(joined.as_str())
    }
}

} // verus!
