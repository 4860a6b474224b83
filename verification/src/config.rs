//! Endpoint configuration: the caster address, credentials, the provider
//! preset table, and parsing of URL-like configuration strings.

use vstd::prelude::*;
use vstd::string::StrSliceExecFns;
use vstd::string::StringExecFns;

use crate::error::NtripClientError;
use crate::text::{
    all_digits, begins_with, dec_chars, dec_value, has_prefix, parse_dec_limit, split_chars,
    split_str, str_eq, u16_string,
};

verus! {

/// NTRIP (Networked Transport of RTCM via Internet Protocol) endpoint
/// configuration.
#[derive(Debug)]
pub struct NtripConfig {
    /// Host name or IP address of the NTRIP caster.
    pub host: String,
    /// TCP port of the NTRIP caster.
    pub port: u16,
    /// Whether the connection is wrapped in TLS.
    pub use_tls: bool,
}

/// Mathematical image of an [`NtripConfig`].
pub struct NtripConfigV {
    pub host: Seq<char>,
    pub port: u16,
    pub use_tls: bool,
}

impl View for NtripConfig {
    type V = NtripConfigV;

    open spec fn view(&self) -> NtripConfigV {
        NtripConfigV { host: self.host@, port: self.port, use_tls: self.use_tls }
    }
}

/// Credentials for an NTRIP caster; an empty user suppresses the
/// `Authorization` header entirely.
#[derive(Debug)]
pub struct NtripCredentials {
    /// User name for the NTRIP service.
    pub user: String,
    /// Password for the NTRIP service.
    pub pass: String,
}

/// Mathematical image of [`NtripCredentials`].
pub struct NtripCredentialsV {
    pub user: Seq<char>,
    pub pass: Seq<char>,
}

impl View for NtripCredentials {
    type V = NtripCredentialsV;

    open spec fn view(&self) -> NtripCredentialsV {
        NtripCredentialsV { user: self.user@, pass: self.pass@ }
    }
}

impl NtripCredentials {
    /// A copy with the user name replaced.
    pub fn with_username(&self, username: &str) -> (r: Self)
        ensures
            r@.user == username@,
            r@.pass == self@.pass,
    {
        NtripCredentials { user: username.to_owned(), pass: self.pass.clone() }
    }

    /// A copy with the password replaced.
    pub fn with_password(&self, password: &str) -> (r: Self)
        ensures
            r@.user == self@.user,
            r@.pass == password@,
    {
        NtripCredentials { user: self.user.clone(), pass: password.to_owned() }
    }
}

impl Default for NtripCredentials {
    /// Credentials with empty user and password: anonymous access.
    fn default() -> (r: Self)
        ensures
            r@.user.len() == 0,
            r@.pass.len() == 0,
    {
        NtripCredentials { user: String::new(), pass: String::new() }
    }
}

/// Well-known RTCM correction data providers.
#[derive(Debug, Clone, Copy, PartialEq, Eq, Structural)]
pub enum RtcmProvider {
    /// Land Information New Zealand; requires credentials.
    Linz,
    /// RTK2GO.com free service.
    Rtk2Go,
    /// Positioning Australia; requires credentials and TLS.
    PosAu,
    /// Centipede FR.
    Centipede,
}

/// Host name of a provider preset.
pub open spec fn provider_host_chars(p: RtcmProvider) -> Seq<char> {
    match p {
        RtcmProvider::Linz => "positionz-rt.linz.govt.nz"@,
        RtcmProvider::Rtk2Go => "rtk2go.com"@,
        RtcmProvider::PosAu => "ntrip.data.gnss.ga.gov.au"@,
        RtcmProvider::Centipede => "caster.centipede.fr"@,
    }
}

/// Port of a provider preset.
pub open spec fn provider_port_value(p: RtcmProvider) -> u16 {
    match p {
        RtcmProvider::Linz => 2101,
        RtcmProvider::Rtk2Go => 2101,
        RtcmProvider::PosAu => 443,
        RtcmProvider::Centipede => 2101,
    }
}

/// Whether a provider preset uses TLS.
pub open spec fn provider_tls_value(p: RtcmProvider) -> bool {
    match p {
        RtcmProvider::Linz => false,
        RtcmProvider::Rtk2Go => false,
        RtcmProvider::PosAu => true,
        RtcmProvider::Centipede => false,
    }
}

/// The full preset triple of a provider.
pub open spec fn provider_config(p: RtcmProvider) -> NtripConfigV {
    NtripConfigV {
        host: provider_host_chars(p),
        port: provider_port_value(p),
        use_tls: provider_tls_value(p),
    }
}

/// The configuration-string name of a provider.
pub open spec fn provider_token(p: RtcmProvider) -> Seq<char> {
    match p {
        RtcmProvider::Linz => "linz"@,
        RtcmProvider::Rtk2Go => "rtk2go"@,
        RtcmProvider::PosAu => "posau"@,
        RtcmProvider::Centipede => "centipede"@,
    }
}

/// The provider named by a configuration string, if any.
pub open spec fn provider_from_token(s: Seq<char>) -> Option<RtcmProvider> {
    if s == "linz"@ {
        Some(RtcmProvider::Linz)
    } else if s == "rtk2go"@ {
        Some(RtcmProvider::Rtk2Go)
    } else if s == "posau"@ {
        Some(RtcmProvider::PosAu)
    } else if s == "centipede"@ {
        Some(RtcmProvider::Centipede)
    } else {
        None
    }
}

impl RtcmProvider {
    /// Host name of the provider.
    pub fn host(&self) -> (r: &'static str)
        ensures
            r@ == provider_host_chars(*self),
    {
        match self {
            RtcmProvider::Linz => "positionz-rt.linz.govt.nz",
            RtcmProvider::Rtk2Go => "rtk2go.com",
            RtcmProvider::PosAu => "ntrip.data.gnss.ga.gov.au",
            RtcmProvider::Centipede => "caster.centipede.fr",
        }
    }

    /// TCP port of the provider.
    pub fn port(&self) -> (r: u16)
        ensures
            r == provider_port_value(*self),
    {
        match self {
            RtcmProvider::Linz => 2101,
            RtcmProvider::Rtk2Go => 2101,
            RtcmProvider::PosAu => 443,
            RtcmProvider::Centipede => 2101,
        }
    }

    /// Whether the provider requires TLS.
    pub fn uses_tls(&self) -> (r: bool)
        ensures
            r == provider_tls_value(*self),
    {
        match self {
            RtcmProvider::Linz => false,
            RtcmProvider::Rtk2Go => false,
            RtcmProvider::PosAu => true,
            RtcmProvider::Centipede => false,
        }
    }

    /// The provider named by a configuration string, if any.
    pub fn from_token(s: &str) -> (r: Option<RtcmProvider>)
        ensures
            r == provider_from_token(s@),
    {
        if str_eq(s, "linz") {
            Some(RtcmProvider::Linz)
        } else if str_eq(s, "rtk2go") {
            Some(RtcmProvider::Rtk2Go)
        } else if str_eq(s, "posau") {
            Some(RtcmProvider::PosAu)
        } else if str_eq(s, "centipede") {
            Some(RtcmProvider::Centipede)
        } else {
            None
        }
    }
}

/// The `host:port` form of a configuration.
pub open spec fn url_chars(c: NtripConfigV) -> Seq<char> {
    c.host + ":"@ + dec_chars(c.port as int)
}

/// The scheme-stripping step of configuration parsing: whether the
/// scheme is secure HTTP, and the remainder of the string.
pub open spec fn scheme_rest(s: Seq<char>) -> (bool, Seq<char>) {
    if has_prefix(s, "http://"@) {
        (false, s.skip("http://"@.len() as int))
    } else if has_prefix(s, "https://"@) {
        (true, s.skip("https://"@.len() as int))
    } else if has_prefix(s, "ntrip://"@) {
        (false, s.skip("ntrip://"@.len() as int))
    } else {
        (false, s)
    }
}

/// Meaning of a configuration string: a provider preset name, or a
/// `scheme://host:port` form whose port defaults to 443 for secure HTTP
/// and 2101 otherwise, with TLS following from the port being 443.
pub open spec fn parse_config_chars(s: Seq<char>) -> Result<NtripConfigV, NtripClientError> {
    match provider_from_token(s) {
        Some(p) => Ok(provider_config(p)),
        None => {
            let (is_https, rest) = scheme_rest(s);
            let parts = split_chars(rest, ':');
            let host = parts[0];
            if parts.len() > 1 {
                let pd = parts[1];
                if pd.len() > 0 && all_digits(pd) && dec_value(pd) <= u16::MAX as int {
                    Ok(NtripConfigV {
                        host,
                        port: dec_value(pd) as u16,
                        use_tls: dec_value(pd) == 443,
                    })
                } else {
                    Err(NtripClientError::InvalidPort)
                }
            } else {
                let port: u16 = if is_https { 443 } else { 2101 };
                Ok(NtripConfigV { host, port, use_tls: port == 443 })
            }
        },
    }
}

impl NtripConfig {
    /// The connection URL (`host:port`) of this configuration.
    pub fn to_url(&self) -> (r: String)
        ensures
            r@ == url_chars(self@),
    {
        let mut u = self.host.clone();
        u.append(":");
        let p = u16_string(self.port);
        u.append(p.as_str());
        u
    }

    /// The configuration of a predefined provider.
    pub fn from_provider(network: RtcmProvider) -> (r: Self)
        ensures
            r@ == provider_config(network),
    {
        NtripConfig {
            host: network.host().to_owned(),
            port: network.port(),
            use_tls: network.uses_tls(),
        }
    }

    /// A copy with the host replaced.
    pub fn with_host(&self, address: &str) -> (r: Self)
        ensures
            r@ == (NtripConfigV { host: address@, ..self@ }),
    {
        NtripConfig { host: address.to_owned(), port: self.port, use_tls: self.use_tls }
    }

    /// A copy with the port replaced.
    pub fn with_port(&self, port: u16) -> (r: Self)
        ensures
            r@ == (NtripConfigV { port, ..self@ }),
    {
        NtripConfig { host: self.host.clone(), port, use_tls: self.use_tls }
    }

    /// A copy with TLS switched on.
    pub fn with_tls(&self) -> (r: Self)
        ensures
            r@ == (NtripConfigV { use_tls: true, ..self@ }),
    {
        NtripConfig { host: self.host.clone(), port: self.port, use_tls: true }
    }

    /// A copy with TLS switched off.
    pub fn without_tls(&self) -> (r: Self)
        ensures
            r@ == (NtripConfigV { use_tls: false, ..self@ }),
    {
        NtripConfig { host: self.host.clone(), port: self.port, use_tls: false }
    }

    /// Parses a configuration string: a provider preset name, or a
    /// URL-like `scheme://host:port` string.
    pub fn parse(s: &str) -> (r: Result<NtripConfig, NtripClientError>)
        ensures
            r is Ok <==> parse_config_chars(s@) is Ok,
            r matches Ok(c) ==> Ok::<NtripConfigV, NtripClientError>(c@) == parse_config_chars(
                s@,
            ),
            r matches Err(e) ==> Err::<NtripConfigV, NtripClientError>(e) == parse_config_chars(
                s@,
            ),
    {
        if let Some(p) = RtcmProvider::from_token(s) {
            return Ok(Self::from_provider(p));
        }
        let n = s.unicode_len();
        let http = "http://";
        let https = "https://";
        let ntrip = "ntrip://";
        let mut is_https: bool = false;
        let rest: String;
        if begins_with(s, http) {
            rest = s.substring_char(http.unicode_len(), n).to_owned();
            proof {
                assert(rest@ =~= s@.skip("http://"@.len() as int));
            }
        } else if begins_with(s, https) {
            is_https = true;
            rest = s.substring_char(https.unicode_len(), n).to_owned();
            proof {
                assert(rest@ =~= s@.skip("https://"@.len() as int));
            }
        } else if begins_with(s, ntrip) {
            rest = s.substring_char(ntrip.unicode_len(), n).to_owned();
            proof {
                assert(rest@ =~= s@.skip("ntrip://"@.len() as int));
            }
        } else {
            rest = s.to_owned();
        }
        let parts = split_str(rest.as_str(), ':');
        proof {
            crate::text::lemma_split_nonempty(rest@, ':');
            assert(parts.deep_view()[0] == parts@[0]@);
        }
        let host = parts[0].clone();
        if parts.len() > 1 {
            proof {
                assert(parts.deep_view()[1] == parts@[1]@);
            }
            match parse_dec_limit(parts[1].as_str(), 65535) {
                Some(v) => {
                    let port = v as u16;
                    Ok(NtripConfig { host, port, use_tls: port == 443 })
                },
                None => Err(NtripClientError::InvalidPort),
            }
        } else {
            let port: u16 = if is_https {
                443
            } else {
                2101
            };
            Ok(NtripConfig { host, port, use_tls: port == 443 })
        }
    }
}

impl Default for NtripConfig {
    /// The Centipede FR preset, which needs no TLS.
    fn default() -> (r: Self)
        ensures
            r@ == provider_config(RtcmProvider::Centipede),
    {
        NtripConfig::from_provider(RtcmProvider::Centipede)
    }
}

/// Every supported provider preset name parses to exactly the preset's
/// documented (host, port, TLS) triple.
pub proof fn lemma_provider_names_parse(p: RtcmProvider)
    ensures
        parse_config_chars(provider_token(p)) == Ok::<NtripConfigV, NtripClientError>(
            provider_config(p),
        ),
{
    reveal_strlit("linz");
    reveal_strlit("rtk2go");
    reveal_strlit("posau");
    reveal_strlit("centipede");
}

/// A parsed configuration uses TLS exactly when its port is 443,
/// whether the port was explicit, defaulted, or fixed by a preset.
pub proof fn lemma_parse_tls_iff_port_443(s: Seq<char>)
    ensures
        parse_config_chars(s) matches Ok(c) ==> (c.use_tls <==> c.port == 443),
{
    match provider_from_token(s) {
        Some(p) => {
            assert(provider_tls_value(p) <==> provider_port_value(p) == 443) by {
                match p {
                    RtcmProvider::Linz => {},
                    RtcmProvider::Rtk2Go => {},
                    RtcmProvider::PosAu => {},
                    RtcmProvider::Centipede => {},
                }
            }
        },
        None => {
            let (is_https, rest) = scheme_rest(s);
            let parts = split_chars(rest, ':');
            if parts.len() > 1 {
                let pd = parts[1];
                if pd.len() > 0 && all_digits(pd) && dec_value(pd) <= u16::MAX as int {
                    crate::text::lemma_dec_value_nonneg(pd);
                    assert(dec_value(pd) as u16 == 443 <==> dec_value(pd) == 443);
                }
            }
        },
    }
}

} // verus!
