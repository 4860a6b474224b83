use ntrip_client::NtripClientError;
use ntrip_client::NtripConfig;
use ntrip_client::NtripCredentials;
use ntrip_client::RtcmProvider;

#[test]
fn provider_presets_parse_to_documented_triples() {
    let cfg = NtripConfig::parse("linz").unwrap();
    assert_eq!(cfg.host, "positionz-rt.linz.govt.nz");
    assert_eq!(cfg.port, 2101);
    assert_eq!(cfg.use_tls, false);

    let cfg = NtripConfig::parse("rtk2go").unwrap();
    assert_eq!(cfg.host, "rtk2go.com");
    assert_eq!(cfg.port, 2101);
    assert_eq!(cfg.use_tls, false);

    let cfg = NtripConfig::parse("posau").unwrap();
    assert_eq!(cfg.host, "ntrip.data.gnss.ga.gov.au");
    assert_eq!(cfg.port, 443);
    assert_eq!(cfg.use_tls, true);

    let cfg = NtripConfig::parse("centipede").unwrap();
    assert_eq!(cfg.host, "caster.centipede.fr");
    assert_eq!(cfg.port, 2101);
    assert_eq!(cfg.use_tls, false);
}

#[test]
fn parse_ntrip_url_with_port() {
    let cfg = NtripConfig::parse("ntrip://rtk2go.com:2101").unwrap();
    assert_eq!(cfg.host, "rtk2go.com");
    assert_eq!(cfg.port, 2101);
    assert_eq!(cfg.use_tls, false);
}

#[test]
fn parse_https_defaults_to_443_and_tls() {
    let cfg = NtripConfig::parse("https://host").unwrap();
    assert_eq!(cfg.host, "host");
    assert_eq!(cfg.port, 443);
    assert_eq!(cfg.use_tls, true);
}

#[test]
fn parse_port_443_without_scheme_implies_tls() {
    let cfg = NtripConfig::parse("host:443").unwrap();
    assert_eq!(cfg.host, "host");
    assert_eq!(cfg.port, 443);
    assert_eq!(cfg.use_tls, true);
}

#[test]
fn parse_plain_host_defaults_to_2101() {
    let cfg = NtripConfig::parse("example.com").unwrap();
    assert_eq!(cfg.host, "example.com");
    assert_eq!(cfg.port, 2101);
    assert_eq!(cfg.use_tls, false);
}

#[test]
fn parse_rejects_bad_ports() {
    assert_eq!(
        NtripConfig::parse("host:notaport").unwrap_err(),
        NtripClientError::InvalidPort
    );
    assert_eq!(
        NtripConfig::parse("host:99999").unwrap_err(),
        NtripClientError::InvalidPort
    );
    assert_eq!(NtripConfig::parse("host:").unwrap_err(), NtripClientError::InvalidPort);
}

#[test]
fn to_url_joins_host_and_port() {
    let cfg = NtripConfig::parse("ntrip://rtk2go.com:2101").unwrap();
    assert_eq!(cfg.to_url(), "rtk2go.com:2101");
    let cfg = NtripConfig::parse("https://host").unwrap();
    assert_eq!(cfg.to_url(), "host:443");
}

#[test]
fn config_builders_replace_one_field() {
    let cfg = NtripConfig::from_provider(RtcmProvider::Rtk2Go);
    let cfg = cfg.with_host("10.0.0.1");
    assert_eq!(cfg.host, "10.0.0.1");
    assert_eq!(cfg.port, 2101);
    let cfg = cfg.with_port(8080);
    assert_eq!(cfg.port, 8080);
    assert_eq!(cfg.host, "10.0.0.1");
    let cfg = cfg.with_tls();
    assert!(cfg.use_tls);
    let cfg = cfg.without_tls();
    assert!(!cfg.use_tls);
}

#[test]
fn default_config_is_the_centipede_preset() {
    let cfg = NtripConfig::default();
    assert_eq!(cfg.host, "caster.centipede.fr");
    assert_eq!(cfg.port, 2101);
    assert_eq!(cfg.use_tls, false);
}

#[test]
fn credential_builders_replace_one_field() {
    let creds = NtripCredentials::default();
    assert_eq!(creds.user, "");
    assert_eq!(creds.pass, "");
    let creds = creds.with_username("alice");
    assert_eq!(creds.user, "alice");
    let creds = creds.with_password("secret");
    assert_eq!(creds.user, "alice");
    assert_eq!(creds.pass, "secret");
}

#[test]
fn provider_accessors_match_presets() {
    assert_eq!(RtcmProvider::Linz.host(), "positionz-rt.linz.govt.nz");
    assert_eq!(RtcmProvider::Linz.port(), 2101);
    assert!(!RtcmProvider::Linz.uses_tls());
    assert_eq!(RtcmProvider::PosAu.port(), 443);
    assert!(RtcmProvider::PosAu.uses_tls());
    assert_eq!(RtcmProvider::Rtk2Go.host(), "rtk2go.com");
    assert_eq!(RtcmProvider::Centipede.host(), "caster.centipede.fr");
}
