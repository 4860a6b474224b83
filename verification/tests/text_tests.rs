use ntrip_client::text::parse_coord_micro;
use ntrip_client::text::split_str;
use ntrip_client::text::trim_str;
use ntrip_client::NtripClient;
use ntrip_client::NtripConfig;
use ntrip_client::NtripCredentials;

#[test]
fn coordinates_parse_to_microdegrees() {
    assert_eq!(parse_coord_micro("46.44"), Some(46_440_000));
    assert_eq!(parse_coord_micro("-16.5"), Some(-16_500_000));
    assert_eq!(parse_coord_micro("+2.000001"), Some(2_000_001));
    assert_eq!(parse_coord_micro("0"), Some(0));
    assert_eq!(parse_coord_micro("46."), Some(46_000_000));
    assert_eq!(parse_coord_micro(".5"), Some(500_000));
    assert_eq!(parse_coord_micro("1.23456789"), Some(1_234_567));
    assert_eq!(parse_coord_micro(""), None);
    assert_eq!(parse_coord_micro("."), None);
    assert_eq!(parse_coord_micro("abc"), None);
    assert_eq!(parse_coord_micro("4 6"), None);
    assert_eq!(parse_coord_micro("1.2.3"), None);
}

#[test]
fn splitting_keeps_empty_parts() {
    let parts = split_str("a;;b;", ';');
    assert_eq!(parts, vec!["a", "", "b", ""]);
    let parts = split_str("", ';');
    assert_eq!(parts, vec![""]);
}

#[test]
fn trimming_strips_surrounding_whitespace() {
    assert_eq!(trim_str("  padded \t"), "padded");
    assert_eq!(trim_str("unpadded"), "unpadded");
    assert_eq!(trim_str(" \r\n "), "");
}

#[test]
fn client_bundles_config_and_credentials() {
    let config = NtripConfig::parse("rtk2go").unwrap();
    let creds = NtripCredentials::default().with_username("u");
    let client = NtripClient::new(config, creds).unwrap();
    assert_eq!(client.config.host, "rtk2go.com");
    assert_eq!(client.creds.user, "u");
}
