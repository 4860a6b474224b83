use ntrip_client::handshake::build_request;
use ntrip_client::handshake::check_response_status;
use ntrip_client::NTRIPCredentials;
use ntrip_client::NtripClientError;
use ntrip_client::NtripConfig;
use ntrip_client::NtripCredentials;

#[test]
fn request_block_is_bit_exact_with_credentials() {
    let config = NtripConfig::parse("ntrip://rtk2go.com:2101").unwrap();
    let creds = NtripCredentials::default().with_username("user").with_password("pass");
    let req = build_request(&config, &creds, "MOUNT1", "NTRIP client/1.0");
    let expected = "GET /MOUNT1 HTTP/1.0\r\n\
                    Host: rtk2go.com:2101\r\n\
                    Ntrip-Version: NTRIP/2.0\r\n\
                    Accept: */*\r\n\
                    Connection: close\r\n\
                    User-Agent: NTRIP client/1.0\r\n\
                    Authorization: Basic dXNlcjpwYXNz\r\n\
                    \r\n";
    assert_eq!(req, expected);
}

#[test]
fn empty_user_suppresses_the_authorization_header() {
    let config = NtripConfig::parse("ntrip://rtk2go.com:2101").unwrap();
    let creds = NtripCredentials::default().with_password("ignored");
    let req = build_request(&config, &creds, "", "agent/0.1");
    let expected = "GET / HTTP/1.0\r\n\
                    Host: rtk2go.com:2101\r\n\
                    Ntrip-Version: NTRIP/2.0\r\n\
                    Accept: */*\r\n\
                    Connection: close\r\n\
                    User-Agent: agent/0.1\r\n\
                    \r\n";
    assert_eq!(req, expected);
}

#[test]
fn credentials_encode_as_standard_base64() {
    let creds = NTRIPCredentials::new("user", "pass");
    assert_eq!(creds.encode(), "dXNlcjpwYXNz");
    let creds = NTRIPCredentials::new("", "");
    assert_eq!(creds.encode(), "Og==");
}

#[test]
fn icy_and_http_status_lines_both_pass() {
    let icy = b"ICY 200 OK\r\n\xd3\x00\x01".to_vec();
    assert!(check_response_status(&icy).is_ok());
    let http = b"HTTP/1.1 200 OK\r\nServer: test\r\n\r\n".to_vec();
    assert!(check_response_status(&http).is_ok());
}

#[test]
fn a_non_success_status_line_is_a_response_error() {
    let resp = b"HTTP/1.1 401 Unauthorized\r\nServer: test\r\n".to_vec();
    match check_response_status(&resp).unwrap_err() {
        NtripClientError::ResponseError(line) => {
            assert_eq!(line, "HTTP/1.1 401 Unauthorized");
        },
        other => panic!("unexpected error {:?}", other),
    }
}

#[test]
fn an_empty_response_is_a_response_error() {
    match check_response_status(&Vec::new()).unwrap_err() {
        NtripClientError::ResponseError(line) => {
            assert_eq!(line, "empty response");
        },
        other => panic!("unexpected error {:?}", other),
    }
}

#[test]
fn a_response_without_newline_is_one_status_line() {
    let resp = b"SOURCETABLE 200 OK".to_vec();
    assert!(check_response_status(&resp).is_ok());
}
