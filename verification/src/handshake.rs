//! The NTRIP handshake: building the request block for a mount (or for
//! the directory listing), and validating the first line of the
//! caster's response.

use vstd::prelude::*;
use vstd::string::StrSliceExecFns;
use vstd::string::StringExecFns;

use crate::config::{NtripConfig, NtripCredentials};
use crate::credentials::{base64_of, base64_string};
use crate::error::NtripClientError;
use crate::text::{dec_chars, find_byte, first_byte_pos, lemma_first_byte_pos, u16_string, vec_range};

verus! {

/// The exact request block sent to the caster: request line, fixed
/// headers, an `Authorization` header only when the user is non-empty,
/// and a closing blank line.
pub open spec fn request_chars(
    host: Seq<char>,
    port: u16,
    mount: Seq<char>,
    user: Seq<char>,
    pass: Seq<char>,
    agent: Seq<char>,
) -> Seq<char> {
    "GET /"@ + mount + " HTTP/1.0\r\n"@ + "Host: "@ + host + ":"@ + dec_chars(port as int)
        + "\r\n"@ + "Ntrip-Version: NTRIP/2.0\r\n"@ + "Accept: */*\r\n"@
        + "Connection: close\r\n"@ + "User-Agent: "@ + agent + "\r\n"@ + (if user.len() > 0 {
        "Authorization: Basic "@ + base64_of(user + ":"@ + pass) + "\r\n"@
    } else {
        Seq::<char>::empty()
    }) + "\r\n"@
}

/// Builds the handshake request for `mount` (empty for the directory
/// listing), bit-exactly as [`request_chars`] states it.
pub fn build_request(
    config: &NtripConfig,
    creds: &NtripCredentials,
    mount: &str,
    agent: &str,
) -> (r: String)
    ensures
        r@ == request_chars(config@.host, config@.port, mount@, creds@.user, creds@.pass, agent@),
{
    let mut s = String::new();
    s.append("GET /");
    s.append(mount);
    s.append(" HTTP/1.0\r\n");
    s.append("Host: ");
    s.append(config.host.as_str());
    s.append(":");
    let port_text = u16_string(config.port);
    s.append(port_text.as_str());
    s.append("\r\n");
    s.append("Ntrip-Version: NTRIP/2.0\r\n");
    s.append("Accept: */*\r\n");
    s.append("Connection: close\r\n");
    s.append("User-Agent: ");
    s.append(agent);
    s.append("\r\n");
    if !creds.user.as_str().is_empty() {
        s.append("Authorization: Basic ");
        let mut joined = creds.user.clone();
        joined.append(":");
        joined.append(creds.pass.as_str());
        let token = base64_string(joined.as_str());
        s.append(token.as_str());
        s.append("\r\n");
    }
    s.append("\r\n");
    proof {
        assert(s@ =~= request_chars(
            config@.host,
            config@.port,
            mount@,
            creds@.user,
            creds@.pass,
            agent@,
        ));
    }
    s
}

/// The ASCII bytes of `200 OK`.
pub open spec fn ok_token_bytes() -> Seq<u8> {
    seq![50u8, 48u8, 48u8, 32u8, 79u8, 75u8]
}

/// `p` occurs in `h` starting at index `i`.
pub open spec fn contains_bytes_at(h: Seq<u8>, p: Seq<u8>, i: int) -> bool {
    0 <= i && i + p.len() <= h.len() && h.subrange(i, i + p.len()) == p
}

/// `p` occurs somewhere in `h`.
pub open spec fn contains_bytes(h: Seq<u8>, p: Seq<u8>) -> bool {
    exists|i: int| contains_bytes_at(h, p, i)
}

/// The first line of a response: the bytes before the first line feed
/// (the whole response when there is none), less a trailing carriage
/// return.
pub open spec fn status_line_bytes(b: Seq<u8>) -> Seq<u8> {
    let nl = first_byte_pos(b, 10);
    let line = if nl >= 0 {
        b.take(nl)
    } else {
        b
    };
    if line.len() > 0 && line.last() == 13 {
        line.drop_last()
    } else {
        line
    }
}

/// The caster accepted the request: its first response line contains
/// `200 OK` (covering both `ICY 200 OK` and `HTTP/1.1 200 OK`).
pub open spec fn response_ok(b: Seq<u8>) -> bool {
    contains_bytes(status_line_bytes(b), ok_token_bytes())
}

/// Whether `p` occurs in `h`.
fn search_bytes(h: &Vec<u8>, p: &Vec<u8>) -> (r: bool)
    requires
        p@.len() > 0,
    ensures
        r == contains_bytes(h@, p@),
{
    if p.len() > h.len() {
        proof {
            assert forall|i: int| !contains_bytes_at(h@, p@, i) by {}
        }
        return false;
    }
    let mut i: usize = 0;
    while i <= h.len() - p.len()
        invariant
            1 <= p@.len() <= h@.len(),
            h@.len() <= usize::MAX,
            0 <= i <= h@.len() - p@.len() + 1,
            forall|k: int| 0 <= k < i ==> !contains_bytes_at(h@, p@, k),
        decreases h@.len() - p@.len() + 1 - i,
    {
        let mut j: usize = 0;
        let mut matched = true;
        while j < p.len()
            invariant
                p@.len() <= h@.len(),
                h@.len() <= usize::MAX,
                0 <= i <= h@.len() - p@.len(),
                0 <= j <= p@.len(),
                matched ==> forall|k: int| 0 <= k < j ==> h@[i + k] == p@[k],
                !matched ==> !contains_bytes_at(h@, p@, i as int),
            decreases p@.len() - j,
        {
            if h[i + j] != p[j] {
                proof {
                    assert(h@.subrange(i as int, i + p@.len())[j as int] == h@[i + j]);
                }
                matched = false;
                j = p.len();
            } else {
                j += 1;
            }
        }
        if matched {
            proof {
                assert(h@.subrange(i as int, i + p@.len()) =~= p@);
                assert(contains_bytes_at(h@, p@, i as int));
            }
            return true;
        }
        i += 1;
    }
    proof {
        assert forall|k: int| !contains_bytes_at(h@, p@, k) by {
            if 0 <= k <= h@.len() - p@.len() {
                assert(!contains_bytes_at(h@, p@, k));
            }
        }
    }
    false
}

/// What lossy UTF-8 decoding makes of a byte sequence; a function of
/// the bytes alone.
pub uninterp spec fn utf8_lossy(b: Seq<u8>) -> Seq<char>;

/// Relies on String::from_utf8_lossy: deterministic in the bytes;
/// invalid sequences become replacement characters.
#[verifier::external_body]
fn bytes_to_text(b: &[u8]) -> (r: String)
    ensures
        r@ == utf8_lossy(b@),
{
    String::from_utf8_lossy(b).into_owned()
}

/// Validates the initial handshake response: accepts exactly when the
/// response is non-empty and its first line contains `200 OK`; an empty
/// response or any other status line is a fatal response error carrying
/// the offending text.
pub fn check_response_status(resp: &Vec<u8>) -> (r: Result<(), NtripClientError>)
    ensures
        r is Ok <==> resp@.len() > 0 && response_ok(resp@),
        r matches Err(e) ==> match e {
            NtripClientError::ResponseError(s) => (resp@.len() == 0 && s@ == "empty response"@)
                || (resp@.len() > 0 && !response_ok(resp@) && s@ == utf8_lossy(
                status_line_bytes(resp@),
            )),
            _ => false,
        },
{
    if resp.len() == 0 {
        return Err(NtripClientError::ResponseError("empty response".to_owned()));
    }
    let mut line: Vec<u8> = match find_byte(resp, 10) {
        Some(i) => {
            proof {
                lemma_first_byte_pos(resp@, 10);
            }
            vec_range(resp, 0, i)
        },
        None => vec_range(resp, 0, resp.len()),
    };
    proof {
        let nl = first_byte_pos(resp@, 10);
        if nl >= 0 {
            assert(line@ =~= resp@.take(nl));
        } else {
            assert(line@ =~= resp@);
        }
    }
    if line.len() > 0 && line[line.len() - 1] == 13 {
        line.pop();
    }
    proof {
        assert(line@ == status_line_bytes(resp@));
    }
    let mut pat: Vec<u8> = Vec::new();
    pat.push(50);
    pat.push(48);
    pat.push(48);
    pat.push(32);
    pat.push(79);
    pat.push(75);
    proof {
        assert(pat@ =~= ok_token_bytes());
    }
    if search_bytes(&line, &pat) {
        Ok(())
    } else {
        Err(NtripClientError::ResponseError(bytes_to_text(line.as_slice())))
    }
}

} // verus!
