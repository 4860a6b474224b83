//! RTCM frame stream decoding: a rolling receive buffer is resynchronized
//! to the frame-start marker, complete frames are extracted through the
//! collaborating frame codec, and consecutive parse failures are counted
//! up to a fatal threshold.

use vstd::prelude::*;

verus! {

/// Every RTCM frame begins with this marker byte.
pub const FRAME_MARKER: u8 = 0xd3;

/// Frame extraction is attempted only while more than this many bytes
/// are buffered.
pub const MIN_HEADER_LEN: usize = 6;

/// The fatal threshold of consecutive frame parse failures.
pub const MAX_PARSE_ERRORS: u32 = 5;

#[verifier::external_type_specification]
#[verifier::external_body]
pub struct ExRtcmMessage(rtcm_rs::Message);

/// Whether the frame codec accepts `b` as beginning with a complete,
/// checksummed RTCM frame.
pub uninterp spec fn rtcm_frame_valid(b: Seq<u8>) -> bool;

/// Byte length of the frame declared at the head of `b`: the 10-bit
/// payload length plus three header and three checksum bytes.
pub open spec fn frame_len_spec(b: Seq<u8>) -> int
    recommends
        b.len() >= 3,
{
    (b[1] as int % 4) * 256 + b[2] as int + 6
}

/// Relies on rtcm_rs::MessageFrame::new and get_message: a frame is
/// accepted only when the buffer holds at least six bytes, starts with
/// the frame marker, contains the whole declared frame, and its CRC
/// checks out; the consumed count is the declared frame length.
#[verifier::external_body]
fn extract_frame(buf: &Vec<u8>) -> (r: Option<(rtcm_rs::Message, usize)>)
    ensures
        r is Some <==> rtcm_frame_valid(buf@),
        r matches Some((m, n)) ==> {
            &&& buf@.len() >= 6
            &&& buf@[0] == FRAME_MARKER
            &&& n as int == frame_len_spec(buf@)
            &&& 6 <= n <= buf@.len()
        },
{
    match rtcm_rs::MessageFrame::new(&buf[..]) {
        Ok(f) => {
            let n = f.frame_len();
            Some((f.get_message(), n))
        },
        Err(_) => None,
    }
}

/// Index of the first frame marker in `b`, or -1 when absent.
pub open spec fn first_marker(b: Seq<u8>) -> int
    decreases b.len(),
{
    if b.len() == 0 {
        -1
    } else if b[0] == FRAME_MARKER {
        0
    } else {
        let r = first_marker(b.skip(1));
        if r < 0 {
            -1
        } else {
            r + 1
        }
    }
}

pub proof fn lemma_first_marker(b: Seq<u8>)
    ensures
        first_marker(b) < 0 ==> forall|i: int| 0 <= i < b.len() ==> b[i] != FRAME_MARKER,
        first_marker(b) >= 0 ==> {
            &&& first_marker(b) < b.len()
            &&& b[first_marker(b)] == FRAME_MARKER
            &&& forall|i: int| 0 <= i < first_marker(b) ==> b[i] != FRAME_MARKER
        },
    decreases b.len(),
{
    if b.len() > 0 && b[0] != FRAME_MARKER {
        lemma_first_marker(b.skip(1));
        let r = first_marker(b.skip(1));
        if r >= 0 {
            assert(b[r + 1] == b.skip(1)[r]);
            assert forall|i: int| 0 <= i < r + 1 implies b[i] != FRAME_MARKER by {
                if i > 0 {
                    assert(b.skip(1)[i - 1] == b[i]);
                }
            }
        } else {
            assert forall|i: int| 0 <= i < b.len() implies b[i] != FRAME_MARKER by {
                if i > 0 {
                    assert(b.skip(1)[i - 1] == b[i]);
                }
            }
        }
    }
}

/// Resynchronization: drop everything before the first frame marker,
/// or the whole buffer when no marker is present.
pub open spec fn resync_spec(b: Seq<u8>) -> Seq<u8> {
    if b.len() > 0 && b[0] == FRAME_MARKER {
        b
    } else if first_marker(b) >= 0 {
        b.skip(first_marker(b))
    } else {
        Seq::<u8>::empty()
    }
}

/// Outcome of draining one buffer: the bytes left, the consecutive-error
/// count, how many messages were emitted, and whether the error
/// threshold was hit.
pub struct PumpOut {
    pub buf: Seq<u8>,
    pub errors: nat,
    pub emitted: nat,
    pub fatal: bool,
}

/// One round of frame extraction: frames are taken from the head while
/// more than the minimum header size is buffered, a success resets the
/// error count, and the first failure stops the round — fatally when it
/// is the `MAX_PARSE_ERRORS`-th consecutive one.
pub open spec fn pump_spec(b: Seq<u8>, errs: nat) -> PumpOut
    decreases b.len(),
{
    if b.len() <= MIN_HEADER_LEN {
        PumpOut { buf: b, errors: errs, emitted: 0, fatal: false }
    } else if rtcm_frame_valid(b) {
        let n = frame_len_spec(b);
        if 1 <= n <= b.len() {
            let rest = pump_spec(b.skip(n), 0);
            PumpOut {
                buf: rest.buf,
                errors: rest.errors,
                emitted: rest.emitted + 1,
                fatal: rest.fatal,
            }
        } else {
            PumpOut { buf: b, errors: errs, emitted: 0, fatal: false }
        }
    } else {
        PumpOut { buf: b, errors: errs + 1, emitted: 0, fatal: errs + 1 >= MAX_PARSE_ERRORS }
    }
}

/// How the decode loop left off after one read event.
#[derive(Debug, Clone, Copy, PartialEq, Eq, Structural)]
pub enum DecodeStatus {
    /// More bytes are awaited.
    Running,
    /// The stream ended gracefully (zero-length read).
    Closed,
    /// Too many consecutive parse errors; the subscription is dead.
    Fatal,
}

/// Messages extracted by one read event, and how the loop left off.
pub struct ReadResult {
    /// The decoded messages, in extraction order.
    pub messages: Vec<rtcm_rs::Message>,
    pub status: DecodeStatus,
}

/// The frame stream decoder: a rolling receive buffer and the count of
/// consecutive parse failures.
pub struct Decoder {
    /// Bytes received but not yet decoded.
    pub buf: Vec<u8>,
    /// Consecutive frame parse failures since the last success.
    pub errors: u32,
}

/// A copy of `b` from index `k` on.
fn vec_tail(b: &Vec<u8>, k: usize) -> (r: Vec<u8>)
    requires
        k <= b@.len(),
    ensures
        r@ == b@.skip(k as int),
{
    let mut out: Vec<u8> = Vec::new();
    let mut i: usize = k;
    while i < b.len()
        invariant
            k <= i <= b@.len(),
            out@ =~= b@.subrange(k as int, i as int),
        decreases b@.len() - i,
    {
        out.push(b[i]);
        proof {
            assert(out@ =~= b@.subrange(k as int, i + 1));
        }
        i += 1;
    }
    proof {
        assert(b@.subrange(k as int, b@.len() as int) =~= b@.skip(k as int));
    }
    out
}

/// Index of the first frame marker, agreeing with `first_marker`.
fn position_of_marker(b: &Vec<u8>) -> (r: Option<usize>)
    ensures
        match r {
            Some(i) => first_marker(b@) == i as int,
            None => first_marker(b@) < 0,
        },
{
    let mut i: usize = 0;
    while i < b.len()
        invariant
            0 <= i <= b@.len(),
            forall|k: int| 0 <= k < i ==> b@[k] != FRAME_MARKER,
        decreases b@.len() - i,
    {
        if b[i] == FRAME_MARKER {
            proof {
                lemma_first_marker(b@);
                let fo = first_marker(b@);
                if fo < 0 || fo > i {
                    assert(b@[i as int] != FRAME_MARKER);
                }
                if 0 <= fo < i {
                    assert(b@[fo] != FRAME_MARKER);
                }
            }
            return Some(i);
        }
        i += 1;
    }
    proof {
        lemma_first_marker(b@);
        let fo = first_marker(b@);
        if fo >= 0 {
            assert(b@[fo] != FRAME_MARKER);
        }
    }
    None
}

impl Decoder {
    /// A decoder seeded with the bytes left over from the handshake
    /// read; anything before the first frame marker is discarded.
    pub fn new(seed: Vec<u8>) -> (r: Decoder)
        ensures
            r.buf@ == resync_spec(seed@),
            r.errors == 0,
    {
        let buf: Vec<u8> = if seed.len() > 0 && seed[0] == FRAME_MARKER {
            seed
        } else {
            match position_of_marker(&seed) {
                Some(i) => {
                    proof {
                        lemma_first_marker(seed@);
                    }
                    vec_tail(&seed, i)
                },
                None => {
                    let empty: Vec<u8> = Vec::new();
                    proof {
                        assert(empty@ =~= Seq::<u8>::empty());
                    }
                    empty
                },
            }
        };
        Decoder { buf, errors: 0 }
    }

    /// Handles one read event: appends the bytes, resynchronizes to the
    /// frame marker, and extracts frames until the buffer runs short or
    /// a parse failure stops the round. A zero-length read closes the
    /// stream gracefully, leaving the decoder untouched.
    pub fn on_read(&mut self, data: &[u8]) -> (r: ReadResult)
        requires
            old(self).errors < MAX_PARSE_ERRORS,
        ensures
            data@.len() == 0 ==> {
                &&& r.status == DecodeStatus::Closed
                &&& r.messages@.len() == 0
                &&& final(self).buf@ == old(self).buf@
                &&& final(self).errors == old(self).errors
            },
            data@.len() > 0 ==> {
                let p = pump_spec(resync_spec(old(self).buf@ + data@), old(self).errors as nat);
                &&& final(self).buf@ == p.buf
                &&& final(self).errors as nat == p.errors
                &&& r.messages@.len() == p.emitted
                &&& r.status == (if p.fatal {
                    DecodeStatus::Fatal
                } else {
                    DecodeStatus::Running
                })
                &&& (!p.fatal ==> final(self).errors < MAX_PARSE_ERRORS)
            },
    {
        if data.len() == 0 {
            return ReadResult { messages: Vec::new(), status: DecodeStatus::Closed };
        }
        let ghost whole = old(self).buf@ + data@;
        let mut k: usize = 0;
        while k < data.len()
            invariant
                0 <= k <= data@.len(),
                self.buf@ == old(self).buf@ + data@.take(k as int),
                self.errors == old(self).errors,
            decreases data@.len() - k,
        {
            let byte = data[k];
            self.buf.push(byte);
            proof {
                assert(old(self).buf@ + data@.take(k as int) + seq![data@[k as int]]
                    =~= old(self).buf@ + data@.take(k + 1));
            }
            k += 1;
        }
        proof {
            assert(data@.take(data@.len() as int) =~= data@);
            assert(self.buf@ == whole);
        }
        if self.buf.len() > 0 && self.buf[0] != FRAME_MARKER {
            match position_of_marker(&self.buf) {
                Some(i) => {
                    proof {
                        lemma_first_marker(self.buf@);
                    }
                    let nb = vec_tail(&self.buf, i);
                    self.buf = nb;
                },
                None => {
                    self.buf = Vec::new();
                    proof {
                        assert(self.buf@ =~= Seq::<u8>::empty());
                    }
                },
            }
        }
        proof {
            assert(self.buf@ == resync_spec(whole));
        }
        let ghost b1 = self.buf@;
        let ghost e0 = old(self).errors as nat;
        let mut messages: Vec<rtcm_rs::Message> = Vec::new();
        let mut fatal = false;
        loop
            invariant_except_break
                self.errors < MAX_PARSE_ERRORS,
                !fatal,
                pump_spec(b1, e0).buf == pump_spec(self.buf@, self.errors as nat).buf,
                pump_spec(b1, e0).errors == pump_spec(self.buf@, self.errors as nat).errors,
                pump_spec(b1, e0).fatal == pump_spec(self.buf@, self.errors as nat).fatal,
                pump_spec(b1, e0).emitted == messages@.len() + pump_spec(
                    self.buf@,
                    self.errors as nat,
                ).emitted,
            ensures
                pump_spec(b1, e0).buf == self.buf@,
                pump_spec(b1, e0).errors == self.errors as nat,
                pump_spec(b1, e0).emitted == messages@.len(),
                pump_spec(b1, e0).fatal == fatal,
                !fatal ==> self.errors < MAX_PARSE_ERRORS,
            decreases self.buf@.len(),
        {
            if self.buf.len() <= MIN_HEADER_LEN {
                break;
            }
            let ghost before = self.buf@;
            let ghost errs_before = self.errors as nat;
            match extract_frame(&self.buf) {
                Some((m, n)) => {
                    messages.push(m);
                    let nb = vec_tail(&self.buf, n);
                    self.buf = nb;
                    self.errors = 0;
                    proof {
                        assert(pump_spec(before, errs_before).emitted == pump_spec(
                            self.buf@,
                            0,
                        ).emitted + 1);
                    }
                },
                None => {
                    self.errors = self.errors + 1;
                    if self.errors >= MAX_PARSE_ERRORS {
                        fatal = true;
                    }
                    proof {
                        assert(pump_spec(before, errs_before).errors == errs_before + 1);
                        assert(pump_spec(before, errs_before).fatal == (errs_before + 1
                            >= MAX_PARSE_ERRORS));
                    }
                    break;
                },
            }
        }
        let status = if fatal {
            DecodeStatus::Fatal
        } else {
            DecodeStatus::Running
        };
        ReadResult { messages, status }
    }
}

/// Consecutive parse errors are fatal exactly at the threshold: a round
/// ends fatally precisely when the frame at the head is rejected while
/// `MAX_PARSE_ERRORS - 1` consecutive errors are already on record —
/// any successful extraction in between resets the count.
pub proof fn lemma_fatal_exactly_at_threshold(b: Seq<u8>, e: nat)
    ensures
        pump_spec(b, e).fatal <==> (b.len() > MIN_HEADER_LEN && !rtcm_frame_valid(b) && e + 1
            >= MAX_PARSE_ERRORS),
    decreases b.len(),
{
    if b.len() > MIN_HEADER_LEN && rtcm_frame_valid(b) {
        let n = frame_len_spec(b);
        if 1 <= n <= b.len() {
            lemma_fatal_exactly_at_threshold(b.skip(n), 0);
        }
    }
}

/// A successful extraction at the buffer head makes the prior
/// consecutive-error count irrelevant: everything the round produces
/// from then on is the same whatever the count was.
pub proof fn lemma_success_resets_error_count(b: Seq<u8>, e1: nat, e2: nat)
    requires
        b.len() > MIN_HEADER_LEN,
        rtcm_frame_valid(b),
        frame_len_spec(b) <= b.len(),
    ensures
        pump_spec(b, e1) == pump_spec(b, e2),
{
}

} // verus!
