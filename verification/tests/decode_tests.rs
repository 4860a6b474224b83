use ntrip_client::DecodeStatus;
use ntrip_client::Decoder;

/// CRC-24Q over `data`: the checksum RTCM frames carry in their last
/// three bytes.
fn crc24q(data: &[u8]) -> u32 {
    let mut crc: u32 = 0;
    for &b in data {
        crc ^= (b as u32) << 16;
        for _ in 0..8 {
            crc <<= 1;
            if crc & 0x0100_0000 != 0 {
                crc ^= 0x0086_4cfb;
            }
        }
    }
    crc & 0x00ff_ffff
}

/// A well-formed RTCM frame around the given payload.
fn valid_frame(payload: &[u8]) -> Vec<u8> {
    assert!(payload.len() < 1024);
    let mut frame = vec![0xd3, (payload.len() >> 8) as u8, (payload.len() & 0xff) as u8];
    frame.extend_from_slice(payload);
    let crc = crc24q(&frame);
    frame.push((crc >> 16) as u8);
    frame.push((crc >> 8) as u8);
    frame.push(crc as u8);
    frame
}

#[test]
fn resync_drops_garbage_then_extracts_one_message() {
    let mut dec = Decoder::new(Vec::new());
    let frame = valid_frame(&[0xff, 0xf0, 1, 2, 3, 4, 5, 6, 7, 8]);
    let mut data = vec![0x01, 0x02, 0x03];
    data.extend_from_slice(&frame);
    data.extend_from_slice(&[9, 8, 7]);

    let r = dec.on_read(&data);
    assert_eq!(r.status, DecodeStatus::Running);
    assert_eq!(r.messages.len(), 1);
    assert_eq!(dec.buf, vec![9, 8, 7]);
    assert_eq!(dec.errors, 0);
}

#[test]
fn seed_is_trimmed_to_the_first_marker() {
    let dec = Decoder::new(vec![0x41, 0x42, 0xd3, 0x00, 0x01]);
    assert_eq!(dec.buf, vec![0xd3, 0x00, 0x01]);
    assert_eq!(dec.errors, 0);

    let dec = Decoder::new(vec![0x41, 0x42, 0x43]);
    assert!(dec.buf.is_empty());
}

#[test]
fn five_consecutive_parse_errors_are_fatal() {
    // a frame that declares 10 payload bytes but never gets them all
    let mut dec = Decoder::new(Vec::new());
    let r = dec.on_read(&[0xd3, 0x00, 0x0a, 1, 2, 3, 4, 5]);
    assert_eq!(r.status, DecodeStatus::Running);
    assert_eq!(dec.errors, 1);
    for expected in 2..=4u32 {
        let r = dec.on_read(&[0x00]);
        assert_eq!(r.status, DecodeStatus::Running);
        assert_eq!(dec.errors, expected);
    }
    let r = dec.on_read(&[0x00]);
    assert_eq!(r.status, DecodeStatus::Fatal);
    assert!(r.messages.is_empty());
}

#[test]
fn a_success_after_four_errors_resets_the_counter() {
    let payload = [0xff, 0xf0, 1, 2, 3, 4, 5, 6, 7, 8];
    let frame = valid_frame(&payload);
    assert_eq!(frame.len(), 16);

    let mut dec = Decoder::new(Vec::new());
    let r = dec.on_read(&frame[..8]);
    assert_eq!(r.status, DecodeStatus::Running);
    assert_eq!(dec.errors, 1);
    for expected in 2..=4u32 {
        let r = dec.on_read(&frame[6 + expected as usize..7 + expected as usize]);
        assert_eq!(r.status, DecodeStatus::Running);
        assert_eq!(dec.errors, expected);
    }
    // the decoder has seen frame[..11]; the rest completes the frame
    let r = dec.on_read(&frame[11..]);
    assert_eq!(r.status, DecodeStatus::Running);
    assert_eq!(r.messages.len(), 1);
    assert_eq!(dec.errors, 0);
    assert!(dec.buf.is_empty());
}

#[test]
fn zero_length_read_closes_the_stream_gracefully() {
    let mut dec = Decoder::new(vec![0xd3, 0x00, 0x05, 1, 2]);
    let r = dec.on_read(&[]);
    assert_eq!(r.status, DecodeStatus::Closed);
    assert!(r.messages.is_empty());
    assert_eq!(dec.buf, vec![0xd3, 0x00, 0x05, 1, 2]);
    assert_eq!(dec.errors, 0);
}

#[test]
fn two_back_to_back_frames_come_out_in_order() {
    let f1 = valid_frame(&[0xff, 0xf0, 1, 2, 3, 4, 5]);
    let f2 = valid_frame(&[0xff, 0xf1, 9, 9, 9, 9, 9, 9, 9, 9, 9]);
    let mut data = f1.clone();
    data.extend_from_slice(&f2);

    let mut dec = Decoder::new(Vec::new());
    let r = dec.on_read(&data);
    assert_eq!(r.status, DecodeStatus::Running);
    assert_eq!(r.messages.len(), 2);
    assert!(dec.buf.is_empty());
    assert_eq!(dec.errors, 0);
}

#[test]
fn a_buffer_without_marker_is_dropped_whole() {
    let mut dec = Decoder::new(Vec::new());
    let r = dec.on_read(&[1, 2, 3, 4, 5, 6, 7, 8, 9]);
    assert_eq!(r.status, DecodeStatus::Running);
    assert!(r.messages.is_empty());
    assert!(dec.buf.is_empty());
    assert_eq!(dec.errors, 0);
}
