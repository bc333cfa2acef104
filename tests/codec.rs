use data_processor::codec::ProtocolParser;

fn frame_bytes(cmd: u8, seq: u8, payload: &[u8]) -> Vec<u8> {
    let mut body = vec![cmd, seq];
    body.extend_from_slice(payload);
    let crc = ProtocolParser::crc16(&body);
    let len = (payload.len() + 4) as u16;
    let mut out = vec![0xAA, 0x55, (len & 0xFF) as u8, (len >> 8) as u8];
    out.extend_from_slice(&body);
    out.push((crc & 0xFF) as u8);
    out.push((crc >> 8) as u8);
    out.push(0x55);
    out.push(0xAA);
    out
}

#[test]
fn crc16_modbus_check_value() {
    assert_eq!(ProtocolParser::crc16(b"123456789"), 0x4B37);
    assert_eq!(ProtocolParser::crc16(&[]), 0xFFFF);
}

#[test]
fn framing_happy_path() {
    let crc = ProtocolParser::crc16(&[0x01, 0x02, 0xAB, 0xCD]);
    let bytes = vec![0xAA, 0x55, 0x06, 0x00, 0x01, 0x02, 0xAB, 0xCD, (crc & 0xFF) as u8, (crc >> 8) as u8, 0x55, 0xAA];
    let mut p = ProtocolParser::new();
    let frames = p.feed_data(&bytes);
    assert_eq!(frames.len(), 1);
    assert_eq!(frames[0].command_id, 0x01);
    assert_eq!(frames[0].sequence, 0x02);
    assert_eq!(frames[0].payload, vec![0xAB, 0xCD]);
    assert_eq!(p.buffered_len(), 0);
}

#[test]
fn framing_with_leading_garbage_and_split_write() {
    let crc = ProtocolParser::crc16(&[0x03, 0x04]);
    let mut p = ProtocolParser::new();
    let first = p.feed_data(&[0xFF, 0xFF, 0xAA]);
    assert!(first.is_empty());
    assert_eq!(p.buffered_len(), 1);
    let second = p.feed_data(&[0x55, 0x04, 0x00, 0x03, 0x04, (crc & 0xFF) as u8, (crc >> 8) as u8, 0x55, 0xAA]);
    assert_eq!(second.len(), 1);
    assert_eq!(second[0].command_id, 0x03);
    assert_eq!(second[0].sequence, 0x04);
    assert!(second[0].payload.is_empty());
    assert_eq!(p.buffered_len(), 0);
}

#[test]
fn crc_mismatch_recovers() {
    let mut bad = frame_bytes(0x40, 7, &[1, 2, 3]);
    let n = bad.len();
    bad[n - 4] = bad[n - 4].wrapping_add(1);
    let good = frame_bytes(0x41, 8, &[9, 9]);
    let mut all = bad.clone();
    all.extend_from_slice(&good);
    let mut p = ProtocolParser::new();
    let frames = p.feed_data(&all);
    assert_eq!(frames.len(), 1);
    assert_eq!(frames[0].command_id, 0x41);
    assert_eq!(frames[0].sequence, 8);
    assert_eq!(frames[0].payload, vec![9, 9]);
    assert_eq!(p.crc_mismatch_count(), 1);
}

#[test]
fn build_frame_matches_wire_format() {
    let f = ProtocolParser::build_frame(0x01, 0x02, &[0xAB, 0xCD]);
    assert_eq!(f, frame_bytes(0x01, 0x02, &[0xAB, 0xCD]));
    assert_eq!(f.len(), 12);
    assert_eq!(&f[0..4], &[0xAA, 0x55, 0x06, 0x00]);
    assert_eq!(&f[10..12], &[0x55, 0xAA]);
}

#[test]
fn round_trip_of_several_frames() {
    for len in [0usize, 1, 7, 300, 4096] {
        let payload: Vec<u8> = (0..len).map(|i| (i * 31 % 251) as u8).collect();
        let f = ProtocolParser::build_frame(0x40, (len % 256) as u8, &payload);
        let mut p = ProtocolParser::new();
        let frames = p.feed_data(&f);
        assert_eq!(frames.len(), 1);
        assert_eq!(frames[0].command_id, 0x40);
        assert_eq!(frames[0].sequence, (len % 256) as u8);
        assert_eq!(frames[0].payload, payload);
        assert_eq!(p.buffered_len(), 0);
    }
}

#[test]
fn short_frame_waits_for_more_bytes() {
    let f = ProtocolParser::build_frame(0x90, 1, &[1, 2, 3, 4, 5]);
    let mut p = ProtocolParser::new();
    assert!(p.feed_data(&f[..8]).is_empty());
    assert_eq!(p.buffered_len(), 8);
    assert!(p.feed_data(&f[8..12]).is_empty());
    assert_eq!(p.buffered_len(), 12);
    let frames = p.feed_data(&f[12..]);
    assert_eq!(frames.len(), 1);
    assert_eq!(frames[0].payload, vec![1, 2, 3, 4, 5]);
}

#[test]
fn bad_tail_is_skipped_and_next_frame_found() {
    let mut bad = ProtocolParser::build_frame(0x10, 0, &[1]);
    let n = bad.len();
    bad[n - 1] = 0x00;
    let good = ProtocolParser::build_frame(0x11, 1, &[2]);
    let mut all = bad;
    all.extend_from_slice(&good);
    let mut p = ProtocolParser::new();
    let frames = p.feed_data(&all);
    assert_eq!(frames.len(), 1);
    assert_eq!(frames[0].command_id, 0x11);
    assert_eq!(p.crc_mismatch_count(), 0);
}

#[test]
fn bytes_without_head_are_discarded() {
    let mut p = ProtocolParser::new();
    assert!(p.feed_data(&[0u8; 10]).is_empty());
    assert_eq!(p.buffered_len(), 0);
    assert!(p.feed_data(&[1, 2, 3]).is_empty());
    assert_eq!(p.buffered_len(), 0);
}

#[test]
fn trailing_half_head_is_kept_for_the_next_feed() {
    let mut p = ProtocolParser::new();
    assert!(p.feed_data(&[7, 7, 0xAA]).is_empty());
    assert_eq!(p.buffered_len(), 1);
    let f = ProtocolParser::build_frame(0x01, 3, &[4]);
    let frames = p.feed_data(&f[1..]);
    assert_eq!(frames.len(), 1);
    assert_eq!(frames[0].sequence, 3);
    assert_eq!(p.buffered_len(), 0);
}

#[test]
fn garbage_before_head_is_discarded_even_when_short() {
    let mut p = ProtocolParser::new();
    assert!(p.feed_data(&[9, 9, 0xAA, 0x55, 0x05]).is_empty());
    assert_eq!(p.buffered_len(), 3);
}
