//! A battery of adversarial byte sequences read as a recording: every case
//! must end without a panic; `Ok` and `Err` are both fine outcomes.

use foldback::format::{FrameReader, Header, HEADER_LEN};

fn assert_no_panic(data: &[u8]) {
    if Header::read_from(data).is_err() {
        return;
    }
    let mut reader = FrameReader::new(data[HEADER_LEN..].to_vec());
    while let Some(frame) = reader.next() {
        let _ = frame;
    }
}

#[test]
fn empty_input() {
    assert_no_panic(&[]);
}

#[test]
fn header_only_no_frames() {
    let mut buf = Vec::new();
    buf.extend_from_slice(b"FBK1");
    buf.extend_from_slice(&1u16.to_le_bytes());
    buf.extend_from_slice(&0u16.to_le_bytes());
    buf.extend_from_slice(&60u32.to_le_bytes());
    buf.extend_from_slice(&2u32.to_le_bytes());
    buf.extend_from_slice(&[0u8; 16]);
    assert_no_panic(&buf);
}

#[test]
fn truncated_header() {
    for len in 0..32 {
        assert_no_panic(&vec![0xAA; len]);
    }
}

#[test]
fn valid_header_garbage_frames() {
    let mut header = vec![0u8; 32];
    header[0..4].copy_from_slice(b"FBK1");
    header[4..6].copy_from_slice(&1u16.to_le_bytes());

    // Every byte value as a frame type, with a payload length claiming far
    // more than what actually follows.
    for frame_type in 0u8..=255 {
        let mut buf = header.clone();
        buf.push(frame_type);
        buf.extend_from_slice(&u32::MAX.to_le_bytes());
        buf.extend_from_slice(&[0x11; 8]);
        assert_no_panic(&buf);
    }
}

#[test]
fn valid_header_zero_length_frames_of_every_type() {
    let mut header = vec![0u8; 32];
    header[0..4].copy_from_slice(b"FBK1");
    header[4..6].copy_from_slice(&1u16.to_le_bytes());

    for frame_type in 0u8..=255 {
        let mut buf = header.clone();
        buf.push(frame_type);
        buf.extend_from_slice(&0u32.to_le_bytes());
        assert_no_panic(&buf);
    }
}

#[test]
fn bad_magic_and_random_length_prefixes_inside_field_hash_payload() {
    // A field hash frame (type 0x03) whose inner name length claims more
    // than the payload delivers: a malformed frame, not an out-of-bounds
    // read.
    let mut header = vec![0u8; 32];
    header[0..4].copy_from_slice(b"FBK1");
    header[4..6].copy_from_slice(&1u16.to_le_bytes());

    let mut payload = Vec::new();
    payload.extend_from_slice(&0u64.to_le_bytes()); // tick
    payload.extend_from_slice(&0u16.to_le_bytes()); // peer_id
    payload.extend_from_slice(&0u64.to_le_bytes()); // entity_id
    payload.extend_from_slice(&u32::MAX.to_le_bytes()); // field_name_len (lies)
    payload.extend_from_slice(b"x"); // far short of the claimed length

    let mut buf = header.clone();
    buf.push(0x03);
    buf.extend_from_slice(&(payload.len() as u32).to_le_bytes());
    buf.extend_from_slice(&payload);
    assert_no_panic(&buf);
}

#[test]
fn arbitrary_short_byte_soup_after_a_valid_header() {
    let mut header = vec![0u8; 32];
    header[0..4].copy_from_slice(b"FBK1");
    header[4..6].copy_from_slice(&1u16.to_le_bytes());

    let mut seed = 0x1234_5678_9abc_def0u64;
    for _ in 0..500 {
        let mut buf = header.clone();
        let tail_len = (seed % 40) as usize;
        for _ in 0..tail_len {
            seed = seed.wrapping_mul(6364136223846793005).wrapping_add(1);
            buf.push((seed >> 56) as u8);
        }
        assert_no_panic(&buf);
    }
}
