use foldback::error::Error;
use foldback::format::{Frame, FrameReader, Header, HEADER_LEN};

fn sample_frames() -> Vec<Frame> {
    vec![
        Frame::TickHash {
            tick: 1,
            peer_id: 0,
            hash: 0xdead_beef,
        },
        Frame::EntityHash {
            tick: 2,
            peer_id: 1,
            entity_id: 42,
            hash: 0xfeed_face,
        },
        Frame::FieldHash {
            tick: 3,
            peer_id: 0,
            entity_id: 7,
            field_name: "velocity.x".to_string(),
            hash: 0x1234_5678,
            value: vec![0x40, 0x49, 0x0f, 0xdb],
        },
        Frame::Snapshot {
            tick: 4,
            peer_id: 0,
            compressed: vec![1, 2, 3, 4, 5],
        },
        Frame::Metadata {
            key: "input:P1".to_string(),
            value: "jump".to_string(),
        },
        Frame::EndOfStream,
    ]
}

/// Reads every remaining item of a reader, stopping at the first error.
fn collect(mut reader: FrameReader) -> Result<Vec<Frame>, Error> {
    let mut out = Vec::new();
    while let Some(item) = reader.next() {
        out.push(item?);
    }
    Ok(out)
}

#[test]
fn header_round_trip() {
    let header = Header::new(60, 2, [7u8; 16]);
    let mut buf = Vec::new();
    header.write_to(&mut buf);
    assert_eq!(buf.len(), HEADER_LEN);
    let read_back = Header::read_from(&buf).unwrap();
    assert_eq!(header, read_back);
}

#[test]
fn header_rejects_bad_magic() {
    let buf = [0u8; HEADER_LEN];
    assert!(matches!(Header::read_from(&buf), Err(Error::BadMagic)));
}

#[test]
fn header_rejects_truncated() {
    let buf = [0u8; 10];
    assert!(matches!(Header::read_from(&buf), Err(Error::TruncatedHeader)));
}

#[test]
fn every_frame_type_round_trips() {
    for frame in sample_frames() {
        let mut buf = Vec::new();
        frame.write_to(&mut buf);
        let mut reader = FrameReader::new(buf);
        let read_back = reader.next_frame().unwrap().unwrap();
        assert_eq!(frame, read_back);
        assert_eq!(reader.next_frame().unwrap(), None);
    }
}

#[test]
fn full_stream_round_trips_in_order() {
    let frames = sample_frames();
    let mut buf = Vec::new();
    for f in &frames {
        f.write_to(&mut buf);
    }
    let reader = FrameReader::new(buf);
    let read_back = collect(reader);
    assert_eq!(read_back.unwrap(), frames);
}

#[test]
fn truncated_file_yields_all_complete_frames_before_the_cut() {
    let frames = sample_frames();
    let mut buf = Vec::new();
    for f in &frames {
        f.write_to(&mut buf);
    }
    // Cut off partway through the last frame, well past all earlier
    // complete frames.
    let cut = buf.len() - 2;
    buf.truncate(cut);

    let mut reader = FrameReader::new(buf);
    let mut read_back: Vec<Frame> = Vec::new();
    while let Some(item) = reader.next() {
        if let Ok(f) = item {
            read_back.push(f);
        }
    }
    assert_eq!(read_back, frames[..frames.len() - 1]);
}

#[test]
fn truncated_immediately_after_frame_boundary_yields_nothing_more() {
    let frames = sample_frames();
    let mut buf = Vec::new();
    for f in &frames[..2] {
        f.write_to(&mut buf);
    }
    let reader = FrameReader::new(buf);
    let read_back = collect(reader);
    assert_eq!(read_back.unwrap(), frames[..2]);
}

#[test]
fn unknown_frame_type_is_skipped_not_errored() {
    let mut buf = Vec::new();
    // A well-formed but unrecognised frame type (0x7E), skippable by length.
    buf.push(0x7E);
    let payload = b"anything, any length";
    buf.extend_from_slice(&(payload.len() as u32).to_le_bytes());
    buf.extend_from_slice(payload);
    // Followed by a real, recognised frame.
    Frame::EndOfStream.write_to(&mut buf);

    let reader = FrameReader::new(buf);
    let read_back = collect(reader);
    assert_eq!(read_back.unwrap(), vec![Frame::EndOfStream]);
}

#[test]
fn header_bytes_have_the_documented_layout() {
    let header = Header::new(60, 2, [9u8; 16]);
    let mut buf = Vec::new();
    header.write_to(&mut buf);
    assert_eq!(&buf[0..4], b"FBK1");
    assert_eq!(&buf[4..6], &1u16.to_le_bytes());
    assert_eq!(&buf[6..8], &[0u8, 0u8]);
    assert_eq!(&buf[8..12], &60u32.to_le_bytes());
    assert_eq!(&buf[12..16], &2u32.to_le_bytes());
    assert_eq!(&buf[16..32], &[9u8; 16]);
}

#[test]
fn tick_hash_frame_has_the_documented_layout() {
    let mut buf = Vec::new();
    Frame::TickHash {
        tick: 5,
        peer_id: 3,
        hash: 0x0102_0304_0506_0708,
    }
    .write_to(&mut buf);
    let mut expected = vec![0x01];
    expected.extend_from_slice(&18u32.to_le_bytes());
    expected.extend_from_slice(&5u64.to_le_bytes());
    expected.extend_from_slice(&3u16.to_le_bytes());
    expected.extend_from_slice(&0x0102_0304_0506_0708u64.to_le_bytes());
    assert_eq!(buf, expected);
}

#[test]
fn malformed_known_frame_is_an_error_and_reading_goes_on() {
    let mut buf = Vec::new();
    // A tick hash frame whose payload is one byte short of its fields.
    buf.push(0x01);
    buf.extend_from_slice(&17u32.to_le_bytes());
    buf.extend_from_slice(&[0u8; 17]);
    Frame::EndOfStream.write_to(&mut buf);
    let mut reader = FrameReader::new(buf);
    assert!(matches!(reader.next_frame(), Err(Error::MalformedFrame)));
    assert_eq!(reader.next_frame().unwrap(), Some(Frame::EndOfStream));
    assert_eq!(reader.next_frame().unwrap(), None);
}

#[test]
fn nothing_is_read_after_end_of_stream() {
    let mut buf = Vec::new();
    Frame::EndOfStream.write_to(&mut buf);
    Frame::TickHash {
        tick: 1,
        peer_id: 0,
        hash: 2,
    }
    .write_to(&mut buf);
    let read_back = collect(FrameReader::new(buf)).unwrap();
    assert_eq!(read_back, vec![Frame::EndOfStream]);
}

#[test]
fn invalid_utf8_field_name_is_malformed() {
    let mut payload = Vec::new();
    payload.extend_from_slice(&0u64.to_le_bytes());
    payload.extend_from_slice(&0u16.to_le_bytes());
    payload.extend_from_slice(&0u64.to_le_bytes());
    payload.extend_from_slice(&1u32.to_le_bytes());
    payload.push(0xff);
    payload.extend_from_slice(&0u64.to_le_bytes());
    payload.extend_from_slice(&0u32.to_le_bytes());
    let mut buf = vec![0x03];
    buf.extend_from_slice(&(payload.len() as u32).to_le_bytes());
    buf.extend_from_slice(&payload);
    let mut reader = FrameReader::new(buf);
    assert!(matches!(reader.next_frame(), Err(Error::MalformedFrame)));
}

#[test]
fn frames_of_ordinary_size_fit() {
    assert!(Frame::EndOfStream.fits());
    assert!(Frame::TickHash { tick: 1, peer_id: 2, hash: 3 }.fits());
    assert!(Frame::Snapshot { tick: 1, peer_id: 0, compressed: vec![0; 64] }.fits());
    assert!(Frame::Metadata { key: "k".to_string(), value: "v".to_string() }.fits());
}
