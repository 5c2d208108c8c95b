use foldback::format::{Frame, FrameReader};
use foldback::error::Error;
use foldback::live::{frame_message, hello, live_message_step, LiveStep};

#[test]
fn hello_describes_the_session() {
    let h = hello(60, 16, [7u8; 16]);
    assert_eq!(h.kind, "hello");
    assert_eq!(h.protocol_version, 1);
    assert_eq!(h.tick_rate_hz, 60);
    assert_eq!(h.peer_count, 16);
    assert_eq!(h.build_id, "07070707070707070707070707070707");
}

#[test]
fn frame_messages_read_back_as_frames() {
    let frames = vec![
        Frame::TickHash {
            tick: 50,
            peer_id: 0,
            hash: 9,
        },
        Frame::EndOfStream,
    ];
    let mut bytes = Vec::new();
    for f in &frames {
        bytes.extend_from_slice(&frame_message(f));
    }
    let mut reader = FrameReader::new(bytes);
    assert_eq!(reader.next_frame().unwrap(), Some(frames[0].clone()));
    assert_eq!(reader.next_frame().unwrap(), Some(Frame::EndOfStream));
    assert_eq!(reader.next_frame().unwrap(), None);
}

#[test]
fn live_messages_become_frames_or_are_ignored() {
    let frame = Frame::TickHash {
        tick: 3,
        peer_id: 1,
        hash: 4,
    };
    assert!(matches!(
        live_message_step(true, frame_message(&frame)),
        LiveStep::Show(f) if f == frame
    ));
    assert!(matches!(live_message_step(false, frame_message(&frame)), LiveStep::Ignore));
    assert!(matches!(live_message_step(true, vec![0x01, 0x00]), LiveStep::Ignore));
    let mut bad = vec![0x01];
    bad.extend_from_slice(&2u32.to_le_bytes());
    bad.extend_from_slice(&[0, 0]);
    assert!(matches!(
        live_message_step(true, bad),
        LiveStep::Stop(Error::MalformedFrame)
    ));
}
