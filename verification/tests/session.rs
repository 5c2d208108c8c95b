use foldback::bisect::DivergenceTick;
use foldback::format::{Frame, FrameReader, Header, HEADER_LEN};
use foldback::hash::hash_bytes;
use foldback::session::{PendingHash, Session};

/// Reads back everything a recording session has encoded so far.
fn read_back(s: &mut Session) -> (Header, Vec<Frame>) {
    let bytes = s.take_recorded_bytes();
    let header = Header::read_from(&bytes).unwrap();
    let mut reader = FrameReader::new(bytes[HEADER_LEN..].to_vec());
    let mut frames = Vec::new();
    while let Some(f) = reader.next() {
        frames.push(f.unwrap());
    }
    (header, frames)
}

#[test]
fn hash_tick_produces_pending_hash() {
    let mut s = Session::builder()
        .tick_rate_hz(60)
        .peer_count(1)
        .build()
        .unwrap();
    s.hash_tick(0, b"state at tick 0").unwrap();
    let pending = s.take_pending_hashes();
    assert_eq!(pending.len(), 1);
    assert_eq!(pending[0].tick, 0);
    // Draining again yields nothing new.
    assert!(s.take_pending_hashes().is_empty());
}

#[test]
fn two_clean_runs_produce_equal_finish() {
    let mut a = Session::builder().peer_count(1).build().unwrap();
    let mut b = Session::builder().peer_count(1).build().unwrap();
    for tick in 0..50u64 {
        let state = format!("tick-{tick}-state");
        a.hash_tick(tick, state.as_bytes()).unwrap();
        b.hash_tick(tick, state.as_bytes()).unwrap();
    }
    assert_eq!(a.finish(), b.finish());
}

#[test]
fn diverging_run_produces_different_finish() {
    let mut a = Session::builder().peer_count(1).build().unwrap();
    let mut b = Session::builder().peer_count(1).build().unwrap();
    for tick in 0..50u64 {
        let state_a = format!("tick-{tick}-state");
        // b silently diverges at tick 30.
        let state_b = if tick == 30 {
            "corrupted".to_string()
        } else {
            format!("tick-{tick}-state")
        };
        a.hash_tick(tick, state_a.as_bytes()).unwrap();
        b.hash_tick(tick, state_b.as_bytes()).unwrap();
    }
    assert_ne!(a.finish(), b.finish());
}

#[test]
fn check_divergence_finds_exact_tick_and_reports_once() {
    let mut s = Session::builder().peer_count(2).build().unwrap();
    for tick in 0..10u64 {
        s.record_peer_hash(tick, 0, 100 + tick).unwrap();
        let peer1_hash = if tick == 5 { 9999 } else { 100 + tick };
        s.record_peer_hash(tick, 1, peer1_hash).unwrap();
    }
    assert_eq!(s.check_divergence(), Some(DivergenceTick(5)));
    // Already reported: must not report the same tick again.
    assert_eq!(s.check_divergence(), None);
}

#[test]
fn check_divergence_none_when_clean() {
    let mut s = Session::builder().peer_count(2).build().unwrap();
    for tick in 0..10u64 {
        s.record_peer_hash(tick, 0, 100 + tick).unwrap();
        s.record_peer_hash(tick, 1, 100 + tick).unwrap();
    }
    assert_eq!(s.check_divergence(), None);
}

#[test]
fn hash_entity_writes_an_entity_hash_frame_when_recording() {
    let mut s = Session::builder()
        .peer_count(2)
        .record_to("entity.foldback")
        .build()
        .unwrap();
    s.hash_entity(4821, 3, b"player 3's component state").unwrap();
    let (_, frames) = read_back(&mut s);
    assert!(matches!(
        frames[0],
        Frame::EntityHash {
            tick: 4821,
            peer_id: 0,
            entity_id: 3,
            ..
        }
    ));
}

#[test]
fn hash_field_writes_a_field_hash_frame_with_raw_value_bytes() {
    let mut s = Session::builder()
        .peer_count(2)
        .record_to("field.foldback")
        .build()
        .unwrap();
    s.hash_field(4821, 3, "velocity.x", &12.375f32.to_le_bytes())
        .unwrap();
    let (_, frames) = read_back(&mut s);
    match &frames[0] {
        Frame::FieldHash {
            tick,
            peer_id,
            entity_id,
            field_name,
            value,
            ..
        } => {
            assert_eq!(*tick, 4821);
            assert_eq!(*peer_id, 0);
            assert_eq!(*entity_id, 3);
            assert_eq!(field_name, "velocity.x");
            assert_eq!(value, &12.375f32.to_le_bytes());
        }
        other => panic!("expected FieldHash, got {other:?}"),
    }
}

#[test]
fn session_entity_and_field_hashing_are_no_ops_without_recording() {
    // Without recording, these calls only compute the hash and return.
    let mut s = Session::builder().peer_count(2).build().unwrap();
    s.hash_entity(0, 0, b"x").unwrap();
    s.hash_field(0, 0, "f", b"x").unwrap();
    assert!(s.take_recorded_bytes().is_empty());
    assert_eq!(s.pending_hash_count(), 0);
}

#[test]
fn recording_to_file_round_trips_through_frame_reader() {
    let mut s = Session::builder()
        .tick_rate_hz(60)
        .peer_count(1)
        .record_to("session.foldback")
        .build()
        .unwrap();
    for tick in 0..5u64 {
        s.hash_tick(tick, format!("state-{tick}").as_bytes())
            .unwrap();
    }
    s.finish_recording().unwrap();

    let (header, frames) = read_back(&mut s);
    assert_eq!(header.tick_rate_hz, 60);
    assert_eq!(header.peer_count, 1);
    assert_eq!(frames.len(), 6); // 5 TickHash + EndOfStream
    assert!(matches!(frames.last(), Some(Frame::EndOfStream)));
}

#[test]
fn record_schema_writes_one_metadata_frame_per_type_not_per_call() {
    let mut s = Session::builder()
        .peer_count(2)
        .record_to("schema.foldback")
        .build()
        .unwrap();
    s.record_schema("Unit", &["pos", "hp"]).unwrap();
    // A second call for the same type must not write a second frame.
    s.record_schema("Unit", &["pos", "hp"]).unwrap();
    s.finish_recording().unwrap();
    let (_, frames) = read_back(&mut s);
    let schema_frames: Vec<&Frame> = frames
        .iter()
        .filter(|f| matches!(f, Frame::Metadata { key, .. } if key.starts_with("foldback.schema.")))
        .collect();
    assert_eq!(schema_frames.len(), 1);
    assert!(matches!(
        schema_frames[0],
        Frame::Metadata { key, value }
        if key == "foldback.schema.Unit" && value == "hp,pos"
    ));
}

#[test]
fn defaults_match_the_documented_values() {
    let s = Session::builder().build().unwrap();
    assert_eq!(s.tick_rate_hz(), 60);
    assert_eq!(s.peer_count(), 1);
    assert_eq!(s.local_peer_id(), 0);
    assert!(!s.is_recording());
    let b = Session::builder();
    assert!(b.record_path().is_none());
    let b = b.record_to("x.foldback");
    assert_eq!(b.record_path().unwrap(), "x.foldback");
}

#[test]
fn recording_starts_with_the_builder_header() {
    let mut s = Session::builder()
        .tick_rate_hz(30)
        .peer_count(4)
        .build_id([3u8; 16])
        .record_to("h.foldback")
        .build()
        .unwrap();
    let (header, frames) = read_back(&mut s);
    assert_eq!(header, Header::new(30, 4, [3u8; 16]));
    assert!(frames.is_empty());
    // Bytes are handed out once: nothing new since the last call.
    assert!(s.take_recorded_bytes().is_empty());
}

#[test]
fn local_hashes_are_reported_under_the_local_peer_id() {
    let mut s = Session::builder()
        .peer_count(2)
        .local_peer_id(1)
        .record_to("local.foldback")
        .build()
        .unwrap();
    s.hash_tick(7, b"state").unwrap();
    s.record_peer_hash(7, 0, hash_bytes(b"other state")).unwrap();
    let (_, frames) = read_back(&mut s);
    assert_eq!(
        frames[0],
        Frame::TickHash {
            tick: 7,
            peer_id: 1,
            hash: hash_bytes(b"state"),
        }
    );
    assert_eq!(s.check_divergence(), Some(DivergenceTick(7)));
}

#[test]
fn partial_drain_leaves_the_rest_in_order() {
    let mut s = Session::builder().build().unwrap();
    for tick in 0..5u64 {
        s.hash_tick(tick, &[tick as u8]).unwrap();
    }
    assert_eq!(s.pending_hash_count(), 5);
    let first = s.take_pending_hashes_up_to(2);
    assert_eq!(
        first,
        vec![
            PendingHash { tick: 0, hash: hash_bytes(&[0u8]) },
            PendingHash { tick: 1, hash: hash_bytes(&[1u8]) },
        ]
    );
    assert_eq!(s.pending_hash_count(), 3);
    let rest = s.take_pending_hashes_up_to(10);
    assert_eq!(rest.iter().map(|p| p.tick).collect::<Vec<_>>(), vec![2, 3, 4]);
    assert!(s.take_pending_hashes_up_to(10).is_empty());
}

#[test]
fn retention_window_keeps_the_latest_reports() {
    let mut s = Session::builder().retention(3).build().unwrap();
    for tick in 0..6u64 {
        s.record_peer_hash(tick, 0, 10 * tick).unwrap();
    }
    let kept: Vec<(u64, u64)> = s.retained_ticks().copied().collect();
    assert_eq!(kept, vec![(3, 30), (4, 40), (5, 50)]);
}

#[test]
fn divergences_are_reported_in_tick_order_one_per_call() {
    let mut s = Session::builder().peer_count(2).build().unwrap();
    for tick in [9u64, 3, 6] {
        s.record_peer_hash(tick, 0, 1).unwrap();
        s.record_peer_hash(tick, 1, 2).unwrap();
    }
    assert_eq!(s.check_divergence(), Some(DivergenceTick(3)));
    assert_eq!(s.check_divergence(), Some(DivergenceTick(6)));
    assert_eq!(s.check_divergence(), Some(DivergenceTick(9)));
    assert_eq!(s.check_divergence(), None);
}

#[test]
fn finish_reflects_locally_hashed_ticks_only() {
    let mut a = Session::builder().build().unwrap();
    let mut b = Session::builder().peer_count(2).build().unwrap();
    assert_eq!(a.finish(), 0);
    for tick in 0..5u64 {
        a.hash_tick(tick, &[tick as u8]).unwrap();
        b.hash_tick(tick, &[tick as u8]).unwrap();
        // Peer reports and draining do not enter the combined hash.
        b.record_peer_hash(tick, 1, 12345).unwrap();
        b.take_pending_hashes();
    }
    assert_eq!(a.finish(), b.finish());
    b.hash_tick(5, &[0xff]).unwrap();
    assert_ne!(a.finish(), b.finish());
}

#[test]
fn finish_matches_the_documented_combination() {
    let mut s = Session::builder().build().unwrap();
    s.hash_tick(3, b"abc").unwrap();
    let h = hash_bytes(b"abc");
    let mut buf = Vec::new();
    buf.extend_from_slice(&0u64.to_le_bytes());
    buf.extend_from_slice(&3u64.to_le_bytes());
    buf.extend_from_slice(&h.to_le_bytes());
    assert_eq!(s.finish(), hash_bytes(&buf));
}

#[test]
fn retention_is_counted_in_ticks_not_reports() {
    let mut s = Session::builder().peer_count(2).retention(3).build().unwrap();
    for tick in 0..6u64 {
        s.record_peer_hash(tick, 0, 10 * tick).unwrap();
        s.record_peer_hash(tick, 1, 10 * tick).unwrap();
    }
    let kept: Vec<(u64, u64)> = s.retained_ticks().copied().collect();
    assert_eq!(kept, vec![(3, 30), (3, 30), (4, 40), (4, 40), (5, 50), (5, 50)]);
}

#[test]
fn retention_zero_keeps_nothing() {
    let mut s = Session::builder().retention(0).build().unwrap();
    s.record_peer_hash(1, 0, 1).unwrap();
    assert_eq!(s.retained_ticks().count(), 0);
}
