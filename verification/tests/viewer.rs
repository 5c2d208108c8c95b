//! The viewer loads the three golden recordings: a clean run, a run whose
//! peers diverge from tick 6, and a run cut off mid-frame. They are
//! generated here the same way the golden files are made.

use foldback::session::Session;
use foldback::viewer::{hex, load, LoadError};

fn clean_fixture() -> Vec<u8> {
    let mut s = Session::builder()
        .tick_rate_hz(60)
        .peer_count(2)
        .record_to("clean.foldback")
        .build()
        .unwrap();
    for tick in 0..10u64 {
        let hash = 1000 + tick;
        s.record_peer_hash(tick, 0, hash).unwrap();
        s.record_peer_hash(tick, 1, hash).unwrap();
    }
    s.finish_recording().unwrap();
    s.take_recorded_bytes()
}

fn diverging_fixture() -> Vec<u8> {
    let mut s = Session::builder()
        .tick_rate_hz(60)
        .peer_count(2)
        .record_to("diverging.foldback")
        .build()
        .unwrap();
    for tick in 0..10u64 {
        let hash_a = 2000 + tick;
        let hash_b = if tick >= 6 { hash_a + 9999 } else { hash_a };
        s.record_peer_hash(tick, 0, hash_a).unwrap();
        s.record_peer_hash(tick, 1, hash_b).unwrap();
    }
    s.finish_recording().unwrap();
    s.take_recorded_bytes()
}

fn truncated_fixture() -> Vec<u8> {
    let mut s = Session::builder()
        .tick_rate_hz(60)
        .peer_count(1)
        .record_to("truncated.foldback")
        .build()
        .unwrap();
    for tick in 0..5u64 {
        s.hash_tick(tick, format!("state-{tick}").as_bytes())
            .unwrap();
    }
    let bytes = s.take_recorded_bytes();
    let cut = bytes.len() - 3; // slice into the last frame's payload
    bytes[..cut].to_vec()
}

#[test]
fn loads_clean_fixture_with_no_divergence() {
    let data = load("clean.foldback", "fixtures/clean.foldback", &clean_fixture()).unwrap();
    assert!(data.divergence_tick.is_none());
    assert!(!data.tick_hashes.is_empty());
}

#[test]
fn loads_diverging_fixture_and_finds_divergence() {
    let data = load(
        "diverging.foldback",
        "fixtures/diverging.foldback",
        &diverging_fixture(),
    )
    .unwrap();
    assert!(data.divergence_tick.is_some());
}

#[test]
fn loads_truncated_fixture_without_error() {
    let data = load(
        "truncated.foldback",
        "fixtures/truncated.foldback",
        &truncated_fixture(),
    )
    .unwrap();
    assert!(!data.ended_cleanly);
}

#[test]
fn clean_fixture_summary_is_exact() {
    let data = load("clean.foldback", "fixtures/clean.foldback", &clean_fixture()).unwrap();
    assert_eq!(data.file_name, "clean.foldback");
    assert_eq!(data.tick_rate_hz, 60);
    assert_eq!(data.peer_count, 2);
    assert_eq!(data.build_id, "00000000000000000000000000000000");
    assert_eq!(data.min_tick, 0);
    assert_eq!(data.max_tick, 9);
    assert!(data.ended_cleanly);
    assert_eq!(data.tick_hashes.len(), 20);
    assert_eq!(data.tick_hashes[1].peer_id, 1);
    assert_eq!(data.tick_hashes[1].hash, "00000000000003e8");
    assert_eq!(data.metadata_count, 0);
}

#[test]
fn diverging_fixture_diverges_at_tick_six() {
    let data = load(
        "diverging.foldback",
        "fixtures/diverging.foldback",
        &diverging_fixture(),
    )
    .unwrap();
    assert_eq!(data.divergence_tick, Some(6));
}

#[test]
fn truncated_fixture_keeps_the_complete_frames() {
    let data = load(
        "truncated.foldback",
        "fixtures/truncated.foldback",
        &truncated_fixture(),
    )
    .unwrap();
    assert_eq!(data.tick_hashes.len(), 4);
    assert_eq!(data.max_tick, 3);
}

#[test]
fn unreadable_contents_are_a_format_error_naming_the_path() {
    match load("x.foldback", "dir/x.foldback", b"short") {
        Err(LoadError::Format { path, source }) => {
            assert_eq!(path, "dir/x.foldback");
            assert!(matches!(source, foldback::error::Error::TruncatedHeader));
        }
        _ => panic!("expected a format error"),
    }
}

#[test]
fn entity_field_and_snapshot_frames_are_listed() {
    let mut s = Session::builder()
        .peer_count(2)
        .build_id([0xab; 16])
        .record_to("mixed.foldback")
        .build()
        .unwrap();
    s.record_peer_hash(5, 0, 1).unwrap();
    s.record_peer_hash(5, 1, 2).unwrap();
    s.record_peer_entity_hash(5, 1, 77, 0xdead_beef).unwrap();
    s.record_peer_field_hash(5, 1, 77, "hp", 0x10, &[0x01, 0xfe]).unwrap();
    s.record_schema("Unit", &["hp"]).unwrap();
    let data = load("mixed.foldback", "mixed.foldback", &s.take_recorded_bytes()).unwrap();
    assert_eq!(data.build_id, "abababababababababababababababab");
    assert_eq!(data.entity_hashes.len(), 1);
    assert_eq!(data.entity_hashes[0].entity_id, 77);
    assert_eq!(data.entity_hashes[0].hash, "00000000deadbeef");
    assert_eq!(data.field_hashes[0].field_name, "hp");
    assert_eq!(data.field_hashes[0].value_hex, "01fe");
    assert_eq!(data.metadata_count, 1);
    assert_eq!(data.divergence_tick, Some(5));
    assert!(!data.ended_cleanly);
}

#[test]
fn hex_is_sixteen_lower_case_digits() {
    assert_eq!(hex(0), "0000000000000000");
    assert_eq!(hex(0xdead_beef), "00000000deadbeef");
    assert_eq!(hex(u64::MAX), "ffffffffffffffff");
}
