use foldback::bisect::DivergenceTick;
use foldback::error::Error;
use foldback::report::{analyze, hex, read_session, CliError};
use foldback::session::Session;

#[test]
fn analyze_counts_every_kind_of_frame() {
    let mut s = Session::builder()
        .tick_rate_hz(30)
        .peer_count(2)
        .record_to("a.foldback")
        .build()
        .unwrap();
    for tick in 0..4u64 {
        s.record_peer_hash(tick, 0, tick).unwrap();
        s.record_peer_hash(tick, 1, if tick == 2 { 99 } else { tick })
            .unwrap();
    }
    s.record_peer_entity_hash(1, 0, 5, 6).unwrap();
    s.record_peer_field_hash(1, 0, 5, "x", 7, &[1, 2]).unwrap();
    s.record_schema("Unit", &["x"]).unwrap();
    s.finish_recording().unwrap();
    let report = analyze("a.foldback", &s.take_recorded_bytes()).unwrap();
    assert_eq!(report.header.tick_rate_hz, 30);
    assert_eq!(report.header.peer_count, 2);
    assert_eq!(report.tick_hash_count, 8);
    assert_eq!(report.entity_hash_count, 1);
    assert_eq!(report.field_hash_count, 1);
    assert_eq!(report.snapshot_count, 0);
    assert_eq!(report.metadata_count, 1);
    assert!(report.ended_cleanly);
    assert_eq!(report.divergence, Some(DivergenceTick(2)));
}

#[test]
fn analyze_reports_bad_magic_with_the_path() {
    let bytes = vec![0u8; 40];
    match analyze("bad.foldback", &bytes) {
        Err(CliError::Format { path, source }) => {
            assert_eq!(path, "bad.foldback");
            assert!(matches!(source, Error::BadMagic));
        }
        _ => panic!("expected a format error"),
    }
}

#[test]
fn a_malformed_frame_fails_the_read() {
    let mut bytes = Vec::new();
    foldback::format::Header::new(60, 1, [0; 16]).write_to(&mut bytes);
    bytes.push(0x02);
    bytes.extend_from_slice(&3u32.to_le_bytes());
    bytes.extend_from_slice(&[1, 2, 3]);
    assert!(matches!(read_session(&bytes), Err(Error::MalformedFrame)));
}

#[test]
fn build_ids_print_as_two_hex_digits_per_byte() {
    assert_eq!(hex(&[]), "");
    assert_eq!(hex(&[0x00, 0x0f, 0xa0, 0xff]), "000fa0ff");
}
