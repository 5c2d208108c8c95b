use foldback::binding::{builder_from_config, has_tracked_prefix, list_tracked, ConfigError};

#[test]
fn config_needs_tick_rate_and_peer_count() {
    assert!(matches!(
        builder_from_config(None, Some(2), None, None, None),
        Err(ConfigError::MissingTickRateHz)
    ));
    assert!(matches!(
        builder_from_config(Some(60), None, None, None, None),
        Err(ConfigError::MissingPeerCount)
    ));
}

#[test]
fn config_defaults_and_narrowing() {
    let b = builder_from_config(Some(30), Some(4), None, Some(0), Some(String::new())).unwrap();
    assert!(b.record_path().is_none());
    let s = b.build().unwrap();
    assert_eq!(s.tick_rate_hz(), 30);
    assert_eq!(s.peer_count(), 4);
    assert_eq!(s.local_peer_id(), 0);
    assert!(!s.is_recording());

    let b = builder_from_config(
        Some(60),
        Some(2),
        Some(65537),
        Some(3),
        Some("rec.foldback".to_string()),
    )
    .unwrap();
    assert_eq!(b.record_path().unwrap(), "rec.foldback");
    let mut s = b.build().unwrap();
    assert_eq!(s.local_peer_id(), 1);
    assert!(s.is_recording());
    for tick in 0..5u64 {
        s.record_peer_hash(tick, 0, tick).unwrap();
    }
    assert_eq!(s.retained_ticks().count(), 3);
}

#[test]
fn tracked_properties_are_those_with_the_prefix() {
    assert!(has_tracked_prefix("foldback_hp"));
    assert!(has_tracked_prefix("foldback_"));
    assert!(!has_tracked_prefix("foldback"));
    assert!(!has_tracked_prefix("hp"));
    let names: Vec<String> = ["foldback_pos", "script", "foldback_hp", "name"]
        .iter()
        .map(|s| s.to_string())
        .collect();
    let (hashed, other) = list_tracked(&names);
    assert_eq!(hashed, vec!["foldback_pos".to_string(), "foldback_hp".to_string()]);
    assert_eq!(other, vec!["script".to_string(), "name".to_string()]);
}
