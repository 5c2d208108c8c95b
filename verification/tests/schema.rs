use foldback::format::Frame;
use foldback::schema::{
    common_type_count, detect_drift, extract_schemas, fingerprint, schema_metadata_key,
    SchemaDrift, SchemaMap,
};

fn schema_map(pairs: &[(&str, &str)]) -> SchemaMap {
    let mut m = SchemaMap::new();
    for (k, v) in pairs {
        m.insert(k.to_string(), v.to_string());
    }
    m
}

#[test]
fn fingerprint_is_order_independent() {
    assert_eq!(fingerprint(&["b", "a"]), fingerprint(&["a", "b"]));
    assert_eq!(fingerprint(&["a", "b"]), "a,b");
}

#[test]
fn extract_schemas_reads_only_schema_metadata() {
    let frames = vec![
        Frame::Metadata {
            key: schema_metadata_key("Unit"),
            value: "hp,pos".to_string(),
        },
        Frame::Metadata {
            key: "input:P1".to_string(),
            value: "jump".to_string(),
        },
        Frame::TickHash {
            tick: 1,
            peer_id: 0,
            hash: 0,
        },
    ];
    let schemas = extract_schemas(&frames);
    assert_eq!(schemas.len(), 1);
    assert_eq!(schemas.get("Unit").unwrap(), "hp,pos");
}

#[test]
fn detect_drift_flags_changed_fingerprints_only() {
    let before = schema_map(&[("Unit", "hp,pos"), ("Stable", "x"), ("OnlyBefore", "y")]);
    let after = schema_map(&[("Unit", "hp,pos,shield"), ("Stable", "x"), ("OnlyAfter", "z")]);
    let drift = detect_drift(&before, &after);
    assert_eq!(
        drift,
        vec![SchemaDrift {
            name: "Unit".to_string(),
            before: "hp,pos".to_string(),
            after: "hp,pos,shield".to_string(),
        }]
    );
}

#[test]
fn schema_key_has_the_documented_prefix() {
    assert_eq!(schema_metadata_key("Unit"), "foldback.schema.Unit");
    assert_eq!(schema_metadata_key(""), "foldback.schema.");
}

#[test]
fn fingerprint_sorts_by_bytes_and_keeps_repeats() {
    assert_eq!(fingerprint(&[]), "");
    assert_eq!(fingerprint(&["pos"]), "pos");
    assert_eq!(fingerprint(&["pos", "hp", "Zeta", "alpha"]), "Zeta,alpha,hp,pos");
    assert_eq!(fingerprint(&["b", "a", "b"]), "a,b,b");
    assert_eq!(fingerprint(&["ab", "a", "é", "z"]), "a,ab,z,é");
}

#[test]
fn later_schema_entry_replaces_an_earlier_one() {
    let frames = vec![
        Frame::Metadata {
            key: schema_metadata_key("Unit"),
            value: "hp".to_string(),
        },
        Frame::Metadata {
            key: schema_metadata_key("Unit"),
            value: "hp,pos".to_string(),
        },
        Frame::Metadata {
            key: "foldback.schem".to_string(),
            value: "not a schema".to_string(),
        },
    ];
    let schemas = extract_schemas(&frames);
    assert_eq!(schemas.len(), 1);
    assert_eq!(schemas.get("Unit").unwrap(), "hp,pos");
    assert!(schemas.get("Other").is_none());
}

#[test]
fn schema_map_keeps_names_in_byte_order() {
    let m = schema_map(&[("b", "2"), ("a", "1"), ("c", "3"), ("a", "4")]);
    let names: Vec<&str> = m.as_slice().iter().map(|(k, _)| k.as_str()).collect();
    assert_eq!(names, vec!["a", "b", "c"]);
    assert_eq!(m.get("a").unwrap(), "4");
}

#[test]
fn identical_schemas_have_no_drift() {
    let before = schema_map(&[("Unit", "hp,pos")]);
    let after = schema_map(&[("Unit", "hp,pos")]);
    assert!(detect_drift(&before, &after).is_empty());
    assert_eq!(common_type_count(&before, &after), 1);
}

#[test]
fn type_only_on_one_side_is_not_drift() {
    let before = schema_map(&[("Unit", "hp")]);
    let after = schema_map(&[("Unit", "hp"), ("NewType", "x")]);
    assert!(detect_drift(&before, &after).is_empty());
    assert_eq!(common_type_count(&before, &after), 1);
    assert_eq!(common_type_count(&after, &before), 1);
}

/// The schemas a recorded session holds, read back the way `schema-diff`
/// reads a file: a session that only records these types' schemas.
fn recorded_schemas(schemas: &[(&str, &[&str])]) -> SchemaMap {
    let mut session = foldback::session::Session::builder()
        .peer_count(1)
        .record_to("schemas.foldback")
        .build()
        .unwrap();
    for (name, fields) in schemas {
        session.record_schema(name, fields).unwrap();
    }
    session.finish_recording().unwrap();
    let bytes = session.take_recorded_bytes();
    let (_, frames) = foldback::report::read_session(&bytes).unwrap();
    extract_schemas(&frames)
}

#[test]
fn identical_schemas_report_no_drift() {
    let a = recorded_schemas(&[("Unit", &["hp", "pos"])]);
    let b = recorded_schemas(&[("Unit", &["hp", "pos"])]);
    assert!(detect_drift(&a, &b).is_empty());
    assert_eq!(common_type_count(&a, &b), 1);
}

#[test]
fn added_tagged_field_is_reported_as_drift_and_exits_nonzero() {
    let before = recorded_schemas(&[("Unit", &["hp"])]);
    let after = recorded_schemas(&[("Unit", &["hp", "shield"])]);
    let drift = detect_drift(&before, &after);
    assert_eq!(drift.len(), 1);
    assert_eq!(drift[0].name, "Unit");
    assert_eq!(drift[0].before, "hp");
    assert_eq!(drift[0].after, "hp,shield");
}

#[test]
fn type_only_present_on_one_side_is_not_drift() {
    let before = recorded_schemas(&[("Unit", &["hp"])]);
    let after = recorded_schemas(&[("Unit", &["hp"]), ("NewType", &["x"])]);
    assert!(detect_drift(&before, &after).is_empty());
}
