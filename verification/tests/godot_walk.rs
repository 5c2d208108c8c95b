//! Reflective hashing over an object graph: tracked properties by prefix at
//! every level, ordered containers, and the guards against cycles and
//! runaway depth.

use foldback::format::{Frame, FrameReader, Header, HEADER_LEN};
use foldback::godot_walk::{
    hash_reflected, variant_leaves, GodotObject, GodotWalkError, VariantValue,
};
use foldback::hash::hash_bytes;
use foldback::session::Session;

fn object(id: u64, props: Vec<(&str, VariantValue)>) -> GodotObject {
    GodotObject {
        instance_id: id,
        properties: props.into_iter().map(|(n, v)| (n.to_string(), v)).collect(),
    }
}

fn int_leaf(v: i64) -> VariantValue {
    VariantValue::Leaf(v.to_le_bytes().to_vec())
}

fn paths(records: &[(String, Vec<u8>)]) -> Vec<&str> {
    records.iter().map(|(p, _)| p.as_str()).collect()
}

#[test]
fn only_prefixed_properties_are_walked_at_every_level() {
    let objects = vec![
        object(
            10,
            vec![
                ("foldback_hp", int_leaf(5)),
                ("script", int_leaf(99)),
                ("foldback_weapon", VariantValue::Object(Some(1))),
            ],
        ),
        object(11, vec![("foldback_ammo", int_leaf(3)), ("name", int_leaf(7))]),
    ];
    let (records, stop) = variant_leaves("unit", &objects, &VariantValue::Object(Some(0)));
    assert!(stop.is_none());
    assert_eq!(paths(&records), vec!["unit.foldback_hp", "unit.foldback_weapon.foldback_ammo"]);
    assert_eq!(records[0].1, 5i64.to_le_bytes().to_vec());
}

#[test]
fn arrays_are_indexed_and_dictionaries_keep_their_order() {
    let objects = vec![object(
        1,
        vec![
            ("foldback_list", VariantValue::Array(vec![int_leaf(1), int_leaf(2)])),
            (
                "foldback_dict",
                VariantValue::Dictionary(vec![
                    ("zeta".to_string(), int_leaf(1)),
                    ("alpha".to_string(), int_leaf(2)),
                ]),
            ),
        ],
    )];
    let (records, stop) = variant_leaves("n", &objects, &VariantValue::Object(Some(0)));
    assert!(stop.is_none());
    assert_eq!(
        paths(&records),
        vec![
            "n.foldback_list[0]",
            "n.foldback_list[1]",
            "n.foldback_dict[zeta]",
            "n.foldback_dict[alpha]",
        ]
    );
}

#[test]
fn nil_and_invalid_references_record_the_nil_byte() {
    let objects = vec![object(
        1,
        vec![
            ("foldback_empty", VariantValue::Nil),
            ("foldback_freed", VariantValue::Object(None)),
            ("foldback_dangling", VariantValue::Object(Some(7))),
        ],
    )];
    let (records, stop) = variant_leaves("n", &objects, &VariantValue::Object(Some(0)));
    assert!(stop.is_none());
    assert_eq!(records.len(), 3);
    assert!(records.iter().all(|(_, b)| b == &vec![0xFF]));
}

#[test]
fn an_object_referring_back_to_itself_is_a_cycle() {
    let objects = vec![object(
        42,
        vec![("foldback_hp", int_leaf(1)), ("foldback_me", VariantValue::Object(Some(0)))],
    )];
    let (records, stop) = variant_leaves("n", &objects, &VariantValue::Object(Some(0)));
    assert_eq!(paths(&records), vec!["n.foldback_hp"]);
    match stop {
        Some(GodotWalkError::ReferenceCycle(p)) => assert_eq!(p, "n.foldback_me"),
        other => panic!("unexpected {other:?}"),
    }
}

#[test]
fn the_same_object_reached_twice_side_by_side_is_not_a_cycle() {
    let objects = vec![
        object(
            1,
            vec![
                ("foldback_a", VariantValue::Object(Some(1))),
                ("foldback_b", VariantValue::Object(Some(1))),
            ],
        ),
        object(2, vec![("foldback_x", int_leaf(4))]),
    ];
    let (records, stop) = variant_leaves("n", &objects, &VariantValue::Object(Some(0)));
    assert!(stop.is_none());
    assert_eq!(paths(&records), vec!["n.foldback_a.foldback_x", "n.foldback_b.foldback_x"]);
}

#[test]
fn nesting_past_the_limit_stops_with_its_path() {
    let mut v = int_leaf(1);
    for _ in 0..9 {
        v = VariantValue::Array(vec![v]);
    }
    let (records, stop) = variant_leaves("n", &Vec::new(), &v);
    assert!(records.is_empty());
    match stop {
        Some(GodotWalkError::DepthExceeded(p)) => assert_eq!(p, "n[0][0][0][0][0][0][0][0][0]"),
        other => panic!("unexpected {other:?}"),
    }
}

#[test]
fn hash_reflected_records_each_leaf_and_returns_the_preview() {
    let objects = vec![object(1, vec![("foldback_hp", int_leaf(5)), ("foldback_mp", int_leaf(6))])];
    let mut session = Session::builder()
        .peer_count(1)
        .record_to("godot.foldback")
        .build()
        .unwrap();
    let preview = hash_reflected(&mut session, 3, 9, "p", &objects, &VariantValue::Object(Some(0))).unwrap();
    assert_eq!(preview.len(), 2);
    assert_eq!(preview[0], ("p.foldback_hp".to_string(), hash_bytes(&5i64.to_le_bytes())));

    let bytes = session.take_recorded_bytes();
    Header::read_from(&bytes).unwrap();
    let mut reader = FrameReader::new(bytes[HEADER_LEN..].to_vec());
    let mut names = Vec::new();
    while let Some(f) = reader.next() {
        if let Frame::FieldHash { tick, entity_id, field_name, hash, .. } = f.unwrap() {
            assert_eq!((tick, entity_id), (3, 9));
            names.push((field_name, hash));
        }
    }
    assert_eq!(names, preview);
}

#[test]
fn hash_reflected_reports_a_cycle_after_recording_what_came_before() {
    let objects = vec![object(
        42,
        vec![("foldback_hp", int_leaf(1)), ("foldback_me", VariantValue::Object(Some(0)))],
    )];
    let mut session = Session::builder().peer_count(1).build().unwrap();
    let err = hash_reflected(&mut session, 0, 0, "n", &objects, &VariantValue::Object(Some(0))).unwrap_err();
    assert_eq!(err.message(), "reflective hash walk found a reference cycle at 'n.foldback_me'");
}

#[test]
fn depth_error_message_names_the_limit_and_the_path() {
    let e = GodotWalkError::DepthExceeded("a.b".to_string());
    assert_eq!(
        e.message(),
        "reflective hash walk exceeded max depth 8 at 'a.b' — likely a cyclic or self-referential reflected object graph"
    );
}

#[test]
fn untracked_properties_do_not_change_the_walk() {
    let with = |script: i64| {
        vec![object(1, vec![("foldback_hp", int_leaf(5)), ("script", int_leaf(script))])]
    };
    let a = variant_leaves("n", &with(1), &VariantValue::Object(Some(0)));
    let b = variant_leaves("n", &with(2), &VariantValue::Object(Some(0)));
    assert_eq!(a.0, b.0);
    assert!(a.1.is_none() && b.1.is_none());
}
