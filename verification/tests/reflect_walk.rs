//! Reflective hashing on plain reflected values: which leaves are walked,
//! under which paths, and what ends up in the recording.

use foldback::error::Error;
use foldback::format::{Frame, FrameReader, Header, HEADER_LEN};
use foldback::hash::hash_bytes;
use foldback::hashable::FoldbackHash;
use foldback::reflect_walk::{
    decimal_text, hash_reflected, reflect_trace, ReflectedValue, MAX_REFLECT_DEPTH,
};
use foldback::schema::fingerprint;
use foldback::session::Session;
use std::time::{Duration, Instant};

const UNIT_TRACKED: &[&str] = &["pos", "hp", "tags"];

fn leaf_f32(x: f32) -> ReflectedValue {
    ReflectedValue::Leaf(x.to_le_bytes().to_vec())
}

fn leaf_i32(x: i32) -> ReflectedValue {
    ReflectedValue::Leaf(x.to_le_bytes().to_vec())
}

fn leaf_string(s: &str) -> ReflectedValue {
    ReflectedValue::Leaf(s.as_bytes().to_vec())
}

fn field(name: &str, v: ReflectedValue) -> (String, ReflectedValue) {
    (name.to_string(), v)
}

/// The reflected form of `Unit { pos: Position { x, y }, hp, tags, debug_label }`.
fn unit(x: f32, y: f32, hp: i32, tags: &[&str], debug_label: &str) -> ReflectedValue {
    ReflectedValue::Struct(vec![
        field(
            "pos",
            ReflectedValue::Struct(vec![field("x", leaf_f32(x)), field("y", leaf_f32(y))]),
        ),
        field("hp", leaf_i32(hp)),
        field(
            "tags",
            ReflectedValue::List(tags.iter().map(|t| leaf_string(t)).collect()),
        ),
        field("debug_label", leaf_string(debug_label)),
    ])
}

/// The leaves a walk of these root fields meets, with owned bytes.
fn trace(
    prefix: &str,
    fields: &Vec<(String, ReflectedValue)>,
    tagged: &[&str],
) -> (Vec<(String, Vec<u8>)>, Option<String>) {
    let (records, stopped) = reflect_trace(prefix, fields, tagged);
    (records.into_iter().map(|(p, b)| (p, b.to_vec())).collect(), stopped)
}

fn recording_session() -> Session {
    Session::builder()
        .peer_count(1)
        .record_to("reflect.foldback")
        .build()
        .unwrap()
}

fn read_back(s: &mut Session) -> Vec<Frame> {
    let bytes = s.take_recorded_bytes();
    Header::read_from(&bytes).unwrap();
    let mut reader = FrameReader::new(bytes[HEADER_LEN..].to_vec());
    let mut frames = Vec::new();
    while let Some(f) = reader.next() {
        frames.push(f.unwrap());
    }
    frames
}

fn hash_and_read_back(f: impl FnOnce(&mut Session)) -> Vec<Frame> {
    let mut session = recording_session();
    f(&mut session);
    read_back(&mut session)
}

fn field_names(frames: &[Frame]) -> Vec<String> {
    frames
        .iter()
        .filter_map(|f| match f {
            Frame::FieldHash { field_name, .. } => Some(field_name.clone()),
            _ => None,
        })
        .collect()
}

fn hashes(frames: &[Frame]) -> Vec<u64> {
    frames
        .iter()
        .filter_map(|f| match f {
            Frame::FieldHash { hash, .. } => Some(*hash),
            _ => None,
        })
        .collect()
}

fn hash_unit(s: &mut Session, tick: u64, entity_id: u64, prefix: &str, root: &ReflectedValue) -> Vec<(String, u64)> {
    hash_reflected(s, tick, entity_id, prefix, "game::Unit", UNIT_TRACKED, root).unwrap()
}

#[test]
fn walks_nested_struct_fields_with_dotted_paths() {
    let u = unit(1.5, -2.0, 42, &["a", "b"], "not hashed");
    let frames = hash_and_read_back(|session| {
        hash_unit(session, 0, 7, "unit", &u);
    });
    let names = field_names(&frames);
    assert!(names.contains(&"unit.pos.x".to_string()));
    assert!(names.contains(&"unit.pos.y".to_string()));
    assert!(names.contains(&"unit.hp".to_string()));
    assert!(names.contains(&"unit.tags[0]".to_string()));
    assert!(names.contains(&"unit.tags[1]".to_string()));
}

#[test]
fn walk_visits_fields_in_declaration_order() {
    let u = unit(1.5, -2.0, 42, &["a", "b"], "not hashed");
    let frames = hash_and_read_back(|session| {
        hash_unit(session, 0, 7, "unit", &u);
    });
    assert_eq!(
        field_names(&frames),
        vec!["unit.pos.x", "unit.pos.y", "unit.hp", "unit.tags[0]", "unit.tags[1]"]
    );
}

#[test]
fn untagged_field_is_invisible_to_the_walker() {
    let u = unit(0.0, 0.0, 1, &[], "should never appear");
    let frames = hash_and_read_back(|session| {
        hash_unit(session, 0, 0, "unit", &u);
    });
    assert!(field_names(&frames).iter().all(|n| !n.contains("debug_label")));
}

#[test]
fn preview_return_value_matches_recorded_frames() {
    let u = unit(1.0, 2.0, 7, &["x"], "ignored");
    let mut session = recording_session();
    let preview = hash_unit(&mut session, 0, 0, "unit", &u);
    let frames = read_back(&mut session);
    assert_eq!(preview.len(), field_names(&frames).len());
    for (path, hash) in &preview {
        assert!(frames.iter().any(|f| matches!(
            f,
            Frame::FieldHash { field_name, hash: h, .. } if field_name == path && h == hash
        )));
    }
}

#[test]
fn same_struct_state_hashes_identically() {
    let a = unit(1.5, -2.0, 42, &["a"], "a");
    let b = unit(1.5, -2.0, 42, &["a"], "b differs but is untracked");
    let frames_a = hash_and_read_back(|s| {
        hash_unit(s, 3, 1, "u", &a);
    });
    let frames_b = hash_and_read_back(|s| {
        hash_unit(s, 3, 1, "u", &b);
    });
    assert_eq!(hashes(&frames_a), hashes(&frames_b));
}

#[test]
fn differing_tracked_field_value_changes_the_hash() {
    let frames_a = hash_and_read_back(|s| {
        hash_unit(s, 0, 0, "u", &unit(1.5, -2.0, 42, &[], ""));
    });
    let frames_b = hash_and_read_back(|s| {
        hash_unit(s, 0, 0, "u", &unit(1.6, -2.0, 42, &[], ""));
    });
    assert_ne!(hashes(&frames_a), hashes(&frames_b));
}

#[test]
fn non_struct_root_is_rejected() {
    let mut session = Session::builder().peer_count(1).build().unwrap();
    let wrapper = ReflectedValue::TupleStruct(vec![leaf_i32(1)]);
    let err = hash_reflected(&mut session, 0, 0, "w", "game::Wrapper", &["0"], &wrapper).unwrap_err();
    assert!(matches!(err, Error::ReflectionRootNotStruct));
}

#[test]
fn map_field_hashes_independent_of_insertion_order() {
    let entry = |k: &str, v: u32| (format!("{k:?}"), ReflectedValue::Leaf(v.to_le_bytes().to_vec()));
    let inventory = |entries: Vec<(String, ReflectedValue)>| {
        ReflectedValue::Struct(vec![field("items", ReflectedValue::MapEntries(entries))])
    };
    let a = inventory(vec![entry("sword", 1), entry("shield", 2)]);
    let b = inventory(vec![entry("shield", 2), entry("sword", 1)]);
    let frames_a = hash_and_read_back(|s| {
        hash_reflected(s, 0, 0, "inv", "game::Inventory", &["items"], &a).unwrap();
    });
    let frames_b = hash_and_read_back(|s| {
        hash_reflected(s, 0, 0, "inv", "game::Inventory", &["items"], &b).unwrap();
    });
    assert_eq!(hashes(&frames_a), hashes(&frames_b));
    assert_eq!(field_names(&frames_a), field_names(&frames_b));
    assert_eq!(
        field_names(&frames_a),
        vec!["inv.items[\"shield\"]", "inv.items[\"sword\"]"]
    );
}

#[test]
fn set_members_are_walked_in_text_order_with_braces() {
    let fields = vec![field(
        "seen",
        ReflectedValue::SetItems(vec![
            ("7".to_string(), ReflectedValue::Leaf(vec![7])),
            ("3".to_string(), ReflectedValue::Leaf(vec![3])),
        ]),
    )];
    let (records, stopped) = trace("s", &fields, &["seen"]);
    assert!(stopped.is_none());
    assert_eq!(
        records,
        vec![("s.seen{3}".to_string(), vec![3]), ("s.seen{7}".to_string(), vec![7])]
    );
}

#[test]
fn equal_map_keys_keep_their_original_order() {
    let fields = vec![field(
        "m",
        ReflectedValue::MapEntries(vec![
            ("k".to_string(), ReflectedValue::Leaf(vec![2])),
            ("a".to_string(), ReflectedValue::Leaf(vec![0])),
            ("k".to_string(), ReflectedValue::Leaf(vec![1])),
        ]),
    )];
    let (records, stopped) = trace("", &fields, &["m"]);
    assert!(stopped.is_none());
    assert_eq!(
        records,
        vec![
            ("m[a]".to_string(), vec![0]),
            ("m[k]".to_string(), vec![2]),
            ("m[k]".to_string(), vec![1]),
        ]
    );
}

#[test]
fn tuples_arrays_and_enums_get_their_own_path_shapes() {
    let fields = vec![
        field(
            "t",
            ReflectedValue::Tuple(vec![ReflectedValue::Leaf(vec![1]), ReflectedValue::Leaf(vec![2])]),
        ),
        field("a", ReflectedValue::Array(vec![ReflectedValue::Leaf(vec![9])])),
        field(
            "e",
            ReflectedValue::Enum(
                "Moving".to_string(),
                vec![("speed".to_string(), ReflectedValue::Leaf(vec![5]))],
            ),
        ),
        field(
            "w",
            ReflectedValue::TupleStruct(vec![ReflectedValue::Enum("Idle".to_string(), vec![])]),
        ),
    ];
    let (records, stopped) = trace("x", &fields, &["t", "a", "e", "w"]);
    assert!(stopped.is_none());
    assert_eq!(
        records,
        vec![
            ("x.t.0".to_string(), vec![1]),
            ("x.t.1".to_string(), vec![2]),
            ("x.a[0]".to_string(), vec![9]),
            ("x.e::Moving#variant".to_string(), b"Moving".to_vec()),
            ("x.e::Moving.speed".to_string(), vec![5]),
            ("x.w.0::Idle#variant".to_string(), b"Idle".to_vec()),
        ]
    );
}

#[test]
fn empty_prefix_names_root_fields_bare() {
    let fields = vec![field("hp", ReflectedValue::Leaf(vec![1]))];
    let (records, _) = trace("", &fields, &["hp"]);
    assert_eq!(records, vec![("hp".to_string(), vec![1])]);
}

/// `depth` nested single-field tuple structs around one leaf.
fn nested(depth: usize) -> ReflectedValue {
    let mut v = leaf_i32(1);
    for _ in 0..depth {
        v = ReflectedValue::TupleStruct(vec![v]);
    }
    v
}

#[test]
fn depth_guard_rejects_a_runaway_nesting() {
    // Root { inner: Deep9(Deep8(...Deep1(1))) }
    let value = ReflectedValue::Struct(vec![field("inner", nested(9))]);
    let mut session = Session::builder().peer_count(1).build().unwrap();
    let err = hash_reflected(&mut session, 0, 0, "r", "game::Root", &["inner"], &value).unwrap_err();
    assert!(matches!(err, Error::ReflectionDepthExceeded { .. }));
}

#[test]
fn depth_guard_names_the_path_and_the_limit() {
    let value = ReflectedValue::Struct(vec![field("inner", nested(8))]);
    let mut session = recording_session();
    let err = hash_reflected(&mut session, 0, 0, "r", "game::Root", &["inner"], &value).unwrap_err();
    match err {
        Error::ReflectionDepthExceeded { path, max_depth } => {
            assert_eq!(max_depth, MAX_REFLECT_DEPTH);
            assert_eq!(path, "r.inner.0.0.0.0.0.0.0.0");
        }
        other => panic!("unexpected error {other:?}"),
    }
    // Nothing was recorded below the limit, only the schema.
    assert!(field_names(&read_back(&mut session)).is_empty());
}

#[test]
fn nesting_right_at_the_limit_is_walked() {
    let value = ReflectedValue::Struct(vec![field("inner", nested(7))]);
    let mut session = recording_session();
    let preview = hash_reflected(&mut session, 0, 0, "r", "game::Root", &["inner"], &value).unwrap();
    assert_eq!(preview.len(), 1);
    assert_eq!(preview[0].0, "r.inner.0.0.0.0.0.0.0");
    assert_eq!(preview[0].1, hash_bytes(&1i32.to_le_bytes()));
}

#[test]
fn leaves_met_before_the_depth_limit_stay_recorded() {
    let value = ReflectedValue::Struct(vec![
        field("hp", leaf_i32(3)),
        field("inner", nested(9)),
        field("late", leaf_i32(4)),
    ]);
    let mut session = recording_session();
    let err = hash_reflected(&mut session, 0, 0, "", "game::Root", &["hp", "inner", "late"], &value);
    assert!(err.is_err());
    assert_eq!(field_names(&read_back(&mut session)), vec!["hp"]);
}

#[test]
fn hash_reflected_records_schema_once_per_type_not_once_per_call() {
    let u = unit(0.0, 0.0, 10, &[], "u");
    let frames = hash_and_read_back(|session| {
        hash_reflected(session, 0, 0, "unit", "game::Unit", UNIT_TRACKED, &u).unwrap();
        hash_reflected(session, 1, 0, "unit", "game::Unit", UNIT_TRACKED, &u).unwrap();
    });
    let schema_frames: Vec<&Frame> = frames
        .iter()
        .filter(|f| matches!(f, Frame::Metadata { key, .. } if key.starts_with("foldback.schema.")))
        .collect();
    assert_eq!(schema_frames.len(), 1);
    let Frame::Metadata { key, value } = schema_frames[0] else {
        unreachable!()
    };
    assert!(key.ends_with("Unit"));
    assert_eq!(value, &fingerprint(UNIT_TRACKED));
}

#[test]
fn not_recording_still_returns_the_preview() {
    let mut session = Session::builder().peer_count(1).build().unwrap();
    let preview = hash_unit(&mut session, 0, 0, "unit", &unit(1.0, 2.0, 3, &[], ""));
    let names: Vec<&str> = preview.iter().map(|(p, _)| p.as_str()).collect();
    assert_eq!(names, vec!["unit.pos.x", "unit.pos.y", "unit.hp"]);
    assert_eq!(preview[2].1, hash_bytes(&3i32.to_le_bytes()));
}

#[test]
fn decimal_text_writes_indices() {
    assert_eq!(decimal_text(0), "0");
    assert_eq!(decimal_text(7), "7");
    assert_eq!(decimal_text(10), "10");
    assert_eq!(decimal_text(1234567), "1234567");
}

/// The explicitly hashed counterpart of the reflected unit below: the same
/// position and hit points, hashed by hand.
struct ExplicitUnit {
    pos_x: f32,
    pos_y: f32,
    hp: i32,
}

impl FoldbackHash for ExplicitUnit {
    const TRACKED_FIELDS: &'static [&'static str] = &["pos_x", "pos_y", "hp"];
    const UNTRACKED_FIELDS: &'static [&'static str] = &[];

    fn write_hashed_fields(&self, session: &mut Session, tick: u64, entity_id: u64) -> Result<(), Error> {
        session.hash_field(tick, entity_id, "pos_x", &self.pos_x.to_le_bytes())?;
        session.hash_field(tick, entity_id, "pos_y", &self.pos_y.to_le_bytes())?;
        session.hash_field(tick, entity_id, "hp", &self.hp.to_le_bytes())?;
        Ok(())
    }
}

#[test]
fn reflective_hashing_stays_within_a_generous_budget_of_explicit_hashing() {
    const ENTITY_COUNT: usize = 1_000;
    const MAX_RATIO: u32 = 25;

    let explicit_units: Vec<ExplicitUnit> = (0..ENTITY_COUNT)
        .map(|i| ExplicitUnit {
            pos_x: i as f32,
            pos_y: i as f32 * 2.0,
            hp: 100 - (i % 100) as i32,
        })
        .collect();
    let reflective_units: Vec<ReflectedValue> = (0..ENTITY_COUNT)
        .map(|i| {
            ReflectedValue::Struct(vec![
                field(
                    "pos",
                    ReflectedValue::Struct(vec![
                        field("x", leaf_f32(i as f32)),
                        field("y", leaf_f32(i as f32 * 2.0)),
                    ]),
                ),
                field("hp", leaf_i32(100 - (i % 100) as i32)),
            ])
        })
        .collect();

    fn best_of_5(f: impl Fn()) -> Duration {
        (0..5)
            .map(|_| {
                let start = Instant::now();
                f();
                start.elapsed()
            })
            .min()
            .unwrap()
    }
    let explicit = best_of_5(|| {
        let mut session = Session::builder().peer_count(1).build().unwrap();
        for (id, u) in explicit_units.iter().enumerate() {
            session.hash_fields(0, id as u64, u).unwrap();
        }
    });
    let reflective = best_of_5(|| {
        let mut session = Session::builder().peer_count(1).build().unwrap();
        for (id, u) in reflective_units.iter().enumerate() {
            hash_reflected(&mut session, 0, id as u64, "unit", "game::ReflectiveUnit", &["pos", "hp"], u)
                .unwrap();
        }
    });
    assert!(
        reflective <= explicit * MAX_RATIO,
        "reflective hashing took {reflective:?} vs explicit's {explicit:?} (budget is {MAX_RATIO}x)"
    );
}
