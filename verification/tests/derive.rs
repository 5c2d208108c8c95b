//! `Session::hash_fields` records exactly the fields a `FoldbackHash`
//! implementation hashes: here one written out by hand for a struct with
//! two tracked fields and one untracked field.

use foldback::error::Error;
use foldback::format::{Frame, FrameReader, Header, HEADER_LEN};
use foldback::hashable::{FieldBytes, FoldbackHash};
use foldback::session::Session;

struct PlayerState {
    position: [f32; 3],
    velocity: [f32; 3],
    #[allow(dead_code)]
    debug_name: String,
}

fn float_bits(v: [f32; 3]) -> [u32; 3] {
    [v[0].to_bits(), v[1].to_bits(), v[2].to_bits()]
}

impl FoldbackHash for PlayerState {
    const TRACKED_FIELDS: &'static [&'static str] = &["position", "velocity"];
    const UNTRACKED_FIELDS: &'static [&'static str] = &["debug_name"];

    fn write_hashed_fields(
        &self,
        session: &mut Session,
        tick: u64,
        entity_id: u64,
    ) -> Result<(), Error> {
        session.hash_field(tick, entity_id, "position", &float_bits(self.position).field_bytes())?;
        session.hash_field(tick, entity_id, "velocity", &float_bits(self.velocity).field_bytes())?;
        Ok(())
    }
}

#[test]
fn untracked_fields_names_the_one_unmarked_field() {
    assert_eq!(PlayerState::UNTRACKED_FIELDS, &["debug_name"]);
}

#[test]
fn hash_fields_records_only_the_hash_marked_fields() {
    let mut session = Session::builder()
        .peer_count(2)
        .record_to("derive.foldback")
        .build()
        .unwrap();
    let state = PlayerState {
        position: [1.0, 2.0, 3.0],
        velocity: [0.0, -1.0, 0.0],
        debug_name: "not hashed".to_string(),
    };
    session.hash_fields(10, 3, &state).unwrap();

    let bytes = session.take_recorded_bytes();
    Header::read_from(&bytes).unwrap();
    let mut reader = FrameReader::new(bytes[HEADER_LEN..].to_vec());
    let mut frames: Vec<Frame> = Vec::new();
    while let Some(f) = reader.next() {
        frames.push(f.unwrap());
    }

    let field_names: Vec<&str> = frames
        .iter()
        .filter_map(|f| match f {
            Frame::FieldHash { field_name, .. } => Some(field_name.as_str()),
            _ => None,
        })
        .collect();
    assert_eq!(field_names, vec!["position", "velocity"]);

    let position_frame = frames
        .iter()
        .find(|f| matches!(f, Frame::FieldHash { field_name, .. } if field_name == "position"))
        .unwrap();
    let Frame::FieldHash {
        tick,
        entity_id,
        value,
        ..
    } = position_frame
    else {
        unreachable!()
    };
    assert_eq!(*tick, 10);
    assert_eq!(*entity_id, 3);
    let mut expected = Vec::new();
    for x in [1.0f32, 2.0, 3.0] {
        expected.extend_from_slice(&x.to_le_bytes());
    }
    assert_eq!(value, &expected);
}

#[test]
fn hash_fields_records_what_one_hash_field_call_per_field_records() {
    let build = || Session::builder().peer_count(2).local_peer_id(1).record_to("same.foldback").build().unwrap();
    let state = PlayerState {
        position: [4.0, 5.0, 6.0],
        velocity: [1.0, 0.0, -2.0],
        debug_name: "left out".to_string(),
    };
    let mut by_trait = build();
    by_trait.hash_fields(7, 9, &state).unwrap();
    let mut by_calls = build();
    by_calls.hash_field(7, 9, "position", &float_bits(state.position).field_bytes()).unwrap();
    by_calls.hash_field(7, 9, "velocity", &float_bits(state.velocity).field_bytes()).unwrap();
    assert_eq!(by_trait.pending_hash_count(), 0);
    assert_eq!(by_trait.take_recorded_bytes(), by_calls.take_recorded_bytes());
}
