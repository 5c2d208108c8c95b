//! What `#[derive(FoldbackHash)]` decides for a struct's fields.

use foldback::derive_plan::{foldback_marking, plan_foldback_hash, DeriveError, DeriveShape, MarkingKind};
use foldback::lint::{field_marking, FieldMarking};
use foldback::scan::{SourceAttr, SourcePath};

fn ident(s: &str) -> Option<String> {
    Some(s.to_string())
}

fn path(words: &[&str]) -> SourcePath {
    SourcePath { leading_colon: false, segments: words.iter().map(|w| (w.to_string(), false)).collect() }
}

/// An attribute `#[name(arg)]`, or `#[name(..)]` with an argument that is
/// not a single identifier when `arg` is `None`.
fn attr(name: &str, arg: Option<String>) -> SourceAttr {
    SourceAttr {
        path: path(&[name]),
        path_list_arg: arg.as_ref().map(|a| vec![path(&[a.as_str()])]),
        ident_arg: arg,
    }
}

/// A field with one `foldback(..)` attribute per marking, in order.
fn field(name: &str, markings: Vec<Option<String>>) -> (String, Vec<SourceAttr>) {
    (name.to_string(), markings.into_iter().map(|m| attr("foldback", m)).collect())
}

#[test]
fn markings_sort_fields_into_the_three_lists() {
    let shape = DeriveShape::NamedStruct(vec![
        field("pos", vec![ident("reflect")]),
        field("hp", vec![ident("hash")]),
        field("seed", vec![ident("skip")]),
        field("tags", vec![ident("reflect")]),
        field("debug_label", vec![]),
        field("ammo", vec![ident("hash")]),
    ]);
    let plan = plan_foldback_hash(&shape).unwrap();
    assert_eq!(plan.hashed, vec!["hp", "ammo"]);
    assert_eq!(plan.tracked_fields, vec!["pos", "hp", "tags", "ammo"]);
    assert_eq!(plan.untracked_fields, vec!["debug_label"]);
}

#[test]
fn the_first_foldback_attribute_decides() {
    assert!(matches!(foldback_marking(&[ident("skip"), ident("hash")]), Ok(MarkingKind::Skip)));
    assert!(matches!(foldback_marking(&[]), Ok(MarkingKind::Unmarked)));
}

#[test]
fn unknown_marking_is_refused_and_named() {
    let shape = DeriveShape::NamedStruct(vec![
        field("hp", vec![ident("hash")]),
        field("pos", vec![ident("hashed")]),
        field("vel", vec![None]),
    ]);
    match plan_foldback_hash(&shape) {
        Err(DeriveError::UnknownMarking { marking, field, attr }) => {
            assert_eq!(marking, "hashed");
            assert_eq!((field, attr), (1, 0));
        }
        other => panic!("unexpected {other:?}"),
    }
}

#[test]
fn malformed_marking_is_refused() {
    let shape = DeriveShape::NamedStruct(vec![field("vel", vec![None, ident("hash")])]);
    assert!(matches!(plan_foldback_hash(&shape), Err(DeriveError::MalformedMarking { field: 0, attr: 0 })));
}

#[test]
fn refusal_points_at_the_first_foldback_attribute() {
    let mut attrs = vec![attr("serde", ident("default")), attr("doc", None)];
    attrs.push(attr("foldback", ident("hashd")));
    attrs.push(attr("foldback", ident("hash")));
    let shape = DeriveShape::NamedStruct(vec![field("hp", vec![ident("hash")]), ("vel".to_string(), attrs)]);
    match plan_foldback_hash(&shape) {
        Err(DeriveError::UnknownMarking { marking, field, attr }) => {
            assert_eq!(marking, "hashd");
            assert_eq!((field, attr), (1, 2));
        }
        other => panic!("unexpected {other:?}"),
    }
}

#[test]
fn attributes_other_than_foldback_are_not_markings() {
    let odd_path = SourceAttr { path: path(&["foldback", "hash"]), ident_arg: None, path_list_arg: None };
    let shape = DeriveShape::NamedStruct(vec![
        ("hp".to_string(), vec![attr("serde", ident("skip")), attr("foldback", ident("hash"))]),
        ("seed".to_string(), vec![odd_path, attr("derive", ident("skip"))]),
    ]);
    let plan = plan_foldback_hash(&shape).unwrap();
    assert_eq!(plan.hashed, vec!["hp"]);
    assert_eq!(plan.tracked_fields, vec!["hp"]);
    assert_eq!(plan.untracked_fields, vec!["seed"]);
}

#[test]
fn player_state_plan_tracks_position_and_velocity_only() {
    let shape = DeriveShape::NamedStruct(vec![
        field("position", vec![ident("hash")]),
        field("velocity", vec![ident("hash")]),
        field("debug_name", vec![]),
    ]);
    let plan = plan_foldback_hash(&shape).unwrap();
    assert_eq!(plan.hashed, vec!["position", "velocity"]);
    assert_eq!(plan.tracked_fields, vec!["position", "velocity"]);
    assert_eq!(plan.untracked_fields, vec!["debug_name"]);
}

#[test]
fn only_structs_with_named_fields_are_accepted() {
    assert!(matches!(plan_foldback_hash(&DeriveShape::NotAStruct), Err(DeriveError::NotAStruct)));
    assert!(matches!(plan_foldback_hash(&DeriveShape::UnnamedStruct), Err(DeriveError::UnnamedFields)));
    let empty = plan_foldback_hash(&DeriveShape::NamedStruct(vec![])).unwrap();
    assert!(empty.hashed.is_empty() && empty.tracked_fields.is_empty() && empty.untracked_fields.is_empty());
}

#[test]
fn lint_reads_accepted_markings_as_the_derive_does() {
    let cases: Vec<(Vec<Option<String>>, MarkingKind, FieldMarking)> = vec![
        (vec![ident("hash")], MarkingKind::Hash, FieldMarking::Hashed),
        (vec![ident("reflect")], MarkingKind::Reflect, FieldMarking::Hashed),
        (vec![ident("skip"), ident("hash")], MarkingKind::Skip, FieldMarking::Skip),
        (vec![], MarkingKind::Unmarked, FieldMarking::Unmarked),
    ];
    for (args, kind, marking) in cases {
        assert_eq!(foldback_marking(&args).unwrap(), kind);
        assert_eq!(field_marking(&args), marking);
    }
}
