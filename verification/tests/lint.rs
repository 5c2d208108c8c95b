use std::path::PathBuf;

use foldback::lint::{derives_foldback_hash, field_marking, tracked_type, FieldMarking};

fn args(xs: &[Option<&str>]) -> Vec<Option<String>> {
    xs.iter().map(|x| x.map(|s| s.to_string())).collect()
}

#[test]
fn markings_follow_the_first_identifier_argument() {
    assert_eq!(field_marking(&args(&[Some("hash")])), FieldMarking::Hashed);
    assert_eq!(field_marking(&args(&[Some("reflect")])), FieldMarking::Hashed);
    assert_eq!(field_marking(&args(&[Some("skip")])), FieldMarking::Skip);
    assert_eq!(field_marking(&args(&[Some("other")])), FieldMarking::Unmarked);
    assert_eq!(field_marking(&args(&[])), FieldMarking::Unmarked);
    assert_eq!(field_marking(&args(&[None, Some("skip"), Some("hash")])), FieldMarking::Skip);
}

#[test]
fn only_structs_deriving_foldback_hash_are_scanned() {
    let d = |xs: &[&str]| xs.iter().map(|s| s.to_string()).collect::<Vec<_>>();
    assert!(derives_foldback_hash(&d(&["Debug", "FoldbackHash"])));
    assert!(!derives_foldback_hash(&d(&["Debug", "Clone"])));
    assert!(!derives_foldback_hash(&d(&[])));
}

#[test]
fn fields_split_into_tracked_and_untracked_in_order() {
    let t = tracked_type(
        "Unit".to_string(),
        PathBuf::from("unit.rs"),
        vec![
            ("pos".to_string(), FieldMarking::Hashed),
            ("label".to_string(), FieldMarking::Unmarked),
            ("cache".to_string(), FieldMarking::Skip),
            ("hp".to_string(), FieldMarking::Hashed),
        ],
    );
    assert_eq!(t.name, "Unit");
    assert_eq!(t.file, PathBuf::from("unit.rs"));
    assert_eq!(t.tracked_fields, vec!["pos".to_string(), "hp".to_string()]);
    assert_eq!(t.untracked, vec!["label".to_string()]);
}
