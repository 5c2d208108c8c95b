use foldback::preview::{join_path, ReflectionPreview};

#[test]
fn new_carries_the_hash_reflected_output_through_unchanged() {
    let fields = vec![("a".to_string(), 1u64), ("b".to_string(), 2u64)];
    let preview = ReflectionPreview::new(3, 9, fields.clone());
    assert_eq!(preview.entity_id, 3);
    assert_eq!(preview.tick, 9);
    assert_eq!(preview.fields, fields);
}

#[test]
fn join_path_dots_nested_names_and_keeps_root_names_bare() {
    assert_eq!(join_path("", "unit"), "unit");
    assert_eq!(join_path("unit", "pos"), "unit.pos");
    assert_eq!(join_path("unit.pos", "x"), "unit.pos.x");
}
