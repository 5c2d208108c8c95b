//! The per-file scan behind `foldback lint`.

use foldback::scan::scan_source;
use std::path::PathBuf;

#[test]
fn finds_tracked_and_untracked_fields_on_a_tagged_struct() {
    let text = r#"
        #[derive(Reflect, FoldbackHash)]
        struct Unit {
            #[foldback(hash)]
            hp: i32,
            #[foldback(reflect)]
            pos: Vec2,
            #[foldback(skip)]
            seed: u64,
            debug_label: String,
        }
    "#;
    let found = scan_source(PathBuf::from("unit.rs"), text).unwrap();
    assert_eq!(found.len(), 1);
    assert_eq!(found[0].name, "Unit");
    assert_eq!(found[0].file, PathBuf::from("unit.rs"));
    assert_eq!(found[0].tracked_fields, vec!["hp", "pos"]);
    assert_eq!(found[0].untracked, vec!["debug_label"]);
}

#[test]
fn finds_tagged_structs_nested_inside_a_mod_block() {
    let text = r#"
        mod outer {
            mod inner {
                #[derive(FoldbackHash)]
                struct Deep { #[foldback(hash)] x: u8 }
            }
        }
        fn f() {
            #[derive(FoldbackHash)]
            struct Local { #[foldback(hash)] y: u8 }
        }
    "#;
    let found = scan_source(PathBuf::from("m.rs"), text).unwrap();
    let names: Vec<&str> = found.iter().map(|t| t.name.as_str()).collect();
    assert_eq!(names, vec!["Deep"]);
}

#[test]
fn ignores_structs_without_the_derive_and_tuple_structs() {
    let text = r#"
        #[derive(Debug)]
        struct Plain { #[foldback(hash)] x: u8 }
        #[derive(FoldbackHash)]
        struct Wrapper(u8);
    "#;
    assert!(scan_source(PathBuf::from("p.rs"), text).unwrap().is_empty());
}

#[test]
fn reports_a_parse_error_instead_of_silently_skipping_the_file() {
    assert!(scan_source(PathBuf::from("bad.rs"), "struct {{{").is_err());
}

#[test]
fn reads_derive_lists_and_markings_from_the_attributes() {
    let text = r#"
        mod declared_elsewhere;
        #[derive(Clone)]
        #[derive(Debug, foldback::FoldbackHash)]
        struct PathDerive { #[foldback(hash)] x: u8 }
        #[derive(Debug)]
        #[derive(FoldbackHash)]
        struct Second {
            #[serde(default)]
            #[foldback(hash)]
            a: u8,
            #[doc = "text"]
            b: u8,
        }
    "#;
    let found = scan_source(PathBuf::from("d.rs"), text).unwrap();
    assert_eq!(found.len(), 1);
    assert_eq!(found[0].name, "Second");
    assert_eq!(found[0].tracked_fields, vec!["a"]);
    assert_eq!(found[0].untracked, vec!["b"]);
}
