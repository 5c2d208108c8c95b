//! The decisions behind `foldback lint`: for a struct that derives
//! `FoldbackHash`, which fields are tracked (marked `hash` or `reflect`),
//! which are deliberately skipped, and which are left unmarked. Reading the
//! source files and parsing them happens outside the library; it hands over
//! each struct's derive list and each field's marking arguments.
use vstd::prelude::*;
use std::path::PathBuf;

use crate::schema::str_eq;

verus! {

/// A path to a source file, carried through unchanged.
#[verifier::external_type_specification]
#[verifier::external_body]
pub struct ExPathBuf(PathBuf);

/// How a field of a `FoldbackHash` struct is marked.
#[derive(Debug, Clone, Copy, PartialEq, Eq, Structural)]
pub enum FieldMarking {
    /// Marked `hash` or `reflect`: hashed, one way or the other.
    Hashed,
    /// Marked `skip`: deliberately not hashed.
    Skip,
    /// Not marked: not hashed, and listed so the omission stays visible.
    Unmarked,
}

/// The marking one attribute argument gives.
pub open spec fn marking_of_ident(ident: Seq<char>) -> FieldMarking {
    if ident == seq!['h', 'a', 's', 'h'] || ident == seq!['r', 'e', 'f', 'l', 'e', 'c', 't'] {
        FieldMarking::Hashed
    } else if ident == seq!['s', 'k', 'i', 'p'] {
        FieldMarking::Skip
    } else {
        FieldMarking::Unmarked
    }
}

/// The marking of a field whose `foldback(..)` attributes, in order, have
/// these arguments (`None` for one that is not a single identifier): the
/// first single-identifier argument decides; with none, the field is
/// unmarked.
pub open spec fn marking_of(args: Seq<Option<Seq<char>>>) -> FieldMarking
    decreases args.len(),
{
    if args.len() == 0 {
        FieldMarking::Unmarked
    } else {
        match args[0] {
            Some(ident) => marking_of_ident(ident),
            None => marking_of(args.drop_first()),
        }
    }
}

/// The characters of an optional string.
pub open spec fn opt_text(a: Option<String>) -> Option<Seq<char>> {
    match a {
        Some(s) => Some(s@),
        None => None,
    }
}

/// The marking of a field, from the arguments of its `foldback(..)`
/// attributes in order.
pub fn field_marking(args: &[Option<String>]) -> (m: FieldMarking)
    ensures
        m == marking_of(args@.map_values(|a: Option<String>| opt_text(a))),
{
    let ghost view = args@.map_values(|a: Option<String>| opt_text(a));
    proof {
        reveal_strlit("hash");
        reveal_strlit("reflect");
        reveal_strlit("skip");
    }
    let mut i: usize = 0;
    assert(view.skip(0) =~= view);
    while i < args.len()
        invariant
            i <= args@.len(),
            view == args@.map_values(|a: Option<String>| opt_text(a)),
            marking_of(view) == marking_of(view.skip(i as int)),
            "hash"@ == seq!['h', 'a', 's', 'h'],
            "reflect"@ == seq!['r', 'e', 'f', 'l', 'e', 'c', 't'],
            "skip"@ == seq!['s', 'k', 'i', 'p'],
        decreases args@.len() - i,
    {
        assert(view.skip(i as int)[0] == view[i as int]);
        match &args[i] {
            Some(ident) => {
                let id = ident.as_str();
                if str_eq(id, "hash") || str_eq(id, "reflect") {
                    return FieldMarking::Hashed;
                } else if str_eq(id, "skip") {
                    return FieldMarking::Skip;
                } else {
                    return FieldMarking::Unmarked;
                }
            },
            None => {
                assert(view.skip(i as int).drop_first() =~= view.skip(i + 1));
            },
        }
        i = i + 1;
    }
    assert(view.skip(i as int) =~= Seq::<Option<Seq<char>>>::empty());
    FieldMarking::Unmarked
}

/// Whether a derive list names `FoldbackHash`.
pub fn derives_foldback_hash(derived: &[String]) -> (b: bool)
    ensures
        b == exists|i: int|
            0 <= i < derived@.len() && #[trigger] derived@[i]@ == "FoldbackHash"@,
{
    let mut i: usize = 0;
    while i < derived.len()
        invariant
            i <= derived@.len(),
            forall|k: int| 0 <= k < i ==> #[trigger] derived@[k]@ != "FoldbackHash"@,
        decreases derived@.len() - i,
    {
        if str_eq(derived[i].as_str(), "FoldbackHash") {
            return true;
        }
        i = i + 1;
    }
    false
}

/// One `FoldbackHash` struct found by the scan.
#[derive(Debug)]
pub struct TrackedType {
    pub name: String,
    pub file: PathBuf,
    /// Fields marked `hash` or `reflect`, in declaration order.
    pub tracked_fields: Vec<String>,
    /// Fields without a marking, in declaration order.
    pub untracked: Vec<String>,
}

/// The names of the fields with marking `m`, in order.
pub open spec fn fields_marked(fields: Seq<(Seq<char>, FieldMarking)>, m: FieldMarking) -> Seq<
    Seq<char>,
>
    decreases fields.len(),
{
    if fields.len() == 0 {
        seq![]
    } else {
        let prev = fields_marked(fields.drop_last(), m);
        if fields.last().1 == m {
            prev.push(fields.last().0)
        } else {
            prev
        }
    }
}

/// Sorts a struct's fields, in declaration order, into tracked and
/// unmarked; skipped fields appear in neither list.
pub fn tracked_type(name: String, file: PathBuf, fields: Vec<(String, FieldMarking)>) -> (t:
    TrackedType)
    ensures
        t.name == name,
        t.file == file,
        t.tracked_fields@.map_values(|s: String| s@) == fields_marked(
            fields@.map_values(|f: (String, FieldMarking)| (f.0@, f.1)),
            FieldMarking::Hashed,
        ),
        t.untracked@.map_values(|s: String| s@) == fields_marked(
            fields@.map_values(|f: (String, FieldMarking)| (f.0@, f.1)),
            FieldMarking::Unmarked,
        ),
{
    let ghost fv = fields@.map_values(|f: (String, FieldMarking)| (f.0@, f.1));
    let mut tracked_fields: Vec<String> = Vec::new();
    let mut untracked: Vec<String> = Vec::new();
    let mut i: usize = 0;
    while i < fields.len()
        invariant
            i <= fields@.len(),
            fv == fields@.map_values(|f: (String, FieldMarking)| (f.0@, f.1)),
            tracked_fields@.map_values(|s: String| s@) == fields_marked(
                fv.take(i as int),
                FieldMarking::Hashed,
            ),
            untracked@.map_values(|s: String| s@) == fields_marked(
                fv.take(i as int),
                FieldMarking::Unmarked,
            ),
        decreases fields@.len() - i,
    {
        proof {
            assert(fv.take(i + 1).drop_last() =~= fv.take(i as int));
            assert(fv.take(i + 1).last() == fv[i as int]);
        }
        let field_name = fields[i].0.clone();
        let ghost t0 = tracked_fields@;
        let ghost u0 = untracked@;
        match fields[i].1 {
            FieldMarking::Hashed => {
                tracked_fields.push(field_name);
                assert(tracked_fields@.map_values(|s: String| s@) =~= t0.map_values(|s: String| s@).push(
                    fv[i as int].0,
                ));
            },
            FieldMarking::Skip => {},
            FieldMarking::Unmarked => {
                untracked.push(field_name);
                assert(untracked@.map_values(|s: String| s@) =~= u0.map_values(|s: String| s@).push(
                    fv[i as int].0,
                ));
            },
        }
        i = i + 1;
    }
    assert(fv.take(fields@.len() as int) =~= fv);
    TrackedType { name, file, tracked_fields, untracked }
}

} // verus!
