//! The decisions behind `#[derive(FoldbackHash)]`: from a struct's fields
//! and their `#[foldback(..)]` markings, which fields the generated
//! `write_hashed_fields` hashes, which go into `TRACKED_FIELDS` and which
//! into `UNTRACKED_FIELDS`, or why the derive refuses the input.
//!
//! Opt-in per field: `hash` is hashed by the generated code and named in
//! `TRACKED_FIELDS`; `reflect` is named there for a reflective walker only;
//! `skip` is neither; an unmarked field is named in `UNTRACKED_FIELDS`, so
//! its omission stays visible.
//! Parsing the Rust input and emitting the impl happen outside the library;
//! it hands over each field's name and attributes as the parser gives them.
use vstd::prelude::*;

use crate::lint::{FieldMarking, marking_of, opt_text};
use crate::scan::{SourceAttr, AttrModel, attrs_model, foldback_args, foldback_args_of, path_ident};
use crate::schema::str_eq;

verus! {

/// How the derive treats one field.
#[derive(Debug, Clone, Copy, PartialEq, Eq, Structural)]
pub enum MarkingKind {
    /// `#[foldback(hash)]`: hashed by the generated code, and opted in.
    Hash,
    /// `#[foldback(reflect)]`: opted in, for a reflective walker to hash.
    Reflect,
    /// `#[foldback(skip)]`: neither hashed nor named anywhere.
    Skip,
    /// No `foldback` attribute: not hashed, named among the fields left out.
    Unmarked,
}

/// The shape of the item the derive is applied to.
pub enum DeriveShape {
    /// A struct with named fields: each field's name and its attributes,
    /// in declaration order.
    NamedStruct(Vec<(String, Vec<SourceAttr>)>),
    /// A tuple or unit struct.
    UnnamedStruct,
    /// An enum or a union.
    NotAStruct,
}

/// Why the derive refuses its input.
#[derive(Debug)]
pub enum DeriveError {
    /// The derive was applied to an enum or a union.
    NotAStruct,
    /// The derive was applied to a tuple or unit struct.
    UnnamedFields,
    /// A `foldback(..)` attribute names a marking other than `hash`,
    /// `reflect` or `skip`: the marking named, the field's index and the
    /// attribute's index among the field's attributes.
    UnknownMarking { marking: String, field: usize, attr: usize },
    /// A `foldback(..)` attribute whose argument is not a single
    /// identifier: the field's index and the attribute's index among the
    /// field's attributes.
    MalformedMarking { field: usize, attr: usize },
}

/// Why a field's first `foldback(..)` attribute is refused.
#[derive(Debug)]
pub enum MarkingError {
    /// It names a marking other than `hash`, `reflect` or `skip`.
    Unknown(String),
    /// Its argument is not a single identifier.
    Malformed,
}

/// What the derive generates for a struct: the names, in declaration
/// order, of the fields hashed by `write_hashed_fields`, of those listed in
/// `TRACKED_FIELDS` and of those listed in `UNTRACKED_FIELDS`.
#[derive(Debug)]
pub struct DerivePlan {
    pub hashed: Vec<String>,
    pub tracked_fields: Vec<String>,
    pub untracked_fields: Vec<String>,
}

/// What one field's `foldback(..)` arguments amount to.
pub enum MarkingOutcome {
    Marked(MarkingKind),
    Unknown(Seq<char>),
    Malformed,
}

/// The first `foldback(..)` attribute of a field decides: its argument must
/// be one of `hash`, `reflect`, `skip`; with no such attribute, the field is
/// unmarked.
pub open spec fn marking_outcome(args: Seq<Option<Seq<char>>>) -> MarkingOutcome {
    if args.len() == 0 {
        MarkingOutcome::Marked(MarkingKind::Unmarked)
    } else {
        match args[0] {
            None => MarkingOutcome::Malformed,
            Some(id) => if id == seq!['h', 'a', 's', 'h'] {
                MarkingOutcome::Marked(MarkingKind::Hash)
            } else if id == seq!['r', 'e', 'f', 'l', 'e', 'c', 't'] {
                MarkingOutcome::Marked(MarkingKind::Reflect)
            } else if id == seq!['s', 'k', 'i', 'p'] {
                MarkingOutcome::Marked(MarkingKind::Skip)
            } else {
                MarkingOutcome::Unknown(id)
            },
        }
    }
}

/// A field as plain values: its name and its `foldback(..)` arguments.
pub open spec fn field_view(f: (String, Vec<SourceAttr>)) -> (Seq<char>, Seq<Option<Seq<char>>>) {
    (f.0@, foldback_args_of(attrs_model(f.1@)))
}

/// Fields as plain values.
pub open spec fn fields_view(fs: Seq<(String, Vec<SourceAttr>)>) -> Seq<
    (Seq<char>, Seq<Option<Seq<char>>>),
> {
    fs.map_values(|f: (String, Vec<SourceAttr>)| field_view(f))
}

/// Whether an attribute is a `foldback(..)` attribute.
pub open spec fn is_foldback_attr(a: AttrModel) -> bool {
    path_ident(a.path) == Some(seq!['f', 'o', 'l', 'd', 'b', 'a', 'c', 'k'])
}

/// `k` is the index of the first `foldback(..)` attribute of `am`.
pub open spec fn first_foldback_at(am: Seq<AttrModel>, k: int) -> bool {
    &&& 0 <= k < am.len()
    &&& is_foldback_attr(am[k])
    &&& forall|j: int| 0 <= j < k ==> !is_foldback_attr(#[trigger] am[j])
}

/// The refusal is placed at field `field`, attribute `attr`: every earlier
/// field is accepted, this one is not, and `attr` is its first
/// `foldback(..)` attribute, the one that decides.
pub open spec fn refused_at(fs: Seq<(String, Vec<SourceAttr>)>, field: int, attr: int) -> bool {
    &&& 0 <= field < fs.len()
    &&& forall|j: int| 0 <= j < field ==> #[trigger] marking_outcome(fields_view(fs)[j].1) is Marked
    &&& !(marking_outcome(fields_view(fs)[field].1) is Marked)
    &&& first_foldback_at(attrs_model(fs[field].1@), attr)
}

/// The outcome of the first field whose marking is refused, if any.
pub open spec fn first_refusal(fs: Seq<(Seq<char>, Seq<Option<Seq<char>>>)>) -> Option<
    MarkingOutcome,
>
    decreases fs.len(),
{
    if fs.len() == 0 {
        None
    } else {
        let prev = first_refusal(fs.drop_last());
        if prev is Some {
            prev
        } else if marking_outcome(fs.last().1) is Marked {
            None
        } else {
            Some(marking_outcome(fs.last().1))
        }
    }
}

/// The lists the derive fills.
pub enum PlanList {
    Hashed,
    OptedIn,
    LeftOut,
}

/// Whether a field marked `k` goes into the list `l`.
pub open spec fn in_list(k: MarkingKind, l: PlanList) -> bool {
    match l {
        PlanList::Hashed => k == MarkingKind::Hash,
        PlanList::OptedIn => k == MarkingKind::Hash || k == MarkingKind::Reflect,
        PlanList::LeftOut => k == MarkingKind::Unmarked,
    }
}

/// The names, in order, of the fields that go into the list `l`.
pub open spec fn names_in(fs: Seq<(Seq<char>, Seq<Option<Seq<char>>>)>, l: PlanList) -> Seq<Seq<char>>
    decreases fs.len(),
{
    if fs.len() == 0 {
        seq![]
    } else {
        let prev = names_in(fs.drop_last(), l);
        match marking_outcome(fs.last().1) {
            MarkingOutcome::Marked(k) => if in_list(k, l) {
                prev.push(fs.last().0)
            } else {
                prev
            },
            _ => prev,
        }
    }
}

/// The marking given by a field's `foldback(..)` arguments, in order.
pub fn foldback_marking(args: &[Option<String>]) -> (r: Result<MarkingKind, MarkingError>)
    ensures
        match marking_outcome(args@.map_values(|a: Option<String>| opt_text(a))) {
            MarkingOutcome::Marked(k) => r matches Ok(k2) && k2 == k,
            MarkingOutcome::Unknown(id) => r matches Err(MarkingError::Unknown(s)) && s@ == id,
            MarkingOutcome::Malformed => r matches Err(MarkingError::Malformed),
        },
{
    proof {
        reveal_strlit("hash");
        reveal_strlit("reflect");
        reveal_strlit("skip");
    }
    let ghost v = args@.map_values(|a: Option<String>| opt_text(a));
    assert("hash"@ == seq!['h', 'a', 's', 'h']);
    assert("reflect"@ == seq!['r', 'e', 'f', 'l', 'e', 'c', 't']);
    assert("skip"@ == seq!['s', 'k', 'i', 'p']);
    if args.len() == 0 {
        return Ok(MarkingKind::Unmarked);
    }
    assert(v[0] == opt_text(args@[0]));
    match &args[0] {
        None => Err(MarkingError::Malformed),
        Some(ident) => {
            let id = ident.as_str();
            if str_eq(id, "hash") {
                Ok(MarkingKind::Hash)
            } else if str_eq(id, "reflect") {
                Ok(MarkingKind::Reflect)
            } else if str_eq(id, "skip") {
                Ok(MarkingKind::Skip)
            } else {
                Err(MarkingError::Unknown(ident.clone()))
            }
        },
    }
}

/// Names as plain values.
pub open spec fn names_view(v: Seq<String>) -> Seq<Seq<char>> {
    v.map_values(|s: String| s@)
}

/// What `#[derive(FoldbackHash)]` generates for `shape`, or why it refuses
/// it: only structs with named fields are accepted, and the first field
/// with a refused marking decides the error.
pub fn plan_foldback_hash(shape: &DeriveShape) -> (r: Result<DerivePlan, DeriveError>)
    ensures
        match *shape {
            DeriveShape::NotAStruct => r matches Err(DeriveError::NotAStruct),
            DeriveShape::UnnamedStruct => r matches Err(DeriveError::UnnamedFields),
            DeriveShape::NamedStruct(fs) => match first_refusal(fields_view(fs@)) {
                Some(MarkingOutcome::Unknown(id)) => r matches Err(
                    DeriveError::UnknownMarking { marking, field, attr },
                ) && marking@ == id && refused_at(fs@, field as int, attr as int),
                Some(MarkingOutcome::Malformed) => r matches Err(
                    DeriveError::MalformedMarking { field, attr },
                ) && refused_at(fs@, field as int, attr as int),
                Some(MarkingOutcome::Marked(_)) => false,
                None => r matches Ok(p) && names_view(p.hashed@) == names_in(
                    fields_view(fs@),
                    PlanList::Hashed,
                ) && names_view(p.tracked_fields@) == names_in(fields_view(fs@), PlanList::OptedIn)
                    && names_view(p.untracked_fields@) == names_in(
                    fields_view(fs@),
                    PlanList::LeftOut,
                ),
            },
        },
{
    let fields = match shape {
        DeriveShape::NamedStruct(fs) => fs,
        DeriveShape::UnnamedStruct => {
            return Err(DeriveError::UnnamedFields);
        },
        DeriveShape::NotAStruct => {
            return Err(DeriveError::NotAStruct);
        },
    };
    let ghost fv = fields_view(fields@);
    let mut hashed: Vec<String> = Vec::new();
    let mut listed: Vec<String> = Vec::new();
    let mut untracked: Vec<String> = Vec::new();
    let mut i: usize = 0;
    while i < fields.len()
        invariant
            i <= fields@.len(),
            fv == fields_view(fields@),
            *shape == DeriveShape::NamedStruct(*fields),
            first_refusal(fv.take(i as int)) is None,
            forall|j: int| 0 <= j < i ==> #[trigger] marking_outcome(fv[j].1) is Marked,
            names_view(hashed@) == names_in(fv.take(i as int), PlanList::Hashed),
            names_view(listed@) == names_in(fv.take(i as int), PlanList::OptedIn),
            names_view(untracked@) == names_in(fv.take(i as int), PlanList::LeftOut),
        decreases fields@.len() - i,
    {
        let ghost before = fv.take(i as int);
        let ghost upto = fv.take(i + 1);
        proof {
            assert(upto.drop_last() =~= before);
            assert(upto.last() == fv[i as int]);
            assert(fv[i as int] == field_view(fields@[i as int]));
        }
        let args = foldback_args(&fields[i].1);
        let marking = foldback_marking(args.as_slice());
        let kind = match marking {
            Ok(k) => k,
            Err(e) => {
                proof {
                    lemma_first_refusal_prefix(fv, (i + 1) as nat);
                    lemma_foldback_attr_exists(attrs_model(fields@[i as int].1@));
                }
                let attr = first_foldback_attr(&fields[i].1);
                return match e {
                    MarkingError::Unknown(marking) => Err(
                        DeriveError::UnknownMarking { marking, field: i, attr },
                    ),
                    MarkingError::Malformed => Err(DeriveError::MalformedMarking { field: i, attr }),
                };
            },
        };
        let name = &fields[i].0;
        let ghost h0 = hashed@;
        let ghost t0 = listed@;
        let ghost u0 = untracked@;
        if kind == MarkingKind::Hash {
            hashed.push(name.clone());
            assert(names_view(hashed@) =~= names_view(h0).push(name@));
        }
        if kind == MarkingKind::Hash || kind == MarkingKind::Reflect {
            listed.push(name.clone());
            assert(names_view(listed@) =~= names_view(t0).push(name@));
        }
        if kind == MarkingKind::Unmarked {
            untracked.push(name.clone());
            assert(names_view(untracked@) =~= names_view(u0).push(name@));
        }
        i = i + 1;
    }
    assert(fv.take(fields@.len() as int) =~= fv);
    Ok(DerivePlan { hashed, tracked_fields: listed, untracked_fields: untracked })
}

/// The index of the first `foldback(..)` attribute among `attrs`, which
/// holds one.
fn first_foldback_attr(attrs: &Vec<SourceAttr>) -> (k: usize)
    requires
        exists|j: int| 0 <= j < attrs@.len() && is_foldback_attr(#[trigger] attrs_model(attrs@)[j]),
    ensures
        first_foldback_at(attrs_model(attrs@), k as int),
{
    proof {
        reveal_strlit("foldback");
    }
    let ghost am = attrs_model(attrs@);
    let mut k: usize = 0;
    while k < attrs.len()
        invariant
            k <= attrs@.len(),
            am == attrs_model(attrs@),
            "foldback"@ == seq!['f', 'o', 'l', 'd', 'b', 'a', 'c', 'k'],
            forall|j: int| 0 <= j < k ==> !is_foldback_attr(#[trigger] am[j]),
        decreases attrs@.len() - k,
    {
        assert(am[k as int] == crate::scan::attr_model(attrs@[k as int]));
        if crate::scan::is_path(&attrs[k].path, "foldback") {
            return k;
        }
        k = k + 1;
    }
    k
}

/// A field with a `foldback(..)` argument has a `foldback(..)` attribute.
proof fn lemma_foldback_attr_exists(am: Seq<AttrModel>)
    requires
        foldback_args_of(am).len() > 0,
    ensures
        exists|j: int| 0 <= j < am.len() && is_foldback_attr(#[trigger] am[j]),
    decreases am.len(),
{
    if am.len() > 0 && !is_foldback_attr(am.last()) {
        lemma_foldback_attr_exists(am.drop_last());
        let j = choose|j: int| 0 <= j < am.drop_last().len() && is_foldback_attr(
            #[trigger] am.drop_last()[j],
        );
        assert(am[j] == am.drop_last()[j]);
    } else if am.len() > 0 {
        assert(is_foldback_attr(am[am.len() - 1]));
    }
}

/// Once a prefix of the fields has a refusal, every longer prefix has the
/// same one.
proof fn lemma_first_refusal_prefix(fs: Seq<(Seq<char>, Seq<Option<Seq<char>>>)>, n: nat)
    requires
        n <= fs.len(),
    ensures
        first_refusal(fs.take(n as int)) is Some ==> first_refusal(fs) == first_refusal(
            fs.take(n as int),
        ),
    decreases fs.len() - n,
{
    if n < fs.len() {
        lemma_first_refusal_prefix(fs, n + 1);
        assert(fs.take((n + 1) as int).drop_last() =~= fs.take(n as int));
    } else {
        assert(fs.take(n as int) =~= fs);
    }
}

/// The lint's static reading of a field's markings agrees with the
/// derive's on every field the derive accepts: `hash` and `reflect` are
/// listed, `skip` is skipped and no marking is unmarked.
pub proof fn lemma_lint_reads_markings_as_the_derive_does(args: Seq<Option<Seq<char>>>)
    requires
        marking_outcome(args) is Marked,
    ensures
        match marking_outcome(args) {
            MarkingOutcome::Marked(MarkingKind::Hash) => marking_of(args) == FieldMarking::Hashed,
            MarkingOutcome::Marked(MarkingKind::Reflect) => marking_of(args) == FieldMarking::Hashed,
            MarkingOutcome::Marked(MarkingKind::Skip) => marking_of(args) == FieldMarking::Skip,
            MarkingOutcome::Marked(MarkingKind::Unmarked) => marking_of(args) == FieldMarking::Unmarked,
            _ => false,
        },
{
}

} // verus!
