//! The scan behind `foldback lint` for one source file: parse it, walk its
//! items (descending into inline modules, not into function bodies) and
//! report every struct that derives `FoldbackHash`, with its tracked and
//! unmarked fields in declaration order. The Rust parser is `syn`; what
//! the library keeps of its syntax tree is [`SourceItem`].
use vstd::prelude::*;
use std::path::PathBuf;

use crate::schema::str_eq;
use crate::lint::{
    FieldMarking,
    TrackedType,
    derives_foldback_hash,
    field_marking,
    fields_marked,
    marking_of,
    opt_text,
    tracked_type,
};

verus! {

/// A parsed item of a source file, carried into the conversion only.
#[verifier::external_type_specification]
#[verifier::external_body]
pub struct ExSynItem(syn::Item);

/// A parsed struct field, carried into the conversion only.
#[verifier::external_type_specification]
#[verifier::external_body]
pub struct ExSynField(syn::Field);

/// A parsed attribute, carried into the conversion only.
#[verifier::external_type_specification]
#[verifier::external_body]
pub struct ExSynAttribute(syn::Attribute);

/// A parsed path, carried into the conversion only.
#[verifier::external_type_specification]
#[verifier::external_body]
pub struct ExSynPath(syn::Path);

/// A path as the parser gives it: whether it starts with `::`, and each
/// segment's identifier with whether the segment carries generic
/// arguments.
pub struct SourcePath {
    pub leading_colon: bool,
    pub segments: Vec<(String, bool)>,
}

/// An attribute as the parser gives it: its path, its argument read as a
/// single identifier (`None` when it is not one), and its argument read as
/// a comma-separated list of paths (`None` when it is not one).
pub struct SourceAttr {
    pub path: SourcePath,
    pub ident_arg: Option<String>,
    pub path_list_arg: Option<Vec<SourcePath>>,
}

/// What the scan keeps of one item of a source file.
pub enum SourceItem {
    /// A struct: its name, its attributes, and, for a struct with named
    /// fields, each field's identifier and attributes.
    Struct {
        name: String,
        attrs: Vec<SourceAttr>,
        named_fields: Option<Vec<(Option<String>, Vec<SourceAttr>)>>,
    },
    /// A module: its items when it is written inline (`mod m { .. }`),
    /// `None` when it is declared only (`mod m;`).
    Module(Option<Vec<SourceItem>>),
    /// Any other item.
    Other,
}

/// A [`SourcePath`] as plain values.
pub struct PathModel {
    pub leading_colon: bool,
    pub segments: Seq<(Seq<char>, bool)>,
}

/// A [`SourceAttr`] as plain values.
pub struct AttrModel {
    pub path: PathModel,
    pub ident_arg: Option<Seq<char>>,
    pub path_list_arg: Option<Seq<PathModel>>,
}

/// A [`SourceItem`] as plain values.
pub enum SourceItemModel {
    Struct {
        name: Seq<char>,
        attrs: Seq<AttrModel>,
        named_fields: Option<Seq<(Option<Seq<char>>, Seq<AttrModel>)>>,
    },
    Module(Option<Seq<SourceItemModel>>),
    Other,
}

pub open spec fn path_model(p: SourcePath) -> PathModel {
    PathModel {
        leading_colon: p.leading_colon,
        segments: p.segments@.map_values(|g: (String, bool)| (g.0@, g.1)),
    }
}

pub open spec fn paths_model(ps: Seq<SourcePath>) -> Seq<PathModel> {
    ps.map_values(|p: SourcePath| path_model(p))
}

pub open spec fn attr_model(a: SourceAttr) -> AttrModel {
    AttrModel {
        path: path_model(a.path),
        ident_arg: opt_text(a.ident_arg),
        path_list_arg: match a.path_list_arg {
            Some(ps) => Some(paths_model(ps@)),
            None => None,
        },
    }
}

pub open spec fn attrs_model(v: Seq<SourceAttr>) -> Seq<AttrModel> {
    v.map_values(|a: SourceAttr| attr_model(a))
}

pub open spec fn source_field_model(f: (Option<String>, Vec<SourceAttr>)) -> (
    Option<Seq<char>>,
    Seq<AttrModel>,
) {
    (opt_text(f.0), attrs_model(f.1@))
}

/// An item as plain values.
pub open spec fn item_model(item: SourceItem) -> SourceItemModel
    decreases item,
{
    match item {
        SourceItem::Struct { name, attrs, named_fields } => SourceItemModel::Struct {
            name: name@,
            attrs: attrs_model(attrs@),
            named_fields: match named_fields {
                Some(fs) => Some(
                    fs@.map_values(|f: (Option<String>, Vec<SourceAttr>)| source_field_model(f)),
                ),
                None => None,
            },
        },
        SourceItem::Module(content) => SourceItemModel::Module(
            match content {
                Some(inner) => Some(items_model(inner@)),
                None => None,
            },
        ),
        SourceItem::Other => SourceItemModel::Other,
    }
}

/// Items as plain values, in order.
pub open spec fn items_model(items: Seq<SourceItem>) -> Seq<SourceItemModel>
    decreases items,
{
    if items.len() == 0 {
        seq![]
    } else {
        items_model(items.drop_last()).push(item_model(items.last()))
    }
}

/// The items that `syn::parse_file` finds in a source text, as plain
/// values; `None` when it rejects the text.
pub uninterp spec fn source_items_of(text: Seq<char>) -> Option<Seq<SourceItemModel>>;

/// Parses a source file with `syn::parse_file` and converts its items.
///
/// Trusted: the outcome is the one named by `source_items_of`, which
/// depends on the text alone. The text of a parse error is not stated.
#[verifier::external_body]
fn parse_source_items(text: &str) -> (r: Result<Vec<SourceItem>, String>)
    ensures
        (r is Ok) == (source_items_of(text@) is Some),
        r matches Ok(v) ==> source_items_of(text@) == Some(items_model(v@)),
{
    match syn::parse_file(text) {
        Ok(file) => Ok(syn_items(&file.items)),
        Err(e) => Err(e.to_string()),
    }
}

/// Converts parsed items into [`SourceItem`]s, one for one.
#[verifier::external_body]
fn syn_items(items: &[syn::Item]) -> Vec<SourceItem> {
    items.iter().map(syn_item).collect()
}

/// Converts one parsed item into a [`SourceItem`].
#[verifier::external_body]
fn syn_item(item: &syn::Item) -> SourceItem {
    match item {
        syn::Item::Struct(s) => SourceItem::Struct {
            name: s.ident.to_string(),
            attrs: s.attrs.iter().map(syn_attr).collect(),
            named_fields: match &s.fields {
                syn::Fields::Named(f) => Some(f.named.iter().map(syn_field).collect()),
                syn::Fields::Unnamed(_) => None,
                syn::Fields::Unit => None,
            },
        },
        syn::Item::Mod(m) => SourceItem::Module(m.content.as_ref().map(|(_, inner)| syn_items(inner))),
        _ => SourceItem::Other,
    }
}

/// Converts one named field: its identifier and its attributes.
#[verifier::external_body]
fn syn_field(f: &syn::Field) -> (Option<String>, Vec<SourceAttr>) {
    (f.ident.as_ref().map(|i| i.to_string()), f.attrs.iter().map(syn_attr).collect())
}

/// Converts one attribute: its path, and its argument as the parser reads
/// it as an identifier and as a list of paths.
#[verifier::external_body]
fn syn_attr(a: &syn::Attribute) -> SourceAttr {
    SourceAttr {
        path: syn_path(a.path()),
        ident_arg: a.parse_args::<syn::Ident>().ok().map(|i| i.to_string()),
        path_list_arg: a
            .parse_args_with(
                syn::punctuated::Punctuated::<syn::Path, syn::token::Comma>::parse_terminated,
            )
            .ok()
            .map(|ps| ps.iter().map(syn_path).collect()),
    }
}

/// Converts one path.
#[verifier::external_body]
fn syn_path(p: &syn::Path) -> SourcePath {
    SourcePath {
        leading_colon: p.leading_colon.is_some(),
        segments: p.segments.iter().map(|g| (g.ident.to_string(), !g.arguments.is_none())).collect(),
    }
}

/// The identifier a path is, when it is a single plain identifier: no
/// leading `::`, one segment, no generic arguments.
pub open spec fn path_ident(p: PathModel) -> Option<Seq<char>> {
    if !p.leading_colon && p.segments.len() == 1 && !p.segments[0].1 {
        Some(p.segments[0].0)
    } else {
        None
    }
}

/// The paths of `ps` that are single identifiers, as those identifiers.
pub open spec fn single_idents(ps: Seq<PathModel>) -> Seq<Seq<char>>
    decreases ps.len(),
{
    if ps.len() == 0 {
        seq![]
    } else {
        let prev = single_idents(ps.drop_last());
        match path_ident(ps.last()) {
            Some(i) => prev.push(i),
            None => prev,
        }
    }
}

/// The names that an item's `derive(..)` attributes list, in order: the
/// list members that are single identifiers.
pub open spec fn derive_names_of(attrs: Seq<AttrModel>) -> Seq<Seq<char>>
    decreases attrs.len(),
{
    if attrs.len() == 0 {
        seq![]
    } else {
        let prev = derive_names_of(attrs.drop_last());
        let a = attrs.last();
        if path_ident(a.path) == Some(seq!['d', 'e', 'r', 'i', 'v', 'e']) {
            match a.path_list_arg {
                Some(ps) => prev + single_idents(ps),
                None => prev,
            }
        } else {
            prev
        }
    }
}

/// The arguments of a field's `foldback(..)` attributes, in order, each as
/// its single identifier or `None`.
pub open spec fn foldback_args_of(attrs: Seq<AttrModel>) -> Seq<Option<Seq<char>>>
    decreases attrs.len(),
{
    if attrs.len() == 0 {
        seq![]
    } else {
        let prev = foldback_args_of(attrs.drop_last());
        if path_ident(attrs.last().path) == Some(seq!['f', 'o', 'l', 'd', 'b', 'a', 'c', 'k']) {
            prev.push(attrs.last().ident_arg)
        } else {
            prev
        }
    }
}

/// A field as its name (empty when it has none) and its marking arguments.
pub open spec fn field_plain(f: (Option<Seq<char>>, Seq<AttrModel>)) -> (
    Seq<char>,
    Seq<Option<Seq<char>>>,
) {
    (
        match f.0 {
            Some(n) => n,
            None => seq![],
        },
        foldback_args_of(f.1),
    )
}

/// A field as plain values: its name and its marking arguments.
pub open spec fn field_model(f: (String, Vec<Option<String>>)) -> (Seq<char>, Seq<Option<Seq<char>>>) {
    (f.0@, f.1@.map_values(|a: Option<String>| opt_text(a)))
}

/// Whether a path is the single identifier `word`.
pub(crate) fn is_path(p: &SourcePath, word: &str) -> (b: bool)
    ensures
        b == (path_ident(path_model(*p)) == Some(word@)),
{
    if p.leading_colon || p.segments.len() != 1 || p.segments[0].1 {
        return false;
    }
    let ghost m = path_model(*p);
    assert(m.segments[0] == (p.segments@[0].0@, p.segments@[0].1));
    str_eq(p.segments[0].0.as_str(), word)
}

/// The paths of `ps` that are single identifiers, as those identifiers.
fn single_ident_names(ps: &Vec<SourcePath>) -> (r: Vec<String>)
    ensures
        r@.map_values(|s: String| s@) == single_idents(paths_model(ps@)),
{
    let ghost pm = paths_model(ps@);
    let mut r: Vec<String> = Vec::new();
    let mut i: usize = 0;
    while i < ps.len()
        invariant
            i <= ps@.len(),
            pm == paths_model(ps@),
            r@.map_values(|s: String| s@) == single_idents(pm.take(i as int)),
        decreases ps@.len() - i,
    {
        proof {
            assert(pm.take(i + 1).drop_last() =~= pm.take(i as int));
            assert(pm.take(i + 1).last() == path_model(ps@[i as int]));
        }
        let p = &ps[i];
        let ghost before = r@;
        if !p.leading_colon && p.segments.len() == 1 && !p.segments[0].1 {
            r.push(p.segments[0].0.clone());
            assert(r@.map_values(|s: String| s@) =~= before.map_values(|s: String| s@).push(
                p.segments@[0].0@,
            ));
        }
        i = i + 1;
    }
    assert(pm.take(ps@.len() as int) =~= pm);
    r
}

/// The names that a struct's `derive(..)` attributes list.
fn derive_names(attrs: &Vec<SourceAttr>) -> (r: Vec<String>)
    ensures
        r@.map_values(|s: String| s@) == derive_names_of(attrs_model(attrs@)),
{
    proof {
        reveal_strlit("derive");
    }
    let ghost am = attrs_model(attrs@);
    let mut r: Vec<String> = Vec::new();
    let mut i: usize = 0;
    while i < attrs.len()
        invariant
            i <= attrs@.len(),
            am == attrs_model(attrs@),
            "derive"@ == seq!['d', 'e', 'r', 'i', 'v', 'e'],
            r@.map_values(|s: String| s@) == derive_names_of(am.take(i as int)),
        decreases attrs@.len() - i,
    {
        proof {
            assert(am.take(i + 1).drop_last() =~= am.take(i as int));
            assert(am.take(i + 1).last() == attr_model(attrs@[i as int]));
        }
        let a = &attrs[i];
        if is_path(&a.path, "derive") {
            match &a.path_list_arg {
                Some(ps) => {
                    let mut more = single_ident_names(ps);
                    let ghost before = r@;
                    let ghost mv = more@;
                    r.append(&mut more);
                    assert(r@.map_values(|s: String| s@) =~= before.map_values(|s: String| s@)
                        + mv.map_values(|s: String| s@));
                },
                None => {},
            }
        }
        i = i + 1;
    }
    assert(am.take(attrs@.len() as int) =~= am);
    r
}

/// The arguments of a field's `foldback(..)` attributes, in order.
pub(crate) fn foldback_args(attrs: &Vec<SourceAttr>) -> (r: Vec<Option<String>>)
    ensures
        r@.map_values(|a: Option<String>| opt_text(a)) == foldback_args_of(attrs_model(attrs@)),
{
    proof {
        reveal_strlit("foldback");
    }
    let ghost am = attrs_model(attrs@);
    let mut r: Vec<Option<String>> = Vec::new();
    let mut i: usize = 0;
    while i < attrs.len()
        invariant
            i <= attrs@.len(),
            am == attrs_model(attrs@),
            "foldback"@ == seq!['f', 'o', 'l', 'd', 'b', 'a', 'c', 'k'],
            r@.map_values(|a: Option<String>| opt_text(a)) == foldback_args_of(am.take(i as int)),
        decreases attrs@.len() - i,
    {
        proof {
            assert(am.take(i + 1).drop_last() =~= am.take(i as int));
            assert(am.take(i + 1).last() == attr_model(attrs@[i as int]));
        }
        let a = &attrs[i];
        if is_path(&a.path, "foldback") {
            let ghost before = r@;
            let arg = match &a.ident_arg {
                Some(x) => Some(x.clone()),
                None => None,
            };
            r.push(arg);
            assert(r@.map_values(|a: Option<String>| opt_text(a)) =~= before.map_values(
                |a: Option<String>| opt_text(a),
            ).push(attr_model(attrs@[i as int]).ident_arg));
        }
        i = i + 1;
    }
    assert(am.take(attrs@.len() as int) =~= am);
    r
}

/// Each named field as its name (empty when it has none) and the arguments
/// of its `foldback(..)` attributes.
fn plain_fields(fs: &Vec<(Option<String>, Vec<SourceAttr>)>) -> (r: Vec<(String, Vec<Option<String>>)>)
    ensures
        r@.map_values(|f: (String, Vec<Option<String>>)| field_model(f)) == fs@.map_values(
            |f: (Option<String>, Vec<SourceAttr>)| source_field_model(f),
        ).map_values(|f: (Option<Seq<char>>, Seq<AttrModel>)| field_plain(f)),
{
    let ghost want = fs@.map_values(|f: (Option<String>, Vec<SourceAttr>)| source_field_model(f)).map_values(
        |f: (Option<Seq<char>>, Seq<AttrModel>)| field_plain(f),
    );
    let mut r: Vec<(String, Vec<Option<String>>)> = Vec::new();
    let mut i: usize = 0;
    while i < fs.len()
        invariant
            i <= fs@.len(),
            want == fs@.map_values(|f: (Option<String>, Vec<SourceAttr>)| source_field_model(f)).map_values(
                |f: (Option<Seq<char>>, Seq<AttrModel>)| field_plain(f),
            ),
            r@.map_values(|f: (String, Vec<Option<String>>)| field_model(f)) == want.take(i as int),
        decreases fs@.len() - i,
    {
        let name = match &fs[i].0 {
            Some(n) => n.clone(),
            None => String::new(),
        };
        let args = foldback_args(&fs[i].1);
        let ghost before = r@;
        let ghost rec = (name, args);
        r.push((name, args));
        proof {
            assert(field_model(rec) == want[i as int]) by {
                assert(rec.1@.map_values(|a: Option<String>| opt_text(a)) =~= field_model(rec).1);
            }
            assert(want.take(i + 1) =~= want.take(i as int).push(want[i as int]));
            assert(r@.map_values(|f: (String, Vec<Option<String>>)| field_model(f)) =~= before.map_values(
                |f: (String, Vec<Option<String>>)| field_model(f),
            ).push(field_model(rec)));
        }
        i = i + 1;
    }
    assert(want.take(fs@.len() as int) =~= want);
    r
}

/// One `FoldbackHash` struct as plain values: its name, its tracked fields
/// and its unmarked fields, each in declaration order.
pub open spec fn tracked_type_model(name: Seq<char>, fs: Seq<(Seq<char>, Seq<Option<Seq<char>>>)>) -> (
    Seq<char>,
    Seq<Seq<char>>,
    Seq<Seq<char>>,
) {
    let marked = fs.map_values(|f: (Seq<char>, Seq<Option<Seq<char>>>)| (f.0, marking_of(f.1)));
    (name, fields_marked(marked, FieldMarking::Hashed), fields_marked(marked, FieldMarking::Unmarked))
}

/// The `FoldbackHash` structs an item holds: the item itself when it is a
/// struct with named fields that derives `FoldbackHash`, those of its items
/// when it is an inline module, none otherwise.
pub open spec fn item_tracked_types(item: SourceItemModel) -> Seq<
    (Seq<char>, Seq<Seq<char>>, Seq<Seq<char>>),
>
    decreases item,
{
    match item {
        SourceItemModel::Struct { name, attrs, named_fields } => match named_fields {
            Some(fs) => if derive_names_of(attrs).contains(
                seq!['F', 'o', 'l', 'd', 'b', 'a', 'c', 'k', 'H', 'a', 's', 'h'],
            ) {
                seq![
                    tracked_type_model(
                        name,
                        fs.map_values(|f: (Option<Seq<char>>, Seq<AttrModel>)| field_plain(f)),
                    ),
                ]
            } else {
                seq![]
            },
            None => seq![],
        },
        SourceItemModel::Module(Some(inner)) => tracked_types_of(inner),
        SourceItemModel::Module(None) => seq![],
        SourceItemModel::Other => seq![],
    }
}

/// The `FoldbackHash` structs of a sequence of items, in order.
pub open spec fn tracked_types_of(items: Seq<SourceItemModel>) -> Seq<
    (Seq<char>, Seq<Seq<char>>, Seq<Seq<char>>),
>
    decreases items,
{
    if items.len() == 0 {
        seq![]
    } else {
        tracked_types_of(items.drop_last()) + item_tracked_types(items.last())
    }
}

/// A found struct as plain values.
pub open spec fn tracked_view(t: TrackedType) -> (Seq<char>, Seq<Seq<char>>, Seq<Seq<char>>) {
    (
        t.name@,
        t.tracked_fields@.map_values(|s: String| s@),
        t.untracked@.map_values(|s: String| s@),
    )
}

/// Clones a source file's path.
pub assume_specification[ <PathBuf as Clone>::clone ](p: &PathBuf) -> (r: PathBuf)
    ensures
        r == *p,
;

/// Each field with its marking, in order.
fn marked_fields(fs: &Vec<(String, Vec<Option<String>>)>) -> (r: Vec<(String, FieldMarking)>)
    ensures
        r@.map_values(|f: (String, FieldMarking)| (f.0@, f.1)) == fs@.map_values(
            |f: (String, Vec<Option<String>>)| field_model(f),
        ).map_values(|f: (Seq<char>, Seq<Option<Seq<char>>>)| (f.0, marking_of(f.1))),
{
    let ghost want = fs@.map_values(|f: (String, Vec<Option<String>>)| field_model(f)).map_values(
        |f: (Seq<char>, Seq<Option<Seq<char>>>)| (f.0, marking_of(f.1)),
    );
    let mut r: Vec<(String, FieldMarking)> = Vec::new();
    let mut i: usize = 0;
    while i < fs.len()
        invariant
            i <= fs@.len(),
            want == fs@.map_values(|f: (String, Vec<Option<String>>)| field_model(f)).map_values(
                |f: (Seq<char>, Seq<Option<Seq<char>>>)| (f.0, marking_of(f.1)),
            ),
            r@.map_values(|f: (String, FieldMarking)| (f.0@, f.1)) == want.take(i as int),
        decreases fs@.len() - i,
    {
        let m = field_marking(fs[i].1.as_slice());
        let ghost before = r@;
        r.push((fs[i].0.clone(), m));
        proof {
            assert(r@ == before.push((fs@[i as int].0, m)));
            assert(want[i as int] == (fs@[i as int].0@, m));
            assert(want.take(i + 1) =~= want.take(i as int).push(want[i as int]));
            assert(r@.map_values(|f: (String, FieldMarking)| (f.0@, f.1)) =~= before.map_values(
                |f: (String, FieldMarking)| (f.0@, f.1),
            ).push((fs@[i as int].0@, m)));
        }
        i = i + 1;
    }
    assert(want.take(fs@.len() as int) =~= want);
    r
}

/// Finds the `FoldbackHash` structs among `items`, in order, descending
/// into inline modules; each is reported with `file` as its file.
pub fn collect_tracked_structs(items: &[SourceItem], file: &PathBuf) -> (r: Vec<TrackedType>)
    ensures
        r@.map_values(|t: TrackedType| tracked_view(t)) == tracked_types_of(items_model(items@)),
        forall|k: int| 0 <= k < r@.len() ==> #[trigger] r@[k].file == *file,
    decreases items@,
{
    proof {
        reveal_strlit("FoldbackHash");
    }
    let mut out: Vec<TrackedType> = Vec::new();
    let mut i: usize = 0;
    assert(items@.take(0) =~= Seq::<SourceItem>::empty());
    assert(out@.map_values(|t: TrackedType| tracked_view(t)) =~= tracked_types_of(
        items_model(items@.take(0)),
    ));
    while i < items.len()
        invariant
            i <= items@.len(),
            "FoldbackHash"@ == seq!['F', 'o', 'l', 'd', 'b', 'a', 'c', 'k', 'H', 'a', 's', 'h'],
            out@.map_values(|t: TrackedType| tracked_view(t)) == tracked_types_of(
                items_model(items@.take(i as int)),
            ),
            forall|k: int| 0 <= k < out@.len() ==> #[trigger] out@[k].file == *file,
        decreases items@.len() - i,
    {
        let ghost prev = out@;
        let ghost here = item_tracked_types(item_model(items@[i as int]));
        proof {
            assert(items@.take(i + 1).drop_last() =~= items@.take(i as int));
            assert(items@.take(i + 1).last() == items@[i as int]);
            let im = items_model(items@.take(i as int));
            let x = item_model(items@[i as int]);
            assert(items_model(items@.take(i + 1)) == im.push(x));
            assert(im.push(x).drop_last() =~= im);
            assert(tracked_types_of(im.push(x)) == tracked_types_of(im) + here);
        }
        match &items[i] {
            SourceItem::Struct { name, attrs, named_fields } => {
                let derives = derive_names(attrs);
                let dv = derives.as_slice();
                let found = derives_foldback_hash(dv);
                proof {
                    let dm = derives@.map_values(|d: String| d@);
                    if found {
                        let k = choose|k: int|
                            0 <= k < dv@.len() && #[trigger] dv@[k]@ == "FoldbackHash"@;
                        assert(dm[k] == dv@[k]@);
                    }
                    if dm.contains("FoldbackHash"@) {
                        let k = choose|k: int| 0 <= k < dm.len() && dm[k] == "FoldbackHash"@;
                        assert(dv@[k]@ == dm[k]);
                    }
                }
                if found {
                    match named_fields {
                        Some(src_fields) => {
                            let fs = plain_fields(src_fields);
                            let marked = marked_fields(&fs);
                            let t = tracked_type(name.clone(), file.clone(), marked);
                            out.push(t);
                            proof {
                                assert(tracked_view(t) == here[0]);
                                assert(out@.map_values(|t: TrackedType| tracked_view(t))
                                    =~= prev.map_values(|t: TrackedType| tracked_view(t)) + here);
                            }
                        },
                        None => {
                            assert(out@.map_values(|t: TrackedType| tracked_view(t))
                                =~= prev.map_values(|t: TrackedType| tracked_view(t)) + here);
                        },
                    }
                } else {
                    assert(out@.map_values(|t: TrackedType| tracked_view(t)) =~= prev.map_values(
                        |t: TrackedType| tracked_view(t),
                    ) + here);
                }
            },
            SourceItem::Module(None) => {
                assert(out@.map_values(|t: TrackedType| tracked_view(t)) =~= prev.map_values(
                    |t: TrackedType| tracked_view(t),
                ) + here);
            },
            SourceItem::Module(Some(inner)) => {
                let mut sub = collect_tracked_structs(inner.as_slice(), file);
                let ghost sv = sub@;
                out.append(&mut sub);
                proof {
                    assert(out@ == prev + sv);
                    assert(out@.map_values(|t: TrackedType| tracked_view(t)) =~= prev.map_values(
                        |t: TrackedType| tracked_view(t),
                    ) + sv.map_values(|t: TrackedType| tracked_view(t)));
                    assert forall|k: int| 0 <= k < out@.len() implies #[trigger] out@[k].file
                        == *file by {
                        if k >= prev.len() {
                            assert(out@[k] == sv[k - prev.len()]);
                        }
                    }
                }
            },
            SourceItem::Other => {
                assert(out@.map_values(|t: TrackedType| tracked_view(t)) =~= prev.map_values(
                    |t: TrackedType| tracked_view(t),
                ) + here);
            },
        }
        i = i + 1;
    }
    assert(items@.take(items@.len() as int) =~= items@);
    out
}

/// Scans one source file: `Err` with the parser's message when `syn`
/// rejects the text, else the `FoldbackHash` structs it holds, in order,
/// each reported with `file` as its file.
pub fn scan_source(file: PathBuf, text: &str) -> (r: Result<Vec<TrackedType>, String>)
    ensures
        (r is Ok) == (source_items_of(text@) is Some),
        r matches Ok(v) ==> {
            &&& v@.map_values(|t: TrackedType| tracked_view(t)) == tracked_types_of(
                source_items_of(text@)->0,
            )
            &&& forall|k: int| 0 <= k < v@.len() ==> #[trigger] v@[k].file == file
        },
{
    match parse_source_items(text) {
        Ok(items) => Ok(collect_tracked_structs(items.as_slice(), &file)),
        Err(e) => Err(e),
    }
}

/// Scanning two runs of items one after the other finds what scanning
/// each finds, in order: nothing an item holds is dropped or reordered
/// because of the items around it.
pub proof fn lemma_tracked_types_concat(a: Seq<SourceItemModel>, b: Seq<SourceItemModel>)
    ensures
        tracked_types_of(a + b) == tracked_types_of(a) + tracked_types_of(b),
    decreases b.len(),
{
    if b.len() == 0 {
        assert(a + b =~= a);
        assert(tracked_types_of(a) + tracked_types_of(b) =~= tracked_types_of(a));
    } else {
        let bp = b.drop_last();
        lemma_tracked_types_concat(a, bp);
        assert((a + b).drop_last() =~= a + bp);
        assert((a + b).last() == b.last());
        assert(tracked_types_of(a) + tracked_types_of(bp) + item_tracked_types(b.last())
            =~= tracked_types_of(a) + (tracked_types_of(bp) + item_tracked_types(b.last())));
    }
}

/// Scanning a single item finds exactly what that item holds.
pub proof fn lemma_tracked_types_single(x: SourceItemModel)
    ensures
        tracked_types_of(seq![x]) == item_tracked_types(x),
{
    let e = Seq::<SourceItemModel>::empty();
    assert(seq![x].drop_last() =~= e);
    assert(seq![x].last() == x);
    assert(tracked_types_of(e) == Seq::<(Seq<char>, Seq<Seq<char>>, Seq<Seq<char>>)>::empty());
    assert(tracked_types_of(seq![x]) == tracked_types_of(e) + item_tracked_types(x));
    assert(Seq::<(Seq<char>, Seq<Seq<char>>, Seq<Seq<char>>)>::empty() + item_tracked_types(x)
        =~= item_tracked_types(x));
}

/// Every struct with named fields whose `derive(..)` list names
/// `FoldbackHash` is reported, with its name and its fields' markings,
/// whatever stands before or after it.
pub proof fn lemma_every_tagged_struct_is_found(items: Seq<SourceItemModel>, k: int)
    requires
        0 <= k < items.len(),
        items[k] matches SourceItemModel::Struct { named_fields: Some(_), attrs, .. }
            && derive_names_of(attrs).contains(
            seq!['F', 'o', 'l', 'd', 'b', 'a', 'c', 'k', 'H', 'a', 's', 'h'],
        ),
    ensures
        items[k] matches SourceItemModel::Struct { name, named_fields: Some(fs), .. }
            && tracked_types_of(items).contains(
            tracked_type_model(
                name,
                fs.map_values(|f: (Option<Seq<char>>, Seq<AttrModel>)| field_plain(f)),
            ),
        ),
{
    let pre = items.take(k);
    let post = items.skip(k + 1);
    assert(items =~= pre + seq![items[k]] + post);
    lemma_tracked_types_concat(pre + seq![items[k]], post);
    lemma_tracked_types_concat(pre, seq![items[k]]);
    lemma_tracked_types_single(items[k]);
    let here = item_tracked_types(items[k]);
    let all = tracked_types_of(pre) + here + tracked_types_of(post);
    assert(tracked_types_of(items) == all);
    assert(here.len() == 1);
    assert(all[tracked_types_of(pre).len() as int] == here[0]);
}

} // verus!
