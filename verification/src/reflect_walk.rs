//! Reflective hashing: walking a reflected value's tracked fields, and
//! everything reachable beneath them, and recording each leaf as a field
//! hash named by its dotted or indexed path (`unit.pos.x`,
//! `unit.items[2].amount`).
//!
//! The reflected value arrives as plain data, [`ReflectedValue`]; turning an
//! engine's reflection objects into it happens outside the library.
use vstd::prelude::*;
use vstd::relations::*;
use vstd::utf8::*;

use crate::hex_text::hex_char;
use crate::error::Error;
use crate::format::{FrameModel, field_hash_fits, field_hash_payload_fits, frame_fits, metadata_fits};
use crate::hash::{hash_bytes, xxh3_64_of};
use crate::lint::opt_text;
use crate::preview::{join_path, joined_path};
use crate::schema::{
    fingerprint,
    fingerprint_of,
    lemma_name_order_total,
    name_le,
    name_order,
    schema_key_prefix,
    schema_metadata_key,
    str_eq,
    str_le,
};
use crate::session::{Session, SessionModel, with_frame};

verus! {

broadcast use vstd::seq_lib::group_seq_properties, vstd::seq_lib::group_to_multiset_ensures;

/// A reflected value, as plain data.
pub enum ReflectedValue {
    /// A struct: its fields' names and values, in declaration order.
    Struct(Vec<(String, ReflectedValue)>),
    /// A tuple struct's fields, in order.
    TupleStruct(Vec<ReflectedValue>),
    /// A tuple's fields, in order.
    Tuple(Vec<ReflectedValue>),
    /// A list's items, in order.
    List(Vec<ReflectedValue>),
    /// An array's items, in order.
    Array(Vec<ReflectedValue>),
    /// A map's entries, each with its key rendered as text, in the map's
    /// own iteration order (which need not be stable).
    MapEntries(Vec<(String, ReflectedValue)>),
    /// A set's items, each with its rendered text, in the set's own
    /// iteration order.
    SetItems(Vec<(String, ReflectedValue)>),
    /// An enum value: the variant's name, then its fields' labels (names,
    /// or positions for a tuple variant) and values.
    Enum(String, Vec<(String, ReflectedValue)>),
    /// A leaf value: the bytes that stand for it.
    Leaf(Vec<u8>),
}

/// The decimal digits of `n`.
pub open spec fn decimal(n: nat) -> Seq<char>
    decreases n,
{
    if n < 10 {
        seq![hex_char(n as int)]
    } else {
        decimal(n / 10).push(hex_char((n % 10) as int))
    }
}

/// `n` in decimal.
pub fn decimal_text(n: usize) -> (r: String)
    ensures
        r@ == decimal(n as nat),
{
    let mut digits: Vec<u8> = Vec::new();
    let mut y: usize = n;
    while y >= 10
        invariant
            decimal(n as nat) == decimal(y as nat) + digits@.reverse().map_values(
                |d: u8| hex_char(d as int),
            ),
            forall|i: int| 0 <= i < digits@.len() ==> #[trigger] digits@[i] < 10,
        decreases y,
    {
        let ghost before = digits@;
        let d = (y % 10) as u8;
        digits.push(d);
        proof {
            assert(decimal(y as nat) == decimal((y / 10) as nat).push(hex_char((y % 10) as int)));
            assert(digits@.reverse() =~= seq![d] + before.reverse());
            assert(digits@.reverse().map_values(|d: u8| hex_char(d as int)) =~= seq![
                hex_char(d as int),
            ] + before.reverse().map_values(|d: u8| hex_char(d as int)));
        }
        y = y / 10;
    }
    let mut out = String::new();
    crate::hex_text::push_hex_digit(&mut out, y as u8);
    assert(out@ =~= decimal(y as nat));
    let ghost rev = digits@.reverse().map_values(|d: u8| hex_char(d as int));
    let ghost head = out@;
    let k = digits.len();
    let mut j: usize = 0;
    while j < k
        invariant
            j <= k,
            k == digits@.len(),
            forall|i: int| 0 <= i < digits@.len() ==> #[trigger] digits@[i] < 10,
            rev == digits@.reverse().map_values(|d: u8| hex_char(d as int)),
            out@ == head + rev.take(j as int),
        decreases k - j,
    {
        crate::hex_text::push_hex_digit(&mut out, digits[k - 1 - j]);
        assert(rev.take(j + 1) =~= rev.take(j as int).push(rev[j as int]));
        assert(out@ =~= head + rev.take(j + 1));
        j = j + 1;
    }
    assert(rev.take(k as int) =~= rev);
    out
}

/// Entries ordered by their text in `str` order, ties by position: a
/// total order on (text, position) pairs.
pub open spec fn entry_le(a: (Seq<char>, int), b: (Seq<char>, int)) -> bool {
    (name_le(a.0, b.0) && a.0 != b.0) || (a.0 == b.0 && a.1 <= b.1)
}

/// [`entry_le`] as a relation.
pub open spec fn entry_order() -> spec_fn((Seq<char>, int), (Seq<char>, int)) -> bool {
    |a: (Seq<char>, int), b: (Seq<char>, int)| entry_le(a, b)
}

/// Each entry's text with its position.
pub open spec fn keyed(es: Seq<(String, ReflectedValue)>) -> Seq<(Seq<char>, int)> {
    Seq::new(es.len(), |i: int| (es[i].0@, i))
}

/// The positions of the entries in the order they are walked: sorted by
/// their text in `str` order, equal texts in their original order.
pub open spec fn sorted_positions(es: Seq<(String, ReflectedValue)>) -> Seq<int> {
    keyed(es).sort_by(entry_order()).map_values(|p: (Seq<char>, int)| p.1)
}

proof fn lemma_entry_order_total()
    ensures
        total_ordering(entry_order()),
{
    lemma_name_order_total();
    let r = entry_order();
    let n = name_order();
    assert forall|x: (Seq<char>, int)| #[trigger] r(x, x) by {}
    assert forall|x: (Seq<char>, int), y: (Seq<char>, int)| #[trigger] r(x, y) && #[trigger] r(
        y,
        x,
    ) implies x == y by {
        if x.0 != y.0 {
            assert(n(x.0, y.0) && n(y.0, x.0));
        }
    }
    assert forall|x: (Seq<char>, int), y: (Seq<char>, int), z: (Seq<char>, int)| #[trigger] r(
        x,
        y,
    ) && #[trigger] r(y, z) implies r(x, z) by {
        if x.0 != y.0 && y.0 != z.0 {
            assert(n(x.0, y.0) && n(y.0, z.0));
            assert(n(x.0, z.0));
            if x.0 == z.0 {
                assert(n(z.0, y.0));
            }
        }
    }
    assert forall|x: (Seq<char>, int), y: (Seq<char>, int)| #[trigger] r(x, y) || #[trigger] r(
        y,
        x,
    ) by {
        assert(n(x.0, y.0) || n(y.0, x.0));
    }
}

/// The walking order of a map's or set's entries: by text, ties by
/// position.
fn walk_order(es: &Vec<(String, ReflectedValue)>) -> (r: Vec<usize>)
    ensures
        r@.map_values(|j: usize| j as int) == sorted_positions(es@),
{
    let ghost ks = keyed(es@);
    let ghost ord = entry_order();
    proof {
        lemma_entry_order_total();
    }
    let mut order: Vec<usize> = Vec::new();
    let n = es.len();
    let mut i: usize = 0;
    assert(order@.map_values(|j: usize| ks[j as int]) =~= Seq::<(Seq<char>, int)>::empty());
    assert(ks.take(0) =~= Seq::<(Seq<char>, int)>::empty());
    while i < n
        invariant
            n == es@.len(),
            i <= n,
            ks == keyed(es@),
            ord == entry_order(),
            total_ordering(ord),
            forall|k: int| 0 <= k < order@.len() ==> #[trigger] order@[k] < i,
            sorted_by(order@.map_values(|j: usize| ks[j as int]), ord),
            order@.map_values(|j: usize| ks[j as int]).to_multiset() == ks.take(i as int).to_multiset(),
        decreases n - i,
    {
        let ghost before = order@;
        let ghost sv = before.map_values(|j: usize| ks[j as int]);
        let ghost x = ks[i as int];
        let mut p: usize = 0;
        while p < order.len() && str_le(es[order[p]].0.as_str(), es[i].0.as_str())
            invariant
                p <= order@.len(),
                order@ == before,
                i < n,
                n == es@.len(),
                ks == keyed(es@),
                x == ks[i as int],
                sv == before.map_values(|j: usize| ks[j as int]),
                forall|k: int| 0 <= k < order@.len() ==> #[trigger] order@[k] < i,
                forall|k: int| 0 <= k < p ==> #[trigger] name_le(sv[k].0, x.0),
            decreases order@.len() - p,
        {
            p = p + 1;
        }
        order.insert(p, i);
        proof {
            let nv = order@.map_values(|j: usize| ks[j as int]);
            assert(nv =~= sv.insert(p as int, x));
            // Everything before `p` sorts no later than `x`: by text, and on
            // a tie by position, as every earlier position is below `i`.
            assert forall|k: int| 0 <= k < p implies #[trigger] ord(sv[k], x) by {
                assert(name_le(sv[k].0, x.0));
                assert(sv[k].1 == before[k] as int);
                assert(before[k] < i);
            }
            if p < sv.len() {
                assert(!name_le(sv[p as int].0, x.0));
                assert(name_le(sv[p as int].0, x.0) || name_le(x.0, sv[p as int].0)) by {
                    lemma_name_order_total();
                    assert(name_order()(sv[p as int].0, x.0) || name_order()(x.0, sv[p as int].0));
                }
                assert(sv[p as int].0 != x.0) by {
                    lemma_name_order_total();
                    assert(name_order()(x.0, x.0));
                }
                assert(ord(x, sv[p as int]));
            }
            assert forall|a: int, b: int| 0 <= a < b < nv.len() implies #[trigger] ord(
                nv[a],
                nv[b],
            ) by {
                if b < p {
                    assert(ord(sv[a], sv[b]));
                } else if b == p {
                    assert(nv[a] == sv[a]);
                } else if a < p {
                    assert(nv[b] == sv[b - 1]);
                    assert(ord(sv[a], x));
                    if b - 1 > p {
                        assert(ord(sv[p as int], sv[b - 1]));
                    }
                    assert(ord(x, sv[b - 1]));
                } else if a == p {
                    if b - 1 > p {
                        assert(ord(sv[p as int], sv[b - 1]));
                    }
                    assert(ord(x, sv[b - 1]));
                } else {
                    assert(ord(sv[a - 1], sv[b - 1]));
                }
            }
            assert(ks.take(i + 1) =~= ks.take(i as int).push(x));
        }
        i = i + 1;
    }
    proof {
        let sv = order@.map_values(|j: usize| ks[j as int]);
        assert(ks.take(n as int) =~= ks);
        ks.lemma_sort_by_ensures(ord);
        vstd::seq_lib::lemma_sorted_unique(sv, ks.sort_by(ord), ord);
        assert forall|k: int| 0 <= k < order@.len() implies #[trigger] sv[k].1 == order@[k] as int by {}
        assert(order@.map_values(|j: usize| j as int) =~= sv.map_values(
            |p: (Seq<char>, int)| p.1,
        ));
    }
    order
}


/// How deep a walk may go below the root before it gives up: a runaway or
/// self-referential object graph fails here instead of recursing forever.
pub const MAX_REFLECT_DEPTH: usize = 8;

/// How the items of an unnamed sequence are named below their parent:
/// `parent.i` for tuple fields, `parent[i]` for list and array items.
#[derive(Clone, Copy)]
pub enum ItemNaming {
    Dotted,
    Indexed,
}

/// How named entries are named below their parent: struct fields
/// `parent.name` (or `name` at an empty root), map entries `parent[key]`,
/// set members `parent{item}`, enum fields `variant_path.label`.
#[derive(Clone, Copy)]
pub enum EntryNaming {
    Field,
    Keyed,
    Member,
    VariantField,
}

/// What a walk produced: the leaves it recorded, each as a path and the
/// bytes that stand for it, in order; and, if it gave up on depth, the path
/// at which it did (nothing is recorded after that).
pub struct WalkTrace {
    pub records: Seq<(Seq<char>, Seq<u8>)>,
    pub stopped_at: Option<Seq<char>>,
}

/// A walk that records nothing.
pub open spec fn empty_trace() -> WalkTrace {
    WalkTrace { records: seq![], stopped_at: None }
}

/// Walking `a`, then, unless `a` gave up, `b`.
pub open spec fn followed_by(a: WalkTrace, b: WalkTrace) -> WalkTrace {
    if a.stopped_at is Some {
        a
    } else {
        WalkTrace { records: a.records + b.records, stopped_at: b.stopped_at }
    }
}

/// The path of the `i`-th unnamed item below `path`.
pub open spec fn item_path(path: Seq<char>, naming: ItemNaming, i: nat) -> Seq<char> {
    match naming {
        ItemNaming::Dotted => path + seq!['.'] + decimal(i),
        ItemNaming::Indexed => path + seq!['['] + decimal(i) + seq![']'],
    }
}

/// The path of the entry labelled `label` below `path`.
pub open spec fn entry_path(path: Seq<char>, naming: EntryNaming, label: Seq<char>) -> Seq<char> {
    match naming {
        EntryNaming::Field => joined_path(path, label),
        EntryNaming::Keyed => path + seq!['['] + label + seq![']'],
        EntryNaming::Member => path + seq!['{'] + label + seq!['}'],
        EntryNaming::VariantField => path + seq!['.'] + label,
    }
}

/// The path of an enum value's variant: `path::Variant`.
pub open spec fn variant_path(path: Seq<char>, variant: Seq<char>) -> Seq<char> {
    path + seq![':', ':'] + variant
}

/// The field under which an enum value's variant name is recorded.
pub open spec fn variant_tag_path(path: Seq<char>, variant: Seq<char>) -> Seq<char> {
    variant_path(path, variant) + seq!['#', 'v', 'a', 'r', 'i', 'a', 'n', 't']
}

/// The positions `0, 1, ..., n - 1`: declaration order.
pub open spec fn identity_positions(n: nat) -> Seq<int> {
    Seq::new(n, |i: int| i)
}

/// The walk of `v` found at `path`, `depth` levels below the root: past
/// [`MAX_REFLECT_DEPTH`] it gives up at `path`; a leaf is recorded under
/// its path; an enum records its variant name (as UTF-8) and then walks its
/// fields; every other kind walks its children one level deeper, maps and
/// sets in [`sorted_positions`] order and everything else in order.
pub open spec fn value_trace(path: Seq<char>, v: ReflectedValue, depth: nat) -> WalkTrace
    decreases v, 0int,
{
    if depth > MAX_REFLECT_DEPTH {
        WalkTrace { records: seq![], stopped_at: Some(path) }
    } else {
        match v {
            ReflectedValue::Struct(fs) => entries_trace(
                path,
                EntryNaming::Field,
                fs@,
                identity_positions(fs@.len()),
                0,
                depth + 1,
            ),
            ReflectedValue::TupleStruct(xs) => items_trace(path, ItemNaming::Dotted, xs@, 0, depth + 1),
            ReflectedValue::Tuple(xs) => items_trace(path, ItemNaming::Dotted, xs@, 0, depth + 1),
            ReflectedValue::List(xs) => items_trace(path, ItemNaming::Indexed, xs@, 0, depth + 1),
            ReflectedValue::Array(xs) => items_trace(path, ItemNaming::Indexed, xs@, 0, depth + 1),
            ReflectedValue::MapEntries(es) => entries_trace(
                path,
                EntryNaming::Keyed,
                es@,
                sorted_positions(es@),
                0,
                depth + 1,
            ),
            ReflectedValue::SetItems(es) => entries_trace(
                path,
                EntryNaming::Member,
                es@,
                sorted_positions(es@),
                0,
                depth + 1,
            ),
            ReflectedValue::Enum(variant, fs) => followed_by(
                WalkTrace {
                    records: seq![(variant_tag_path(path, variant@), encode_utf8(variant@))],
                    stopped_at: None,
                },
                entries_trace(
                    variant_path(path, variant@),
                    EntryNaming::VariantField,
                    fs@,
                    identity_positions(fs@.len()),
                    0,
                    depth + 1,
                ),
            ),
            ReflectedValue::Leaf(bytes) => WalkTrace { records: seq![(path, bytes@)], stopped_at: None },
        }
    }
}

/// The walk of the unnamed items `xs[k..]` below `path`, in order.
pub open spec fn items_trace(
    path: Seq<char>,
    naming: ItemNaming,
    xs: Seq<ReflectedValue>,
    k: nat,
    depth: nat,
) -> WalkTrace
    decreases xs, xs.len() - k,
{
    if k >= xs.len() {
        empty_trace()
    } else {
        followed_by(
            value_trace(item_path(path, naming, k), xs[k as int], depth),
            items_trace(path, naming, xs, k + 1, depth),
        )
    }
}

/// The walk of the named entries of `es` at positions `order[k..]` below
/// `path`, in that order.
pub open spec fn entries_trace(
    path: Seq<char>,
    naming: EntryNaming,
    es: Seq<(String, ReflectedValue)>,
    order: Seq<int>,
    k: nat,
    depth: nat,
) -> WalkTrace
    decreases es, order.len() - k,
{
    if k >= order.len() {
        empty_trace()
    } else {
        let j = order[k as int];
        if 0 <= j < es.len() {
            followed_by(
                value_trace(entry_path(path, naming, es[j].0@), es[j].1, depth),
                entries_trace(path, naming, es, order, k + 1, depth),
            )
        } else {
            entries_trace(path, naming, es, order, k + 1, depth)
        }
    }
}

/// A list of recorded leaves as plain values.
pub open spec fn records_view(rs: Seq<(String, &[u8])>) -> Seq<(Seq<char>, Seq<u8>)> {
    rs.map_values(|r: (String, &[u8])| (r.0@, r.1@))
}

proof fn lemma_records_view_push(rs: Seq<(String, &[u8])>, r: (String, &[u8]))
    ensures
        records_view(rs.push(r)) == records_view(rs).push((r.0@, r.1@)),
{
    assert(records_view(rs.push(r)) =~= records_view(rs).push((r.0@, r.1@)));
}

/// `path` followed by `text`.
fn concat_text(path: &str, text: &str) -> (r: String)
    ensures
        r@ == path@ + text@,
{
    let mut out = String::from_str(path);
    out.append(text);
    out
}

/// The path of the `i`-th unnamed item below `path`.
fn item_path_text(path: &str, naming: ItemNaming, i: usize) -> (r: String)
    ensures
        r@ == item_path(path@, naming, i as nat),
{
    let digits = decimal_text(i);
    proof {
        reveal_strlit(".");
        reveal_strlit("[");
        reveal_strlit("]");
    }
    match naming {
        ItemNaming::Dotted => {
            let mut out = concat_text(path, ".");
            out.append(digits.as_str());
            out
        },
        ItemNaming::Indexed => {
            let mut out = concat_text(path, "[");
            out.append(digits.as_str());
            out.append("]");
            out
        },
    }
}

/// The path of the entry labelled `label` below `path`.
fn entry_path_text(path: &str, naming: EntryNaming, label: &str) -> (r: String)
    ensures
        r@ == entry_path(path@, naming, label@),
{
    proof {
        reveal_strlit(".");
        reveal_strlit("[");
        reveal_strlit("]");
        reveal_strlit("{");
        reveal_strlit("}");
    }
    match naming {
        EntryNaming::Field => join_path(path, label),
        EntryNaming::Keyed => {
            let mut out = concat_text(path, "[");
            out.append(label);
            out.append("]");
            out
        },
        EntryNaming::Member => {
            let mut out = concat_text(path, "{");
            out.append(label);
            out.append("}");
            out
        },
        EntryNaming::VariantField => {
            let mut out = concat_text(path, ".");
            out.append(label);
            out
        },
    }
}

/// Walks `value`, found at `path` `depth` levels below the root, appending
/// the leaves it records to `out`; returns the path at which it gave up on
/// depth, if it did.
fn walk<'a>(
    path: String,
    value: &'a ReflectedValue,
    depth: usize,
    out: &mut Vec<(String, &'a [u8])>,
) -> (r: Option<String>)
    requires
        depth <= MAX_REFLECT_DEPTH + 1,
    ensures
        records_view(final(out)@) == records_view(old(out)@) + value_trace(
            path@,
            *value,
            depth as nat,
        ).records,
        opt_text(r) == value_trace(path@, *value, depth as nat).stopped_at,
    decreases value, 0int,
{
    if depth > MAX_REFLECT_DEPTH {
        assert(records_view(out@) =~= records_view(out@) + Seq::<(Seq<char>, Seq<u8>)>::empty());
        return Some(path);
    }
    match value {
        ReflectedValue::Struct(fs) => walk_entries(
            path.as_str(),
            EntryNaming::Field,
            fs,
            None,
            depth + 1,
            out,
        ),
        ReflectedValue::TupleStruct(xs) => walk_items(
            path.as_str(),
            ItemNaming::Dotted,
            xs,
            depth + 1,
            out,
        ),
        ReflectedValue::Tuple(xs) => walk_items(path.as_str(), ItemNaming::Dotted, xs, depth + 1, out),
        ReflectedValue::List(xs) => walk_items(path.as_str(), ItemNaming::Indexed, xs, depth + 1, out),
        ReflectedValue::Array(xs) => walk_items(path.as_str(), ItemNaming::Indexed, xs, depth + 1, out),
        ReflectedValue::MapEntries(es) => {
            let order = walk_order(es);
            walk_entries(path.as_str(), EntryNaming::Keyed, es, Some(&order), depth + 1, out)
        },
        ReflectedValue::SetItems(es) => {
            let order = walk_order(es);
            walk_entries(path.as_str(), EntryNaming::Member, es, Some(&order), depth + 1, out)
        },
        ReflectedValue::Enum(variant, fs) => {
            proof {
                reveal_strlit("::");
                reveal_strlit("#variant");
            }
            let vp = concat_text(concat_text(path.as_str(), "::").as_str(), variant.as_str());
            let tag = concat_text(vp.as_str(), "#variant");
            let bytes = variant.as_str().as_bytes();
            assert(vp@ =~= variant_path(path@, variant@));
            assert(tag@ =~= variant_tag_path(path@, variant@));
            let ghost before = out@;
            let rec = (tag, bytes);
            out.push(rec);
            proof {
                lemma_records_view_push(before, rec);
            }
            let r = walk_entries(vp.as_str(), EntryNaming::VariantField, fs, None, depth + 1, out);
            proof {
                let first = WalkTrace {
                    records: seq![(variant_tag_path(path@, variant@), encode_utf8(variant@))],
                    stopped_at: None,
                };
                assert(records_view(before.push(rec)) =~= records_view(before) + first.records);
                assert(records_view(out@) =~= records_view(before) + value_trace(
                    path@,
                    *value,
                    depth as nat,
                ).records);
            }
            r
        },
        ReflectedValue::Leaf(bytes) => {
            let ghost before = out@;
            let ghost p = path@;
            let rec = (path, bytes.as_slice());
            out.push(rec);
            proof {
                lemma_records_view_push(before, rec);
                assert(records_view(out@) =~= records_view(before) + seq![(p, bytes@)]);
            }
            None
        },
    }
}

/// Walks the unnamed items `xs` below `path`, in order.
fn walk_items<'a>(
    path: &str,
    naming: ItemNaming,
    xs: &'a Vec<ReflectedValue>,
    depth: usize,
    out: &mut Vec<(String, &'a [u8])>,
) -> (r: Option<String>)
    requires
        depth <= MAX_REFLECT_DEPTH + 1,
    ensures
        records_view(final(out)@) == records_view(old(out)@) + items_trace(
            path@,
            naming,
            xs@,
            0,
            depth as nat,
        ).records,
        opt_text(r) == items_trace(path@, naming, xs@, 0, depth as nat).stopped_at,
    decreases xs@, 1int,
{
    let ghost start = records_view(out@);
    let ghost whole = items_trace(path@, naming, xs@, 0, depth as nat);
    let ghost mut acc: Seq<(Seq<char>, Seq<u8>)> = seq![];
    let mut i: usize = 0;
    assert(start =~= start + acc);
    while i < xs.len()
        invariant
            i <= xs@.len(),
            depth <= MAX_REFLECT_DEPTH + 1,
            whole == items_trace(path@, naming, xs@, 0, depth as nat),
            start == records_view(old(out)@),
            records_view(out@) == start + acc,
            whole == followed_by(
                WalkTrace { records: acc, stopped_at: None },
                items_trace(path@, naming, xs@, i as nat, depth as nat),
            ),
        decreases xs@.len() - i,
    {
        let child = item_path_text(path, naming, i);
        let ghost cp = child@;
        let r = walk(child, &xs[i], depth, out);
        let ghost step = value_trace(cp, xs@[i as int], depth as nat);
        if r.is_some() {
            proof {
                let here = items_trace(path@, naming, xs@, i as nat, depth as nat);
                assert(here == followed_by(
                    step,
                    items_trace(path@, naming, xs@, (i + 1) as nat, depth as nat),
                ));
                assert(step.stopped_at is Some);
                assert(here == step);
                assert(whole.records =~= acc + step.records);
                assert(records_view(out@) =~= start + whole.records);
            }
            return r;
        }
        proof {
            assert(start + acc + step.records =~= start + (acc + step.records));
            acc = acc + step.records;
            let rest = items_trace(path@, naming, xs@, (i + 1) as nat, depth as nat);
            assert(whole.records =~= acc + rest.records);
        }
        i = i + 1;
    }
    assert(whole.records =~= acc);
    None
}

/// The walking order that `order` gives, declaration order without one.
pub open spec fn order_view(order: Option<&Vec<usize>>, n: nat) -> Seq<int> {
    match order {
        Some(o) => o@.map_values(|j: usize| j as int),
        None => identity_positions(n),
    }
}

/// Walks the named entries of `es` below `path`, in the order `order`
/// gives their positions (declaration order without one).
fn walk_entries<'a>(
    path: &str,
    naming: EntryNaming,
    es: &'a Vec<(String, ReflectedValue)>,
    order: Option<&Vec<usize>>,
    depth: usize,
    out: &mut Vec<(String, &'a [u8])>,
) -> (r: Option<String>)
    requires
        depth <= MAX_REFLECT_DEPTH + 1,
    ensures
        records_view(final(out)@) == records_view(old(out)@) + entries_trace(
            path@,
            naming,
            es@,
            order_view(order, es@.len()),
            0,
            depth as nat,
        ).records,
        opt_text(r) == entries_trace(
            path@,
            naming,
            es@,
            order_view(order, es@.len()),
            0,
            depth as nat,
        ).stopped_at,
    decreases es@, 1int,
{
    let ghost ord = order_view(order, es@.len());
    let ghost start = records_view(out@);
    let ghost whole = entries_trace(path@, naming, es@, ord, 0, depth as nat);
    let ghost mut acc: Seq<(Seq<char>, Seq<u8>)> = seq![];
    let n = match order {
        Some(o) => o.len(),
        None => es.len(),
    };
    let mut i: usize = 0;
    assert(start =~= start + acc);
    while i < n
        invariant
            i <= n,
            n == ord.len(),
            depth <= MAX_REFLECT_DEPTH + 1,
            ord == order_view(order, es@.len()),
            whole == entries_trace(path@, naming, es@, ord, 0, depth as nat),
            start == records_view(old(out)@),
            records_view(out@) == start + acc,
            whole == followed_by(
                WalkTrace { records: acc, stopped_at: None },
                entries_trace(path@, naming, es@, ord, i as nat, depth as nat),
            ),
        decreases n - i,
    {
        let j = match order {
            Some(o) => o[i],
            None => i,
        };
        assert(ord[i as int] == j as int);
        if j < es.len() {
            let child = entry_path_text(path, naming, es[j].0.as_str());
            let ghost cp = child@;
            let r = walk(child, &es[j].1, depth, out);
            let ghost step = value_trace(cp, es@[j as int].1, depth as nat);
            if r.is_some() {
                proof {
                    let here = entries_trace(path@, naming, es@, ord, i as nat, depth as nat);
                    assert(here == followed_by(
                        step,
                        entries_trace(path@, naming, es@, ord, (i + 1) as nat, depth as nat),
                    ));
                    assert(step.stopped_at is Some);
                    assert(here == step);
                    assert(whole.records =~= acc + step.records);
                    assert(records_view(out@) =~= start + whole.records);
                }
                return r;
            }
            proof {
                assert(start + acc + step.records =~= start + (acc + step.records));
                acc = acc + step.records;
                let rest = entries_trace(path@, naming, es@, ord, (i + 1) as nat, depth as nat);
                assert(whole.records =~= acc + rest.records);
            }
        }
        i = i + 1;
    }
    assert(whole.records =~= acc);
    None
}

/// The walk of a root struct's tagged fields: each field of `fields[k..]`
/// whose name is in `tagged`, in declaration order, one level below the
/// root, under `prefix.name` (just `name` for an empty prefix). Untagged
/// fields are skipped whole.
pub open spec fn tagged_trace(
    prefix: Seq<char>,
    fields: Seq<(String, ReflectedValue)>,
    tagged: Seq<Seq<char>>,
    k: nat,
) -> WalkTrace
    decreases fields.len() - k,
{
    if k >= fields.len() {
        empty_trace()
    } else if tagged.contains(fields[k as int].0@) {
        followed_by(
            value_trace(joined_path(prefix, fields[k as int].0@), fields[k as int].1, 1),
            tagged_trace(prefix, fields, tagged, k + 1),
        )
    } else {
        tagged_trace(prefix, fields, tagged, k + 1)
    }
}

/// Whether `name` is one of `tracked_fields`.
fn is_tagged(tracked_fields: &[&str], name: &str) -> (b: bool)
    ensures
        b == tracked_fields@.map_values(|s: &str| s@).contains(name@),
{
    let ghost names = tracked_fields@.map_values(|s: &str| s@);
    let mut i: usize = 0;
    while i < tracked_fields.len()
        invariant
            i <= tracked_fields@.len(),
            names == tracked_fields@.map_values(|s: &str| s@),
            forall|k: int| 0 <= k < i ==> #[trigger] names[k] != name@,
        decreases tracked_fields@.len() - i,
    {
        if str_eq(tracked_fields[i], name) {
            assert(names[i as int] == name@);
            return true;
        }
        i = i + 1;
    }
    false
}

/// Walks a root struct's tagged fields (those named in `tracked_fields`),
/// and everything beneath them, without recording anything: returns the
/// leaves in the order they are met, each with its path and the bytes that
/// stand for it, and the path at which the walk gave up on depth, if it
/// did.
pub fn reflect_trace<'a>(
    field_name_prefix: &str,
    fields: &'a Vec<(String, ReflectedValue)>,
    tracked_fields: &[&str],
) -> (r: (Vec<(String, &'a [u8])>, Option<String>))
    ensures
        records_view(r.0@) == tagged_trace(
            field_name_prefix@,
            fields@,
            tracked_fields@.map_values(|s: &str| s@),
            0,
        ).records,
        opt_text(r.1) == tagged_trace(
            field_name_prefix@,
            fields@,
            tracked_fields@.map_values(|s: &str| s@),
            0,
        ).stopped_at,
{
    let ghost tagged = tracked_fields@.map_values(|s: &str| s@);
    let ghost whole = tagged_trace(field_name_prefix@, fields@, tagged, 0);
    let ghost mut acc: Seq<(Seq<char>, Seq<u8>)> = seq![];
    let mut out: Vec<(String, &'a [u8])> = Vec::new();
    let mut i: usize = 0;
    assert(records_view(out@) =~= acc);
    while i < fields.len()
        invariant
            i <= fields@.len(),
            tagged == tracked_fields@.map_values(|s: &str| s@),
            whole == tagged_trace(field_name_prefix@, fields@, tagged, 0),
            records_view(out@) == acc,
            whole == followed_by(
                WalkTrace { records: acc, stopped_at: None },
                tagged_trace(field_name_prefix@, fields@, tagged, i as nat),
            ),
        decreases fields@.len() - i,
    {
        if is_tagged(tracked_fields, fields[i].0.as_str()) {
            let child = join_path(field_name_prefix, fields[i].0.as_str());
            let ghost cp = child@;
            let r = walk(child, &fields[i].1, 1, &mut out);
            let ghost step = value_trace(cp, fields@[i as int].1, 1);
            if r.is_some() {
                proof {
                    let here = tagged_trace(field_name_prefix@, fields@, tagged, i as nat);
                    assert(here == followed_by(
                        step,
                        tagged_trace(field_name_prefix@, fields@, tagged, (i + 1) as nat),
                    ));
                    assert(here == step);
                    assert(whole.records =~= acc + step.records);
                }
                return (out, r);
            }
            proof {
                acc = acc + step.records;
                let rest = tagged_trace(field_name_prefix@, fields@, tagged, (i + 1) as nat);
                assert(whole.records =~= acc + rest.records);
            }
        }
        i = i + 1;
    }
    assert(whole.records =~= acc);
    (out, None)
}

/// The field hash frame that records the leaf `rec`.
pub open spec fn field_frame(tick: u64, peer_id: u16, entity_id: u64, rec: (Seq<char>, Seq<u8>)) -> FrameModel {
    FrameModel::FieldHash {
        tick,
        peer_id,
        entity_id,
        field_name: rec.0,
        hash: xxh3_64_of(rec.1),
        value: rec.1,
    }
}

/// The session after this session hashes each of the leaves `recs` as a
/// field of `entity_id` at `tick`, in order.
pub open spec fn with_field_records(
    m: SessionModel,
    tick: u64,
    entity_id: u64,
    recs: Seq<(Seq<char>, Seq<u8>)>,
) -> SessionModel {
    if m.recording {
        SessionModel {
            frames: m.frames + recs.map_values(
                |rec: (Seq<char>, Seq<u8>)| field_frame(tick, m.local_peer_id, entity_id, rec),
            ),
            ..m
        }
    } else {
        m
    }
}

/// Whether the field hash frame for the leaf `rec` can be written.
pub open spec fn record_fits(rec: (Seq<char>, Seq<u8>)) -> bool {
    field_hash_payload_fits(rec.0, rec.1)
}

/// How many of the leaves `recs`, from the first, can be written before
/// the first that cannot.
pub open spec fn fitting_len(recs: Seq<(Seq<char>, Seq<u8>)>) -> nat
    decreases recs.len(),
{
    if recs.len() == 0 {
        0
    } else if !record_fits(recs[0]) {
        0
    } else {
        1 + fitting_len(recs.drop_first())
    }
}

pub(crate) proof fn lemma_fitting_len(recs: Seq<(Seq<char>, Seq<u8>)>, i: nat)
    requires
        i <= recs.len(),
        forall|k: int| 0 <= k < i ==> #[trigger] record_fits(recs[k]),
        i == recs.len() || !record_fits(recs[i as int]),
    ensures
        fitting_len(recs) == i,
    decreases i,
{
    if i > 0 {
        let rest = recs.drop_first();
        assert forall|k: int| 0 <= k < i - 1 implies #[trigger] record_fits(rest[k]) by {
            assert(rest[k] == recs[k + 1]);
            assert(record_fits(recs[k + 1]));
        }
        if i < recs.len() {
            assert(rest[i - 1] == recs[i as int]);
        }
        assert(record_fits(recs[0]));
        lemma_fitting_len(rest, (i - 1) as nat);
    }
}

/// The session after `name`'s schema is recorded: unchanged if it already
/// was, else the type is remembered and its schema frame recorded.
pub open spec fn after_schema(m: SessionModel, name: Seq<char>, tagged: Seq<Seq<char>>) -> SessionModel {
    if m.schema_types.contains(name) {
        m
    } else {
        with_frame(
            SessionModel { schema_types: m.schema_types.push(name), ..m },
            FrameModel::Metadata { key: schema_key_prefix() + name, value: fingerprint_of(tagged) },
        )
    }
}

/// The `(path, hash)` pairs of the leaves `recs`.
pub open spec fn preview_of(recs: Seq<(Seq<char>, Seq<u8>)>) -> Seq<(Seq<char>, u64)> {
    recs.map_values(|rec: (Seq<char>, Seq<u8>)| (rec.0, xxh3_64_of(rec.1)))
}

/// A list of `(path, hash)` pairs as plain values.
pub open spec fn pairs_view(v: Seq<(String, u64)>) -> Seq<(Seq<char>, u64)> {
    v.map_values(|e: (String, u64)| (e.0@, e.1))
}

/// Hashes `root`'s tracked fields (those named in `tracked_fields`) and
/// everything reachable beneath them, recording each leaf as a field hash
/// of `entity_id` at `tick` named by its dotted or indexed path from
/// `field_name_prefix`. The type's schema (`name` and its tracked fields)
/// is recorded first, once per session. Returns the `(path, hash)` pairs
/// recorded, in order.
///
/// Fails with `ReflectionRootNotStruct` when `root` is not a struct,
/// changing nothing; with `ReflectionDepthExceeded` when the walk goes
/// deeper than [`MAX_REFLECT_DEPTH`], after recording the leaves met before
/// that point; and, when recording, with `MalformedFrame` when the schema
/// frame or a leaf's frame is too large for the format, after recording
/// what came before it.
pub fn hash_reflected(
    session: &mut Session,
    tick: u64,
    entity_id: u64,
    field_name_prefix: &str,
    name: &str,
    tracked_fields: &[&str],
    root: &ReflectedValue,
) -> (r: Result<Vec<(String, u64)>, Error>)
    requires
        old(session).wf(),
    ensures
        final(session).wf(),
        match *root {
            ReflectedValue::Struct(fs) => {
                let tagged = tracked_fields@.map_values(|s: &str| s@);
                let m0 = old(session)@;
                let meta = FrameModel::Metadata {
                    key: schema_key_prefix() + name@,
                    value: fingerprint_of(tagged),
                };
                let m1 = after_schema(m0, name@, tagged);
                let t = tagged_trace(field_name_prefix@, fs@, tagged, 0);
                let n = fitting_len(t.records);
                if m0.recording && !frame_fits(meta) {
                    &&& r matches Err(Error::MalformedFrame)
                    &&& final(session)@ == m0
                } else if m0.recording && n < t.records.len() {
                    &&& r matches Err(Error::MalformedFrame)
                    &&& final(session)@ == with_field_records(
                        m1,
                        tick,
                        entity_id,
                        t.records.take(n as int),
                    )
                } else {
                    &&& final(session)@ == with_field_records(m1, tick, entity_id, t.records)
                    &&& match t.stopped_at {
                        Some(p) => r matches Err(Error::ReflectionDepthExceeded { path, max_depth })
                            && path@ == p && max_depth == MAX_REFLECT_DEPTH,
                        None => r matches Ok(v) && pairs_view(v@) == preview_of(t.records),
                    }
                }
            },
            _ => r matches Err(Error::ReflectionRootNotStruct) && final(session)@ == old(session)@,
        },
{
    let fs = match root {
        ReflectedValue::Struct(fs) => fs,
        _ => {
            return Err(Error::ReflectionRootNotStruct);
        },
    };
    let ghost tagged = tracked_fields@.map_values(|s: &str| s@);
    let ghost m0 = session@;
    if session.is_recording() {
        let key = schema_metadata_key(name);
        let fp = fingerprint(tracked_fields);
        if !metadata_fits(key.as_str(), fp.as_str()) {
            return Err(Error::MalformedFrame);
        }
    }
    let _ = session.record_schema(name, tracked_fields);
    let ghost m1 = session@;
    assert(m1 == after_schema(m0, name@, tagged));
    let (records, stopped) = reflect_trace(field_name_prefix, fs, tracked_fields);
    let ghost recs = records_view(records@);
    let ghost total = records@.len();
    let mut preview: Vec<(String, u64)> = Vec::new();
    assert(session@ =~= with_field_records(m1, tick, entity_id, recs.take(0)));
    assert(pairs_view(preview@) =~= preview_of(recs.take(0)));
    for rec in it: records.into_iter()
        invariant
            it.seq() == records@,
            total == records@.len(),
            recs == records_view(records@),
            recs == tagged_trace(field_name_prefix@, fs@, tagged, 0).records,
            tagged == tracked_fields@.map_values(|s: &str| s@),
            m0 == old(session)@,
            m1 == after_schema(m0, name@, tagged),
            m0.recording ==> frame_fits(
                FrameModel::Metadata { key: schema_key_prefix() + name@, value: fingerprint_of(tagged) },
            ),
            *root == ReflectedValue::Struct(*fs),
            session.wf(),
            m1.recording == m0.recording,
            session@ == with_field_records(m1, tick, entity_id, recs.take(it.index() as int)),
            m0.recording ==> forall|k: int| 0 <= k < it.index() ==> #[trigger] record_fits(recs[k]),
            pairs_view(preview@) == preview_of(recs.take(it.index() as int)),
    {
        let ghost i = it.index();
        let (path, bytes) = rec;
        assert(recs[i as int] == (path@, bytes@));
        if session.is_recording() && !field_hash_fits(path.as_str(), bytes) {
            proof {
                lemma_fitting_len(recs, i as nat);
            }
            return Err(Error::MalformedFrame);
        }
        let _ = session.hash_field(tick, entity_id, path.as_str(), bytes);
        let h = hash_bytes(bytes);
        let ghost pv = preview@;
        let ghost pth = path@;
        preview.push((path, h));
        proof {
            let fr = |rec: (Seq<char>, Seq<u8>)| field_frame(tick, m1.local_peer_id, entity_id, rec);
            assert(recs.take(i + 1) =~= recs.take(i as int).push(recs[i as int]));
            assert(recs.take(i + 1).map_values(fr) =~= recs.take(i as int).map_values(fr).push(
                fr(recs[i as int]),
            ));
            if m1.recording {
                assert(m1.frames + recs.take(i + 1).map_values(fr) =~= (m1.frames + recs.take(
                    i as int,
                ).map_values(fr)).push(fr(recs[i as int])));
            }
            assert(session@ =~= with_field_records(m1, tick, entity_id, recs.take(i + 1)));
            assert(pairs_view(preview@) =~= pairs_view(pv).push((pth, h)));
            assert(preview_of(recs.take(i + 1)) =~= preview_of(recs.take(i as int)).push(
                (pth, xxh3_64_of(bytes@)),
            ));
        }
    }
    proof {
        assert(recs.take(total as int) =~= recs);
        if m0.recording {
            lemma_fitting_len(recs, total as nat);
        }
    }
    match stopped {
        Some(p) => Err(Error::ReflectionDepthExceeded { path: p, max_depth: MAX_REFLECT_DEPTH }),
        None => Ok(preview),
    }
}

/// An untagged top-level field is invisible to the walk: two roots whose
/// fields have the same names, and the same values wherever the name is
/// tagged, walk identically, whatever their untagged fields hold.
pub proof fn lemma_untagged_fields_invisible(
    prefix: Seq<char>,
    a: Seq<(String, ReflectedValue)>,
    b: Seq<(String, ReflectedValue)>,
    tagged: Seq<Seq<char>>,
)
    requires
        a.len() == b.len(),
        forall|i: int| 0 <= i < a.len() ==> #[trigger] a[i].0@ == b[i].0@,
        forall|i: int|
            0 <= i < a.len() && tagged.contains(#[trigger] a[i].0@) ==> a[i].1 == b[i].1,
    ensures
        tagged_trace(prefix, a, tagged, 0) == tagged_trace(prefix, b, tagged, 0),
{
    lemma_untagged_fields_invisible_from(prefix, a, b, tagged, 0);
}

proof fn lemma_untagged_fields_invisible_from(
    prefix: Seq<char>,
    a: Seq<(String, ReflectedValue)>,
    b: Seq<(String, ReflectedValue)>,
    tagged: Seq<Seq<char>>,
    k: nat,
)
    requires
        a.len() == b.len(),
        forall|i: int| 0 <= i < a.len() ==> #[trigger] a[i].0@ == b[i].0@,
        forall|i: int|
            0 <= i < a.len() && tagged.contains(#[trigger] a[i].0@) ==> a[i].1 == b[i].1,
    ensures
        tagged_trace(prefix, a, tagged, k) == tagged_trace(prefix, b, tagged, k),
    decreases a.len() - k,
{
    if k < a.len() {
        lemma_untagged_fields_invisible_from(prefix, a, b, tagged, k + 1);
        assert(a[k as int].0@ == b[k as int].0@);
    }
}

/// A type's schema is recorded once per session: once `name` has been
/// through a reflective hash, later ones (whatever leaves were recorded in
/// between) record no schema frame again.
pub proof fn lemma_schema_recorded_once(
    m: SessionModel,
    name: Seq<char>,
    tagged: Seq<Seq<char>>,
    later_tagged: Seq<Seq<char>>,
    tick: u64,
    entity_id: u64,
    recs: Seq<(Seq<char>, Seq<u8>)>,
)
    ensures
        ({
            let after = with_field_records(after_schema(m, name, tagged), tick, entity_id, recs);
            after_schema(after, name, later_tagged) == after
        }),
{
    let m1 = after_schema(m, name, tagged);
    assert(m1.schema_types.contains(name)) by {
        if !m.schema_types.contains(name) {
            assert(m.schema_types.push(name)[m.schema_types.len() as int] == name);
        }
    }
}

/// The entries of `es` at the positions `order`, in that order.
pub open spec fn arranged(es: Seq<(String, ReflectedValue)>, order: Seq<int>) -> Seq<
    (String, ReflectedValue),
> {
    order.map_values(|j: int| es[j])
}

/// The walk of the entries `xs[k..]` below `path`, in the order given.
pub open spec fn listed_trace(
    path: Seq<char>,
    naming: EntryNaming,
    xs: Seq<(String, ReflectedValue)>,
    k: nat,
    depth: nat,
) -> WalkTrace
    decreases xs.len() - k,
{
    if k >= xs.len() {
        empty_trace()
    } else {
        followed_by(
            value_trace(entry_path(path, naming, xs[k as int].0@), xs[k as int].1, depth),
            listed_trace(path, naming, xs, k + 1, depth),
        )
    }
}

proof fn lemma_entries_trace_arranged(
    path: Seq<char>,
    naming: EntryNaming,
    es: Seq<(String, ReflectedValue)>,
    order: Seq<int>,
    k: nat,
    depth: nat,
)
    requires
        forall|i: int| 0 <= i < order.len() ==> 0 <= #[trigger] order[i] < es.len(),
    ensures
        entries_trace(path, naming, es, order, k, depth) == listed_trace(
            path,
            naming,
            arranged(es, order),
            k,
            depth,
        ),
    decreases order.len() - k,
{
    if k < order.len() {
        lemma_entries_trace_arranged(path, naming, es, order, k + 1, depth);
        assert(arranged(es, order)[k as int] == es[order[k as int]]);
    }
}

/// Rearranging a sequence rearranges its image under any function.
proof fn lemma_map_values_multiset<A, B>(s1: Seq<A>, s2: Seq<A>, f: spec_fn(A) -> B)
    requires
        s1.to_multiset() == s2.to_multiset(),
    ensures
        s1.map_values(f).to_multiset() == s2.map_values(f).to_multiset(),
    decreases s1.len(),
{
    broadcast use vstd::multiset::group_multiset_axioms;

    assert(s1.to_multiset().len() == s1.len());
    assert(s2.to_multiset().len() == s2.len());
    if s1.len() == 0 {
        assert(s2.len() == 0);
        assert(s1.map_values(f) =~= Seq::<B>::empty());
        assert(s2.map_values(f) =~= Seq::<B>::empty());
    } else {
        let x = s1.last();
        let rest1 = s1.drop_last();
        assert(s1 =~= rest1.push(x));
        assert(s1.to_multiset().count(x) > 0);
        assert(s2.contains(x));
        let i = choose|i: int| 0 <= i < s2.len() && s2[i] == x;
        let rest2 = s2.remove(i);
        assert(rest1.to_multiset() =~= s1.to_multiset().remove(x));
        assert(rest2.to_multiset() =~= s2.to_multiset().remove(x));
        lemma_map_values_multiset(rest1, rest2, f);
        assert(s1.map_values(f) =~= rest1.map_values(f).push(f(x)));
        assert(rest2.map_values(f) =~= s2.map_values(f).remove(i));
        let m2 = s2.map_values(f);
        assert(m2.remove(i).to_multiset() =~= m2.to_multiset().remove(f(x)));
        assert(m2.to_multiset().count(f(x)) > 0) by {
            assert(m2[i] == f(x));
            assert(m2.contains(f(x)));
        }
        assert(m2.to_multiset() =~= m2.to_multiset().remove(f(x)).insert(f(x)));
    }
}

/// What the walking order of entries is: every position exactly once, the
/// entries at those positions a rearrangement of all of them, their texts
/// in `str` order.
proof fn lemma_sorted_positions(es: Seq<(String, ReflectedValue)>)
    ensures
        sorted_positions(es).len() == es.len(),
        forall|i: int|
            0 <= i < sorted_positions(es).len() ==> 0 <= #[trigger] sorted_positions(es)[i]
                < es.len(),
        arranged(es, sorted_positions(es)).to_multiset() == es.to_multiset(),
        forall|i: int, j: int|
            0 <= i <= j < es.len() ==> name_le(
                #[trigger] arranged(es, sorted_positions(es))[i].0@,
                #[trigger] arranged(es, sorted_positions(es))[j].0@,
            ),
{
    let ks = keyed(es);
    let ord = entry_order();
    lemma_entry_order_total();
    lemma_name_order_total();
    ks.lemma_sort_by_ensures(ord);
    let srt = ks.sort_by(ord);
    let sp = sorted_positions(es);
    assert(srt.to_multiset().len() == srt.len());
    assert(ks.to_multiset().len() == ks.len());
    assert(srt.len() == ks.len());
    assert forall|i: int| 0 <= i < srt.len() implies exists|j: int|
        0 <= j < es.len() && #[trigger] srt[i] == (es[j].0@, j) by {
        assert(srt.contains(srt[i]));
        assert(srt.to_multiset().count(srt[i]) > 0);
        assert(ks.contains(srt[i]));
        let j = choose|j: int| 0 <= j < ks.len() && ks[j] == srt[i];
        assert(ks[j] == (es[j].0@, j));
    }
    let f = |p: (Seq<char>, int)| es[p.1];
    assert(arranged(es, sp) =~= srt.map_values(f));
    assert(ks.map_values(f) =~= es);
    lemma_map_values_multiset(srt, ks, f);
    assert forall|i: int| 0 <= i < sp.len() implies 0 <= #[trigger] sp[i] < es.len() && srt[i].0
        == es[sp[i]].0@ by {
        let j = choose|j: int| 0 <= j < es.len() && #[trigger] srt[i] == (es[j].0@, j);
    }
    assert forall|i: int, j: int| 0 <= i <= j < es.len() implies name_le(
        #[trigger] arranged(es, sp)[i].0@,
        #[trigger] arranged(es, sp)[j].0@,
    ) by {
        assert(arranged(es, sp)[i] == es[sp[i]]);
        assert(arranged(es, sp)[j] == es[sp[j]]);
        assert(srt[i].0 == es[sp[i]].0@);
        assert(srt[j].0 == es[sp[j]].0@);
        assert(name_order()(srt[i].0, srt[i].0));
        if i < j {
            assert(ord(srt[i], srt[j]));
        }
    }
}

/// Map entries and set members are walked in an order fixed by their
/// texts alone: rearranging them changes nothing, so long as no two share
/// a text.
pub proof fn lemma_entry_order_irrelevant(
    path: Seq<char>,
    naming: EntryNaming,
    a: Seq<(String, ReflectedValue)>,
    b: Seq<(String, ReflectedValue)>,
    depth: nat,
)
    requires
        a.to_multiset() == b.to_multiset(),
        forall|i: int, j: int|
            0 <= i < a.len() && 0 <= j < a.len() && i != j ==> #[trigger] a[i].0@ != #[trigger] a[j].0@,
    ensures
        entries_trace(path, naming, a, sorted_positions(a), 0, depth) == entries_trace(
            path,
            naming,
            b,
            sorted_positions(b),
            0,
            depth,
        ),
{
    broadcast use vstd::multiset::group_multiset_axioms;

    lemma_sorted_positions(a);
    lemma_sorted_positions(b);
    let sa = arranged(a, sorted_positions(a));
    let sb = arranged(b, sorted_positions(b));
    lemma_entries_trace_arranged(path, naming, a, sorted_positions(a), 0, depth);
    lemma_entries_trace_arranged(path, naming, b, sorted_positions(b), 0, depth);
    let key = |e: (String, ReflectedValue)| e.0@;
    lemma_map_values_multiset(sa, a, key);
    lemma_map_values_multiset(sb, b, key);
    lemma_map_values_multiset(a, b, key);
    let ka = sa.map_values(key);
    let kb = sb.map_values(key);
    lemma_name_order_total();
    assert(sorted_by(ka, name_order())) by {
        assert forall|i: int, j: int| 0 <= i < j < ka.len() implies name_order()(ka[i], ka[j]) by {
            assert(name_le(sa[i].0@, sa[j].0@));
        }
    }
    assert(sorted_by(kb, name_order())) by {
        assert forall|i: int, j: int| 0 <= i < j < kb.len() implies name_order()(kb[i], kb[j]) by {
            assert(name_le(sb[i].0@, sb[j].0@));
        }
    }
    vstd::seq_lib::lemma_sorted_unique(ka, kb, name_order());
    assert(sa.len() == sb.len());
    assert forall|k: int| 0 <= k < sa.len() implies sa[k] == sb[k] by {
        assert(sa.contains(sa[k]));
        assert(sa.to_multiset().count(sa[k]) > 0);
        assert(a.contains(sa[k]));
        let p = choose|p: int| 0 <= p < a.len() && a[p] == sa[k];
        assert(sb.contains(sb[k]));
        assert(sb.to_multiset().count(sb[k]) > 0);
        assert(b.to_multiset().count(sb[k]) > 0);
        assert(a.contains(sb[k]));
        let q = choose|q: int| 0 <= q < a.len() && a[q] == sb[k];
        assert(ka[k] == kb[k]);
        assert(a[p].0@ == a[q].0@);
    }
    assert(sa =~= sb);
}

/// A map's walk, and a set's, does not depend on the order in which its
/// entries came, so long as no two entries render to the same text.
pub proof fn lemma_map_and_set_walks_ignore_entry_order(
    path: Seq<char>,
    x: Vec<(String, ReflectedValue)>,
    y: Vec<(String, ReflectedValue)>,
    depth: nat,
)
    requires
        x@.to_multiset() == y@.to_multiset(),
        forall|i: int, j: int|
            0 <= i < x@.len() && 0 <= j < x@.len() && i != j ==> #[trigger] x@[i].0@
                != #[trigger] x@[j].0@,
    ensures
        value_trace(path, ReflectedValue::MapEntries(x), depth) == value_trace(
            path,
            ReflectedValue::MapEntries(y),
            depth,
        ),
        value_trace(path, ReflectedValue::SetItems(x), depth) == value_trace(
            path,
            ReflectedValue::SetItems(y),
            depth,
        ),
{
    lemma_entry_order_irrelevant(path, EntryNaming::Keyed, x@, y@, depth + 1);
    lemma_entry_order_irrelevant(path, EntryNaming::Member, x@, y@, depth + 1);
}

} // verus!
