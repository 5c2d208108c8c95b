//! Reflective hashing over a Godot-style object graph: every property whose
//! name carries the tracked prefix (`foldback_`) is walked, the prefix being checked
//! again at every nested object; arrays and dictionaries are walked in
//! their own order (both are ordered in Godot); every leaf is recorded as a
//! field hash named by its path. Objects can refer to each other, so the
//! walk keeps the objects it is inside and refuses to enter one twice, and
//! gives up past a fixed depth.
//!
//! The graph arrives as plain data: the objects in an arena, and values
//! that refer to them by position. Reading an engine's objects into it
//! happens outside the library.
use vstd::prelude::*;

use crate::binding::{has_tracked_prefix, is_tracked_name};
use crate::format::field_hash_fits;
use crate::hash::{hash_bytes, xxh3_64_of};
use crate::reflect_walk::{
    decimal,
    decimal_text,
    field_frame,
    fitting_len,
    pairs_view,
    preview_of,
    record_fits,
    with_field_records,
};
use crate::session::Session;

verus! {

broadcast use vstd::seq_lib::group_seq_properties;

/// How deep a walk may go below its start before it gives up.
pub const DEFAULT_MAX_DEPTH: usize = 8;

/// A value as the engine's variant type holds it.
pub enum VariantValue {
    /// The empty value.
    Nil,
    /// A reference to the object at this position of the arena; `None` for
    /// a freed or otherwise invalid reference.
    Object(Option<usize>),
    /// An array's items, in order.
    Array(Vec<VariantValue>),
    /// A dictionary's entries, each with its key rendered as text, in the
    /// dictionary's (insertion) order.
    Dictionary(Vec<(String, VariantValue)>),
    /// Any other value: the bytes that stand for it.
    Leaf(Vec<u8>),
}

/// One object of the graph: its identity and its properties, by name, in
/// the order of its property list.
pub struct GodotObject {
    pub instance_id: u64,
    pub properties: Vec<(String, VariantValue)>,
}

/// Why a walk gave up.
#[derive(Debug)]
pub enum GodotWalkError {
    /// The walk went deeper than [`DEFAULT_MAX_DEPTH`]; the path where.
    DepthExceeded(String),
    /// The walk met an object it was already inside; the path where.
    ReferenceCycle(String),
    /// A leaf's field hash frame does not fit the format; its path.
    FrameTooLarge(String),
}

/// Where and why a walk stopped.
pub enum WalkStop {
    Depth(Seq<char>),
    Cycle(Seq<char>),
}

/// What a walk produced: the leaves it recorded, in order, each as a path
/// and the bytes standing for it; and where it stopped, if it did.
pub struct VariantTrace {
    pub records: Seq<(Seq<char>, Seq<u8>)>,
    pub stopped: Option<WalkStop>,
}

/// A walk that records nothing.
pub open spec fn no_trace() -> VariantTrace {
    VariantTrace { records: seq![], stopped: None }
}

/// Walking `a`, then, unless `a` stopped, `b`.
pub open spec fn and_then_trace(a: VariantTrace, b: VariantTrace) -> VariantTrace {
    if a.stopped is Some {
        a
    } else {
        VariantTrace { records: a.records + b.records, stopped: b.stopped }
    }
}

/// The bytes recorded for an empty value or an invalid reference.
pub open spec fn nil_bytes() -> Seq<u8> {
    seq![0xFFu8]
}

/// The walk of `v`, found at `path`, `depth` levels below the start, while
/// inside the objects `visited`: past [`DEFAULT_MAX_DEPTH`] it stops; an
/// empty value or an invalid reference is recorded as [`nil_bytes`]; an
/// object already being walked stops the walk; any other object has its
/// tracked properties walked, one level deeper, under `path.name`; arrays
/// and dictionaries have their items walked under `path[i]` and
/// `path[key]`; a leaf is recorded under its path.
pub open spec fn variant_trace(
    objects: Seq<GodotObject>,
    path: Seq<char>,
    v: VariantValue,
    depth: nat,
    visited: Seq<u64>,
) -> VariantTrace
    decreases DEFAULT_MAX_DEPTH + 1 - depth, 0int,
{
    if depth > DEFAULT_MAX_DEPTH {
        VariantTrace { records: seq![], stopped: Some(WalkStop::Depth(path)) }
    } else {
        match v {
            VariantValue::Nil => VariantTrace { records: seq![(path, nil_bytes())], stopped: None },
            VariantValue::Object(r) => match r {
                Some(i) => if i < objects.len() {
                    if visited.contains(objects[i as int].instance_id) {
                        VariantTrace { records: seq![], stopped: Some(WalkStop::Cycle(path)) }
                    } else {
                        property_trace(
                            objects,
                            path,
                            objects[i as int].properties@,
                            0,
                            depth + 1,
                            visited.push(objects[i as int].instance_id),
                        )
                    }
                } else {
                    VariantTrace { records: seq![(path, nil_bytes())], stopped: None }
                },
                None => VariantTrace { records: seq![(path, nil_bytes())], stopped: None },
            },
            VariantValue::Array(xs) => element_trace(objects, path, xs@, 0, depth + 1, visited),
            VariantValue::Dictionary(es) => key_trace(objects, path, es@, 0, depth + 1, visited),
            VariantValue::Leaf(bytes) => VariantTrace { records: seq![(path, bytes@)], stopped: None },
        }
    }
}

/// The walk of an object's tracked properties `ps[k..]` below `path`.
pub open spec fn property_trace(
    objects: Seq<GodotObject>,
    path: Seq<char>,
    ps: Seq<(String, VariantValue)>,
    k: nat,
    depth: nat,
    visited: Seq<u64>,
) -> VariantTrace
    decreases DEFAULT_MAX_DEPTH + 1 - depth, ps.len() - k,
{
    if k >= ps.len() || depth > DEFAULT_MAX_DEPTH + 1 {
        no_trace()
    } else if is_tracked_name(ps[k as int].0@) {
        and_then_trace(
            variant_trace(objects, path + seq!['.'] + ps[k as int].0@, ps[k as int].1, depth, visited),
            property_trace(objects, path, ps, k + 1, depth, visited),
        )
    } else {
        property_trace(objects, path, ps, k + 1, depth, visited)
    }
}

/// The walk of an array's items `xs[k..]` below `path`.
pub open spec fn element_trace(
    objects: Seq<GodotObject>,
    path: Seq<char>,
    xs: Seq<VariantValue>,
    k: nat,
    depth: nat,
    visited: Seq<u64>,
) -> VariantTrace
    decreases DEFAULT_MAX_DEPTH + 1 - depth, xs.len() - k,
{
    if k >= xs.len() || depth > DEFAULT_MAX_DEPTH + 1 {
        no_trace()
    } else {
        and_then_trace(
            variant_trace(
                objects,
                path + seq!['['] + decimal(k) + seq![']'],
                xs[k as int],
                depth,
                visited,
            ),
            element_trace(objects, path, xs, k + 1, depth, visited),
        )
    }
}

/// The walk of a dictionary's entries `es[k..]` below `path`.
pub open spec fn key_trace(
    objects: Seq<GodotObject>,
    path: Seq<char>,
    es: Seq<(String, VariantValue)>,
    k: nat,
    depth: nat,
    visited: Seq<u64>,
) -> VariantTrace
    decreases DEFAULT_MAX_DEPTH + 1 - depth, es.len() - k,
{
    if k >= es.len() || depth > DEFAULT_MAX_DEPTH + 1 {
        no_trace()
    } else {
        and_then_trace(
            variant_trace(
                objects,
                path + seq!['['] + es[k as int].0@ + seq![']'],
                es[k as int].1,
                depth,
                visited,
            ),
            key_trace(objects, path, es, k + 1, depth, visited),
        )
    }
}

/// A list of recorded leaves as plain values.
pub open spec fn leaves_view(rs: Seq<(String, Vec<u8>)>) -> Seq<(Seq<char>, Seq<u8>)> {
    rs.map_values(|r: (String, Vec<u8>)| (r.0@, r.1@))
}

/// Where a walk's error says it stopped.
pub open spec fn stop_of(e: Option<GodotWalkError>) -> Option<WalkStop> {
    match e {
        Some(GodotWalkError::DepthExceeded(p)) => Some(WalkStop::Depth(p@)),
        Some(GodotWalkError::ReferenceCycle(p)) => Some(WalkStop::Cycle(p@)),
        _ => None,
    }
}

proof fn lemma_leaves_view_push(rs: Seq<(String, Vec<u8>)>, r: (String, Vec<u8>))
    ensures
        leaves_view(rs.push(r)) == leaves_view(rs).push((r.0@, r.1@)),
{
    assert(leaves_view(rs.push(r)) =~= leaves_view(rs).push((r.0@, r.1@)));
}

/// `path` followed by `text`.
fn joined(path: &str, text: &str) -> (r: String)
    ensures
        r@ == path@ + text@,
{
    let mut out = String::from_str(path);
    out.append(text);
    out
}

/// Whether `id` is among `visited`.
fn contains_id(visited: &Vec<u64>, id: u64) -> (b: bool)
    ensures
        b == visited@.contains(id),
{
    let mut i: usize = 0;
    while i < visited.len()
        invariant
            i <= visited@.len(),
            forall|k: int| 0 <= k < i ==> #[trigger] visited@[k] != id,
        decreases visited@.len() - i,
    {
        if visited[i] == id {
            assert(visited@[i as int] == id);
            return true;
        }
        i = i + 1;
    }
    false
}

/// The bytes recorded for an empty value or an invalid reference.
fn nil_leaf() -> (v: Vec<u8>)
    ensures
        v@ == nil_bytes(),
{
    let mut v: Vec<u8> = Vec::new();
    v.push(0xFFu8);
    assert(v@ =~= nil_bytes());
    v
}

/// Records one leaf.
fn push_leaf(out: &mut Vec<(String, Vec<u8>)>, path: String, bytes: Vec<u8>)
    ensures
        leaves_view(final(out)@) == leaves_view(old(out)@) + seq![(path@, bytes@)],
{
    let ghost before = out@;
    let ghost p = path@;
    let ghost b = bytes@;
    let rec = (path, bytes);
    out.push(rec);
    proof {
        lemma_leaves_view_push(before, rec);
        assert(leaves_view(out@) =~= leaves_view(before) + seq![(p, b)]);
    }
}

/// Walks `v`, found at `path` `depth` levels below the start, while inside
/// the objects `visited`, appending the leaves it records to `out`; returns
/// why it stopped, if it did.
fn walk_variant(
    objects: &Vec<GodotObject>,
    path: String,
    v: &VariantValue,
    depth: usize,
    visited: &mut Vec<u64>,
    out: &mut Vec<(String, Vec<u8>)>,
) -> (r: Option<GodotWalkError>)
    requires
        depth <= DEFAULT_MAX_DEPTH + 1,
    ensures
        final(visited)@ == old(visited)@,
        leaves_view(final(out)@) == leaves_view(old(out)@) + variant_trace(
            objects@,
            path@,
            *v,
            depth as nat,
            old(visited)@,
        ).records,
        stop_of(r) == variant_trace(objects@, path@, *v, depth as nat, old(visited)@).stopped,
        r matches Some(GodotWalkError::FrameTooLarge(_)) ==> false,
    decreases DEFAULT_MAX_DEPTH + 1 - depth, 0int,
{
    if depth > DEFAULT_MAX_DEPTH {
        assert(leaves_view(out@) =~= leaves_view(out@) + Seq::<(Seq<char>, Seq<u8>)>::empty());
        return Some(GodotWalkError::DepthExceeded(path));
    }
    match v {
        VariantValue::Nil => {
            push_leaf(out, path, nil_leaf());
            None
        },
        VariantValue::Object(r) => match r {
            Some(i) => {
                if *i < objects.len() {
                    let id = objects[*i].instance_id;
                    if contains_id(visited, id) {
                        assert(leaves_view(out@) =~= leaves_view(out@) + Seq::<
                            (Seq<char>, Seq<u8>),
                        >::empty());
                        return Some(GodotWalkError::ReferenceCycle(path));
                    }
                    let ghost before = visited@;
                    visited.push(id);
                    let res = walk_properties(
                        objects,
                        path.as_str(),
                        &objects[*i].properties,
                        depth + 1,
                        visited,
                        out,
                    );
                    visited.pop();
                    assert(visited@ =~= before);
                    res
                } else {
                    push_leaf(out, path, nil_leaf());
                    None
                }
            },
            None => {
                push_leaf(out, path, nil_leaf());
                None
            },
        },
        VariantValue::Array(xs) => walk_elements(objects, path.as_str(), xs, depth + 1, visited, out),
        VariantValue::Dictionary(es) => walk_keys(objects, path.as_str(), es, depth + 1, visited, out),
        VariantValue::Leaf(bytes) => {
            push_leaf(out, path, vstd::slice::slice_to_vec(bytes.as_slice()));
            None
        },
    }
}

/// Walks an object's tracked properties `ps` below `path`.
fn walk_properties(
    objects: &Vec<GodotObject>,
    path: &str,
    ps: &Vec<(String, VariantValue)>,
    depth: usize,
    visited: &mut Vec<u64>,
    out: &mut Vec<(String, Vec<u8>)>,
) -> (r: Option<GodotWalkError>)
    requires
        depth <= DEFAULT_MAX_DEPTH + 1,
    ensures
        final(visited)@ == old(visited)@,
        leaves_view(final(out)@) == leaves_view(old(out)@) + property_trace(
            objects@,
            path@,
            ps@,
            0,
            depth as nat,
            old(visited)@,
        ).records,
        stop_of(r) == property_trace(objects@, path@, ps@, 0, depth as nat, old(visited)@).stopped,
        r matches Some(GodotWalkError::FrameTooLarge(_)) ==> false,
    decreases DEFAULT_MAX_DEPTH + 1 - depth, 1int,
{
    let ghost start = leaves_view(out@);
    let ghost vis = visited@;
    let ghost whole = property_trace(objects@, path@, ps@, 0, depth as nat, vis);
    let ghost mut acc: Seq<(Seq<char>, Seq<u8>)> = seq![];
    let mut i: usize = 0;
    assert(start =~= start + acc);
    proof {
        reveal_strlit(".");
    }
    while i < ps.len()
        invariant
            i <= ps@.len(),
            depth <= DEFAULT_MAX_DEPTH + 1,
            visited@ == vis,
            vis == old(visited)@,
            start == leaves_view(old(out)@),
            whole == property_trace(objects@, path@, ps@, 0, depth as nat, vis),
            leaves_view(out@) == start + acc,
            whole == and_then_trace(
                VariantTrace { records: acc, stopped: None },
                property_trace(objects@, path@, ps@, i as nat, depth as nat, vis),
            ),
            "."@ == seq!['.'],
        decreases ps@.len() - i,
    {
        if has_tracked_prefix(ps[i].0.as_str()) {
            let child = joined(joined(path, ".").as_str(), ps[i].0.as_str());
            let ghost cp = child@;
            assert(cp =~= path@ + seq!['.'] + ps@[i as int].0@);
            let r = walk_variant(objects, child, &ps[i].1, depth, visited, out);
            let ghost step = variant_trace(objects@, cp, ps@[i as int].1, depth as nat, vis);
            if r.is_some() {
                proof {
                    let here = property_trace(objects@, path@, ps@, i as nat, depth as nat, vis);
                    assert(here == and_then_trace(
                        step,
                        property_trace(objects@, path@, ps@, (i + 1) as nat, depth as nat, vis),
                    ));
                    assert(here == step);
                    assert(whole.records =~= acc + step.records);
                    assert(leaves_view(out@) =~= start + whole.records);
                }
                return r;
            }
            proof {
                assert(start + acc + step.records =~= start + (acc + step.records));
                acc = acc + step.records;
                let rest = property_trace(objects@, path@, ps@, (i + 1) as nat, depth as nat, vis);
                assert(whole.records =~= acc + rest.records);
            }
        }
        i = i + 1;
    }
    assert(whole.records =~= acc);
    None
}

/// Walks an array's items `xs` below `path`.
fn walk_elements(
    objects: &Vec<GodotObject>,
    path: &str,
    xs: &Vec<VariantValue>,
    depth: usize,
    visited: &mut Vec<u64>,
    out: &mut Vec<(String, Vec<u8>)>,
) -> (r: Option<GodotWalkError>)
    requires
        depth <= DEFAULT_MAX_DEPTH + 1,
    ensures
        final(visited)@ == old(visited)@,
        leaves_view(final(out)@) == leaves_view(old(out)@) + element_trace(
            objects@,
            path@,
            xs@,
            0,
            depth as nat,
            old(visited)@,
        ).records,
        stop_of(r) == element_trace(objects@, path@, xs@, 0, depth as nat, old(visited)@).stopped,
        r matches Some(GodotWalkError::FrameTooLarge(_)) ==> false,
    decreases DEFAULT_MAX_DEPTH + 1 - depth, 1int,
{
    let ghost start = leaves_view(out@);
    let ghost vis = visited@;
    let ghost whole = element_trace(objects@, path@, xs@, 0, depth as nat, vis);
    let ghost mut acc: Seq<(Seq<char>, Seq<u8>)> = seq![];
    let mut i: usize = 0;
    assert(start =~= start + acc);
    proof {
        reveal_strlit("[");
        reveal_strlit("]");
    }
    while i < xs.len()
        invariant
            i <= xs@.len(),
            depth <= DEFAULT_MAX_DEPTH + 1,
            visited@ == vis,
            vis == old(visited)@,
            start == leaves_view(old(out)@),
            whole == element_trace(objects@, path@, xs@, 0, depth as nat, vis),
            leaves_view(out@) == start + acc,
            whole == and_then_trace(
                VariantTrace { records: acc, stopped: None },
                element_trace(objects@, path@, xs@, i as nat, depth as nat, vis),
            ),
            "["@ == seq!['['],
            "]"@ == seq![']'],
        decreases xs@.len() - i,
    {
        let digits = decimal_text(i);
        let child = joined(joined(joined(path, "[").as_str(), digits.as_str()).as_str(), "]");
        let ghost cp = child@;
        assert(cp =~= path@ + seq!['['] + decimal(i as nat) + seq![']']);
        let r = walk_variant(objects, child, &xs[i], depth, visited, out);
        let ghost step = variant_trace(objects@, cp, xs@[i as int], depth as nat, vis);
        if r.is_some() {
            proof {
                let here = element_trace(objects@, path@, xs@, i as nat, depth as nat, vis);
                assert(here == and_then_trace(
                    step,
                    element_trace(objects@, path@, xs@, (i + 1) as nat, depth as nat, vis),
                ));
                assert(here == step);
                assert(whole.records =~= acc + step.records);
                assert(leaves_view(out@) =~= start + whole.records);
            }
            return r;
        }
        proof {
            assert(start + acc + step.records =~= start + (acc + step.records));
            acc = acc + step.records;
            let rest = element_trace(objects@, path@, xs@, (i + 1) as nat, depth as nat, vis);
            assert(whole.records =~= acc + rest.records);
        }
        i = i + 1;
    }
    assert(whole.records =~= acc);
    None
}

/// Walks a dictionary's entries `es` below `path`, in their order.
fn walk_keys(
    objects: &Vec<GodotObject>,
    path: &str,
    es: &Vec<(String, VariantValue)>,
    depth: usize,
    visited: &mut Vec<u64>,
    out: &mut Vec<(String, Vec<u8>)>,
) -> (r: Option<GodotWalkError>)
    requires
        depth <= DEFAULT_MAX_DEPTH + 1,
    ensures
        final(visited)@ == old(visited)@,
        leaves_view(final(out)@) == leaves_view(old(out)@) + key_trace(
            objects@,
            path@,
            es@,
            0,
            depth as nat,
            old(visited)@,
        ).records,
        stop_of(r) == key_trace(objects@, path@, es@, 0, depth as nat, old(visited)@).stopped,
        r matches Some(GodotWalkError::FrameTooLarge(_)) ==> false,
    decreases DEFAULT_MAX_DEPTH + 1 - depth, 1int,
{
    let ghost start = leaves_view(out@);
    let ghost vis = visited@;
    let ghost whole = key_trace(objects@, path@, es@, 0, depth as nat, vis);
    let ghost mut acc: Seq<(Seq<char>, Seq<u8>)> = seq![];
    let mut i: usize = 0;
    assert(start =~= start + acc);
    proof {
        reveal_strlit("[");
        reveal_strlit("]");
    }
    while i < es.len()
        invariant
            i <= es@.len(),
            depth <= DEFAULT_MAX_DEPTH + 1,
            visited@ == vis,
            vis == old(visited)@,
            start == leaves_view(old(out)@),
            whole == key_trace(objects@, path@, es@, 0, depth as nat, vis),
            leaves_view(out@) == start + acc,
            whole == and_then_trace(
                VariantTrace { records: acc, stopped: None },
                key_trace(objects@, path@, es@, i as nat, depth as nat, vis),
            ),
            "["@ == seq!['['],
            "]"@ == seq![']'],
        decreases es@.len() - i,
    {
        let child = joined(joined(joined(path, "[").as_str(), es[i].0.as_str()).as_str(), "]");
        let ghost cp = child@;
        assert(cp =~= path@ + seq!['['] + es@[i as int].0@ + seq![']']);
        let r = walk_variant(objects, child, &es[i].1, depth, visited, out);
        let ghost step = variant_trace(objects@, cp, es@[i as int].1, depth as nat, vis);
        if r.is_some() {
            proof {
                let here = key_trace(objects@, path@, es@, i as nat, depth as nat, vis);
                assert(here == and_then_trace(
                    step,
                    key_trace(objects@, path@, es@, (i + 1) as nat, depth as nat, vis),
                ));
                assert(here == step);
                assert(whole.records =~= acc + step.records);
                assert(leaves_view(out@) =~= start + whole.records);
            }
            return r;
        }
        proof {
            assert(start + acc + step.records =~= start + (acc + step.records));
            acc = acc + step.records;
            let rest = key_trace(objects@, path@, es@, (i + 1) as nat, depth as nat, vis);
            assert(whole.records =~= acc + rest.records);
        }
        i = i + 1;
    }
    assert(whole.records =~= acc);
    None
}

/// Walks `target` and everything reachable from it through tracked
/// properties, arrays and dictionaries, without recording anything:
/// returns the leaves in the order they are met, each with its path from
/// `field_name_prefix` and the bytes standing for it, and why the walk
/// stopped, if it did.
pub fn variant_leaves(
    field_name_prefix: &str,
    objects: &Vec<GodotObject>,
    target: &VariantValue,
) -> (r: (Vec<(String, Vec<u8>)>, Option<GodotWalkError>))
    ensures
        leaves_view(r.0@) == variant_trace(objects@, field_name_prefix@, *target, 0, seq![]).records,
        stop_of(r.1) == variant_trace(objects@, field_name_prefix@, *target, 0, seq![]).stopped,
        r.1 matches Some(GodotWalkError::FrameTooLarge(_)) ==> false,
{
    let mut visited: Vec<u64> = Vec::new();
    let mut out: Vec<(String, Vec<u8>)> = Vec::new();
    assert(leaves_view(out@) =~= Seq::<(Seq<char>, Seq<u8>)>::empty());
    let stop = walk_variant(objects, String::from_str(field_name_prefix), target, 0, &mut visited, &mut out);
    assert(visited@ =~= Seq::<u64>::empty());
    (out, stop)
}

/// Hashes every tracked property reachable from `target`, the prefix being
/// checked again at each nested object, recording each leaf as a field hash
/// of `entity_id` at `tick` named by its path from `field_name_prefix`.
/// Returns the `(path, hash)` pairs recorded, in order.
///
/// Fails with `DepthExceeded` past [`DEFAULT_MAX_DEPTH`] and with
/// `ReferenceCycle` on entering an object the walk is already inside, in
/// both cases after recording the leaves met before; and, when recording,
/// with `FrameTooLarge` on a leaf whose frame the format cannot hold, after
/// recording what came before it.
pub fn hash_reflected(
    session: &mut Session,
    tick: u64,
    entity_id: u64,
    field_name_prefix: &str,
    objects: &Vec<GodotObject>,
    target: &VariantValue,
) -> (r: Result<Vec<(String, u64)>, GodotWalkError>)
    requires
        old(session).wf(),
    ensures
        final(session).wf(),
        ({
            let m0 = old(session)@;
            let t = variant_trace(objects@, field_name_prefix@, *target, 0, seq![]);
            let n = fitting_len(t.records);
            if m0.recording && n < t.records.len() {
                &&& r matches Err(GodotWalkError::FrameTooLarge(p)) && p@ == t.records[n as int].0
                &&& final(session)@ == with_field_records(m0, tick, entity_id, t.records.take(n as int))
            } else {
                &&& final(session)@ == with_field_records(m0, tick, entity_id, t.records)
                &&& match t.stopped {
                    Some(WalkStop::Depth(p)) => r matches Err(GodotWalkError::DepthExceeded(q)) && q@
                        == p,
                    Some(WalkStop::Cycle(p)) => r matches Err(GodotWalkError::ReferenceCycle(q))
                        && q@ == p,
                    None => r matches Ok(v) && pairs_view(v@) == preview_of(t.records),
                }
            }
        }),
{
    let ghost m0 = session@;
    let (records, stop) = variant_leaves(field_name_prefix, objects, target);
    let ghost recs = leaves_view(records@);
    let ghost total = records@.len();
    let mut preview: Vec<(String, u64)> = Vec::new();
    assert(session@ =~= with_field_records(m0, tick, entity_id, recs.take(0)));
    assert(pairs_view(preview@) =~= preview_of(recs.take(0)));
    for rec in it: records.into_iter()
        invariant
            it.seq() == records@,
            total == records@.len(),
            recs == leaves_view(records@),
            recs == variant_trace(objects@, field_name_prefix@, *target, 0, seq![]).records,
            m0 == old(session)@,
            session.wf(),
            session@ == with_field_records(m0, tick, entity_id, recs.take(it.index() as int)),
            m0.recording ==> forall|k: int| 0 <= k < it.index() ==> #[trigger] record_fits(recs[k]),
            pairs_view(preview@) == preview_of(recs.take(it.index() as int)),
    {
        let ghost i = it.index();
        let (path, bytes) = rec;
        assert(recs[i as int] == (path@, bytes@));
        if session.is_recording() && !field_hash_fits(path.as_str(), bytes.as_slice()) {
            proof {
                crate::reflect_walk::lemma_fitting_len(recs, i as nat);
            }
            return Err(GodotWalkError::FrameTooLarge(path));
        }
        let _ = session.hash_field(tick, entity_id, path.as_str(), bytes.as_slice());
        let h = hash_bytes(bytes.as_slice());
        let ghost pv = preview@;
        let ghost pth = path@;
        preview.push((path, h));
        proof {
            let fr = |rec: (Seq<char>, Seq<u8>)| field_frame(tick, m0.local_peer_id, entity_id, rec);
            assert(recs.take(i + 1) =~= recs.take(i as int).push(recs[i as int]));
            assert(recs.take(i + 1).map_values(fr) =~= recs.take(i as int).map_values(fr).push(
                fr(recs[i as int]),
            ));
            if m0.recording {
                assert(m0.frames + recs.take(i + 1).map_values(fr) =~= (m0.frames + recs.take(
                    i as int,
                ).map_values(fr)).push(fr(recs[i as int])));
            }
            assert(session@ =~= with_field_records(m0, tick, entity_id, recs.take(i + 1)));
            assert(pairs_view(preview@) =~= pairs_view(pv).push((pth, h)));
            assert(preview_of(recs.take(i + 1)) =~= preview_of(recs.take(i as int)).push(
                (pth, xxh3_64_of(bytes@)),
            ));
        }
    }
    proof {
        assert(recs.take(total as int) =~= recs);
        if m0.recording {
            crate::reflect_walk::lemma_fitting_len(recs, total as nat);
        }
    }
    match stop {
        Some(e) => Err(e),
        None => Ok(preview),
    }
}

impl GodotWalkError {
    /// The error as a sentence.
    pub fn message(&self) -> (r: String)
        ensures
            r@ == match *self {
                GodotWalkError::DepthExceeded(p) => "reflective hash walk exceeded max depth 8 at '"@
                    + p@ + "' — likely a cyclic or self-referential reflected object graph"@,
                GodotWalkError::ReferenceCycle(p) => "reflective hash walk found a reference cycle at '"@
                    + p@ + "'"@,
                GodotWalkError::FrameTooLarge(p) => "hash_field failed for '"@ + p@
                    + "': the frame does not fit the format's length fields"@,
            },
    {
        match self {
            GodotWalkError::DepthExceeded(p) => {
                let head = joined("reflective hash walk exceeded max depth 8 at '", p.as_str());
                joined(
                    head.as_str(),
                    "' — likely a cyclic or self-referential reflected object graph",
                )
            },
            GodotWalkError::ReferenceCycle(p) => {
                let head = joined("reflective hash walk found a reference cycle at '", p.as_str());
                joined(head.as_str(), "'")
            },
            GodotWalkError::FrameTooLarge(p) => {
                let head = joined("hash_field failed for '", p.as_str());
                joined(head.as_str(), "': the frame does not fit the format's length fields")
            },
        }
    }
}

/// Only tracked properties are walked, at every object: two property lists
/// with the same names, and the same values wherever the name is tracked,
/// walk identically, whatever the untracked properties hold.
pub proof fn lemma_untracked_properties_invisible(
    objects: Seq<GodotObject>,
    path: Seq<char>,
    a: Seq<(String, VariantValue)>,
    b: Seq<(String, VariantValue)>,
    depth: nat,
    visited: Seq<u64>,
)
    requires
        a.len() == b.len(),
        forall|i: int| 0 <= i < a.len() ==> #[trigger] a[i].0@ == b[i].0@,
        forall|i: int| 0 <= i < a.len() && is_tracked_name(#[trigger] a[i].0@) ==> a[i].1 == b[i].1,
    ensures
        property_trace(objects, path, a, 0, depth, visited) == property_trace(
            objects,
            path,
            b,
            0,
            depth,
            visited,
        ),
{
    lemma_untracked_properties_invisible_from(objects, path, a, b, 0, depth, visited);
}

proof fn lemma_untracked_properties_invisible_from(
    objects: Seq<GodotObject>,
    path: Seq<char>,
    a: Seq<(String, VariantValue)>,
    b: Seq<(String, VariantValue)>,
    k: nat,
    depth: nat,
    visited: Seq<u64>,
)
    requires
        a.len() == b.len(),
        forall|i: int| 0 <= i < a.len() ==> #[trigger] a[i].0@ == b[i].0@,
        forall|i: int| 0 <= i < a.len() && is_tracked_name(#[trigger] a[i].0@) ==> a[i].1 == b[i].1,
    ensures
        property_trace(objects, path, a, k, depth, visited) == property_trace(
            objects,
            path,
            b,
            k,
            depth,
            visited,
        ),
    decreases a.len() - k,
{
    if k < a.len() {
        lemma_untracked_properties_invisible_from(objects, path, a, b, k + 1, depth, visited);
        assert(a[k as int].0@ == b[k as int].0@);
    }
}

} // verus!
