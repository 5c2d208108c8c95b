//! The plain data behind a reflective-hashing preview: what one entity's
//! tracked fields hashed to on the last call, plus the path naming that the
//! walker uses for nested fields.
use vstd::prelude::*;

verus! {

/// One entity's most recently captured field paths and hashes, in the
/// order they were produced.
#[derive(Debug, Default, Clone)]
pub struct ReflectionPreview {
    pub entity_id: u64,
    pub tick: u64,
    pub fields: Vec<(String, u64)>,
}

impl ReflectionPreview {
    /// Builds a preview from a reflective hash call's own return value: the
    /// same data that was recorded, not a re-derived guess.
    pub fn new(entity_id: u64, tick: u64, fields: Vec<(String, u64)>) -> (r: Self)
        ensures
            r.entity_id == entity_id,
            r.tick == tick,
            r.fields == fields,
    {
        ReflectionPreview { entity_id, tick, fields }
    }
}

/// The dotted path of a field: `prefix.field`, or just `field` at the root
/// (empty prefix).
pub open spec fn joined_path(prefix: Seq<char>, field: Seq<char>) -> Seq<char> {
    if prefix.len() == 0 {
        field
    } else {
        prefix + seq!['.'] + field
    }
}

/// Joins a field name onto a dotted path.
pub fn join_path(prefix: &str, field: &str) -> (r: String)
    ensures
        r@ == joined_path(prefix@, field@),
{
    if prefix.is_empty() {
        String::from_str(field)
    } else {
        proof {
            reveal_strlit(".");
        }
        let mut out = String::from_str(prefix);
        out.append(".");
        out.append(field);
        out
    }
}

} // verus!
