//! Per-field hashing support: the [`FoldbackHash`] trait a struct with
//! tracked fields implements, and the small [`FieldBytes`] trait that turns
//! one field's value into the bytes [`Session::hash_field`] hashes. Scoped
//! to integers, `bool` and fixed-size arrays of them; implement it for a
//! custom type to track a field of that type.
//!
//! Tracking is opt-in: a field is hashed only when its type's
//! `write_hashed_fields` hashes it, never by default.
use vstd::prelude::*;
use vstd::bytes::*;

use crate::error::Error;
use crate::session::{Session, after_field_hashes};

verus! {

/// A struct whose tracked fields can be recorded in one call, via
/// [`Session::hash_fields`].
pub trait FoldbackHash {
    /// Names of the tracked fields, in declaration order.
    const TRACKED_FIELDS: &'static [&'static str];

    /// Names of fields present on the struct but neither tracked nor
    /// explicitly skipped: not hashed (tracking stays opt-in), but named
    /// here so the omission stays visible instead of silent.
    const UNTRACKED_FIELDS: &'static [&'static str];

    /// Records each tracked field of `self` with `session.hash_field`, in
    /// declaration order, under `entity_id` at `tick`.
    ///
    /// What an implementation promises: the session ends as a run of
    /// `hash_field` calls for `entity_id` at `tick` leaves it, on success
    /// and on an early error alike. Which fields and bytes it hashes is the
    /// implementation's own, and is not stated here.
    fn write_hashed_fields(&self, session: &mut Session, tick: u64, entity_id: u64) -> (r: Result<
        (),
        Error,
    >)
        requires
            old(session).wf(),
        ensures
            final(session).wf(),
            exists|fields: Seq<(Seq<char>, Seq<u8>)>|
                #[trigger] after_field_hashes(old(session)@, tick, entity_id, fields) == final(session)@,
    ;
}

/// Converts one field's value into the bytes that are hashed and recorded
/// for it.
pub trait FieldBytes {
    /// The bytes that stand for the value.
    spec fn spec_field_bytes(&self) -> Seq<u8>;

    fn field_bytes(&self) -> (r: Vec<u8>)
        ensures
            r@ == self.spec_field_bytes(),
    ;
}

impl FieldBytes for u8 {
    open spec fn spec_field_bytes(&self) -> Seq<u8> {
        seq![*self]
    }

    fn field_bytes(&self) -> (r: Vec<u8>) {
        vec![*self]
    }
}

impl FieldBytes for u16 {
    open spec fn spec_field_bytes(&self) -> Seq<u8> {
        spec_u16_to_le_bytes(*self)
    }

    fn field_bytes(&self) -> (r: Vec<u8>) {
        u16_to_le_bytes(*self)
    }
}

impl FieldBytes for u32 {
    open spec fn spec_field_bytes(&self) -> Seq<u8> {
        spec_u32_to_le_bytes(*self)
    }

    fn field_bytes(&self) -> (r: Vec<u8>) {
        u32_to_le_bytes(*self)
    }
}

impl FieldBytes for u64 {
    open spec fn spec_field_bytes(&self) -> Seq<u8> {
        spec_u64_to_le_bytes(*self)
    }

    fn field_bytes(&self) -> (r: Vec<u8>) {
        u64_to_le_bytes(*self)
    }
}

impl FieldBytes for u128 {
    open spec fn spec_field_bytes(&self) -> Seq<u8> {
        spec_u64_to_le_bytes(*self as u64) + spec_u64_to_le_bytes((*self >> 64u128) as u64)
    }

    fn field_bytes(&self) -> (r: Vec<u8>) {
        let lo = *self as u64;
        let hi = (*self >> 64u128) as u64;
        let mut out = u64_to_le_bytes(lo);
        let mut high = u64_to_le_bytes(hi);
        out.append(&mut high);
        out
    }
}

impl FieldBytes for i8 {
    open spec fn spec_field_bytes(&self) -> Seq<u8> {
        seq![*self as u8]
    }

    fn field_bytes(&self) -> (r: Vec<u8>) {
        vec![*self as u8]
    }
}

impl FieldBytes for i16 {
    open spec fn spec_field_bytes(&self) -> Seq<u8> {
        spec_u16_to_le_bytes(*self as u16)
    }

    fn field_bytes(&self) -> (r: Vec<u8>) {
        u16_to_le_bytes(*self as u16)
    }
}

impl FieldBytes for i32 {
    open spec fn spec_field_bytes(&self) -> Seq<u8> {
        spec_u32_to_le_bytes(*self as u32)
    }

    fn field_bytes(&self) -> (r: Vec<u8>) {
        u32_to_le_bytes(*self as u32)
    }
}

impl FieldBytes for i64 {
    open spec fn spec_field_bytes(&self) -> Seq<u8> {
        spec_u64_to_le_bytes(*self as u64)
    }

    fn field_bytes(&self) -> (r: Vec<u8>) {
        u64_to_le_bytes(*self as u64)
    }
}

impl FieldBytes for i128 {
    open spec fn spec_field_bytes(&self) -> Seq<u8> {
        (*self as u128).spec_field_bytes()
    }

    fn field_bytes(&self) -> (r: Vec<u8>) {
        (*self as u128).field_bytes()
    }
}

impl FieldBytes for bool {
    open spec fn spec_field_bytes(&self) -> Seq<u8> {
        if *self {
            seq![1u8]
        } else {
            seq![0u8]
        }
    }

    fn field_bytes(&self) -> (r: Vec<u8>) {
        if *self {
            vec![1u8]
        } else {
            vec![0u8]
        }
    }
}

/// The bytes of each element, one after the other.
pub open spec fn concat_field_bytes<T: FieldBytes>(items: Seq<T>) -> Seq<u8>
    decreases items.len(),
{
    if items.len() == 0 {
        seq![]
    } else {
        concat_field_bytes(items.drop_last()) + items.last().spec_field_bytes()
    }
}

impl<T: FieldBytes, const N: usize> FieldBytes for [T; N] {
    open spec fn spec_field_bytes(&self) -> Seq<u8> {
        concat_field_bytes(self@)
    }

    fn field_bytes(&self) -> (r: Vec<u8>) {
        let mut out: Vec<u8> = Vec::new();
        let mut i: usize = 0;
        while i < N
            invariant
                i <= N,
                N == self@.len(),
                out@ == concat_field_bytes(self@.take(i as int)),
            decreases N - i,
        {
            let mut b = self[i].field_bytes();
            proof {
                assert(self@.take(i + 1).drop_last() =~= self@.take(i as int));
            }
            out.append(&mut b);
            i = i + 1;
        }
        assert(self@.take(N as int) =~= self@);
        out
    }
}

} // verus!
