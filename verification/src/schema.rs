//! Schema-drift detection: a reflective walker's tagged-field set for a
//! type can change between the build that recorded a session and the build
//! now analysing it. Each binding records its tagged fields as a `Metadata`
//! frame once per type per session; comparing two recordings' schemas
//! catches the drift instead of treating a stale comparison as a real
//! divergence.
//!
//! Names are ordered as `str` orders them: by their UTF-8 bytes.
use vstd::prelude::*;
use vstd::utf8::*;
use vstd::string::*;
use vstd::relations::*;

use crate::format::{Frame, FrameModel};

verus! {

broadcast use vstd::seq_lib::group_seq_properties, vstd::seq_lib::group_to_multiset_ensures;

/// The `Metadata` frame key prefix a schema entry is recorded under.
pub const SCHEMA_KEY_PREFIX: &'static str = "foldback.schema.";

/// The characters of [`SCHEMA_KEY_PREFIX`].
pub open spec fn schema_key_prefix() -> Seq<char> {
    seq!['f', 'o', 'l', 'd', 'b', 'a', 'c', 'k', '.', 's', 'c', 'h', 'e', 'm', 'a', '.']
}

/// Lexicographic order on byte strings: `a` sorts no later than `b`.
pub open spec fn bytes_le(a: Seq<u8>, b: Seq<u8>) -> bool
    decreases a.len(),
{
    if a.len() == 0 {
        true
    } else if b.len() == 0 {
        false
    } else if a[0] != b[0] {
        a[0] < b[0]
    } else {
        bytes_le(a.drop_first(), b.drop_first())
    }
}

/// The order of `str`: compare the UTF-8 bytes.
pub open spec fn name_le(a: Seq<char>, b: Seq<char>) -> bool {
    bytes_le(encode_utf8(a), encode_utf8(b))
}

/// [`name_le`] as a relation.
pub open spec fn name_order() -> spec_fn(Seq<char>, Seq<char>) -> bool {
    |a: Seq<char>, b: Seq<char>| name_le(a, b)
}

/// The names joined with `,` between them.
pub open spec fn join_names(names: Seq<Seq<char>>) -> Seq<char>
    decreases names.len(),
{
    if names.len() == 0 {
        seq![]
    } else if names.len() == 1 {
        names[0]
    } else {
        join_names(names.drop_last()) + seq![','] + names.last()
    }
}

/// The canonical form of a tagged-field set: the names in `str` order,
/// joined with `,`.
pub open spec fn fingerprint_of(names: Seq<Seq<char>>) -> Seq<char> {
    join_names(names.sort_by(name_order()))
}

proof fn lemma_bytes_le_reflexive(a: Seq<u8>)
    ensures
        bytes_le(a, a),
    decreases a.len(),
{
    if a.len() > 0 {
        lemma_bytes_le_reflexive(a.drop_first());
    }
}

proof fn lemma_bytes_le_antisymmetric(a: Seq<u8>, b: Seq<u8>)
    requires
        bytes_le(a, b),
        bytes_le(b, a),
    ensures
        a == b,
    decreases a.len(),
{
    if a.len() > 0 && b.len() > 0 {
        lemma_bytes_le_antisymmetric(a.drop_first(), b.drop_first());
        assert(a =~= seq![a[0]] + a.drop_first());
        assert(b =~= seq![b[0]] + b.drop_first());
    } else {
        assert(a =~= b);
    }
}

proof fn lemma_bytes_le_transitive(a: Seq<u8>, b: Seq<u8>, c: Seq<u8>)
    requires
        bytes_le(a, b),
        bytes_le(b, c),
    ensures
        bytes_le(a, c),
    decreases a.len(),
{
    if a.len() > 0 && b.len() > 0 && c.len() > 0 {
        if a[0] == b[0] && b[0] == c[0] {
            lemma_bytes_le_transitive(a.drop_first(), b.drop_first(), c.drop_first());
        }
    }
}

proof fn lemma_bytes_le_total(a: Seq<u8>, b: Seq<u8>)
    ensures
        bytes_le(a, b) || bytes_le(b, a),
    decreases a.len(),
{
    if a.len() > 0 && b.len() > 0 && a[0] == b[0] {
        lemma_bytes_le_total(a.drop_first(), b.drop_first());
    }
}

/// Two names with the same UTF-8 bytes are the same name.
pub proof fn lemma_encode_injective(a: Seq<char>, b: Seq<char>)
    requires
        encode_utf8(a) == encode_utf8(b),
    ensures
        a == b,
{
    encode_utf8_decode_utf8(a);
    encode_utf8_decode_utf8(b);
}

/// `str` order is a total order on names.
pub proof fn lemma_name_order_total()
    ensures
        total_ordering(name_order()),
{
    let r = name_order();
    assert forall|x: Seq<char>| #[trigger] r(x, x) by {
        lemma_bytes_le_reflexive(encode_utf8(x));
    }
    assert forall|x: Seq<char>, y: Seq<char>| #[trigger] r(x, y) && #[trigger] r(y, x) implies x
        == y by {
        lemma_bytes_le_antisymmetric(encode_utf8(x), encode_utf8(y));
        lemma_encode_injective(x, y);
    }
    assert forall|x: Seq<char>, y: Seq<char>, z: Seq<char>| #[trigger] r(x, y) && #[trigger] r(
        y,
        z,
    ) implies r(x, z) by {
        lemma_bytes_le_transitive(encode_utf8(x), encode_utf8(y), encode_utf8(z));
    }
    assert forall|x: Seq<char>, y: Seq<char>| #[trigger] r(x, y) || #[trigger] r(y, x) by {
        lemma_bytes_le_total(encode_utf8(x), encode_utf8(y));
    }
}

fn bytes_le_exec(a: &[u8], b: &[u8]) -> (r: bool)
    ensures
        r == bytes_le(a@, b@),
{
    let mut i: usize = 0;
    while i < a.len() && i < b.len()
        invariant
            i <= a@.len(),
            i <= b@.len(),
            bytes_le(a@, b@) == bytes_le(a@.skip(i as int), b@.skip(i as int)),
        decreases a@.len() - i,
    {
        if a[i] != b[i] {
            return a[i] < b[i];
        }
        assert(a@.skip(i as int).drop_first() =~= a@.skip(i + 1));
        assert(b@.skip(i as int).drop_first() =~= b@.skip(i + 1));
        i = i + 1;
    }
    i == a.len()
}

/// `a` sorts no later than `b` in `str` order.
pub fn str_le(a: &str, b: &str) -> (r: bool)
    ensures
        r == name_le(a@, b@),
{
    bytes_le_exec(a.as_bytes(), b.as_bytes())
}

/// The two strings hold the same characters.
pub fn str_eq(a: &str, b: &str) -> (r: bool)
    ensures
        r == (a@ == b@),
{
    let x = a.as_bytes();
    let y = b.as_bytes();
    assert(x@ == encode_utf8(a@));
    assert(y@ == encode_utf8(b@));
    if x.len() != y.len() {
        return false;
    }
    let mut i: usize = 0;
    while i < x.len()
        invariant
            i <= x@.len(),
            x@.len() == y@.len(),
            x@ == encode_utf8(a@),
            y@ == encode_utf8(b@),
            forall|k: int| 0 <= k < i ==> #[trigger] x@[k] == y@[k],
        decreases x@.len() - i,
    {
        if x[i] != y[i] {
            return false;
        }
        i = i + 1;
    }
    assert(x@ =~= y@);
    proof {
        lemma_encode_injective(a@, b@);
    }
    true
}

/// The `Metadata` key a type's schema is recorded under:
/// [`SCHEMA_KEY_PREFIX`] followed by the type name.
pub fn schema_metadata_key(name: &str) -> (r: String)
    ensures
        r@ == schema_key_prefix() + name@,
{
    proof {
        reveal_strlit("foldback.schema.");
    }
    let mut key = String::from_str(SCHEMA_KEY_PREFIX);
    key.append(name);
    key
}

/// Canonical, order-independent representation of a type's tagged field
/// set: the names sorted in `str` order and joined with `,`, so the same
/// field set always gives the same string whatever its declaration order.
pub fn fingerprint(tracked_fields: &[&str]) -> (r: String)
    ensures
        r@ == fingerprint_of(tracked_fields@.map_values(|s: &str| s@)),
{
    let ghost names = tracked_fields@.map_values(|s: &str| s@);
    let ghost ord = name_order();
    proof {
        lemma_name_order_total();
    }
    let mut sorted: Vec<&str> = Vec::new();
    let n = tracked_fields.len();
    let mut i: usize = 0;
    while i < n
        invariant
            n == tracked_fields@.len(),
            names == tracked_fields@.map_values(|s: &str| s@),
            ord == name_order(),
            total_ordering(ord),
            i <= n,
            sorted_by(sorted@.map_values(|s: &str| s@), ord),
            sorted@.map_values(|s: &str| s@).to_multiset() == names.take(i as int).to_multiset(),
        decreases n - i,
    {
        let x = tracked_fields[i];
        let ghost sv = sorted@.map_values(|s: &str| s@);
        let mut j: usize = 0;
        while j < sorted.len() && str_le(sorted[j], x)
            invariant
                j <= sorted@.len(),
                sv == sorted@.map_values(|s: &str| s@),
                forall|k: int| 0 <= k < j ==> #[trigger] name_le(sv[k], x@),
            decreases sorted@.len() - j,
        {
            j = j + 1;
        }
        sorted.insert(j, x);
        proof {
            let nv = sorted@.map_values(|s: &str| s@);
            assert(nv =~= sv.insert(j as int, x@));
            if j < sv.len() {
                assert(!name_le(sv[j as int], x@));
                assert(!ord(sv[j as int], x@));
                assert(ord(sv[j as int], x@) || ord(x@, sv[j as int]));
            }
            assert forall|a: int, b: int| 0 <= a < b < nv.len() implies #[trigger] ord(
                nv[a],
                nv[b],
            ) by {
                if b < j {
                    assert(ord(sv[a], sv[b]));
                } else if b == j {
                    assert(nv[a] == sv[a]);
                    assert(name_le(sv[a], x@));
                } else if a < j {
                    assert(nv[b] == sv[b - 1]);
                    assert(ord(sv[a], x@));
                    if b - 1 > j {
                        assert(ord(sv[j as int], sv[b - 1]));
                    }
                    assert(ord(x@, sv[b - 1]));
                } else if a == j {
                    if b - 1 > j {
                        assert(ord(sv[j as int], sv[b - 1]));
                    }
                    assert(ord(x@, sv[b - 1]));
                } else {
                    assert(ord(sv[a - 1], sv[b - 1]));
                }
            }
            assert(names.take(i + 1) =~= names.take(i as int).push(x@));
        }
        i = i + 1;
    }
    let ghost sv = sorted@.map_values(|s: &str| s@);
    proof {
        assert(names.take(n as int) =~= names);
        names.lemma_sort_by_ensures(ord);
        vstd::seq_lib::lemma_sorted_unique(sv, names.sort_by(ord), ord);
        reveal_strlit(",");
    }
    let mut out = String::new();
    let mut k: usize = 0;
    while k < sorted.len()
        invariant
            k <= sv.len(),
            sv == sorted@.map_values(|s: &str| s@),
            out@ == join_names(sv.take(k as int)),
            ","@ == seq![','],
        decreases sv.len() - k,
    {
        if k > 0 {
            out.append(",");
        }
        out.append(sorted[k]);
        proof {
            let t = sv.take(k + 1);
            assert(t.drop_last() =~= sv.take(k as int));
            if k == 0 {
                assert(sv.take(0) =~= Seq::<Seq<char>>::empty());
            }
        }
        k = k + 1;
    }
    assert(sv.take(sv.len() as int) =~= sv);
    out
}

/// Putting the names in `str` order does not depend on the order they came
/// in: two lists holding the same names, each as often, give the same
/// fingerprint.
pub proof fn lemma_fingerprint_order_independent(a: Seq<Seq<char>>, b: Seq<Seq<char>>)
    requires
        a.to_multiset() == b.to_multiset(),
    ensures
        fingerprint_of(a) == fingerprint_of(b),
{
    lemma_name_order_total();
    a.lemma_sort_by_ensures(name_order());
    b.lemma_sort_by_ensures(name_order());
    vstd::seq_lib::lemma_sorted_unique(a.sort_by(name_order()), b.sort_by(name_order()), name_order());
}

/// Entries whose names are in strictly increasing `str` order, so no name
/// occurs twice.
pub open spec fn keys_sorted(s: Seq<(Seq<char>, Seq<char>)>) -> bool {
    forall|i: int, j: int|
        #![trigger s[i], s[j]]
        0 <= i < j < s.len() ==> name_le(s[i].0, s[j].0) && s[i].0 != s[j].0
}

/// The map that a list of entries describes; a later entry for a name
/// replaces an earlier one.
pub open spec fn assoc_map(s: Seq<(Seq<char>, Seq<char>)>) -> Map<Seq<char>, Seq<char>>
    decreases s.len(),
{
    if s.len() == 0 {
        Map::empty()
    } else {
        assoc_map(s.drop_last()).insert(s.last().0, s.last().1)
    }
}

/// In a list without repeated names, a name is in the map exactly when an
/// entry holds it, and maps to that entry's value.
pub proof fn lemma_assoc_map(s: Seq<(Seq<char>, Seq<char>)>)
    requires
        forall|i: int, j: int| #![trigger s[i], s[j]] 0 <= i < j < s.len() ==> s[i].0 != s[j].0,
    ensures
        forall|k: Seq<char>|
            #[trigger] assoc_map(s).contains_key(k) <==> exists|i: int|
                0 <= i < s.len() && s[i].0 == k,
        forall|i: int| 0 <= i < s.len() ==> #[trigger] assoc_map(s)[s[i].0] == s[i].1,
    decreases s.len(),
{
    if s.len() > 0 {
        let p = s.drop_last();
        lemma_assoc_map(p);
        assert forall|k: Seq<char>| #[trigger] assoc_map(s).contains_key(k) <==> exists|i: int|
            0 <= i < s.len() && s[i].0 == k by {
            if assoc_map(p).contains_key(k) {
                let i = choose|i: int| 0 <= i < p.len() && p[i].0 == k;
                assert(s[i] == p[i]);
            }
            if k == s.last().0 {
                assert(s[s.len() - 1].0 == k);
            }
            if exists|i: int| 0 <= i < s.len() && s[i].0 == k {
                let i = choose|i: int| 0 <= i < s.len() && s[i].0 == k;
                if i < s.len() - 1 {
                    assert(p[i].0 == k);
                }
            }
        }
        assert forall|i: int| 0 <= i < s.len() implies #[trigger] assoc_map(s)[s[i].0] == s[i].1 by {
            if i < s.len() - 1 {
                assert(p[i] == s[i]);
                assert(s[i].0 != s[s.len() - 1].0);
                assert(assoc_map(p)[p[i].0] == p[i].1);
            }
        }
    }
}

proof fn lemma_assoc_map_update(s: Seq<(Seq<char>, Seq<char>)>, j: int, v: Seq<char>)
    requires
        0 <= j < s.len(),
        forall|a: int, b: int| #![trigger s[a], s[b]] 0 <= a < b < s.len() ==> s[a].0 != s[b].0,
    ensures
        assoc_map(s.update(j, (s[j].0, v))) == assoc_map(s).insert(s[j].0, v),
    decreases s.len(),
{
    let k = s[j].0;
    let u = s.update(j, (k, v));
    let p = s.drop_last();
    if j == s.len() - 1 {
        assert(u.drop_last() =~= p);
        assert(assoc_map(u) =~= assoc_map(s).insert(k, v));
    } else {
        assert(u.drop_last() =~= p.update(j, (k, v)));
        assert(p[j] == s[j]);
        assert(s[j].0 != s[s.len() - 1].0);
        lemma_assoc_map_update(p, j, v);
        assert(assoc_map(u) =~= assoc_map(s).insert(k, v));
    }
}

proof fn lemma_assoc_map_insert(s: Seq<(Seq<char>, Seq<char>)>, j: int, k: Seq<char>, v: Seq<char>)
    requires
        0 <= j <= s.len(),
        forall|a: int| 0 <= a < s.len() ==> (#[trigger] s[a]).0 != k,
    ensures
        assoc_map(s.insert(j, (k, v))) == assoc_map(s).insert(k, v),
    decreases s.len(),
{
    let u = s.insert(j, (k, v));
    if j == s.len() {
        assert(u.drop_last() =~= s);
        assert(assoc_map(u) =~= assoc_map(s).insert(k, v));
    } else {
        let p = s.drop_last();
        assert(u.drop_last() =~= p.insert(j, (k, v)));
        assert(u.last() == s.last());
        assert(s[s.len() - 1].0 != k);
        assert forall|a: int| 0 <= a < p.len() implies (#[trigger] p[a]).0 != k by {
            assert(p[a] == s[a]);
        }
        lemma_assoc_map_insert(p, j, k, v);
        assert(assoc_map(u) =~= assoc_map(s).insert(k, v));
    }
}

proof fn lemma_name_le_trans(a: Seq<char>, b: Seq<char>, c: Seq<char>)
    requires
        name_le(a, b),
        name_le(b, c),
    ensures
        name_le(a, c),
{
    lemma_bytes_le_transitive(encode_utf8(a), encode_utf8(b), encode_utf8(c));
}

/// Inserting a name at the place where the names before it sort below it
/// and the name at it sorts above it keeps the entries strictly sorted.
#[verifier::spinoff_prover]
#[verifier::rlimit(30)]
proof fn lemma_sorted_insert(s: Seq<(Seq<char>, Seq<char>)>, j: int, k: Seq<char>, v: Seq<char>)
    requires
        keys_sorted(s),
        0 <= j <= s.len(),
        forall|i: int| 0 <= i < j ==> #[trigger] name_le(s[i].0, k) && s[i].0 != k,
        j < s.len() ==> !name_le(s[j].0, k),
    ensures
        keys_sorted(s.insert(j, (k, v))),
        forall|i: int| 0 <= i < s.len() ==> (#[trigger] s[i]).0 != k,
{
    let t = s.insert(j, (k, v));
    if j < s.len() {
        lemma_bytes_le_total(encode_utf8(s[j].0), encode_utf8(k));
    }
    assert forall|i: int| j <= i < s.len() implies name_le(k, #[trigger] s[i].0) && s[i].0 != k by {
        if i > j {
            assert(name_le(s[j].0, s[i].0) && s[j].0 != s[i].0);
            lemma_name_le_trans(k, s[j].0, s[i].0);
        }
    }
    assert forall|i: int| 0 <= i < s.len() implies (#[trigger] s[i]).0 != k by {
        if i < j {
            assert(name_le(s[i].0, k) && s[i].0 != k);
        } else {
            assert(name_le(k, s[i].0) && s[i].0 != k);
        }
    }
    assert forall|a: int, b: int| #![trigger t[a], t[b]] 0 <= a < b < t.len() implies name_le(
        t[a].0,
        t[b].0,
    ) && t[a].0 != t[b].0 by {
        if b < j {
            assert(t[a] == s[a] && t[b] == s[b]);
            assert(name_le(s[a].0, s[b].0) && s[a].0 != s[b].0);
        } else if b == j {
            assert(t[a] == s[a]);
            assert(name_le(s[a].0, k) && s[a].0 != k);
        } else if a < j {
            assert(t[a] == s[a] && t[b] == s[b - 1]);
            assert(name_le(s[a].0, s[b - 1].0) && s[a].0 != s[b - 1].0);
        } else if a == j {
            assert(t[b] == s[b - 1]);
            assert(name_le(k, s[b - 1].0) && s[b - 1].0 != k);
        } else {
            assert(t[a] == s[a - 1] && t[b] == s[b - 1]);
            assert(name_le(s[a - 1].0, s[b - 1].0) && s[a - 1].0 != s[b - 1].0);
        }
    }
}

/// Type name to schema fingerprint, held in `str` order of the names.
#[derive(Debug)]
pub struct SchemaMap {
    entries: Vec<(String, String)>,
}

impl SchemaMap {
    /// The entries, in increasing `str` order of their names.
    pub closed spec fn entries(&self) -> Seq<(Seq<char>, Seq<char>)> {
        self.entries@.map_values(|e: (String, String)| (e.0@, e.1@))
    }

    #[verifier::type_invariant]
    spec fn inv(&self) -> bool {
        keys_sorted(self.entries())
    }

    pub fn new() -> (r: Self)
        ensures
            r.entries() == Seq::<(Seq<char>, Seq<char>)>::empty(),
            r@ == Map::<Seq<char>, Seq<char>>::empty(),
            keys_sorted(r.entries()),
    {
        let r = SchemaMap { entries: Vec::new() };
        assert(r.entries() =~= Seq::<(Seq<char>, Seq<char>)>::empty());
        r
    }

    /// Sets the fingerprint recorded for `name`, replacing any earlier one.
    pub fn insert(&mut self, name: String, fingerprint: String)
        ensures
            final(self)@ == old(self)@.insert(name@, fingerprint@),
            keys_sorted(final(self).entries()),
    {
        proof {
            use_type_invariant(&*self);
        }
        let mut entries: Vec<(String, String)> = Vec::new();
        std::mem::swap(&mut entries, &mut self.entries);
        let ghost s = entries@.map_values(|e: (String, String)| (e.0@, e.1@));
        proof {
            lemma_assoc_map(s);
        }
        let mut j: usize = 0;
        while j < entries.len() && str_le(entries[j].0.as_str(), name.as_str()) && !str_eq(
            entries[j].0.as_str(),
            name.as_str(),
        )
            invariant
                j <= entries@.len(),
                s == entries@.map_values(|e: (String, String)| (e.0@, e.1@)),
                keys_sorted(s),
                forall|k: int| 0 <= k < j ==> #[trigger] name_le(s[k].0, name@) && s[k].0 != name@,
            decreases entries@.len() - j,
        {
            assert(name_le(s[j as int].0, name@) && s[j as int].0 != name@);
            let ghost next: int = j + 1;
            assert(forall|k: int|
                0 <= k < next ==> #[trigger] name_le(s[k].0, name@) && s[k].0 != name@);
            j = j + 1;
            assert(j == next);
        }
        let found = j < entries.len() && str_eq(entries[j].0.as_str(), name.as_str());
        assert(found ==> j < s.len() && s[j as int].0 == name@);
        assert(!found ==> (j < s.len() ==> !name_le(s[j as int].0, name@)));
        if found {
            entries[j] = (name, fingerprint);
            proof {
                let t = entries@.map_values(|e: (String, String)| (e.0@, e.1@));
                assert(t =~= s.update(j as int, (name@, fingerprint@)));
                assert forall|a: int, b: int| #![trigger t[a], t[b]] 0 <= a < b < t.len() implies name_le(
                    t[a].0,
                    t[b].0,
                ) && t[a].0 != t[b].0 by {
                    assert(name_le(s[a].0, s[b].0) && s[a].0 != s[b].0);
                }
                lemma_assoc_map_update(s, j as int, fingerprint@);
            }
            self.entries = entries;
            return;
        }
        entries.insert(j, (name, fingerprint));
        proof {
            let t = entries@.map_values(|e: (String, String)| (e.0@, e.1@));
            assert(t =~= s.insert(j as int, (name@, fingerprint@)));
            lemma_sorted_insert(s, j as int, name@, fingerprint@);
            lemma_assoc_map_insert(s, j as int, name@, fingerprint@);
        }
        self.entries = entries;
    }

    /// The fingerprint recorded for `name`, if any.
    pub fn get(&self, name: &str) -> (r: Option<&String>)
        ensures
            match r {
                Some(v) => self@.contains_key(name@) && v@ == self@[name@],
                None => !self@.contains_key(name@),
            },
    {
        proof {
            use_type_invariant(self);
            lemma_assoc_map(self.entries());
        }
        let ghost s = self.entries();
        let mut i: usize = 0;
        while i < self.entries.len()
            invariant
                i <= self.entries@.len(),
                s == self.entries(),
                keys_sorted(s),
                forall|k: int| 0 <= k < i ==> (#[trigger] s[k]).0 != name@,
            decreases self.entries@.len() - i,
        {
            if str_eq(self.entries[i].0.as_str(), name) {
                proof {
                    lemma_assoc_map(s);
                }
                assert(s[i as int].0 == name@);
                assert(self@[s[i as int].0] == s[i as int].1);
                assert(self@.contains_key(s[i as int].0));
                return Some(&self.entries[i].1);
            }
            i = i + 1;
        }
        None
    }

    /// The number of types recorded.
    pub fn len(&self) -> (n: usize)
        ensures
            n == self.entries().len(),
    {
        self.entries.len()
    }

    /// The entries as (type name, fingerprint) pairs, in `str` order of the
    /// names.
    pub fn as_slice(&self) -> (r: &[(String, String)])
        ensures
            r@.map_values(|e: (String, String)| (e.0@, e.1@)) == self.entries(),
    {
        self.entries.as_slice()
    }
}

impl View for SchemaMap {
    type V = Map<Seq<char>, Seq<char>>;

    open spec fn view(&self) -> Map<Seq<char>, Seq<char>> {
        assoc_map(self.entries())
    }
}

/// The schema entry a frame records, if it is a `Metadata` frame whose key
/// starts with [`SCHEMA_KEY_PREFIX`]: the type name after the prefix, and
/// the fingerprint.
pub open spec fn schema_entry(f: FrameModel) -> Option<(Seq<char>, Seq<char>)> {
    match f {
        FrameModel::Metadata { key, value } => {
            if key.len() >= 16 && key.take(16) == schema_key_prefix() {
                Some((key.skip(16), value))
            } else {
                None
            }
        },
        _ => None,
    }
}

/// Every schema entry of a frame stream; a later entry for a type replaces
/// an earlier one.
pub open spec fn schemas_of(frames: Seq<FrameModel>) -> Map<Seq<char>, Seq<char>>
    decreases frames.len(),
{
    if frames.len() == 0 {
        Map::empty()
    } else {
        let m = schemas_of(frames.drop_last());
        match schema_entry(frames.last()) {
            Some(e) => m.insert(e.0, e.1),
            None => m,
        }
    }
}

/// The part of `key` after [`SCHEMA_KEY_PREFIX`], if it starts with it.
fn strip_schema_prefix(key: &str) -> (r: Option<String>)
    ensures
        match r {
            Some(rest) => key@.len() >= 16 && key@.take(16) == schema_key_prefix() && rest@
                == key@.skip(16),
            None => !(key@.len() >= 16 && key@.take(16) == schema_key_prefix()),
        },
{
    proof {
        reveal_strlit("foldback.schema.");
    }
    let prefix: &str = SCHEMA_KEY_PREFIX;
    assert(prefix@ == schema_key_prefix());
    let n = key.unicode_len();
    if n < 16 {
        return None;
    }
    let mut i: usize = 0;
    while i < 16
        invariant
            i <= 16,
            n == key@.len(),
            n >= 16,
            prefix@ == schema_key_prefix(),
            forall|k: int| 0 <= k < i ==> key@[k] == #[trigger] schema_key_prefix()[k],
        decreases 16 - i,
    {
        if key.get_char(i) != prefix.get_char(i) {
            assert(key@.take(16)[i as int] != schema_key_prefix()[i as int]);
            return None;
        }
        i = i + 1;
    }
    assert(key@.take(16) =~= schema_key_prefix());
    let rest = key.substring_char(16, n);
    Some(String::from_str(rest))
}

/// Extracts every schema entry from a frame stream into type name to
/// fingerprint. A later entry for the same type replaces an earlier one (a
/// session only writes one per type anyway).
pub fn extract_schemas(frames: &[Frame]) -> (r: SchemaMap)
    ensures
        r@ == schemas_of(frames@.map_values(|f: Frame| f@)),
        keys_sorted(r.entries()),
{
    let ghost fs = frames@.map_values(|f: Frame| f@);
    let mut out = SchemaMap::new();
    let mut i: usize = 0;
    while i < frames.len()
        invariant
            i <= frames@.len(),
            fs == frames@.map_values(|f: Frame| f@),
            out@ == schemas_of(fs.take(i as int)),
            keys_sorted(out.entries()),
        decreases frames@.len() - i,
    {
        proof {
            assert(fs.take(i + 1).drop_last() =~= fs.take(i as int));
            assert(fs.take(i + 1).last() == frames@[i as int]@);
        }
        match &frames[i] {
            Frame::Metadata { key, value } => {
                match strip_schema_prefix(key.as_str()) {
                    Some(name) => {
                        out.insert(name, value.clone());
                    },
                    None => {},
                }
            },
            _ => {},
        }
        i = i + 1;
    }
    assert(fs.take(frames@.len() as int) =~= fs);
    out
}

/// One type's schema drift between two recordings: same type, different
/// tagged-field fingerprint.
#[derive(Debug, Clone, PartialEq, Eq)]
pub struct SchemaDrift {
    pub name: String,
    pub before: String,
    pub after: String,
}

impl SchemaDrift {
    /// (type name, fingerprint before, fingerprint after).
    pub open spec fn model(self) -> (Seq<char>, Seq<char>, Seq<char>) {
        (self.name@, self.before@, self.after@)
    }
}

/// The drift between `before`'s entries, in order, and `after`: each type
/// present on both sides whose fingerprint differs.
pub open spec fn drift_of(
    before: Seq<(Seq<char>, Seq<char>)>,
    after: Map<Seq<char>, Seq<char>>,
) -> Seq<(Seq<char>, Seq<char>, Seq<char>)>
    decreases before.len(),
{
    if before.len() == 0 {
        seq![]
    } else {
        let prev = drift_of(before.drop_last(), after);
        let e = before.last();
        if after.contains_key(e.0) && after[e.0] != e.1 {
            prev.push((e.0, e.1, after[e.0]))
        } else {
            prev
        }
    }
}

/// Compares two schema maps and returns every type present on both sides
/// whose fingerprint differs, in `str` order of the type names. A type
/// present on only one side is not drift: it was not hashed on the other
/// side, which is not the hazard this check targets.
pub fn detect_drift(before: &SchemaMap, after: &SchemaMap) -> (r: Vec<SchemaDrift>)
    ensures
        r@.map_values(|d: SchemaDrift| d.model()) == drift_of(before.entries(), after@),
{
    let ghost b = before.entries();
    let entries = before.as_slice();
    let mut out: Vec<SchemaDrift> = Vec::new();
    let mut i: usize = 0;
    while i < entries.len()
        invariant
            i <= entries@.len(),
            entries@.map_values(|e: (String, String)| (e.0@, e.1@)) == b,
            out@.map_values(|d: SchemaDrift| d.model()) == drift_of(b.take(i as int), after@),
        decreases entries@.len() - i,
    {
        proof {
            assert(b.take(i + 1).drop_last() =~= b.take(i as int));
            assert(b.take(i + 1).last() == b[i as int]);
            assert(b[i as int] == (entries@[i as int].0@, entries@[i as int].1@));
        }
        let (name, before_fp) = &entries[i];
        match after.get(name.as_str()) {
            Some(after_fp) => {
                if !str_eq(after_fp.as_str(), before_fp.as_str()) {
                    let d = SchemaDrift {
                        name: name.clone(),
                        before: before_fp.clone(),
                        after: after_fp.clone(),
                    };
                    let ghost prev = out@;
                    out.push(d);
                    assert(out@.map_values(|d: SchemaDrift| d.model()) =~= prev.map_values(
                        |d: SchemaDrift| d.model(),
                    ).push(d.model()));
                }
            },
            None => {},
        }
        i = i + 1;
    }
    assert(b.take(entries@.len() as int) =~= b);
    out
}

/// A type is reported as drift exactly when both sides record it and their
/// fingerprints differ; each such type is reported once.
pub proof fn lemma_drift_is_common_changed_types(before: SchemaMap, after: SchemaMap, k: Seq<char>)
    requires
        keys_sorted(before.entries()),
    ensures
        (exists|i: int|
            0 <= i < drift_of(before.entries(), after@).len() && #[trigger] drift_of(
                before.entries(),
                after@,
            )[i].0 == k) <==> (before@.contains_key(k) && after@.contains_key(k) && before@[k]
            != after@[k]),
{
    lemma_assoc_map(before.entries());
    lemma_drift_members(before.entries(), after@, k);
}

proof fn lemma_drift_members(
    s: Seq<(Seq<char>, Seq<char>)>,
    after: Map<Seq<char>, Seq<char>>,
    k: Seq<char>,
)
    requires
        keys_sorted(s),
    ensures
        (exists|i: int| 0 <= i < drift_of(s, after).len() && #[trigger] drift_of(s, after)[i].0 == k)
            <==> (exists|j: int|
            0 <= j < s.len() && #[trigger] s[j].0 == k && after.contains_key(k) && after[k]
                != s[j].1),
    decreases s.len(),
{
    if s.len() > 0 {
        let p = s.drop_last();
        assert forall|a: int, b: int| #![trigger p[a], p[b]] 0 <= a < b < p.len() implies name_le(
            p[a].0,
            p[b].0,
        ) && p[a].0 != p[b].0 by {
            assert(name_le(s[a].0, s[b].0) && s[a].0 != s[b].0);
        }
        lemma_drift_members(p, after, k);
        let d = drift_of(s, after);
        let dp = drift_of(p, after);
        let e = s.last();
        if exists|i: int| 0 <= i < d.len() && #[trigger] d[i].0 == k {
            let i = choose|i: int| 0 <= i < d.len() && #[trigger] d[i].0 == k;
            if i < dp.len() {
                assert(d[i] == dp[i]);
                let j = choose|j: int|
                    0 <= j < p.len() && #[trigger] p[j].0 == k && after.contains_key(k) && after[k]
                        != p[j].1;
                assert(s[j] == p[j]);
            } else {
                assert(s[s.len() - 1].0 == k);
            }
        }
        if exists|j: int|
            0 <= j < s.len() && #[trigger] s[j].0 == k && after.contains_key(k) && after[k]
                != s[j].1 {
            let j = choose|j: int|
                0 <= j < s.len() && #[trigger] s[j].0 == k && after.contains_key(k) && after[k]
                    != s[j].1;
            if j < s.len() - 1 {
                assert(p[j] == s[j]);
                let i = choose|i: int| 0 <= i < dp.len() && #[trigger] dp[i].0 == k;
                assert(d[i] == dp[i]);
            } else {
                assert(d[d.len() - 1].0 == k);
            }
        }
    }
}

/// How many of the entries name a type that `after` also records.
pub open spec fn common_count(
    before: Seq<(Seq<char>, Seq<char>)>,
    after: Map<Seq<char>, Seq<char>>,
) -> nat
    decreases before.len(),
{
    if before.len() == 0 {
        0
    } else {
        common_count(before.drop_last(), after) + if after.contains_key(before.last().0) {
            1nat
        } else {
            0nat
        }
    }
}

/// The number of types recorded on both sides.
pub fn common_type_count(before: &SchemaMap, after: &SchemaMap) -> (n: usize)
    ensures
        n == common_count(before.entries(), after@),
        n == before@.dom().intersect(after@.dom()).len(),
{
    proof {
        use_type_invariant(before);
        lemma_common_types_are_shared_names(*before, *after);
    }
    let ghost b = before.entries();
    let entries = before.as_slice();
    let mut n: usize = 0;
    let mut i: usize = 0;
    while i < entries.len()
        invariant
            i <= entries@.len(),
            entries@.map_values(|e: (String, String)| (e.0@, e.1@)) == b,
            n == common_count(b.take(i as int), after@),
            n <= i,
        decreases entries@.len() - i,
    {
        proof {
            assert(b.take(i + 1).drop_last() =~= b.take(i as int));
            assert(b.take(i + 1).last() == b[i as int]);
            assert(b[i as int] == (entries@[i as int].0@, entries@[i as int].1@));
        }
        match after.get(entries[i].0.as_str()) {
            Some(_) => {
                n = n + 1;
            },
            None => {},
        }
        i = i + 1;
    }
    assert(b.take(entries@.len() as int) =~= b);
    n
}

/// The names a list of entries maps form a finite set.
proof fn lemma_assoc_map_dom_finite(s: Seq<(Seq<char>, Seq<char>)>)
    ensures
        assoc_map(s).dom().finite(),
    decreases s.len(),
{
    if s.len() > 0 {
        lemma_assoc_map_dom_finite(s.drop_last());
        assert(assoc_map(s).dom() =~= assoc_map(s.drop_last()).dom().insert(s.last().0));
    } else {
        assert(assoc_map(s).dom() =~= Set::<Seq<char>>::empty());
    }
}

/// Over entries without repeated names, the count of entries whose name
/// `after` records is the number of names both sides record.
proof fn lemma_common_count_entries(s: Seq<(Seq<char>, Seq<char>)>, after: Map<Seq<char>, Seq<char>>)
    requires
        forall|i: int, j: int| #![trigger s[i], s[j]] 0 <= i < j < s.len() ==> s[i].0 != s[j].0,
    ensures
        common_count(s, after) == assoc_map(s).dom().intersect(after.dom()).len(),
    decreases s.len(),
{
    if s.len() == 0 {
        assert(assoc_map(s).dom().intersect(after.dom()) =~= Set::<Seq<char>>::empty());
    } else {
        let p = s.drop_last();
        let k = s.last().0;
        assert forall|i: int, j: int| #![trigger p[i], p[j]] 0 <= i < j < p.len() implies p[i].0
            != p[j].0 by {
            assert(p[i] == s[i] && p[j] == s[j]);
        }
        lemma_common_count_entries(p, after);
        lemma_assoc_map_dom_finite(p);
        lemma_assoc_map(p);
        let before_set = assoc_map(p).dom().intersect(after.dom());
        assert(!assoc_map(p).dom().contains(k)) by {
            if assoc_map(p).dom().contains(k) {
                let i = choose|i: int| 0 <= i < p.len() && p[i].0 == k;
                assert(s[i] == p[i]);
                assert(s[s.len() - 1] == s.last());
            }
        }
        if after.contains_key(k) {
            assert(assoc_map(s).dom().intersect(after.dom()) =~= before_set.insert(k));
        } else {
            assert(assoc_map(s).dom().intersect(after.dom()) =~= before_set);
        }
    }
}

/// The types common to two recordings are the names recorded on both
/// sides, whatever their fingerprints: `common_type_count` counts exactly
/// the names in both maps.
pub proof fn lemma_common_types_are_shared_names(before: SchemaMap, after: SchemaMap)
    requires
        keys_sorted(before.entries()),
    ensures
        common_count(before.entries(), after@) == before@.dom().intersect(after@.dom()).len(),
{
    let s = before.entries();
    assert forall|i: int, j: int| #![trigger s[i], s[j]] 0 <= i < j < s.len() implies s[i].0
        != s[j].0 by {
    }
    lemma_common_count_entries(s, after@);
}

/// Changing only the fingerprints that `after` records never changes how
/// many types are common to both sides.
pub proof fn lemma_common_count_ignores_fingerprints(
    before: Seq<(Seq<char>, Seq<char>)>,
    a1: Map<Seq<char>, Seq<char>>,
    a2: Map<Seq<char>, Seq<char>>,
)
    requires
        a1.dom() == a2.dom(),
    ensures
        common_count(before, a1) == common_count(before, a2),
    decreases before.len(),
{
    if before.len() > 0 {
        lemma_common_count_ignores_fingerprints(before.drop_last(), a1, a2);
    }
}

} // verus!
