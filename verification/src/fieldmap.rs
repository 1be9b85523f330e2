//! Order-preserving field mappings (key -> field schema), kept in a
//! `linked_hash_map::LinkedHashMap` so that iteration order is insertion
//! order: struct field order in the generated header depends on it.

use vstd::prelude::*;

use crate::schema::{FieldSchema, SchemaV};
use linked_hash_map::LinkedHashMap;

verus! {

/// Declares `linked_hash_map::LinkedHashMap` so that it can stand in
/// signatures and fields; its contents are spoken of through
/// `field_entries` below.
#[verifier::external_type_specification]
#[verifier::external_body]
#[verifier::reject_recursive_types(K)]
#[verifier::reject_recursive_types(V)]
#[verifier::reject_recursive_types(S)]
pub struct ExLinkedHashMap<K, V, S>(LinkedHashMap<K, V, S>);

/// An insertion-ordered mapping of field key to field schema.
pub type FieldMap = LinkedHashMap<String, FieldSchema, std::collections::hash_map::RandomState>;

/// View of a field mapping: its (key, schema) entries in insertion order.
pub type Entries = Seq<(Seq<char>, SchemaV)>;

/// What a `FieldMap` holds: its (key, schema) entries in insertion order.
pub uninterp spec fn field_entries(m: FieldMap) -> Entries;

/// The value of the first entry keyed `k`, if any.
pub open spec fn map_lookup(es: Entries, k: Seq<char>) -> Option<SchemaV>
    decreases es.len(),
{
    if es.len() == 0 {
        None
    } else if es[0].0 == k {
        Some(es[0].1)
    } else {
        map_lookup(es.drop_first(), k)
    }
}

/// Whether some entry is keyed `k`.
pub open spec fn map_has_key(es: Entries, k: Seq<char>) -> bool {
    map_lookup(es, k) is Some
}

/// The keys, in entry order.
pub open spec fn map_keys(es: Entries) -> Seq<Seq<char>> {
    es.map_values(|e: (Seq<char>, SchemaV)| e.0)
}

/// No two entries share a key. Every mapping handed to or produced by
/// this library satisfies this.
pub open spec fn unique_keys(es: Entries) -> bool {
    forall|i: int, j: int| 0 <= i < j < es.len() ==> es[i].0 != es[j].0
}

/// A key is found by the lookup exactly when some entry carries it.
pub proof fn lemma_has_key_exists(es: Entries, k: Seq<char>)
    ensures
        map_has_key(es, k) <==> exists|i: int| 0 <= i < es.len() && es[i].0 == k,
    decreases es.len(),
{
    if es.len() > 0 {
        lemma_has_key_exists(es.drop_first(), k);
        if es[0].0 == k {
        } else if exists|i: int| 0 <= i < es.drop_first().len() && es.drop_first()[i].0 == k {
            let i = choose|i: int| 0 <= i < es.drop_first().len() && es.drop_first()[i].0 == k;
            assert(es[i + 1].0 == k);
        } else {
            assert(forall|i: int| 0 < i < es.len() ==> es[i].0 == es.drop_first()[i - 1].0);
        }
    }
}

/// Under unique keys, the lookup of any entry's key yields that entry's value.
pub proof fn lemma_lookup_unique(es: Entries, i: int)
    requires
        unique_keys(es),
        0 <= i < es.len(),
    ensures
        map_lookup(es, es[i].0) == Some(es[i].1),
    decreases i,
{
    if i == 0 {
    } else {
        assert(es[0].0 != es[i].0);
        assert(es.drop_first()[i - 1] == es[i]);
        lemma_lookup_unique(es.drop_first(), i - 1);
    }
}

/// Relies on `LinkedHashMap::new`: a map with no entries.
#[verifier::external_body]
pub(crate) fn fm_new() -> (r: FieldMap)
    ensures
        field_entries(r) == Seq::<(Seq<char>, SchemaV)>::empty(),
        unique_keys(field_entries(r)),
{
    LinkedHashMap::new()
}

/// Relies on `LinkedHashMap::insert`: a pair with a fresh key is appended
/// at the back, in insertion order.
#[verifier::external_body]
pub(crate) fn fm_insert(m: &mut FieldMap, k: String, v: FieldSchema)
    requires
        !map_has_key(field_entries(*old(m)), k@),
    ensures
        field_entries(*final(m)) == field_entries(*old(m)).push((k@, v@)),
{
    m.insert(k, v);
}

/// Relies on `LinkedHashMap::get`: the value stored under `k`, if any,
/// cloned.
#[verifier::external_body]
pub(crate) fn fm_get(m: &FieldMap, k: &String) -> (r: Option<FieldSchema>)
    ensures
        match r {
            Some(v) => map_lookup(field_entries(*m), k@) == Some(v@),
            None => map_lookup(field_entries(*m), k@) is None,
        },
{
    match m.get(k) {
        Some(v) => Some(v.clone()),
        None => None,
    }
}

/// Relies on `LinkedHashMap::iter`: all entries, in insertion order,
/// cloned.
#[verifier::external_body]
pub(crate) fn fm_entries(m: &FieldMap) -> (r: Vec<(String, FieldSchema)>)
    ensures
        r@.map_values(|p: (String, FieldSchema)| (p.0@, p.1@)) == field_entries(*m),
{
    m.iter().map(|(k, v)| (k.clone(), v.clone())).collect()
}

/// The entries of a field mapping, in insertion order.
pub fn map_entries(m: &FieldMap) -> (r: Vec<(String, FieldSchema)>)
    ensures
        r@.map_values(|p: (String, FieldSchema)| (p.0@, p.1@)) == field_entries(*m),
{
    fm_entries(m)
}

/// Builds a field mapping from its entries, which must have distinct keys.
pub fn fm_from_entries(entries: Vec<(String, FieldSchema)>) -> (r: FieldMap)
    requires
        forall|i: int, j: int|
            0 <= i < j < entries@.len() ==> entries@[i].0@ != entries@[j].0@,
    ensures
        field_entries(r) == entries@.map_values(|p: (String, FieldSchema)| (p.0@, p.1@)),
{
    let ghost evs = entries@.map_values(|p: (String, FieldSchema)| (p.0@, p.1@));
    let mut m = fm_new();
    let mut rest = entries;
    let ghost mut i: int = 0;
    proof {
        assert(field_entries(m) =~= evs.take(0));
    }
    while rest.len() > 0
        invariant
            i + rest.len() == evs.len(),
            0 <= i <= evs.len(),
            forall|j: int| 0 <= j < rest@.len() ==> (#[trigger] rest@[j].0@, rest@[j].1@) == evs[i + j],
            forall|a: int, b: int| 0 <= a < b < evs.len() ==> evs[a].0 != evs[b].0,
            field_entries(m) == evs.take(i),
        decreases rest.len(),
    {
        let (k, v) = rest.remove(0);
        proof {
            lemma_has_key_exists(field_entries(m), k@);
            assert(forall|a: int| 0 <= a < i ==> evs.take(i)[a] == evs[a]);
            assert((k@, v@) == evs[i]);
            assert(!map_has_key(field_entries(m), k@));
        }
        fm_insert(&mut m, k, v);
        proof {
            i = i + 1;
            assert(field_entries(m) =~= evs.take(i));
        }
    }
    proof {
        assert(evs.take(i) =~= evs);
    }
    m
}

} // verus!
