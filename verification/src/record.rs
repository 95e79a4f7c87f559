//! A record: the cells of one row, keyed by field name, in insertion order.
use indexmap::IndexMap;
use vstd::prelude::*;
use crate::value::{Value, ValueView};

verus! {

#[verifier::external_type_specification]
#[verifier::external_body]
#[verifier::reject_recursive_types(K)]
#[verifier::reject_recursive_types(V)]
#[verifier::reject_recursive_types(S)]
pub struct ExIndexMap<K, V, S>(IndexMap<K, V, S>);

/// A single row moving through the pipeline. Insertion order is preserved,
/// so output column order is stable.
pub type Record = IndexMap<String, Value>;

/// The contents of a record: its (key, value) entries in insertion order.
pub type Entries = Seq<(Seq<char>, ValueView)>;

/// Name for the entries that an `IndexMap` holds, in its order.
pub uninterp spec fn entries(m: IndexMap<String, Value>) -> Seq<(Seq<char>, ValueView)>;

/// No key occurs twice.
pub open spec fn distinct_keys(es: Entries) -> bool {
    forall|i: int, j: int| 0 <= i < es.len() && 0 <= j < es.len() && i != j ==> es[i].0 != es[j].0
}

/// Position of key `k`, searching from the end.
pub open spec fn find_key(es: Entries, k: Seq<char>) -> Option<int>
    decreases es.len(),
{
    if es.len() == 0 {
        None
    } else if es.last().0 == k {
        Some(es.len() - 1)
    } else {
        find_key(es.drop_last(), k)
    }
}

/// A key found is at a position of the entries, holding that key.
pub proof fn lemma_find_key_bound(es: Entries, k: Seq<char>)
    ensures
        find_key(es, k) matches Some(i) ==> 0 <= i < es.len() && es[i].0 == k,
    decreases es.len(),
{
    if es.len() > 0 && es.last().0 != k {
        lemma_find_key_bound(es.drop_last(), k);
        if let Some(i) = find_key(es.drop_last(), k) {
            assert(es.drop_last()[i] == es[i]);
        }
    }
}

/// A key not found is held by no entry.
pub proof fn lemma_find_key_none(es: Entries, k: Seq<char>)
    ensures
        find_key(es, k) is None ==> forall|i: int| 0 <= i < es.len() ==> (#[trigger] es[i]).0 != k,
    decreases es.len(),
{
    if es.len() > 0 && es.last().0 != k {
        lemma_find_key_none(es.drop_last(), k);
        assert forall|i: int| 0 <= i < es.len() - 1 implies es.drop_last()[i] == #[trigger] es[i] by {}
    }
}

/// The keys of the entries, in order.
pub open spec fn keys_of(es: Entries) -> Seq<Seq<char>> {
    es.map_values(|e: (Seq<char>, ValueView)| e.0)
}

/// A key added to a key order: kept in place when present, else last.
pub open spec fn add_key(ks: Seq<Seq<char>>, k: Seq<char>) -> Seq<Seq<char>> {
    if ks.contains(k) {
        ks
    } else {
        ks.push(k)
    }
}

/// Inserting changes the key order only by adding a new key last.
pub proof fn lemma_keys_of_inserted(es: Entries, k: Seq<char>, v: ValueView)
    ensures
        keys_of(inserted(es, k, v)) == add_key(keys_of(es), k),
{
    lemma_find_key_bound(es, k);
    lemma_find_key_none(es, k);
    match find_key(es, k) {
        Some(i) => {
            assert(keys_of(es)[i] == k);
            assert(keys_of(inserted(es, k, v)) =~= keys_of(es));
        },
        None => {
            assert(!keys_of(es).contains(k));
            assert(keys_of(inserted(es, k, v)) =~= keys_of(es).push(k));
        },
    }
}

/// The value stored under `k`.
pub open spec fn lookup(es: Entries, k: Seq<char>) -> Option<ValueView> {
    match find_key(es, k) {
        Some(i) => Some(es[i].1),
        None => None,
    }
}

/// The entries after inserting `k -> v`: an existing key keeps its place and
/// takes the new value; a new key goes last.
pub open spec fn inserted(es: Entries, k: Seq<char>, v: ValueView) -> Entries {
    match find_key(es, k) {
        Some(i) => es.update(i, (k, v)),
        None => es.push((k, v)),
    }
}

/// Entries with the same keys in the same order find a key at the same
/// place.
proof fn lemma_find_key_same_keys(a: Entries, b: Entries, k: Seq<char>)
    requires
        a.len() == b.len(),
        forall|i: int| 0 <= i < a.len() ==> (#[trigger] a[i]).0 == b[i].0,
    ensures
        find_key(a, k) == find_key(b, k),
    decreases a.len(),
{
    if a.len() > 0 {
        assert forall|i: int| 0 <= i < a.drop_last().len() implies (#[trigger] a.drop_last()[i]).0
            == b.drop_last()[i].0 by {
            assert(a[i].0 == b[i].0);
        }
        lemma_find_key_same_keys(a.drop_last(), b.drop_last(), k);
    }
}

/// After an insertion the inserted key holds the new value, and every other
/// key keeps the value it had.
pub proof fn lemma_lookup_inserted(es: Entries, k: Seq<char>, v: ValueView, k2: Seq<char>)
    ensures
        lookup(inserted(es, k, v), k2) == (if k2 == k {
            Some(v)
        } else {
            lookup(es, k2)
        }),
{
    lemma_find_key_bound(es, k);
    lemma_find_key_bound(es, k2);
    let out = inserted(es, k, v);
    match find_key(es, k) {
        Some(i) => {
            assert forall|j: int| 0 <= j < es.len() implies (#[trigger] es[j]).0 == out[j].0 by {}
            lemma_find_key_same_keys(es, out, k2);
            if k2 != k {
                if let Some(j) = find_key(es, k2) {
                    assert(j != i);
                    assert(out[j] == es[j]);
                }
            }
        },
        None => {
            assert(out.drop_last() =~= es);
        },
    }
}

/// `IndexMap::new`: an empty map.
#[verifier::external_body]
pub(crate) fn record_new() -> (r: Record)
    ensures
        entries(r) == Seq::<(Seq<char>, ValueView)>::empty(),
{
    IndexMap::new()
}

/// `IndexMap::insert`: indexmap documents that an existing key keeps its
/// place in the order and takes the new value, and that a new key is
/// inserted last. Keys stay distinct.
#[verifier::external_body]
pub(crate) fn record_insert(m: &mut Record, k: String, v: Value)
    ensures
        entries(*final(m)) == inserted(entries(*old(m)), k@, v@),
        distinct_keys(entries(*final(m))),
{
    m.insert(k, v);
}

/// `IndexMap::get`: the value stored under a key equal to `k`, if any.
#[verifier::external_body]
pub(crate) fn record_get<'a>(m: &'a Record, k: &str) -> (r: Option<&'a Value>)
    ensures
        match lookup(entries(*m), k@) {
            Some(v) => r matches Some(x) && x@ == v,
            None => r is None,
        },
{
    m.get(k)
}

} // verus!
