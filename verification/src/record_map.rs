//! The key maps of records: an `IndexMap` from field names to the cells that
//! hold the values, which keeps the fields in the order they were added.
use vstd::prelude::*;
use indexmap::IndexMap;

verus! {

/// `indexmap::IndexMap`, declared so that it can stand in signatures and
/// fields; its contents are reached only through the items below.
#[verifier::external_type_specification]
#[verifier::external_body]
#[verifier::reject_recursive_types(K)]
#[verifier::reject_recursive_types(V)]
#[verifier::reject_recursive_types(S)]
pub struct ExIndexMap<K, V, S>(IndexMap<K, V, S>);

/// The entries of a key map, in their order: each key's text and its cell.
pub uninterp spec fn map_entries(m: IndexMap<String, usize>) -> Seq<(Seq<char>, usize)>;

/// No key occurs twice.
pub open spec fn distinct_keys(e: Seq<(Seq<char>, usize)>) -> bool {
    forall|i: int, j: int| 0 <= i < e.len() && 0 <= j < e.len() && i != j ==> e[i].0 != e[j].0
}

/// The position of the entry with key `k`, if any.
pub open spec fn key_position(e: Seq<(Seq<char>, usize)>, k: Seq<char>) -> Option<int> {
    if exists|i: int| 0 <= i < e.len() && e[i].0 == k {
        Some(choose|i: int| 0 <= i < e.len() && e[i].0 == k)
    } else {
        None
    }
}

/// In entries whose keys are distinct, the entry with key `e[i].0` is at `i`.
pub proof fn lemma_key_position_at(e: Seq<(Seq<char>, usize)>, i: int)
    requires
        distinct_keys(e),
        0 <= i < e.len(),
    ensures
        key_position(e, e[i].0) == Some(i),
{
    let k = e[i].0;
    assert(0 <= i < e.len() && e[i].0 == k);
    let j = choose|j: int| 0 <= j < e.len() && e[j].0 == k;
    assert(j == i);
}

/// A key added last is found last.
pub proof fn lemma_key_position_push(e: Seq<(Seq<char>, usize)>, k: Seq<char>, c: usize)
    requires
        key_position(e, k) is None,
    ensures
        key_position(e.push((k, c)), k) == Some(e.len() as int),
{
    let f = e.push((k, c));
    assert(f[e.len() as int].0 == k);
    let j = choose|j: int| 0 <= j < f.len() && f[j].0 == k;
    if j < e.len() {
        assert(e[j].0 == k);
        assert(false);
    }
}

/// Changing the entry of key `k`, or adding it last, leaves every other
/// key where it was, with the same entry.
pub proof fn lemma_other_key_kept(e: Seq<(Seq<char>, usize)>, f: Seq<(Seq<char>, usize)>, k: Seq<char>, other: Seq<char>)
    requires
        distinct_keys(e),
        distinct_keys(f),
        other != k,
        f.len() >= e.len(),
        forall|i: int| 0 <= i < e.len() && e[i].0 != k ==> f[i] == e[i],
        forall|i: int| 0 <= i < f.len() && (i >= e.len() || e[i].0 == k) ==> f[i].0 == k,
    ensures
        match key_position(e, other) {
            Some(i) => key_position(f, other) == Some(i) && f[i] == e[i],
            None => key_position(f, other) is None,
        },
{
    match key_position(e, other) {
        Some(i) => {
            assert(e[i].0 == other);
            assert(f[i] == e[i]);
            lemma_key_position_at(f, i);
        },
        None => {
            if exists|j: int| 0 <= j < f.len() && f[j].0 == other {
                let j = choose|j: int| 0 <= j < f.len() && f[j].0 == other;
                if j < e.len() && e[j].0 != k {
                    assert(e[j].0 == other);
                } else {
                    assert(f[j].0 == k);
                }
                assert(false);
            }
        },
    }
}

/// `IndexMap::new`: a map with no entries.
#[verifier::external_body]
pub fn map_new() -> (m: IndexMap<String, usize>)
    ensures
        map_entries(m) == Seq::<(Seq<char>, usize)>::empty(),
{
    IndexMap::new()
}

/// `IndexMap::insert`: a key already present keeps its place and gets the
/// new cell, and its old cell is returned; a new key goes last.
#[verifier::external_body]
pub fn map_insert(m: &mut IndexMap<String, usize>, key: String, cell: usize) -> (r: Option<usize>)
    ensures
        distinct_keys(map_entries(*old(m))) ==> distinct_keys(map_entries(*final(m))),
        match key_position(map_entries(*old(m)), key@) {
            Some(i) => distinct_keys(map_entries(*old(m))) ==> (r == Some(map_entries(*old(m))[i].1)
                && map_entries(*final(m)) == map_entries(*old(m)).update(i, (key@, cell))),
            None => r is None && map_entries(*final(m)) == map_entries(*old(m)).push((key@, cell)),
        },
{
    m.insert(key, cell)
}

/// `IndexMap::get`: the cell of `key`, if present.
#[verifier::external_body]
pub fn map_get(m: &IndexMap<String, usize>, key: &str) -> (r: Option<usize>)
    ensures
        match key_position(map_entries(*m), key@) {
            Some(i) => distinct_keys(map_entries(*m)) ==> r == Some(map_entries(*m)[i].1),
            None => r is None,
        },
{
    m.get(key).copied()
}

/// `IndexMap::len`: the number of entries.
#[verifier::external_body]
pub fn map_len(m: &IndexMap<String, usize>) -> (r: usize)
    ensures
        r == map_entries(*m).len(),
{
    m.len()
}

/// `IndexMap::get_index`: the entry at position `i`, with its key copied.
#[verifier::external_body]
pub fn map_entry(m: &IndexMap<String, usize>, i: usize) -> (r: (String, usize))
    requires
        i < map_entries(*m).len(),
    ensures
        r.0@ == map_entries(*m)[i as int].0,
        r.1 == map_entries(*m)[i as int].1,
{
    let (k, v) = m.get_index(i).unwrap();
    (k.clone(), *v)
}

} // verus!
