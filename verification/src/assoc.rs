//! Association lists: vectors of named entries, looked up by name.
use vstd::prelude::*;
use crate::text::str_eq;

verus! {

/// The value stored under `name`, if any.
pub open spec fn assoc<V>(s: Seq<(String, V)>, name: Seq<char>) -> Option<V>
    decreases s.len(),
{
    if s.len() == 0 {
        None
    } else if s[0].0@ == name {
        Some(s[0].1)
    } else {
        assoc(s.drop_first(), name)
    }
}

/// No name occurs twice.
pub open spec fn distinct_names<V>(s: Seq<(String, V)>) -> bool {
    forall|i: int, j: int| 0 <= i < s.len() && 0 <= j < s.len() && i != j ==> s[i].0@ != s[j].0@
}

/// The names, in order.
pub open spec fn names<V>(s: Seq<(String, V)>) -> Seq<Seq<char>> {
    s.map_values(|p: (String, V)| p.0@)
}

/// Whether `assoc` finds `name` at position `i` (the first with that name).
pub proof fn lemma_assoc_at<V>(s: Seq<(String, V)>, name: Seq<char>, i: int)
    requires
        0 <= i < s.len(),
        s[i].0@ == name,
        forall|j: int| 0 <= j < i ==> s[j].0@ != name,
    ensures
        assoc(s, name) == Some(s[i].1),
    decreases i,
{
    if i > 0 {
        lemma_assoc_at(s.drop_first(), name, i - 1);
    }
}

/// `assoc` finds nothing when no entry has the name.
pub proof fn lemma_assoc_none<V>(s: Seq<(String, V)>, name: Seq<char>)
    requires
        forall|j: int| 0 <= j < s.len() ==> s[j].0@ != name,
    ensures
        assoc(s, name) is None,
    decreases s.len(),
{
    if s.len() > 0 {
        lemma_assoc_none(s.drop_first(), name);
    }
}

/// `assoc` finds an entry with the name whenever there is one.
pub proof fn lemma_assoc_some<V>(s: Seq<(String, V)>, name: Seq<char>) -> (i: int)
    requires
        assoc(s, name) is Some,
    ensures
        0 <= i < s.len(),
        s[i].0@ == name,
        assoc(s, name) == Some(s[i].1),
        forall|j: int| 0 <= j < i ==> s[j].0@ != name,
    decreases s.len(),
{
    if s[0].0@ == name {
        0
    } else {
        let k = lemma_assoc_some(s.drop_first(), name);
        assert forall|j: int| 0 <= j < k + 1 implies s[j].0@ != name by {
            if j > 0 { assert(s[j] == s.drop_first()[j - 1]); }
        }
        k + 1
    }
}

/// Where `name` sits in `s`, if anywhere.
pub fn assoc_position<V>(s: &Vec<(String, V)>, name: &str) -> (r: Option<usize>)
    ensures
        match r {
            Some(i) => {
                &&& (i as int) < s@.len()
                &&& s@[i as int].0@ == name@
                &&& assoc(s@, name@) == Some(s@[i as int].1)
                &&& forall|j: int| 0 <= j < i ==> s@[j].0@ != name@
            },
            None => assoc(s@, name@) is None,
        },
{
    let mut i: usize = 0;
    while i < s.len()
        invariant
            i <= s@.len(),
            forall|j: int| 0 <= j < i ==> s@[j].0@ != name@,
        decreases s@.len() - i,
    {
        if str_eq(s[i].0.as_str(), name) {
            proof { lemma_assoc_at(s@, name@, i as int); }
            return Some(i);
        }
        i += 1;
    }
    proof { lemma_assoc_none(s@, name@); }
    None
}

/// Stores `v` under `name`: replaces the entry with that name, or appends one.
/// Returns where it stored it.
pub fn assoc_insert<V>(s: &mut Vec<(String, V)>, name: String, v: V) -> (pos: usize)
    ensures
        distinct_names(old(s)@) ==> distinct_names(final(s)@),
        pos <= old(s)@.len(),
        (pos as int) < old(s)@.len() ==> old(s)@[pos as int].0@ == name@
            && final(s)@ == old(s)@.update(pos as int, (name, v)),
        pos == old(s)@.len() ==> assoc(old(s)@, name@) is None
            && final(s)@ == old(s)@.push((name, v)),
        assoc(final(s)@, name@) == Some(v),
        forall|n: Seq<char>| n != name@ ==> assoc(final(s)@, n) == assoc(old(s)@, n),
{
    let ghost old_s = s@;
    let ghost key = name@;
    match assoc_position(s, name.as_str()) {
        Some(i) => {
            s.set(i, (name, v));
            proof {
                let new_s = s@;
                assert forall|n: Seq<char>| n != key implies assoc(new_s, n) == assoc(old_s, n) by {
                    lemma_assoc_same_names(old_s, new_s, n, i as int);
                }
                assert(forall|j: int| 0 <= j < new_s.len() && j != i ==> new_s[j] == old_s[j]);
                let k = lemma_assoc_some(old_s, key);
                assert(k == i) by {
                    if k < i { assert(old_s[k].0@ != key); }
                    if i < k { assert(old_s[i as int].0@ != key); }
                }
                lemma_assoc_at(new_s, key, i as int);
            }
            i
        },
        None => {
            let pos = s.len();
            s.push((name, v));
            proof {
                let new_s = s@;
                assert forall|j: int| 0 <= j < old_s.len() implies old_s[j].0@ != key by {
                    if old_s[j].0@ == key {
                        let k = lemma_assoc_some_exists(old_s, key, j);
                    }
                }
                assert forall|n: Seq<char>| n != key implies assoc(new_s, n) == assoc(old_s, n) by {
                    lemma_assoc_push(old_s, (new_s[pos as int].0, new_s[pos as int].1), n);
                    assert(new_s =~= old_s.push(new_s[pos as int]));
                }
                lemma_assoc_at(new_s, key, pos as int);
            }
            pos
        },
    }
}

/// An entry with the name makes `assoc` find something.
pub proof fn lemma_assoc_some_exists<V>(s: Seq<(String, V)>, name: Seq<char>, j: int)
    requires
        0 <= j < s.len(),
        s[j].0@ == name,
    ensures
        assoc(s, name) is Some,
    decreases s.len(),
{
    if s[0].0@ != name {
        lemma_assoc_some_exists(s.drop_first(), name, j - 1);
    }
}

/// `assoc` of other names is unchanged by appending an entry.
pub proof fn lemma_assoc_push<V>(s: Seq<(String, V)>, e: (String, V), n: Seq<char>)
    requires
        e.0@ != n,
    ensures
        assoc(s.push(e), n) == assoc(s, n),
    decreases s.len(),
{
    if s.len() > 0 {
        assert(s.push(e)[0] == s[0]);
        assert(s.push(e).drop_first() =~= s.drop_first().push(e));
        lemma_assoc_push(s.drop_first(), e, n);
    } else {
        assert(s.push(e)[0] == e);
        assert(s.push(e).drop_first() =~= Seq::<(String, V)>::empty());
        assert(assoc(s.push(e).drop_first(), n) is None);
        assert(assoc(s, n) is None);
        assert(assoc(s.push(e), n) == assoc(s.push(e).drop_first(), n));
    }
}

/// An entry added last is found by its name unless an earlier entry has it.
pub proof fn lemma_assoc_push_same<V>(s: Seq<(String, V)>, e: (String, V))
    ensures
        assoc(s.push(e), e.0@) == match assoc(s, e.0@) {
            Some(x) => Some(x),
            None => Some(e.1),
        },
    decreases s.len(),
{
    if s.len() > 0 {
        assert(s.push(e)[0] == s[0]);
        assert(s.push(e).drop_first() =~= s.drop_first().push(e));
        lemma_assoc_push_same(s.drop_first(), e);
    } else {
        assert(s.push(e)[0] == e);
    }
}

/// What `base` gives a name, else what `extra` gives it.
pub open spec fn assoc_prefer<V>(base: Seq<(String, V)>, extra: Seq<(String, V)>, name: Seq<char>) -> Option<V> {
    match assoc(base, name) {
        Some(x) => Some(x),
        None => assoc(extra, name),
    }
}

/// `assoc` of other names is unchanged by replacing the value at an entry,
/// keeping its name.
pub proof fn lemma_assoc_same_names<V>(s: Seq<(String, V)>, t: Seq<(String, V)>, n: Seq<char>, i: int)
    requires
        s.len() == t.len(),
        0 <= i < s.len(),
        s[i].0@ == t[i].0@,
        s[i].0@ != n,
        forall|j: int| 0 <= j < s.len() && j != i ==> t[j] == s[j],
    ensures
        assoc(t, n) == assoc(s, n),
    decreases s.len(),
{
    if i > 0 {
        lemma_assoc_same_names(s.drop_first(), t.drop_first(), n, i - 1);
    } else {
        assert(s.drop_first() =~= t.drop_first());
    }
}


} // verus!
