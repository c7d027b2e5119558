//! Keyed pair sequences with last-binding-wins lookup.
//!
//! The domain store and the topic registry both keep their entries as a
//! vector of `(key, value)` pairs. The binding that counts for a key is the
//! latest one pushed; [`alist_map`] is the mapping such a vector denotes.

use vstd::prelude::*;

verus! {

/// The value bound to `key`: that of the latest pair carrying `key`.
pub open spec fn alist_get<V>(s: Seq<(u64, V)>, key: u64) -> Option<V>
    decreases s.len(),
{
    if s.len() == 0 {
        None
    } else if s.last().0 == key {
        Some(s.last().1)
    } else {
        alist_get(s.drop_last(), key)
    }
}

/// The mapping that a pair sequence denotes.
pub open spec fn alist_map<V>(s: Seq<(u64, V)>) -> Map<u64, V> {
    Map::new(|k: u64| alist_get(s, k) is Some, |k: u64| alist_get(s, k)->Some_0)
}

/// Pushing a pair binds its key and leaves every other key as it was.
pub proof fn lemma_alist_get_push<V>(s: Seq<(u64, V)>, key: u64, v: V, k2: u64)
    ensures
        alist_get(s.push((key, v)), k2) == if k2 == key {
            Some(v)
        } else {
            alist_get(s, k2)
        },
{
    assert(s.push((key, v)).drop_last() =~= s);
}

/// Pushing a pair inserts its binding into the denoted mapping.
pub proof fn lemma_alist_map_push<V>(s: Seq<(u64, V)>, key: u64, v: V)
    ensures
        alist_map(s.push((key, v))) == alist_map(s).insert(key, v),
{
    assert forall|k2: u64| #[trigger] alist_get(s.push((key, v)), k2) == if k2 == key {
        Some(v)
    } else {
        alist_get(s, k2)
    } by {
        lemma_alist_get_push(s, key, v, k2);
    }
    assert(alist_map(s.push((key, v))) =~= alist_map(s).insert(key, v));
}

/// A pair carrying `key` with no later pair of the same key is the binding
/// that the lookup returns.
pub proof fn lemma_alist_get_last_occurrence<V>(s: Seq<(u64, V)>, key: u64, i: int)
    requires
        0 <= i < s.len(),
        s[i].0 == key,
        forall|j: int| i < j < s.len() ==> s[j].0 != key,
    ensures
        alist_get(s, key) == Some(s[i].1),
    decreases s.len(),
{
    if i == s.len() - 1 {
    } else {
        lemma_alist_get_last_occurrence(s.drop_last(), key, i);
    }
}

/// A key carried by no pair is absent from the lookup.
pub proof fn lemma_alist_get_absent<V>(s: Seq<(u64, V)>, key: u64)
    requires
        forall|j: int| 0 <= j < s.len() ==> s[j].0 != key,
    ensures
        alist_get(s, key) is None,
    decreases s.len(),
{
    if s.len() > 0 {
        lemma_alist_get_absent(s.drop_last(), key);
    }
}

/// Replacing a pair in place does not disturb the binding of a key that
/// neither the old nor the new pair carries.
pub proof fn lemma_alist_get_update_other<V>(s: Seq<(u64, V)>, i: int, x: (u64, V), k2: u64)
    requires
        0 <= i < s.len(),
        s[i].0 != k2,
        x.0 != k2,
    ensures
        alist_get(s.update(i, x), k2) == alist_get(s, k2),
    decreases s.len(),
{
    let s2 = s.update(i, x);
    if i == s.len() - 1 {
        assert(s2.drop_last() =~= s.drop_last());
    } else {
        assert(s2.last() == s.last());
        if s.last().0 == k2 {
        } else {
            assert(s2.drop_last() =~= s.drop_last().update(i, x));
            lemma_alist_get_update_other(s.drop_last(), i, x, k2);
        }
    }
}

/// Replacing the decisive pair of `key` in place rebinds `key` and leaves
/// every other key as it was.
pub proof fn lemma_alist_map_update_last<V>(s: Seq<(u64, V)>, i: int, key: u64, v: V)
    requires
        0 <= i < s.len(),
        s[i].0 == key,
        forall|j: int| i < j < s.len() ==> s[j].0 != key,
    ensures
        alist_map(s.update(i, (key, v))) == alist_map(s).insert(key, v),
{
    let s2 = s.update(i, (key, v));
    lemma_alist_get_last_occurrence(s2, key, i);
    assert forall|k2: u64| #[trigger] alist_get(s2, k2) == if k2 == key {
        Some(v)
    } else {
        alist_get(s, k2)
    } by {
        if k2 != key {
            lemma_alist_get_update_other(s, i, (key, v), k2);
        }
    }
    assert(alist_map(s2) =~= alist_map(s).insert(key, v));
}

/// Taking out a pair does not disturb the binding of a key it does not carry.
pub proof fn lemma_alist_get_remove_other<V>(s: Seq<(u64, V)>, i: int, k2: u64)
    requires
        0 <= i < s.len(),
        s[i].0 != k2,
    ensures
        alist_get(s.remove(i), k2) == alist_get(s, k2),
    decreases s.len(),
{
    let s2 = s.remove(i);
    if i == s.len() - 1 {
        assert(s2 =~= s.drop_last());
    } else {
        assert(s2.last() == s.last());
        if s.last().0 == k2 {
        } else {
            assert(s2.drop_last() =~= s.drop_last().remove(i));
            lemma_alist_get_remove_other(s.drop_last(), i, k2);
        }
    }
}

/// Index of the pair that decides `key`: the latest pair carrying `key`,
/// or `None` when no pair does.
pub(crate) fn alist_find_last<V>(v: &Vec<(u64, V)>, key: u64) -> (r: Option<usize>)
    ensures
        match r {
            Some(i) => i < v@.len() && v@[i as int].0 == key && (forall|j: int|
                i < j < v@.len() ==> v@[j].0 != key) && alist_get(v@, key) == Some(
                v@[i as int].1,
            ),
            None => alist_get(v@, key) is None,
        },
{
    let mut i: usize = v.len();
    while i > 0
        invariant
            i <= v@.len(),
            forall|j: int| i <= j < v@.len() ==> v@[j].0 != key,
        decreases i,
    {
        i = i - 1;
        if v[i].0 == key {
            proof {
                lemma_alist_get_last_occurrence(v@, key, i as int);
            }
            return Some(i);
        }
    }
    proof {
        lemma_alist_get_absent(v@, key);
    }
    None
}

} // verus!
