//! String-keyed association tables backed by vectors, with first-match
//! lookup and replace-or-append insertion.

use vstd::prelude::*;

use crate::text::str_equal;

verus! {

/// The key-value pairs of a table, as sequences.
pub open spec fn table_view<V: View>(s: Seq<(String, V)>) -> Seq<(Seq<char>, V::V)> {
    s.map_values(|p: (String, V)| (p.0@, p.1@))
}

/// Index of the first pair whose key is `k`, or `-1`.
pub open spec fn key_index<V>(s: Seq<(Seq<char>, V)>, k: Seq<char>) -> int
    decreases s.len(),
{
    if s.len() == 0 {
        -1
    } else if s[0].0 == k {
        0
    } else if key_index(s.subrange(1, s.len() as int), k) == -1 {
        -1
    } else {
        1 + key_index(s.subrange(1, s.len() as int), k)
    }
}

pub open spec fn has_key<V>(s: Seq<(Seq<char>, V)>, k: Seq<char>) -> bool {
    key_index(s, k) >= 0
}

/// The value at the first pair whose key is `k`, if any.
pub open spec fn assoc_get<V>(s: Seq<(Seq<char>, V)>, k: Seq<char>) -> Option<V> {
    if key_index(s, k) < 0 {
        None
    } else {
        Some(s[key_index(s, k)].1)
    }
}

/// The table with `k` bound to `val`: the first pair keyed `k` replaced, or
/// the pair appended when `k` is absent.
pub open spec fn assoc_put<V>(s: Seq<(Seq<char>, V)>, k: Seq<char>, val: V) -> Seq<
    (Seq<char>, V),
>
    decreases s.len(),
{
    if s.len() == 0 {
        seq![(k, val)]
    } else if s[0].0 == k {
        seq![(k, val)] + s.subrange(1, s.len() as int)
    } else {
        seq![s[0]] + assoc_put(s.subrange(1, s.len() as int), k, val)
    }
}

pub proof fn lemma_key_index_bounds<V>(s: Seq<(Seq<char>, V)>, k: Seq<char>)
    ensures
        -1 <= key_index(s, k) < s.len(),
        key_index(s, k) >= 0 ==> s[key_index(s, k)].0 == k,
    decreases s.len(),
{
    if s.len() > 0 && s[0].0 != k {
        lemma_key_index_bounds(s.subrange(1, s.len() as int), k);
    }
}

pub proof fn lemma_key_index_witness<V>(s: Seq<(Seq<char>, V)>, k: Seq<char>, i: int)
    requires
        0 <= i < s.len(),
        s[i].0 == k,
        forall|j: int| 0 <= j < i ==> (#[trigger] s[j]).0 != k,
    ensures
        key_index(s, k) == i,
    decreases s.len(),
{
    if i > 0 {
        let t = s.subrange(1, s.len() as int);
        assert(forall|j: int| 0 <= j < i - 1 ==> (#[trigger] t[j]) == s[j + 1]);
        lemma_key_index_witness(t, k, i - 1);
    }
}

pub proof fn lemma_key_index_none<V>(s: Seq<(Seq<char>, V)>, k: Seq<char>)
    requires
        forall|j: int| 0 <= j < s.len() ==> (#[trigger] s[j]).0 != k,
    ensures
        key_index(s, k) == -1,
    decreases s.len(),
{
    if s.len() > 0 {
        let t = s.subrange(1, s.len() as int);
        assert(forall|j: int| 0 <= j < t.len() ==> (#[trigger] t[j]) == s[j + 1]);
        lemma_key_index_none(t, k);
    }
}

/// Unfold `assoc_get` across the head of the table.
pub proof fn lemma_assoc_get_step<V>(s: Seq<(Seq<char>, V)>, k: Seq<char>)
    requires
        s.len() > 0,
    ensures
        assoc_get(s, k) == (if s[0].0 == k {
            Some(s[0].1)
        } else {
            assoc_get(s.subrange(1, s.len() as int), k)
        }),
{
    let t = s.subrange(1, s.len() as int);
    lemma_key_index_bounds(s, k);
    lemma_key_index_bounds(t, k);
    if s[0].0 != k && key_index(t, k) >= 0 {
        assert(s[1 + key_index(t, k)] == t[key_index(t, k)]);
    }
}

/// Binding one key leaves every other key's first value unchanged, and
/// binds the put key to the put value.
pub proof fn lemma_assoc_put_get<V>(s: Seq<(Seq<char>, V)>, k: Seq<char>, val: V, k2: Seq<char>)
    ensures
        assoc_get(assoc_put(s, k, val), k) == Some(val),
        k2 != k ==> assoc_get(assoc_put(s, k, val), k2) == assoc_get(s, k2),
    decreases s.len(),
{
    let p = assoc_put(s, k, val);
    if s.len() == 0 {
        lemma_assoc_get_step(p, k);
        assert(p.subrange(1, 1) =~= Seq::<(Seq<char>, V)>::empty());
        if k2 != k {
            lemma_assoc_get_step(p, k2);
        }
    } else {
        let t = s.subrange(1, s.len() as int);
        lemma_assoc_get_step(s, k);
        lemma_assoc_get_step(p, k);
        if s[0].0 == k {
            assert(p[0] == (k, val));
            if k2 != k {
                lemma_assoc_get_step(s, k2);
                lemma_assoc_get_step(p, k2);
                assert(p.subrange(1, p.len() as int) =~= t);
            }
        } else {
            lemma_assoc_put_get(t, k, val, k2);
            assert(p[0] == s[0]);
            assert(p.subrange(1, p.len() as int) =~= assoc_put(t, k, val));
            if k2 != k {
                lemma_assoc_get_step(s, k2);
                lemma_assoc_get_step(p, k2);
            }
        }
    }
}

/// A put binds its own key and keeps every key already bound.
pub proof fn lemma_assoc_put_has_key<V>(s: Seq<(Seq<char>, V)>, k: Seq<char>, val: V, k2: Seq<
    char,
>)
    ensures
        has_key(assoc_put(s, k, val), k2) == (k2 == k || has_key(s, k2)),
{
    lemma_assoc_put_get(s, k, val, k2);
    lemma_key_index_bounds(assoc_put(s, k, val), k2);
    lemma_key_index_bounds(s, k2);
    lemma_key_index_bounds(assoc_put(s, k, val), k);
}

/// Every key of a put is the put key or a key of the old table.
pub proof fn lemma_assoc_put_keys<V>(s: Seq<(Seq<char>, V)>, k: Seq<char>, val: V)
    ensures
        forall|m: int|
            0 <= m < assoc_put(s, k, val).len() ==> (#[trigger] assoc_put(s, k, val)[m]).0 == k
                || (exists|m2: int| 0 <= m2 < s.len() && (#[trigger] s[m2]).0 == assoc_put(
                s,
                k,
                val,
            )[m].0),
    decreases s.len(),
{
    let p = assoc_put(s, k, val);
    if s.len() == 0 {
        assert(p =~= seq![(k, val)]);
    } else if s[0].0 == k {
        assert forall|m: int| 0 <= m < p.len() implies (#[trigger] p[m]).0 == k || (exists|m2: int|
            0 <= m2 < s.len() && (#[trigger] s[m2]).0 == p[m].0) by {
            if m > 0 {
                assert(p[m] == s.subrange(1, s.len() as int)[m - 1]);
                assert(s[m].0 == p[m].0);
            }
        }
    } else {
        let t = s.subrange(1, s.len() as int);
        lemma_assoc_put_keys(t, k, val);
        assert forall|m: int| 0 <= m < p.len() implies (#[trigger] p[m]).0 == k || (exists|m2: int|
            0 <= m2 < s.len() && (#[trigger] s[m2]).0 == p[m].0) by {
            if m == 0 {
                assert(p[0] == s[0]);
                assert(s[0].0 == p[0].0);
            } else {
                assert(p[m] == assoc_put(t, k, val)[m - 1]);
                if assoc_put(t, k, val)[m - 1].0 != k {
                    let m2 = choose|m2: int|
                        0 <= m2 < t.len() && (#[trigger] t[m2]).0 == assoc_put(t, k, val)[m - 1].0;
                    assert(s[m2 + 1].0 == p[m].0);
                }
            }
        }
    }
}

/// Where `k` first occurs at `i` the put updates that pair in place.
pub proof fn lemma_assoc_put_update<V>(s: Seq<(Seq<char>, V)>, k: Seq<char>, val: V, i: int)
    requires
        0 <= i < s.len(),
        s[i].0 == k,
        forall|j: int| 0 <= j < i ==> (#[trigger] s[j]).0 != k,
    ensures
        assoc_put(s, k, val) == s.update(i, (k, val)),
    decreases s.len(),
{
    let t = s.subrange(1, s.len() as int);
    if i == 0 {
        assert(assoc_put(s, k, val) =~= s.update(0, (k, val)));
    } else {
        assert(forall|j: int| 0 <= j < i - 1 ==> (#[trigger] t[j]) == s[j + 1]);
        lemma_assoc_put_update(t, k, val, i - 1);
        assert(seq![s[0]] + t.update(i - 1, (k, val)) =~= s.update(i, (k, val)));
    }
}

/// Where `k` is absent the put appends the pair.
pub proof fn lemma_assoc_put_append<V>(s: Seq<(Seq<char>, V)>, k: Seq<char>, val: V)
    requires
        forall|j: int| 0 <= j < s.len() ==> (#[trigger] s[j]).0 != k,
    ensures
        assoc_put(s, k, val) == s.push((k, val)),
    decreases s.len(),
{
    if s.len() == 0 {
        assert(assoc_put(s, k, val) =~= s.push((k, val)));
    } else {
        let t = s.subrange(1, s.len() as int);
        assert(forall|j: int| 0 <= j < t.len() ==> (#[trigger] t[j]) == s[j + 1]);
        lemma_assoc_put_append(t, k, val);
        assert(seq![s[0]] + t.push((k, val)) =~= s.push((k, val)));
    }
}

/// Find the first value bound to `k`.
pub fn table_get<'a, V: View>(v: &'a Vec<(String, V)>, k: &str) -> (r: Option<&'a V>)
    ensures
        match r {
            Some(x) => assoc_get(table_view(v@), k@) == Some(x@),
            None => assoc_get(table_view(v@), k@) is None,
        },
{
    let ghost s = table_view(v@);
    let mut i: usize = 0;
    while i < v.len()
        invariant
            0 <= i <= v@.len(),
            s == table_view(v@),
            s.len() == v@.len(),
            forall|j: int| 0 <= j < i ==> (#[trigger] s[j]).0 != k@,
        decreases v@.len() - i,
    {
        let pair = &v[i];
        proof {
            assert(s[i as int] == (pair.0@, pair.1@));
        }
        if str_equal(pair.0.as_str(), k) {
            proof {
                lemma_key_index_witness(s, k@, i as int);
            }
            return Some(&pair.1);
        }
        i = i + 1;
    }
    proof {
        lemma_key_index_none(s, k@);
    }
    None
}

/// Bind `k` to `val`, replacing the first pair keyed `k` or appending.
pub fn table_put<V: View>(v: &mut Vec<(String, V)>, k: String, val: V)
    ensures
        table_view(final(v)@) == assoc_put(table_view(old(v)@), k@, val@),
{
    let ghost s = table_view(v@);
    let mut i: usize = 0;
    while i < v.len()
        invariant
            0 <= i <= v@.len(),
            v@ == old(v)@,
            s == table_view(v@),
            s.len() == v@.len(),
            forall|j: int| 0 <= j < i ==> (#[trigger] s[j]).0 != k@,
        decreases v@.len() - i,
    {
        let found = str_equal(v[i].0.as_str(), k.as_str());
        proof {
            assert(s[i as int] == (v@[i as int].0@, v@[i as int].1@));
        }
        if found {
            proof {
                lemma_assoc_put_update(s, k@, val@, i as int);
            }
            v.set(i, (k, val));
            proof {
                assert(table_view(v@) =~= s.update(i as int, (k@, val@)));
            }
            return ;
        }
        i = i + 1;
    }
    proof {
        lemma_assoc_put_append(s, k@, val@);
    }
    v.push((k, val));
    proof {
        assert(table_view(v@) =~= s.push((k@, val@)));
    }
}

} // verus!
