//! Sequences of keyed entries: lookup by key, sortedness, ordered insertion.

use crate::text::lex_lt;
use crate::text::lemma_lex_lt_irreflexive;
use crate::text::lemma_lex_lt_total;
use crate::text::lemma_lex_lt_transitive;
use vstd::prelude::*;

verus! {

/// The value bound to `key`; where a key occurs more than once, the last
/// occurrence counts.
pub open spec fn lookup<T>(s: Seq<(Seq<char>, T)>, key: Seq<char>) -> Option<T>
    decreases s.len(),
{
    if s.len() == 0 {
        None
    } else if s.last().0 == key {
        Some(s.last().1)
    } else {
        lookup(s.drop_last(), key)
    }
}

/// The keys are strictly increasing in lexicographic order.
pub open spec fn keys_sorted<T>(s: Seq<(Seq<char>, T)>) -> bool {
    forall|i: int, j: int| 0 <= i < j < s.len() ==> lex_lt(#[trigger] s[i].0, #[trigger] s[j].0)
}

/// No two entries share a key.
pub open spec fn keys_distinct<T>(s: Seq<(Seq<char>, T)>) -> bool {
    forall|i: int, j: int| 0 <= i < j < s.len() ==> (#[trigger] s[i]).0 != (#[trigger] s[j]).0
}

/// `s` with `key` bound to `value`: an entry already stored under `key` is
/// replaced in place, a new key goes to its place in the order.
pub open spec fn put<T>(s: Seq<(Seq<char>, T)>, key: Seq<char>, value: T) -> Seq<(Seq<char>, T)>
    decreases s.len(),
{
    if s.len() == 0 || lex_lt(s.last().0, key) {
        s.push((key, value))
    } else if s.last().0 == key {
        s.drop_last().push((key, value))
    } else {
        put(s.drop_last(), key, value).push(s.last())
    }
}

/// Where `key` belongs in a sorted sequence: `pos` is the place such that
/// every later key is greater and the key just before is not.
pub open spec fn is_place<T>(s: Seq<(Seq<char>, T)>, key: Seq<char>, pos: int) -> bool {
    &&& 0 <= pos <= s.len()
    &&& forall|j: int| pos <= j < s.len() ==> lex_lt(key, #[trigger] s[j].0)
    &&& pos > 0 ==> s[pos - 1].0 == key || lex_lt(s[pos - 1].0, key)
}

/// A key that no entry holds has no binding.
pub proof fn lemma_lookup_absent<T>(s: Seq<(Seq<char>, T)>, key: Seq<char>)
    requires
        forall|i: int| 0 <= i < s.len() ==> (#[trigger] s[i]).0 != key,
    ensures
        lookup(s, key) is None,
    decreases s.len(),
{
    if s.len() > 0 {
        let t = s.drop_last();
        assert forall|i: int| 0 <= i < t.len() implies (#[trigger] t[i]).0 != key by {
            assert(t[i] == s[i]);
        }
        lemma_lookup_absent(t, key);
    }
}

/// A binding comes from an entry of the sequence.
pub proof fn lemma_lookup_present<T>(s: Seq<(Seq<char>, T)>, key: Seq<char>) -> (i: int)
    requires
        lookup(s, key) is Some,
    ensures
        0 <= i < s.len(),
        s[i] == (key, lookup(s, key)->0),
    decreases s.len(),
{
    if s.last().0 == key {
        s.len() - 1
    } else {
        lemma_lookup_present(s.drop_last(), key)
    }
}

/// An entry under another key, put in anywhere, leaves a binding as it was.
pub proof fn lemma_lookup_insert_other<T>(
    s: Seq<(Seq<char>, T)>,
    at: int,
    entry: (Seq<char>, T),
    key: Seq<char>,
)
    requires
        0 <= at <= s.len(),
        entry.0 != key,
    ensures
        lookup(s.insert(at, entry), key) == lookup(s, key),
    decreases s.len(),
{
    let grown = s.insert(at, entry);
    if at == s.len() {
        assert(grown.drop_last() =~= s);
    } else {
        assert(grown.drop_last() =~= s.drop_last().insert(at, entry));
        assert(grown.last() == s.last());
        lemma_lookup_insert_other(s.drop_last(), at, entry, key);
    }
}

/// Sorted keys are distinct.
pub proof fn lemma_sorted_distinct<T>(s: Seq<(Seq<char>, T)>)
    requires
        keys_sorted(s),
    ensures
        keys_distinct(s),
{
    assert forall|i: int, j: int| 0 <= i < j < s.len() implies (#[trigger] s[i]).0 != (
    #[trigger] s[j]).0 by {
        assert(lex_lt(s[i].0, s[j].0));
        lemma_lex_lt_irreflexive(s[i].0);
    }
}

/// Where keys are distinct, each entry is the binding of its own key.
pub proof fn lemma_lookup_distinct<T>(s: Seq<(Seq<char>, T)>, i: int)
    requires
        keys_distinct(s),
        0 <= i < s.len(),
    ensures
        lookup(s, s[i].0) == Some(s[i].1),
    decreases s.len(),
{
    if i < s.len() - 1 {
        assert(s[i].0 != s[s.len() - 1].0);
        let t = s.drop_last();
        assert forall|a: int, b: int| 0 <= a < b < t.len() implies (#[trigger] t[a]).0 != (
        #[trigger] t[b]).0 by {
            assert(t[a] == s[a] && t[b] == s[b]);
        }
        lemma_lookup_distinct(t, i);
    }
}

/// In a sorted sequence each entry is the binding of its own key.
pub proof fn lemma_lookup_sorted<T>(s: Seq<(Seq<char>, T)>, i: int)
    requires
        keys_sorted(s),
        0 <= i < s.len(),
    ensures
        lookup(s, s[i].0) == Some(s[i].1),
{
    lemma_sorted_distinct(s);
    lemma_lookup_distinct(s, i);
}

/// The front of a sorted sequence, without its last entry, is sorted and
/// does not bind the last key.
pub proof fn lemma_sorted_front<T>(s: Seq<(Seq<char>, T)>)
    requires
        keys_sorted(s),
        s.len() > 0,
    ensures
        keys_sorted(s.drop_last()),
        lookup(s.drop_last(), s.last().0) is None,
{
    let t = s.drop_last();
    assert forall|i: int, j: int| 0 <= i < j < t.len() implies lex_lt(
        #[trigger] t[i].0,
        #[trigger] t[j].0,
    ) by {
        assert(t[i] == s[i] && t[j] == s[j]);
    }
    assert forall|i: int| 0 <= i < t.len() implies (#[trigger] t[i]).0 != s.last().0 by {
        assert(t[i] == s[i]);
        assert(lex_lt(s[i].0, s[s.len() - 1].0));
        lemma_lex_lt_irreflexive(s[i].0);
    }
    lemma_lookup_absent(t, s.last().0);
}

/// A sorted sequence is determined by its bindings: two sorted sequences
/// that bind every key alike are the same sequence.
pub proof fn lemma_sorted_unique<T>(a: Seq<(Seq<char>, T)>, b: Seq<(Seq<char>, T)>)
    requires
        keys_sorted(a),
        keys_sorted(b),
        forall|key: Seq<char>| lookup(a, key) == #[trigger] lookup(b, key),
    ensures
        a == b,
    decreases a.len(),
{
    if a.len() == 0 {
        if b.len() > 0 {
            lemma_lookup_sorted(b, 0);
            assert(lookup(a, b[0].0) == lookup(b, b[0].0));
        }
        assert(a =~= b);
    } else {
        let last = a.len() - 1;
        lemma_lookup_sorted(a, last);
        assert(lookup(a, a[last].0) == lookup(b, a[last].0));
        let j = lemma_lookup_present(b, a[last].0);
        let blast = b.len() - 1;
        lemma_lookup_sorted(b, blast);
        assert(lookup(a, b[blast].0) == lookup(b, b[blast].0));
        let i = lemma_lookup_present(a, b[blast].0);
        if j < blast {
            assert(lex_lt(b[j].0, b[blast].0));
            if i < last {
                assert(lex_lt(a[i].0, a[last].0));
                lemma_lex_lt_transitive(a[last].0, b[blast].0, a[last].0);
            }
            lemma_lex_lt_irreflexive(a[last].0);
        }
        assert(a.last() == b.last());
        lemma_sorted_front(a);
        lemma_sorted_front(b);
        assert forall|key: Seq<char>| lookup(a.drop_last(), key) == #[trigger] lookup(
            b.drop_last(),
            key,
        ) by {
            assert(lookup(a, key) == lookup(b, key));
        }
        lemma_sorted_unique(a.drop_last(), b.drop_last());
        assert(a =~= a.drop_last().push(a.last()));
        assert(b =~= b.drop_last().push(b.last()));
    }
}

/// `put` replaces the entry before the place of `key` where it holds `key`,
/// and otherwise inserts the new entry at that place.
pub proof fn lemma_put_at_place<T>(s: Seq<(Seq<char>, T)>, key: Seq<char>, value: T, pos: int)
    requires
        is_place(s, key, pos),
    ensures
        pos > 0 && s[pos - 1].0 == key ==> put(s, key, value) == s.update(pos - 1, (key, value)),
        !(pos > 0 && s[pos - 1].0 == key) ==> put(s, key, value) == s.insert(pos, (key, value)),
    decreases s.len() - pos,
{
    let e = (key, value);
    if pos == s.len() {
        if s.len() == 0 || lex_lt(s.last().0, key) {
            assert(s.insert(pos, e) =~= s.push(e));
            if s.len() > 0 {
                lemma_lex_lt_irreflexive(key);
            }
        } else {
            assert(s.drop_last().push(e) =~= s.update(pos - 1, e));
        }
    } else {
        let t = s.drop_last();
        assert(lex_lt(key, s[s.len() - 1].0));
        lemma_lex_lt_irreflexive(key);
        if lex_lt(s.last().0, key) {
            lemma_lex_lt_transitive(key, s.last().0, key);
        }
        assert forall|j: int| pos <= j < t.len() implies lex_lt(key, #[trigger] t[j].0) by {
            assert(t[j] == s[j]);
        }
        assert(pos > 0 ==> t[pos - 1] == s[pos - 1]);
        lemma_put_at_place(t, key, value, pos);
        if pos > 0 && s[pos - 1].0 == key {
            assert(t.update(pos - 1, e).push(s.last()) =~= s.update(pos - 1, e));
        } else {
            assert(t.insert(pos, e).push(s.last()) =~= s.insert(pos, e));
        }
    }
}

/// After `put`, `key` is bound to `value` and every other key is bound as before.
pub proof fn lemma_put_lookup<T>(s: Seq<(Seq<char>, T)>, key: Seq<char>, value: T, other: Seq<char>)
    ensures
        lookup(put(s, key, value), other) == if other == key {
            Some(value)
        } else {
            lookup(s, other)
        },
    decreases s.len(),
{
    if s.len() == 0 || lex_lt(s.last().0, key) {
        assert(s.push((key, value)).drop_last() =~= s);
    } else if s.last().0 == key {
        assert(s.drop_last().push((key, value)).drop_last() =~= s.drop_last());
    } else {
        let t = s.drop_last();
        lemma_put_lookup(t, key, value, other);
        assert(put(t, key, value).push(s.last()).drop_last() =~= put(t, key, value));
    }
}

/// Inserting a key at its place keeps the keys sorted.
pub proof fn lemma_put_sorted<T>(s: Seq<(Seq<char>, T)>, key: Seq<char>, value: T)
    requires
        keys_sorted(s),
    ensures
        keys_sorted(put(s, key, value)),
    decreases s.len(),
{
    let r = put(s, key, value);
    if s.len() == 0 || lex_lt(s.last().0, key) {
        assert forall|i: int, j: int| 0 <= i < j < r.len() implies lex_lt(
            #[trigger] r[i].0,
            #[trigger] r[j].0,
        ) by {
            if j == s.len() {
                if i < s.len() - 1 {
                    lemma_lex_lt_transitive(s[i].0, s.last().0, key);
                }
            }
        }
    } else if s.last().0 == key {
    } else {
        let t = s.drop_last();
        lemma_sorted_front(s);
        lemma_put_sorted(t, key, value);
        let u = put(t, key, value);
        // every key of `u` is a key of `t` or is `key`, and both come before the last key of `s`
        lemma_put_keys(t, key, value);
        lemma_lex_lt_total(s.last().0, key);
        assert forall|i: int, j: int| 0 <= i < j < r.len() implies lex_lt(
            #[trigger] r[i].0,
            #[trigger] r[j].0,
        ) by {
            if j == u.len() {
                if u[i].0 != key {
                    let k = choose|k: int| 0 <= k < t.len() && t[k].0 == u[i].0;
                    assert(t[k] == s[k]);
                }
            }
        }
    }
}

/// The keys of `put(s, key, value)` are `key` and the keys of `s`.
pub proof fn lemma_put_keys<T>(s: Seq<(Seq<char>, T)>, key: Seq<char>, value: T)
    ensures
        forall|i: int|
            0 <= i < put(s, key, value).len() ==> (#[trigger] put(s, key, value)[i]).0 == key
                || exists|k: int|
                0 <= k < s.len() && (#[trigger] s[k]).0 == put(s, key, value)[i].0,
    decreases s.len(),
{
    let r = put(s, key, value);
    if s.len() == 0 || lex_lt(s.last().0, key) {
    } else if s.last().0 == key {
        assert forall|i: int| 0 <= i < r.len() implies (#[trigger] r[i]).0 == key || exists|k: int|
            0 <= k < s.len() && (#[trigger] s[k]).0 == r[i].0 by {
            if i < r.len() - 1 {
                assert(s[i].0 == r[i].0);
            }
        }
    } else {
        let t = s.drop_last();
        let u = put(t, key, value);
        lemma_put_keys(t, key, value);
        assert forall|i: int| 0 <= i < r.len() implies (#[trigger] r[i]).0 == key || exists|k: int|
            0 <= k < s.len() && (#[trigger] s[k]).0 == r[i].0 by {
            if i < u.len() {
                if u[i].0 != key {
                    let k = choose|k: int| 0 <= k < t.len() && (#[trigger] t[k]).0 == u[i].0;
                    assert(s[k].0 == r[i].0);
                }
            } else {
                assert(s[s.len() - 1].0 == r[i].0);
            }
        }
    }
}

} // verus!
