//! A map from strings to values that keeps its entries in key order.

use crate::entries::is_place;
use crate::entries::keys_sorted;
use crate::entries::lemma_lookup_absent;
use crate::entries::lemma_lookup_sorted;
use crate::entries::lemma_put_at_place;
use crate::entries::lemma_put_sorted;
use crate::entries::lookup;
use crate::entries::put;
use crate::text::compare_keys;
use crate::text::lemma_lex_lt_irreflexive;
use crate::text::lemma_lex_lt_transitive;
use crate::text::lex_lt;
use crate::text::KeyOrder;
use vstd::prelude::*;

verus! {

/// A map keyed by strings whose entries are held in strictly increasing
/// lexicographic key order.
#[derive(Debug, PartialEq, Eq)]
pub struct SortedMap<V: View> {
    entries: Vec<(String, V)>,
}

impl<V: View> View for SortedMap<V> {
    type V = Seq<(Seq<char>, V::V)>;

    closed spec fn view(&self) -> Seq<(Seq<char>, V::V)> {
        Seq::new(self.entries@.len(), |i: int| (self.entries@[i].0@, self.entries@[i].1@))
    }
}

impl<V: View> SortedMap<V> {
    #[verifier::type_invariant]
    spec fn ordered(&self) -> bool {
        keys_sorted(self@)
    }

    /// An empty map.
    pub fn new() -> (m: Self)
        ensures
            m@ == Seq::<(Seq<char>, V::V)>::empty(),
    {
        let m = SortedMap { entries: Vec::new() };
        assert(m@ =~= Seq::<(Seq<char>, V::V)>::empty());
        m
    }

    /// The number of entries.
    pub fn len(&self) -> (n: usize)
        ensures
            n == self@.len(),
            keys_sorted(self@),
    {
        proof {
            use_type_invariant(self);
        }
        self.entries.len()
    }

    /// The entry at position `i` in key order, if there are that many.
    pub fn entry(&self, i: usize) -> (r: Option<(&String, &V)>)
        ensures
            match r {
                Some((k, v)) => i < self@.len() && (k@, v@) == self@[i as int],
                None => i >= self@.len(),
            },
            keys_sorted(self@),
    {
        proof {
            use_type_invariant(self);
        }
        if i < self.entries.len() {
            let e = &self.entries[i];
            Some((&e.0, &e.1))
        } else {
            None
        }
    }

    /// The value bound to `key`, if there is one.
    pub fn get(&self, key: &str) -> (r: Option<&V>)
        ensures
            match r {
                Some(v) => lookup(self@, key@) == Some(v@),
                None => lookup(self@, key@) is None,
            },
    {
        proof {
            use_type_invariant(self);
        }
        let mut lo: usize = 0;
        let mut hi: usize = self.entries.len();
        while lo < hi
            invariant
                0 <= lo <= hi <= self@.len(),
                self@.len() == self.entries@.len(),
                keys_sorted(self@),
                forall|j: int| 0 <= j < lo ==> lex_lt(#[trigger] self@[j].0, key@),
                forall|j: int| hi <= j < self@.len() ==> lex_lt(key@, #[trigger] self@[j].0),
            decreases hi - lo,
        {
            let mid = lo + (hi - lo) / 2;
            let e = &self.entries[mid];
            match compare_keys(key, e.0.as_str()) {
                KeyOrder::Same => {
                    proof {
                        lemma_lookup_sorted(self@, mid as int);
                    }
                    return Some(&e.1);
                },
                KeyOrder::Before => {
                    proof {
                        assert forall|j: int| mid <= j < self@.len() implies lex_lt(
                            key@,
                            #[trigger] self@[j].0,
                        ) by {
                            if j > mid {
                                lemma_lex_lt_transitive(key@, self@[mid as int].0, self@[j].0);
                            }
                        }
                    }
                    hi = mid;
                },
                KeyOrder::After => {
                    proof {
                        assert forall|j: int| 0 <= j < mid + 1 implies lex_lt(
                            #[trigger] self@[j].0,
                            key@,
                        ) by {
                            if j < mid {
                                lemma_lex_lt_transitive(self@[j].0, self@[mid as int].0, key@);
                            }
                        }
                    }
                    lo = mid + 1;
                },
            }
        }
        proof {
            assert forall|j: int| 0 <= j < self@.len() implies (#[trigger] self@[j]).0 != key@ by {
                lemma_lex_lt_irreflexive(key@);
            }
            lemma_lookup_absent(self@, key@);
        }
        None
    }

    /// Binds `key` to `value` and returns the value that `key` was bound to
    /// before, if any.
    pub fn insert(&mut self, key: String, value: V) -> (prev: Option<V>)
        ensures
            final(self)@ == put(old(self)@, key@, value@),
            keys_sorted(final(self)@),
            match prev {
                Some(v) => lookup(old(self)@, key@) == Some(v@),
                None => lookup(old(self)@, key@) is None,
            },
    {
        proof {
            use_type_invariant(&*self);
        }
        let ghost before = self@;
        let mut pos: usize = self.entries.len();
        let mut found = false;
        while pos > 0
            invariant_except_break
                !found,
            invariant
                0 <= pos <= self@.len(),
                self@ == before,
                self@.len() == self.entries@.len(),
                forall|j: int| pos <= j < self@.len() ==> lex_lt(key@, #[trigger] self@[j].0),
            ensures
                is_place(self@, key@, pos as int),
                found <==> pos > 0 && self@[pos - 1].0 == key@,
            decreases pos,
        {
            match compare_keys(key.as_str(), self.entries[pos - 1].0.as_str()) {
                KeyOrder::Before => {
                    pos = pos - 1;
                },
                KeyOrder::Same => {
                    found = true;
                    break ;
                },
                KeyOrder::After => {
                    proof {
                        lemma_lex_lt_irreflexive(key@);
                    }
                    break ;
                },
            }
        }
        proof {
            lemma_put_at_place(before, key@, value@, pos as int);
        }
        let mut entries: Vec<(String, V)> = Vec::new();
        std::mem::swap(&mut entries, &mut self.entries);
        let prev = if found {
            let old_entry = entries.remove(pos - 1);
            entries.insert(pos - 1, (key, value));
            proof {
                lemma_lookup_sorted(before, pos - 1);
            }
            Some(old_entry.1)
        } else {
            entries.insert(pos, (key, value));
            proof {
                assert forall|j: int| 0 <= j < before.len() implies (#[trigger] before[j]).0
                    != key@ by {
                    lemma_lex_lt_irreflexive(key@);
                    if j < pos - 1 {
                        lemma_lex_lt_transitive(before[j].0, before[pos - 1].0, key@);
                    }
                }
                lemma_lookup_absent(before, key@);
            }
            None
        };
        proof {
            let after = Seq::new(entries@.len(), |i: int| (entries@[i].0@, entries@[i].1@));
            assert(after =~= put(before, key@, value@));
            lemma_put_sorted(before, key@, value@);
        }
        self.entries = entries;
        prev
    }
}

} // verus!
