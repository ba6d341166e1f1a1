//! Reading records: string fields, and the first fault in document order.

use crate::entries::keys_sorted;
use crate::entries::lemma_put_lookup;
use crate::entries::lemma_put_sorted;
use crate::entries::lemma_sorted_unique;
use crate::entries::lookup;
use crate::entries::put;
use crate::error::viewed;
use crate::error::DecodeError;
use crate::error::DecodeErrorView;
use crate::node::Node;
use crate::node::NodeView;
use crate::text::lex_lt;
use vstd::prelude::*;

verus! {

/// The failure of an outcome, if it is one.
pub open spec fn fault_of<T>(r: Result<T, DecodeErrorView>) -> Option<DecodeErrorView> {
    match r {
        Ok(_) => None,
        Err(error) => Some(error),
    }
}

/// The fault of the first entry, in document order, that breaks `rule`.
pub open spec fn first_fault(
    entries: Seq<(Seq<char>, NodeView)>,
    rule: spec_fn(Seq<char>, NodeView) -> Option<DecodeErrorView>,
) -> Option<DecodeErrorView>
    decreases entries.len(),
{
    if entries.len() == 0 {
        None
    } else {
        match first_fault(entries.drop_last(), rule) {
            Some(error) => Some(error),
            None => rule(entries.last().0, entries.last().1),
        }
    }
}

/// With no fault among the first `i` entries, the fault of entry `i` is the
/// first fault of the record; without one, the first `i + 1` entries hold
/// no fault.
pub proof fn lemma_first_fault_next(
    entries: Seq<(Seq<char>, NodeView)>,
    rule: spec_fn(Seq<char>, NodeView) -> Option<DecodeErrorView>,
    i: int,
)
    requires
        0 <= i < entries.len(),
        first_fault(entries.take(i), rule) is None,
    ensures
        first_fault(entries.take(i + 1), rule) == rule(entries[i].0, entries[i].1),
        rule(entries[i].0, entries[i].1) is Some ==> first_fault(entries, rule) == rule(
            entries[i].0,
            entries[i].1,
        ),
    decreases entries.len() - i,
{
    assert(entries.take(i + 1).drop_last() =~= entries.take(i));
    if i + 1 == entries.len() {
        assert(entries.take(i + 1) =~= entries);
    } else if rule(entries[i].0, entries[i].1) is Some {
        lemma_first_fault_kept(entries, rule, i + 1);
    }
}

/// A fault among the first `n` entries is the first fault of the record.
pub proof fn lemma_first_fault_kept(
    entries: Seq<(Seq<char>, NodeView)>,
    rule: spec_fn(Seq<char>, NodeView) -> Option<DecodeErrorView>,
    n: int,
)
    requires
        0 <= n <= entries.len(),
        first_fault(entries.take(n), rule) is Some,
    ensures
        first_fault(entries, rule) == first_fault(entries.take(n), rule),
    decreases entries.len() - n,
{
    if n == entries.len() {
        assert(entries.take(n) =~= entries);
    } else {
        assert(entries.take(n + 1).drop_last() =~= entries.take(n));
        lemma_first_fault_kept(entries, rule, n + 1);
    }
}

/// A record holds no fault exactly when none of its entries breaks `rule`.
pub proof fn lemma_first_fault_none(
    entries: Seq<(Seq<char>, NodeView)>,
    rule: spec_fn(Seq<char>, NodeView) -> Option<DecodeErrorView>,
)
    ensures
        first_fault(entries, rule) is None <==> forall|i: int|
            0 <= i < entries.len() ==> rule((#[trigger] entries[i]).0, entries[i].1) is None,
    decreases entries.len(),
{
    if entries.len() > 0 {
        let front = entries.drop_last();
        lemma_first_fault_none(front, rule);
        if first_fault(entries, rule) is None {
            assert forall|i: int| 0 <= i < entries.len() implies rule(
                (#[trigger] entries[i]).0,
                entries[i].1,
            ) is None by {
                if i < front.len() {
                    assert(front[i] == entries[i]);
                }
            }
        } else if first_fault(front, rule) is Some {
            let i = choose|i: int|
                0 <= i < front.len() && !(rule((#[trigger] front[i]).0, front[i].1) is None);
            assert(front[i] == entries[i]);
        } else {
            assert(entries[entries.len() - 1] == entries.last());
        }
    }
}

/// An entry that keeps `rule`, put in anywhere, leaves the first fault as
/// it was.
pub proof fn lemma_first_fault_insert(
    entries: Seq<(Seq<char>, NodeView)>,
    rule: spec_fn(Seq<char>, NodeView) -> Option<DecodeErrorView>,
    at: int,
    entry: (Seq<char>, NodeView),
)
    requires
        0 <= at <= entries.len(),
        rule(entry.0, entry.1) is None,
    ensures
        first_fault(entries.insert(at, entry), rule) == first_fault(entries, rule),
    decreases entries.len(),
{
    let grown = entries.insert(at, entry);
    if at == entries.len() {
        assert(grown.drop_last() =~= entries);
    } else {
        assert(grown.drop_last() =~= entries.drop_last().insert(at, entry));
        assert(grown.last() == entries.last());
        lemma_first_fault_insert(entries.drop_last(), rule, at, entry);
    }
}

/// The binding of `key` among the first `i + 1` entries is entry `i` where
/// that holds `key`, and else the binding among the first `i`.
pub proof fn lemma_lookup_next<T>(entries: Seq<(Seq<char>, T)>, key: Seq<char>, i: int)
    requires
        0 <= i < entries.len(),
    ensures
        lookup(entries.take(i + 1), key) == if entries[i].0 == key {
            Some(entries[i].1)
        } else {
            lookup(entries.take(i), key)
        },
{
    assert(entries.take(i + 1).drop_last() =~= entries.take(i));
}

/// The bindings that a record of any keys decodes to.
///
/// The entries are decoded in document order by `decode`, which is given
/// the key and the node; the first that fails, fails the record. Each value
/// is bound to its key, a later entry taking the place of an earlier one
/// under the same key, and the bindings stand in key order.
pub open spec fn decode_bindings<T>(
    entries: Seq<(Seq<char>, NodeView)>,
    decode: spec_fn(Seq<char>, NodeView) -> Result<T, DecodeErrorView>,
) -> Result<Seq<(Seq<char>, T)>, DecodeErrorView>
    decreases entries.len(),
{
    if entries.len() == 0 {
        Ok(Seq::empty())
    } else {
        match decode_bindings(entries.drop_last(), decode) {
            Err(error) => Err(error),
            Ok(bound) => match decode(entries.last().0, entries.last().1) {
                Err(error) => Err(error),
                Ok(value) => Ok(put(bound, entries.last().0, value)),
            },
        }
    }
}

/// The record that stands for `bound`: one entry for each binding, in the
/// same order, its value encoded by `encode`.
pub open spec fn encode_bindings<T>(
    bound: Seq<(Seq<char>, T)>,
    encode: spec_fn(T) -> NodeView,
) -> Seq<(Seq<char>, NodeView)> {
    Seq::new(bound.len(), |i: int| (bound[i].0, encode(bound[i].1)))
}

/// Encoding keeps the keys and their order.
pub proof fn lemma_encoded_keys<T>(bound: Seq<(Seq<char>, T)>, encode: spec_fn(T) -> NodeView)
    ensures
        keys_sorted(encode_bindings(bound, encode)) <==> keys_sorted(bound),
{
    let written = encode_bindings(bound, encode);
    if keys_sorted(bound) {
        assert forall|i: int, j: int| 0 <= i < j < written.len() implies lex_lt(
            #[trigger] written[i].0,
            #[trigger] written[j].0,
        ) by {
            assert(lex_lt(bound[i].0, bound[j].0));
        }
    }
    if keys_sorted(written) {
        assert forall|i: int, j: int| 0 <= i < j < bound.len() implies lex_lt(
            #[trigger] bound[i].0,
            #[trigger] bound[j].0,
        ) by {
            assert(lex_lt(written[i].0, written[j].0));
        }
    }
}

/// A failure among the first `n` entries is the failure of the record.
pub proof fn lemma_decode_bindings_kept<T>(
    entries: Seq<(Seq<char>, NodeView)>,
    decode: spec_fn(Seq<char>, NodeView) -> Result<T, DecodeErrorView>,
    n: int,
)
    requires
        0 <= n <= entries.len(),
        decode_bindings(entries.take(n), decode) is Err,
    ensures
        decode_bindings(entries, decode) == decode_bindings(entries.take(n), decode),
    decreases entries.len() - n,
{
    if n == entries.len() {
        assert(entries.take(n) =~= entries);
    } else {
        assert(entries.take(n + 1).drop_last() =~= entries.take(n));
        lemma_decode_bindings_kept(entries, decode, n + 1);
    }
}

/// With the first `i` entries decoded to `bound`, entry `i` either fails the
/// record or adds its binding to `bound`.
pub proof fn lemma_decode_bindings_next<T>(
    entries: Seq<(Seq<char>, NodeView)>,
    decode: spec_fn(Seq<char>, NodeView) -> Result<T, DecodeErrorView>,
    i: int,
)
    requires
        0 <= i < entries.len(),
        decode_bindings(entries.take(i), decode) is Ok,
    ensures
        decode_bindings(entries.take(i + 1), decode) == match decode(entries[i].0, entries[i].1) {
            Err(error) => Err(error),
            Ok(value) => Ok(
                put(decode_bindings(entries.take(i), decode)->Ok_0, entries[i].0, value),
            ),
        },
        decode(entries[i].0, entries[i].1) is Err ==> decode_bindings(entries, decode)
            == decode_bindings(entries.take(i + 1), decode),
{
    assert(entries.take(i + 1).drop_last() =~= entries.take(i));
    if decode(entries[i].0, entries[i].1) is Err {
        lemma_decode_bindings_kept(entries, decode, i + 1);
    }
}

/// Decoded bindings stand in strictly increasing key order, in whatever
/// order the record held them.
pub proof fn lemma_decode_bindings_sorted<T>(
    entries: Seq<(Seq<char>, NodeView)>,
    decode: spec_fn(Seq<char>, NodeView) -> Result<T, DecodeErrorView>,
)
    requires
        decode_bindings(entries, decode) is Ok,
    ensures
        keys_sorted(decode_bindings(entries, decode)->Ok_0),
    decreases entries.len(),
{
    if entries.len() > 0 {
        lemma_decode_bindings_sorted(entries.drop_last(), decode);
        let bound = decode_bindings(entries.drop_last(), decode)->Ok_0;
        let value = decode(entries.last().0, entries.last().1)->Ok_0;
        lemma_put_sorted(bound, entries.last().0, value);
    }
}

/// Decoded bindings bind each key to what the last entry under that key
/// decodes to, and bind no other key.
pub proof fn lemma_decode_bindings_lookup<T>(
    entries: Seq<(Seq<char>, NodeView)>,
    decode: spec_fn(Seq<char>, NodeView) -> Result<T, DecodeErrorView>,
    key: Seq<char>,
)
    requires
        decode_bindings(entries, decode) is Ok,
    ensures
        match lookup(entries, key) {
            Some(node) => decode(key, node) is Ok && lookup(
                decode_bindings(entries, decode)->Ok_0,
                key,
            ) == Some(decode(key, node)->Ok_0),
            None => lookup(decode_bindings(entries, decode)->Ok_0, key) is None,
        },
    decreases entries.len(),
{
    if entries.len() > 0 {
        lemma_decode_bindings_lookup(entries.drop_last(), decode, key);
        let bound = decode_bindings(entries.drop_last(), decode)->Ok_0;
        let value = decode(entries.last().0, entries.last().1)->Ok_0;
        lemma_put_lookup(bound, entries.last().0, value, key);
    }
}

/// Two records that bind every key to the same node decode to the same
/// bindings, in whatever order each holds its entries.
pub proof fn lemma_decode_bindings_order<T>(
    a: Seq<(Seq<char>, NodeView)>,
    b: Seq<(Seq<char>, NodeView)>,
    decode: spec_fn(Seq<char>, NodeView) -> Result<T, DecodeErrorView>,
)
    requires
        decode_bindings(a, decode) is Ok,
        decode_bindings(b, decode) is Ok,
        forall|key: Seq<char>| lookup(a, key) == #[trigger] lookup(b, key),
    ensures
        decode_bindings(a, decode) == decode_bindings(b, decode),
{
    let left = decode_bindings(a, decode)->Ok_0;
    let right = decode_bindings(b, decode)->Ok_0;
    lemma_decode_bindings_sorted(a, decode);
    lemma_decode_bindings_sorted(b, decode);
    assert forall|key: Seq<char>| lookup(left, key) == #[trigger] lookup(right, key) by {
        lemma_decode_bindings_lookup(a, decode, key);
        lemma_decode_bindings_lookup(b, decode, key);
        assert(lookup(a, key) == lookup(b, key));
    }
    lemma_sorted_unique(left, right);
}

/// Bindings in key order, encoded and decoded again, are what they were,
/// where `decode` undoes `encode` on each of them.
pub proof fn lemma_bindings_round_trip<T>(
    bound: Seq<(Seq<char>, T)>,
    encode: spec_fn(T) -> NodeView,
    decode: spec_fn(Seq<char>, NodeView) -> Result<T, DecodeErrorView>,
)
    requires
        keys_sorted(bound),
        forall|i: int|
            0 <= i < bound.len() ==> decode((#[trigger] bound[i]).0, encode(bound[i].1)) == Ok::<
                T,
                DecodeErrorView,
            >(bound[i].1),
    ensures
        decode_bindings(encode_bindings(bound, encode), decode) == Ok::<
            Seq<(Seq<char>, T)>,
            DecodeErrorView,
        >(bound),
    decreases bound.len(),
{
    let written = encode_bindings(bound, encode);
    if bound.len() == 0 {
        assert(bound =~= Seq::empty());
    } else {
        let front = bound.drop_last();
        assert(written.drop_last() =~= encode_bindings(front, encode));
        assert forall|i: int| 0 <= i < front.len() implies decode(
            (#[trigger] front[i]).0,
            encode(front[i].1),
        ) == Ok::<T, DecodeErrorView>(front[i].1) by {
            assert(front[i] == bound[i]);
        }
        assert(keys_sorted(front)) by {
            assert forall|i: int, j: int| 0 <= i < j < front.len() implies lex_lt(
                #[trigger] front[i].0,
                #[trigger] front[j].0,
            ) by {
                assert(front[i] == bound[i] && front[j] == bound[j]);
            }
        }
        lemma_bindings_round_trip(front, encode, decode);
        let last = bound[bound.len() - 1];
        assert(written.last() == (last.0, encode(last.1)));
        if front.len() > 0 {
            assert(front.last() == bound[bound.len() - 2]);
        }
        assert(put(front, last.0, last.1) =~= bound);
    }
}

/// What reading the string at `field` yields.
pub open spec fn text_spec(node: NodeView, field: Seq<char>) -> Result<Seq<char>, DecodeErrorView> {
    match node {
        NodeView::Str(s) => Ok(s),
        _ => Err(DecodeErrorView::TypeMismatch { expected: "string"@, field }),
    }
}

/// Reads the string that `node` holds; `field` says where a node of
/// another shape was found.
pub fn text(node: &Node, field: &str) -> (r: Result<String, DecodeError>)
    ensures
        viewed(r) == text_spec(node@, field@),
{
    match node {
        Node::Str(s) => Ok(s.clone()),
        _ => Err(DecodeError::mismatch("string", field)),
    }
}

} // verus!
