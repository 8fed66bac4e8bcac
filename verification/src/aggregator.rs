//! What the aggregators share: their state, a count for each value of a
//! group, and their results.

use vstd::prelude::*;
use vstd::multiset::Multiset;
use crate::bytes::{lemma_lex_total, lex_le};
use crate::errors::PipelineError;
use crate::field::{Field, FieldValue};
use crate::storage::Database;

verus! {

/// What an aggregator answers: the new value of the group, and the bytes
/// from which the value was read, if the group is not empty.
#[derive(Debug, PartialEq, Eq)]
pub struct AggregationResult {
    pub value: Field,
    pub state: Option<Vec<u8>>,
}

impl AggregationResult {
    pub fn new(value: Field, state: Option<Vec<u8>>) -> (r: Self)
        ensures
            r.value == value,
            r.state == state,
    {
        Self { value, state }
    }
}

/// How a time zone maps a number of milliseconds to an instant.
#[derive(Clone, Copy, Debug, PartialEq, Eq, Structural)]
pub enum LocalKind {
    Unmapped,
    Single,
    Ambiguous,
}

/// What reading a value from its bytes gives.
pub enum Decoded {
    Value(FieldValue),
    Malformed,
    InvalidTimestamp,
    AmbiguousTimestamp,
}

/// How often `k` is counted in `m`.
pub open spec fn count_of(m: Map<Seq<u8>, u64>, k: Seq<u8>) -> nat {
    if m.contains_key(k) {
        m[k] as nat
    } else {
        0
    }
}

/// The state after `k` was counted `delta` times more.
pub open spec fn counted_up(m: Map<Seq<u8>, u64>, k: Seq<u8>, delta: u64) -> Map<Seq<u8>, u64> {
    m.insert(k, (count_of(m, k) + delta) as u64)
}

/// The state after `k` was counted `delta` times less: a key whose count
/// would not stay positive leaves the state.
pub open spec fn counted_down(m: Map<Seq<u8>, u64>, k: Seq<u8>, delta: u64) -> Map<Seq<u8>, u64> {
    if count_of(m, k) > delta {
        m.insert(k, (count_of(m, k) - delta) as u64)
    } else {
        m.remove(k)
    }
}

/// The key of `m` after which none of its keys sorts.
pub open spec fn greatest_key(m: Map<Seq<u8>, u64>) -> Seq<u8> {
    choose|k: Seq<u8>| Database::<u64>::is_greatest(m, k)
}

/// The key of `m` before which none of its keys sorts.
pub open spec fn least_key(m: Map<Seq<u8>, u64>) -> Seq<u8> {
    choose|k: Seq<u8>| Database::<u64>::is_least(m, k)
}

/// A map has at most one greatest key.
pub proof fn lemma_greatest_unique(m: Map<Seq<u8>, u64>, a: Seq<u8>)
    requires
        Database::<u64>::is_greatest(m, a),
    ensures
        greatest_key(m) == a,
{
    let b = greatest_key(m);
    assert(Database::<u64>::is_greatest(m, b));
    assert(lex_le(a, b) && lex_le(b, a));
    lemma_lex_total(a, b);
}

/// A map has at most one least key.
pub proof fn lemma_least_unique(m: Map<Seq<u8>, u64>, a: Seq<u8>)
    requires
        Database::<u64>::is_least(m, a),
    ensures
        least_key(m) == a,
{
    let b = least_key(m);
    assert(Database::<u64>::is_least(m, b));
    assert(lex_le(a, b) && lex_le(b, a));
    lemma_lex_total(a, b);
}

/// Counts a value `val_delta` times more, or less where `decr` is set.
///
/// A key whose count would not stay positive is erased; a count that would
/// pass the largest 64-bit number is refused and the state is left as it was.
pub fn update_aggregator_db(key: &[u8], val_delta: u64, decr: bool, ptx: &mut Database<u64>) -> (r:
    Result<(), PipelineError>)
    requires
        old(ptx).wf(),
    ensures
        final(ptx).wf(),
        !decr && count_of(old(ptx)@, key@) + val_delta > u64::MAX ==> r == Err::<
            (),
            PipelineError,
        >(PipelineError::NumericOverflow) && final(ptx)@ == old(ptx)@,
        !decr && count_of(old(ptx)@, key@) + val_delta <= u64::MAX ==> r.is_ok() && final(ptx)@
            == counted_up(old(ptx)@, key@, val_delta),
        decr ==> r.is_ok() && final(ptx)@ == counted_down(old(ptx)@, key@, val_delta),
{
    let prev_count: u64 = match ptx.get(key) {
        Some(c) => *c,
        None => 0,
    };
    if decr {
        if prev_count > val_delta {
            ptx.put(key, prev_count - val_delta);
        } else {
            ptx.del(key);
        }
        Ok(())
    } else {
        match prev_count.checked_add(val_delta) {
            Some(new_count) => {
                ptx.put(key, new_count);
                Ok(())
            },
            None => Err(PipelineError::NumericOverflow),
        }
    }
}

/// The state after every key of `ks` was counted once more, in turn.
pub open spec fn insert_all(m: Map<Seq<u8>, u64>, ks: Seq<Seq<u8>>) -> Map<Seq<u8>, u64>
    decreases ks.len(),
{
    if ks.len() == 0 {
        m
    } else {
        counted_up(insert_all(m, ks.drop_last()), ks.last(), 1)
    }
}

/// The state after every key of `ks` was counted once less, in turn.
pub open spec fn delete_all(m: Map<Seq<u8>, u64>, ks: Seq<Seq<u8>>) -> Map<Seq<u8>, u64>
    decreases ks.len(),
{
    if ks.len() == 0 {
        m
    } else {
        counted_down(delete_all(m, ks.drop_last()), ks.last(), 1)
    }
}

/// The state `m` counts each key as often as `ms` holds it, and holds no
/// key that `ms` lacks.
pub open spec fn counts_match(m: Map<Seq<u8>, u64>, ms: Multiset<Seq<u8>>) -> bool {
    forall|k: Seq<u8>| #[trigger] count_of(m, k) == ms.count(k)
        && (m.contains_key(k) ==> ms.count(k) >= 1)
}

/// After inserts the state counts each key as often as it was inserted.
pub proof fn lemma_insert_all_counts(ks: Seq<Seq<u8>>)
    requires
        ks.len() <= u64::MAX,
    ensures
        counts_match(insert_all(Map::<Seq<u8>, u64>::empty(), ks), ks.to_multiset()),
    decreases ks.len(),
{
    broadcast use vstd::multiset::group_multiset_axioms;

    let empty = Map::<Seq<u8>, u64>::empty();
    if ks.len() == 0 {
        ks.to_multiset_ensures();
        assert(ks.to_multiset().len() == 0);
        assert forall|k: Seq<u8>| #[trigger] count_of(empty, k) == ks.to_multiset().count(k) by {
            vstd::multiset::axiom_count_le_len(ks.to_multiset(), k);
        }
    } else {
        let dl = ks.drop_last();
        let last = ks.last();
        lemma_insert_all_counts(dl);
        dl.to_multiset_ensures();
        assert(dl.push(last) =~= ks);
        assert(ks.to_multiset() =~= dl.to_multiset().insert(last));
        let prev = insert_all(empty, dl);
        let next = insert_all(empty, ks);
        vstd::multiset::axiom_count_le_len(dl.to_multiset(), last);
        assert forall|k: Seq<u8>| #[trigger]
            count_of(next, k) == ks.to_multiset().count(k) && (next.contains_key(k)
                ==> ks.to_multiset().count(k) >= 1) by {
            assert(count_of(prev, k) == dl.to_multiset().count(k));
        }
    }
}

/// Deleting keys that the state counts leaves the counts of what remains.
pub proof fn lemma_delete_all_counts(m: Map<Seq<u8>, u64>, ms: Multiset<Seq<u8>>, ds: Seq<Seq<u8>>)
    requires
        counts_match(m, ms),
        ds.to_multiset().subset_of(ms),
    ensures
        counts_match(delete_all(m, ds), ms.sub(ds.to_multiset())),
    decreases ds.len(),
{
    broadcast use vstd::multiset::group_multiset_axioms;

    if ds.len() == 0 {
        ds.to_multiset_ensures();
        assert forall|k: Seq<u8>| ds.to_multiset().count(k) == 0 by {
            vstd::multiset::axiom_count_le_len(ds.to_multiset(), k);
        }
        assert(ms.sub(ds.to_multiset()) =~= ms);
    } else {
        let dl = ds.drop_last();
        let last = ds.last();
        dl.to_multiset_ensures();
        assert(dl.push(last) =~= ds);
        assert(ds.to_multiset() =~= dl.to_multiset().insert(last));
        assert(dl.to_multiset().subset_of(ms)) by {
            assert forall|k: Seq<u8>| dl.to_multiset().count(k) <= ms.count(k) by {
                assert(ds.to_multiset().count(k) <= ms.count(k));
            }
        }
        lemma_delete_all_counts(m, ms, dl);
        let prev = delete_all(m, dl);
        let next = delete_all(m, ds);
        let rest = ms.sub(ds.to_multiset());
        assert(ds.to_multiset().count(last) <= ms.count(last));
        assert forall|k: Seq<u8>| #[trigger]
            count_of(next, k) == rest.count(k) && (next.contains_key(k) ==> rest.count(k)
                >= 1) by {
            assert(count_of(prev, k) == ms.sub(dl.to_multiset()).count(k));
            assert(ds.to_multiset().count(k) <= ms.count(k));
        }
    }
}

/// A group that saw inserts and then the matching deletes, in any order, is
/// empty again: no key is left in its state, so an aggregator answers it
/// with `Null`.
pub proof fn lemma_round_trip(ks: Seq<Seq<u8>>, ds: Seq<Seq<u8>>)
    requires
        ks.len() <= u64::MAX,
        ks.to_multiset() == ds.to_multiset(),
    ensures
        delete_all(insert_all(Map::<Seq<u8>, u64>::empty(), ks), ds) == Map::<
            Seq<u8>,
            u64,
        >::empty(),
{
    broadcast use vstd::multiset::group_multiset_axioms;

    let filled = insert_all(Map::<Seq<u8>, u64>::empty(), ks);
    lemma_insert_all_counts(ks);
    lemma_delete_all_counts(filled, ks.to_multiset(), ds);
    let after = delete_all(filled, ds);
    let rest = ks.to_multiset().sub(ds.to_multiset());
    assert forall|k: Seq<u8>| !after.contains_key(k) by {
        assert(count_of(after, k) == rest.count(k));
        assert(rest.count(k) == 0);
    }
    assert(after =~= Map::<Seq<u8>, u64>::empty());
}

} // verus!
