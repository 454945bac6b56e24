//! Tables as sequences of keyed entries, and what an upsert does to them.
//!
//! A table is a sequence of `(key, value)` pairs in which no key occurs
//! twice. An upsert replaces the value under a key that is present, in
//! place, and appends a pair for a key that is not.

use vstd::prelude::*;

verus! {

/// The keys of a table, in the order of its entries.
pub open spec fn keys<K, V>(pairs: Seq<(K, V)>) -> Seq<K> {
    Seq::new(pairs.len(), |i: int| pairs[i].0)
}

/// No key occurs twice.
pub open spec fn distinct_keys<K, V>(pairs: Seq<(K, V)>) -> bool {
    forall|i: int, j: int| 0 <= i < j < pairs.len() ==> (#[trigger] pairs[i]).0 != (#[trigger] pairs[j]).0
}

/// Some entry has the key.
pub open spec fn has_key<K, V>(pairs: Seq<(K, V)>, key: K) -> bool {
    exists|i: int| 0 <= i < pairs.len() && (#[trigger] pairs[i]).0 == key
}

/// The position of an entry with the key, where there is one.
pub open spec fn position_of<K, V>(pairs: Seq<(K, V)>, key: K) -> int {
    choose|i: int| 0 <= i < pairs.len() && (#[trigger] pairs[i]).0 == key
}

/// The value under a key, if the key is present.
pub open spec fn lookup<K, V>(pairs: Seq<(K, V)>, key: K) -> Option<V> {
    if has_key(pairs, key) {
        Some(pairs[position_of(pairs, key)].1)
    } else {
        None
    }
}

/// The table after one upsert: the value replaced in place where the key is
/// present, a new entry at the end where it is not.
pub open spec fn upserted<K, V>(pairs: Seq<(K, V)>, key: K, value: V) -> Seq<(K, V)> {
    if has_key(pairs, key) {
        pairs.update(position_of(pairs, key), (key, value))
    } else {
        pairs.push((key, value))
    }
}

/// The table after a sequence of upserts, made from first to last.
pub open spec fn upserted_all<K, V>(pairs: Seq<(K, V)>, writes: Seq<(K, V)>) -> Seq<(K, V)>
    decreases writes.len(),
{
    if writes.len() == 0 {
        pairs
    } else {
        upserted(upserted_all(pairs, writes.drop_last()), writes.last().0, writes.last().1)
    }
}

/// The value that the last write under a key carries, if any write has it.
pub open spec fn last_write<K, V>(writes: Seq<(K, V)>, key: K) -> Option<V>
    decreases writes.len(),
{
    if writes.len() == 0 {
        None
    } else if writes.last().0 == key {
        Some(writes.last().1)
    } else {
        last_write(writes.drop_last(), key)
    }
}

/// In a table without repeated keys, an entry is where its key is found.
pub proof fn lemma_position_unique<K, V>(pairs: Seq<(K, V)>, i: int)
    requires
        distinct_keys(pairs),
        0 <= i < pairs.len(),
    ensures
        has_key(pairs, pairs[i].0),
        position_of(pairs, pairs[i].0) == i,
        lookup(pairs, pairs[i].0) == Some(pairs[i].1),
{
    let key = pairs[i].0;
    assert(pairs[i].0 == key);
    let p = position_of(pairs, key);
    if p < i {
        assert(pairs[p].0 != pairs[i].0);
    } else if i < p {
        assert(pairs[i].0 != pairs[p].0);
    }
}

/// An upsert keeps keys distinct, puts the value under its key and leaves
/// every other key as it was. Where the key was present the keys and their
/// order stay; where it was not, it comes last.
pub proof fn lemma_upserted<K, V>(pairs: Seq<(K, V)>, key: K, value: V)
    requires
        distinct_keys(pairs),
    ensures
        distinct_keys(upserted(pairs, key, value)),
        lookup(upserted(pairs, key, value), key) == Some(value),
        forall|other: K| other != key ==> lookup(upserted(pairs, key, value), other) == lookup(pairs, other),
        forall|other: K| has_key(upserted(pairs, key, value), other) <==> (other == key || has_key(pairs, other)),
        has_key(pairs, key) ==> keys(upserted(pairs, key, value)) == keys(pairs),
        !has_key(pairs, key) ==> keys(upserted(pairs, key, value)) == keys(pairs).push(key),
{
    let after = upserted(pairs, key, value);
    if has_key(pairs, key) {
        let p = position_of(pairs, key);
        assert(after =~= pairs.update(p, (key, value)));
        assert forall|i: int, j: int| 0 <= i < j < after.len() implies (#[trigger] after[i]).0 != (
        #[trigger] after[j]).0 by {
            assert(pairs[i].0 != pairs[j].0);
        }
        assert(keys(after) =~= keys(pairs));
        assert forall|other: K| has_key(after, other) <==> (other == key || has_key(pairs, other)) by {
            if has_key(after, other) {
                let i = position_of(after, other);
                assert(pairs[i].0 == other);
            }
            if has_key(pairs, other) {
                let i = position_of(pairs, other);
                assert(after[i].0 == other);
            }
            if other == key {
                assert(after[p].0 == key);
            }
        }
        lemma_position_unique(after, p);
        assert forall|other: K| other != key implies lookup(after, other) == lookup(pairs, other) by {
            if has_key(pairs, other) {
                let i = position_of(pairs, other);
                assert(after[i].0 == other);
                lemma_position_unique(after, i);
                lemma_position_unique(pairs, i);
            }
        }
    } else {
        let n = pairs.len() as int;
        assert(after =~= pairs.push((key, value)));
        assert forall|i: int, j: int| 0 <= i < j < after.len() implies (#[trigger] after[i]).0 != (
        #[trigger] after[j]).0 by {
            if j < n {
                assert(pairs[i].0 != pairs[j].0);
            } else {
                assert(after[i] == pairs[i]);
                if pairs[i].0 == key {
                    assert(has_key(pairs, key));
                }
            }
        }
        assert(keys(after) =~= keys(pairs).push(key));
        assert(after[n].0 == key);
        assert forall|other: K| has_key(after, other) <==> (other == key || has_key(pairs, other)) by {
            if has_key(after, other) {
                let i = position_of(after, other);
                if i < n {
                    assert(pairs[i].0 == other);
                }
            }
            if has_key(pairs, other) {
                let i = position_of(pairs, other);
                assert(after[i].0 == other);
            }
        }
        lemma_position_unique(after, n);
        assert forall|other: K| other != key implies lookup(after, other) == lookup(pairs, other) by {
            if has_key(pairs, other) {
                let i = position_of(pairs, other);
                assert(after[i] == pairs[i]);
                lemma_position_unique(after, i);
                lemma_position_unique(pairs, i);
            }
        }
    }
}

/// After a sequence of upserts the keys are distinct, each key holds what
/// its last write carried, and a key that no write names holds what it held.
pub proof fn lemma_upserted_all<K, V>(pairs: Seq<(K, V)>, writes: Seq<(K, V)>)
    requires
        distinct_keys(pairs),
    ensures
        distinct_keys(upserted_all(pairs, writes)),
        forall|key: K| #[trigger]
            lookup(upserted_all(pairs, writes), key) == (match last_write(writes, key) {
                Some(v) => Some(v),
                None => lookup(pairs, key),
            }),
        forall|key: K| #[trigger]
            has_key(upserted_all(pairs, writes), key) <==> (has_key(pairs, key) || last_write(writes, key)
                is Some),
    decreases writes.len(),
{
    if writes.len() > 0 {
        let front = writes.drop_last();
        let mid = upserted_all(pairs, front);
        lemma_upserted_all(pairs, front);
        lemma_upserted(mid, writes.last().0, writes.last().1);
        let after = upserted_all(pairs, writes);
        assert forall|key: K| #[trigger]
            lookup(after, key) == (match last_write(writes, key) {
                Some(v) => Some(v),
                None => lookup(pairs, key),
            }) by {
            if key != writes.last().0 {
                assert(lookup(after, key) == lookup(mid, key));
            }
        }
        assert forall|key: K| #[trigger]
            has_key(after, key) <==> (has_key(pairs, key) || last_write(writes, key) is Some) by {
            assert(has_key(mid, key) <==> (has_key(pairs, key) || last_write(front, key) is Some));
        }
    }
}

/// Upserts under keys that are all present keep the keys and their order.
pub proof fn lemma_upserted_all_keeps_keys<K, V>(pairs: Seq<(K, V)>, writes: Seq<(K, V)>)
    requires
        distinct_keys(pairs),
        forall|j: int| 0 <= j < writes.len() ==> has_key(pairs, (#[trigger] writes[j]).0),
    ensures
        keys(upserted_all(pairs, writes)) == keys(pairs),
    decreases writes.len(),
{
    if writes.len() > 0 {
        let front = writes.drop_last();
        let mid = upserted_all(pairs, front);
        assert forall|j: int| 0 <= j < front.len() implies has_key(pairs, (#[trigger] front[j]).0) by {
            assert(front[j] == writes[j]);
        }
        lemma_upserted_all_keeps_keys(pairs, front);
        lemma_upserted_all(pairs, front);
        let key = writes.last().0;
        assert(has_key(pairs, writes[writes.len() - 1].0));
        assert(has_key(mid, key) <==> (has_key(pairs, key) || last_write(front, key) is Some));
        lemma_upserted(mid, key, writes.last().1);
    }
}

/// Two tables without repeated keys are the same table if they have the
/// same keys in the same order and the same value under each key.
pub proof fn lemma_tables_equal<K, V>(a: Seq<(K, V)>, b: Seq<(K, V)>)
    requires
        distinct_keys(a),
        keys(a) == keys(b),
        forall|key: K| #[trigger] lookup(a, key) == lookup(b, key),
    ensures
        a == b,
{
    assert(a.len() == keys(a).len());
    assert(b.len() == keys(b).len());
    assert forall|i: int| 0 <= i < a.len() implies (#[trigger] a[i]).0 == (#[trigger] b[i]).0 by {
        assert(keys(a)[i] == a[i].0);
        assert(keys(b)[i] == b[i].0);
    }
    assert forall|i: int, j: int| 0 <= i < j < b.len() implies (#[trigger] b[i]).0 != (#[trigger] b[j]).0 by {
        assert(a[i].0 == b[i].0);
        assert(a[j].0 == b[j].0);
        assert(a[i].0 != a[j].0);
    }
    assert forall|i: int| 0 <= i < a.len() implies a[i] == b[i] by {
        assert(a[i].0 == b[i].0);
        lemma_position_unique(a, i);
        lemma_position_unique(b, i);
        assert(lookup(a, a[i].0) == lookup(b, a[i].0));
        assert(a[i].1 == b[i].1);
    }
    assert(a =~= b);
}

/// Every write's key has a last write.
pub proof fn lemma_last_write_exists<K, V>(writes: Seq<(K, V)>, j: int)
    requires
        0 <= j < writes.len(),
    ensures
        last_write(writes, writes[j].0) is Some,
    decreases writes.len(),
{
    if j < writes.len() - 1 && writes.last().0 != writes[j].0 {
        assert(writes.drop_last()[j] == writes[j]);
        lemma_last_write_exists(writes.drop_last(), j);
    }
}

/// Upserting one sequence of writes and then another is upserting the two
/// in a row.
pub proof fn lemma_upserted_all_concat<K, V>(pairs: Seq<(K, V)>, first: Seq<(K, V)>, second: Seq<(K, V)>)
    ensures
        upserted_all(pairs, first + second) == upserted_all(upserted_all(pairs, first), second),
    decreases second.len(),
{
    if second.len() == 0 {
        assert(first + second =~= first);
    } else {
        lemma_upserted_all_concat(pairs, first, second.drop_last());
        assert((first + second).drop_last() =~= first + second.drop_last());
        assert((first + second).last() == second.last());
    }
}

/// Upserts are idempotent: making the same sequence of upserts a second time
/// changes nothing, neither an entry's value nor the number or order of the
/// entries.
pub proof fn lemma_upserted_all_idempotent<K, V>(pairs: Seq<(K, V)>, writes: Seq<(K, V)>)
    requires
        distinct_keys(pairs),
    ensures
        upserted_all(upserted_all(pairs, writes), writes) == upserted_all(pairs, writes),
{
    let once = upserted_all(pairs, writes);
    let twice = upserted_all(once, writes);
    lemma_upserted_all(pairs, writes);
    lemma_upserted_all(once, writes);
    assert forall|j: int| 0 <= j < writes.len() implies has_key(once, (#[trigger] writes[j]).0) by {
        lemma_last_write_exists(writes, j);
        let key = writes[j].0;
        assert(has_key(once, key) <==> (has_key(pairs, key) || last_write(writes, key) is Some));
    }
    lemma_upserted_all_keeps_keys(once, writes);
    assert forall|key: K| #[trigger] lookup(twice, key) == lookup(once, key) by {
        assert(lookup(twice, key) == (match last_write(writes, key) {
            Some(v) => Some(v),
            None => lookup(once, key),
        }));
        assert(lookup(once, key) == (match last_write(writes, key) {
            Some(v) => Some(v),
            None => lookup(pairs, key),
        }));
    }
    lemma_tables_equal(twice, once);
}

} // verus!
