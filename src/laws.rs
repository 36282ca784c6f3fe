//! Properties of sequences of calls, proved from the contracts of `new`,
//! `insert` and `hash`.

use vstd::prelude::*;
use crate::hashing::Hashable;
use crate::table::{HashTable, INITIAL_CAPACITY};

verus! {

/// `tables[0]` is a new table and each `tables[i + 1]` is `tables[i]` after
/// `insert(keys[i], values[i])`.
pub open spec fn is_insert_history<K: Hashable, V>(
    tables: Seq<HashTable<K, V>>,
    keys: Seq<K>,
    values: Seq<V>,
) -> bool {
    &&& tables.len() == keys.len() + 1
    &&& values.len() == keys.len()
    &&& tables[0].wf()
    &&& tables[0]@ == Map::<K::V, V>::empty()
    &&& tables[0].spec_len() == 0
    &&& tables[0].spec_capacity() == INITIAL_CAPACITY
    &&& forall|i: int|
        0 <= i < keys.len() ==> #[trigger] tables[i].insert_result(keys[i]@, values[i], tables[i + 1])
}

/// No insertion after the `i`-th one uses the same key.
pub open spec fn is_last_insertion<K: View>(keys: Seq<K>, i: int) -> bool {
    forall|j: int| i < j < keys.len() ==> #[trigger] keys[j]@ != keys[i]@
}

/// No two insertions use the same key.
pub open spec fn keys_unique<K: View>(keys: Seq<K>) -> bool {
    forall|i: int, j: int| 0 <= i < j < keys.len() ==> #[trigger] keys[i]@ != #[trigger] keys[j]@
}

proof fn lemma_history_prefix<K: Hashable, V>(
    tables: Seq<HashTable<K, V>>,
    keys: Seq<K>,
    values: Seq<V>,
)
    requires
        is_insert_history(tables, keys, values),
        keys.len() > 0,
    ensures
        is_insert_history(tables.drop_last(), keys.drop_last(), values.drop_last()),
{
    let n = keys.len() - 1;
    assert forall|i: int| 0 <= i < n implies #[trigger] tables.drop_last()[i].insert_result(
        keys.drop_last()[i]@,
        values.drop_last()[i],
        tables.drop_last()[i + 1],
    ) by {
        assert(tables[i].insert_result(keys[i]@, values[i], tables[i + 1]));
    }
}

/// After any sequence of insertions into a new table, each key that was
/// inserted maps to the value of its last insertion.
pub proof fn lemma_round_trip<K: Hashable, V>(
    tables: Seq<HashTable<K, V>>,
    keys: Seq<K>,
    values: Seq<V>,
)
    requires
        is_insert_history(tables, keys, values),
    ensures
        forall|i: int|
            0 <= i < keys.len() && #[trigger] is_last_insertion(keys, i) ==> {
                &&& tables.last()@.contains_key(keys[i]@)
                &&& tables.last()@[keys[i]@] == values[i]
            },
    decreases keys.len(),
{
    if keys.len() > 0 {
        let n = keys.len() - 1;
        lemma_history_prefix(tables, keys, values);
        lemma_round_trip(tables.drop_last(), keys.drop_last(), values.drop_last());
        assert(tables[n].insert_result(keys[n]@, values[n], tables[n + 1]));
        assert forall|i: int| 0 <= i < keys.len() && #[trigger] is_last_insertion(keys, i) implies {
            &&& tables.last()@.contains_key(keys[i]@)
            &&& tables.last()@[keys[i]@] == values[i]
        } by {
            if i < n {
                assert(keys[n]@ != keys[i]@);
                assert(is_last_insertion(keys.drop_last(), i));
            }
        }
    }
}

/// After any sequence of insertions into a new table, a key that was never
/// inserted is absent.
pub proof fn lemma_never_inserted_is_absent<K: Hashable, V>(
    tables: Seq<HashTable<K, V>>,
    keys: Seq<K>,
    values: Seq<V>,
    k: K::V,
)
    requires
        is_insert_history(tables, keys, values),
        forall|i: int| 0 <= i < keys.len() ==> #[trigger] keys[i]@ != k,
    ensures
        !tables.last()@.contains_key(k),
    decreases keys.len(),
{
    if keys.len() > 0 {
        let n = keys.len() - 1;
        lemma_history_prefix(tables, keys, values);
        assert forall|i: int| 0 <= i < keys.drop_last().len() implies #[trigger] keys.drop_last()[i]@ != k by {
            assert(keys[i]@ != k);
        }
        lemma_never_inserted_is_absent(tables.drop_last(), keys.drop_last(), values.drop_last(), k);
        assert(tables[n].insert_result(keys[n]@, values[n], tables[n + 1]));
        assert(keys[n]@ != k);
    }
}

/// Inserting `n` distinct keys into a new table, however many times it grows
/// on the way, leaves `n` entries, each key mapped to its value, in a table
/// with more cells than entries.
pub proof fn lemma_growth_keeps_entries<K: Hashable, V>(
    tables: Seq<HashTable<K, V>>,
    keys: Seq<K>,
    values: Seq<V>,
)
    requires
        is_insert_history(tables, keys, values),
        keys_unique(keys),
    ensures
        tables.last().spec_len() == keys.len(),
        keys.len() < tables.last().spec_capacity(),
        forall|i: int|
            0 <= i < keys.len() ==> {
                &&& tables.last()@.contains_key(#[trigger] keys[i]@)
                &&& tables.last()@[keys[i]@] == values[i]
            },
    decreases keys.len(),
{
    if keys.len() > 0 {
        let n = keys.len() - 1;
        lemma_history_prefix(tables, keys, values);
        assert(keys_unique(keys.drop_last()));
        lemma_growth_keeps_entries(tables.drop_last(), keys.drop_last(), values.drop_last());
        assert(tables[n].insert_result(keys[n]@, values[n], tables[n + 1]));
        assert forall|i: int| 0 <= i < keys.drop_last().len() implies #[trigger] keys.drop_last()[i]@
            != keys[n]@ by {
            assert(keys[i]@ != keys[n]@);
        }
        lemma_never_inserted_is_absent(
            tables.drop_last(),
            keys.drop_last(),
            values.drop_last(),
            keys[n]@,
        );
        tables.last().lemma_len_below_capacity();
        assert forall|i: int| 0 <= i < keys.len() implies {
            &&& tables.last()@.contains_key(#[trigger] keys[i]@)
            &&& tables.last()@[keys[i]@] == values[i]
        } by {
            if i < n {
                assert(keys[i]@ != keys[n]@);
                assert(keys.drop_last()[i] == keys[i]);
            }
        }
    } else {
        tables.last().lemma_len_below_capacity();
    }
}

/// Inserting a key that was just inserted keeps the entry count and the
/// capacity, and leaves the latest value under that key.
pub proof fn lemma_overwrite_keeps_len<K: Hashable, V>(
    t0: HashTable<K, V>,
    t1: HashTable<K, V>,
    t2: HashTable<K, V>,
    k: K::V,
    v1: V,
    v2: V,
)
    requires
        t0.insert_result(k, v1, t1),
        t1.insert_result(k, v2, t2),
    ensures
        t2.spec_len() == t1.spec_len(),
        t2.spec_capacity() == t1.spec_capacity(),
        t2@.contains_key(k),
        t2@[k] == v2,
{
}

/// Keys with equal views hash alike, on every call.
pub proof fn lemma_hash_deterministic<K: Hashable>(a: K, b: K)
    requires
        a@ == b@,
    ensures
        K::spec_hash(a@) == K::spec_hash(b@),
{
}

} // verus!
