use vstd::prelude::*;

use crate::hashable::Hashable;
use crate::table::HashTable;

verus! {

/// `tables` is a run of inserts: each table is the one before it after the insert
/// of `keys[j]` with `values[j]`.
pub open spec fn insert_run<K: Hashable, V>(
    tables: Seq<HashTable<K, V>>,
    keys: Seq<K::V>,
    values: Seq<V>,
) -> bool {
    &&& values.len() == keys.len()
    &&& tables.len() == keys.len() + 1
    &&& forall|j: int|
        0 <= j < keys.len() ==> tables[j + 1]@ == tables[j]@.insert(#[trigger] keys[j], values[j])
}

/// Every run of inserts but the last is a run of inserts too.
proof fn lemma_insert_run_prefix<K: Hashable, V>(
    tables: Seq<HashTable<K, V>>,
    keys: Seq<K::V>,
    values: Seq<V>,
)
    requires
        insert_run(tables, keys, values),
        keys.len() > 0,
    ensures
        insert_run(tables.drop_last(), keys.drop_last(), values.drop_last()),
{
    let n = keys.len() - 1;
    assert forall|j: int| 0 <= j < n implies tables.drop_last()[j + 1]@ == tables.drop_last()[j]@.insert(
        #[trigger] keys.drop_last()[j],
        values.drop_last()[j],
    ) by {
        assert(keys.drop_last()[j] == keys[j]);
    }
}

/// Inserting a key twice leaves the second value under it, and the second insert
/// does not change the number of keys.
pub proof fn lemma_upsert<K: Hashable, V>(
    t0: HashTable<K, V>,
    t1: HashTable<K, V>,
    t2: HashTable<K, V>,
    k: K::V,
    v1: V,
    v2: V,
)
    requires
        t1.wf(),
        t1@ == t0@.insert(k, v1),
        t2@ == t1@.insert(k, v2),
    ensures
        t2@.contains_key(k),
        t2@[k] == v2,
        t2@.len() == t1@.len(),
{
    t1.lemma_view_finite();
    assert(t2@.dom() =~= t1@.dom());
}

/// After a run of inserts of distinct keys, each key maps to the value it was
/// inserted with, whatever growth happened on the way.
pub proof fn lemma_retrieval_complete<K: Hashable, V>(
    tables: Seq<HashTable<K, V>>,
    keys: Seq<K::V>,
    values: Seq<V>,
)
    requires
        insert_run(tables, keys, values),
        forall|i: int, j: int| 0 <= i < j < keys.len() ==> keys[i] != keys[j],
    ensures
        forall|i: int|
            0 <= i < keys.len() ==> tables.last()@.contains_key(#[trigger] keys[i])
                && tables.last()@[keys[i]] == values[i],
    decreases keys.len(),
{
    if keys.len() > 0 {
        let n = keys.len() - 1;
        lemma_insert_run_prefix(tables, keys, values);
        lemma_retrieval_complete(tables.drop_last(), keys.drop_last(), values.drop_last());
        assert(tables.last()@ == tables[n]@.insert(keys[n], values[n]));
        assert forall|i: int| 0 <= i < keys.len() implies tables.last()@.contains_key(
            #[trigger] keys[i],
        ) && tables.last()@[keys[i]] == values[i] by {
            if i < n {
                assert(keys.drop_last()[i] == keys[i]);
            }
        }
    }
}

/// After a run of inserts that starts from an empty table, a key that none of the
/// inserts named is absent.
pub proof fn lemma_absent_never_inserted<K: Hashable, V>(
    tables: Seq<HashTable<K, V>>,
    keys: Seq<K::V>,
    values: Seq<V>,
    k: K::V,
)
    requires
        insert_run(tables, keys, values),
        tables[0]@ == Map::<K::V, V>::empty(),
        forall|j: int| 0 <= j < keys.len() ==> keys[j] != k,
    ensures
        !tables.last()@.contains_key(k),
    decreases keys.len(),
{
    if keys.len() > 0 {
        let n = keys.len() - 1;
        lemma_insert_run_prefix(tables, keys, values);
        lemma_absent_never_inserted(tables.drop_last(), keys.drop_last(), values.drop_last(), k);
        assert(tables.last()@ == tables[n]@.insert(keys[n], values[n]));
    }
}

/// Through a run of inserts of keys that the first table does not hold, every key
/// that it holds keeps its value, however many times the table grows.
pub proof fn lemma_growth_preserves_mapping<K: Hashable, V>(
    tables: Seq<HashTable<K, V>>,
    keys: Seq<K::V>,
    values: Seq<V>,
)
    requires
        insert_run(tables, keys, values),
        forall|j: int| 0 <= j < keys.len() ==> !tables[0]@.contains_key(#[trigger] keys[j]),
    ensures
        forall|k: K::V|
            #[trigger] tables[0]@.contains_key(k) ==> tables.last()@.contains_key(k)
                && tables.last()@[k] == tables[0]@[k],
    decreases keys.len(),
{
    if keys.len() > 0 {
        let n = keys.len() - 1;
        lemma_insert_run_prefix(tables, keys, values);
        assert forall|j: int| 0 <= j < n implies !tables.drop_last()[0]@.contains_key(
            #[trigger] keys.drop_last()[j],
        ) by {
            assert(keys.drop_last()[j] == keys[j]);
        }
        lemma_growth_preserves_mapping(tables.drop_last(), keys.drop_last(), values.drop_last());
        assert(tables.last()@ == tables[n]@.insert(keys[n], values[n]));
        assert(!tables[0]@.contains_key(keys[n]));
        assert forall|k: K::V| #[trigger] tables[0]@.contains_key(k) implies tables.last()@.contains_key(k)
            && tables.last()@[k] == tables[0]@[k] by {
            assert(tables.drop_last()[0] == tables[0]);
            assert(tables.drop_last().last() == tables[n]);
            assert(tables.drop_last().last()@.contains_key(k));
            assert(k != keys[n]);
        }
    }
}

/// Adding one to a value through the reference that `get_mut` hands out shows in
/// the mapping, and leaves the number of keys as it was.
pub proof fn lemma_get_mut_increment<K: Hashable>(
    t0: HashTable<K, usize>,
    t1: HashTable<K, usize>,
    k: K::V,
)
    requires
        t0.wf(),
        t0@.contains_key(k),
        t0@[k] < usize::MAX,
        t1@ == t0@.insert(k, (t0@[k] + 1) as usize),
    ensures
        t1@.contains_key(k),
        t1@[k] == t0@[k] + 1,
        t1@.len() == t0@.len(),
{
    t0.lemma_view_finite();
    assert(t1@.dom() =~= t0@.dom());
}

} // verus!
