//! Laws of the table, stated over its map model.
//!
//! Every public operation of [`crate::hash::Hash`] describes its effect
//! as an operation on a `Map<Seq<char>, T>`; the lemmas here state what
//! sequences of such operations amount to, for all keys and values.

use vstd::prelude::*;

verus! {

/// The map after upserting a sequence of key–value pairs, first to last.
pub open spec fn upsert_all<T>(m: Map<Seq<char>, T>, kvs: Seq<(Seq<char>, T)>) -> Map<
    Seq<char>,
    T,
>
    decreases kvs.len(),
{
    if kvs.len() == 0 {
        m
    } else {
        upsert_all(m.insert(kvs[0].0, kvs[0].1), kvs.drop_first())
    }
}

/// A key that none of the upserted pairs carries is left untouched.
pub proof fn lemma_upsert_all_absent<T>(m: Map<Seq<char>, T>, kvs: Seq<(Seq<char>, T)>, k: Seq<char>)
    requires
        forall|i: int| 0 <= i < kvs.len() ==> (#[trigger] kvs[i]).0 != k,
    ensures
        upsert_all(m, kvs).contains_key(k) == m.contains_key(k),
        m.contains_key(k) ==> upsert_all(m, kvs)[k] == m[k],
    decreases kvs.len(),
{
    if kvs.len() > 0 {
        assert(forall|i: int|
            0 <= i < kvs.len() - 1 ==> #[trigger] kvs.drop_first()[i] == kvs[i + 1]);
        lemma_upsert_all_absent(m.insert(kvs[0].0, kvs[0].1), kvs.drop_first(), k);
    }
}

/// After upserting the pairs, a key whose last occurrence is pair `i`
/// maps to that pair's value.
pub proof fn lemma_upsert_all_found<T>(m: Map<Seq<char>, T>, kvs: Seq<(Seq<char>, T)>, i: int)
    requires
        0 <= i < kvs.len(),
        forall|j: int| i < j < kvs.len() ==> (#[trigger] kvs[j]).0 != kvs[i].0,
    ensures
        upsert_all(m, kvs).contains_key(kvs[i].0),
        upsert_all(m, kvs)[kvs[i].0] == kvs[i].1,
    decreases kvs.len(),
{
    assert(forall|j: int| 0 <= j < kvs.len() - 1 ==> #[trigger] kvs.drop_first()[j] == kvs[j + 1]);
    if i == 0 {
        if kvs.len() == 1 {
            assert(upsert_all(m.insert(kvs[0].0, kvs[0].1), kvs.drop_first()) == m.insert(
                kvs[0].0,
                kvs[0].1,
            ));
        } else {
            lemma_upsert_all_absent(
                m.insert(kvs[0].0, kvs[0].1),
                kvs.drop_first(),
                kvs[0].0,
            );
        }
    } else {
        lemma_upsert_all_found(m.insert(kvs[0].0, kvs[0].1), kvs.drop_first(), i - 1);
    }
}

/// Upserting a key and then looking it up yields the upserted value.
pub proof fn lemma_round_trip<T>(m: Map<Seq<char>, T>, k: Seq<char>, v: T)
    ensures
        m.insert(k, v).contains_key(k),
        m.insert(k, v)[k] == v,
{
}

/// Overwriting: upserting a key twice leaves the second value; the
/// second upsert finds the key already present (so it reports an
/// overwrite, not an insertion), and the first value leaves no trace.
pub proof fn lemma_overwrite<T>(m: Map<Seq<char>, T>, k: Seq<char>, v1: T, v2: T)
    ensures
        m.insert(k, v1).contains_key(k),
        m.insert(k, v1).insert(k, v2)[k] == v2,
        m.insert(k, v1).insert(k, v2) == m.insert(k, v2),
{
    assert(m.insert(k, v1).insert(k, v2) =~= m.insert(k, v2));
}

/// Deletion: removing an upserted key leaves the map without it, and a
/// second removal of the same key changes nothing.
pub proof fn lemma_deletion<T>(m: Map<Seq<char>, T>, k: Seq<char>, v: T)
    ensures
        !m.insert(k, v).remove(k).contains_key(k),
        m.insert(k, v).remove(k).remove(k) == m.insert(k, v).remove(k),
{
    assert(m.insert(k, v).remove(k).remove(k) =~= m.insert(k, v).remove(k));
}

/// No false positives: the empty map holds no key, and upserting or
/// removing one key never makes another key appear or vanish.
pub proof fn lemma_no_false_positives<T>(m: Map<Seq<char>, T>, k: Seq<char>, k2: Seq<char>, v: T)
    requires
        k2 != k,
    ensures
        !Map::<Seq<char>, T>::empty().contains_key(k),
        m.insert(k2, v).contains_key(k) == m.contains_key(k),
        m.remove(k2).contains_key(k) == m.contains_key(k),
        m.contains_key(k) ==> m.insert(k2, v)[k] == m[k] && m.remove(k2)[k] == m[k],
{
}

/// Scale: after upserting any number of pairs with pairwise distinct
/// keys, every key maps to its own value — however many bucket splits
/// the insertions set off, since no upsert's effect on the map depends
/// on the table's growth state.
pub proof fn lemma_distinct_upserts<T>(m: Map<Seq<char>, T>, kvs: Seq<(Seq<char>, T)>)
    requires
        forall|i: int, j: int| 0 <= i < j < kvs.len() ==> (#[trigger] kvs[i]).0 != (#[trigger] kvs[j]).0,
    ensures
        forall|i: int|
            0 <= i < kvs.len() ==> upsert_all(m, kvs).contains_key((#[trigger] kvs[i]).0)
                && upsert_all(m, kvs)[kvs[i].0] == kvs[i].1,
{
    assert forall|i: int|
        0 <= i < kvs.len() implies upsert_all(m, kvs).contains_key((#[trigger] kvs[i]).0)
        && upsert_all(m, kvs)[kvs[i].0] == kvs[i].1 by {
        lemma_upsert_all_found(m, kvs, i);
    }
}

} // verus!
