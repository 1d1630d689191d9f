//! Tables kept as vectors of (key, value) entries with distinct keys, seen by
//! the proofs as maps.
use vstd::prelude::*;

verus! {

/// The map that a list of entries describes; a later entry wins.
pub open spec fn keyed<K, V>(entries: Seq<(K, V)>) -> Map<K, V>
    decreases entries.len(),
{
    if entries.len() == 0 {
        Map::empty()
    } else {
        keyed(entries.drop_last()).insert(entries.last().0, entries.last().1)
    }
}

/// No key occurs in two entries.
pub open spec fn distinct_keys<K, V>(entries: Seq<(K, V)>) -> bool {
    forall|i: int, j: int|
        0 <= i < entries.len() && 0 <= j < entries.len() && i != j ==> entries[i].0 != entries[j].0
}

/// Appending an entry inserts its key.
pub proof fn lemma_keyed_push<K, V>(entries: Seq<(K, V)>, k: K, v: V)
    ensures
        keyed(entries.push((k, v))) == keyed(entries).insert(k, v),
{
    assert(entries.push((k, v)).drop_last() =~= entries);
}

/// A key is in the map exactly when some entry holds it, with that entry's value.
pub proof fn lemma_keyed_lookup<K, V>(entries: Seq<(K, V)>)
    requires
        distinct_keys(entries),
    ensures
        forall|k: K| #[trigger]
            keyed(entries).contains_key(k) ==> exists|i: int| 0 <= i < entries.len() && entries[i].0 == k,
        forall|i: int|
            0 <= i < entries.len() ==> keyed(entries).contains_key(#[trigger] entries[i].0)
                && keyed(entries)[entries[i].0] == entries[i].1,
    decreases entries.len(),
{
    if entries.len() > 0 {
        let init = entries.drop_last();
        assert(distinct_keys(init)) by {
            assert forall|i: int, j: int|
                0 <= i < init.len() && 0 <= j < init.len() && i != j implies init[i].0 != init[j].0 by {
                assert(init[i] == entries[i] && init[j] == entries[j]);
            }
        }
        lemma_keyed_lookup(init);
        let n = entries.len() - 1;
        assert forall|k: K| #[trigger] keyed(entries).contains_key(k) implies exists|i: int|
            0 <= i < entries.len() && entries[i].0 == k by {
            if k != entries[n].0 {
                assert(keyed(init).contains_key(k));
                let i = choose|i: int| 0 <= i < init.len() && init[i].0 == k;
                assert(entries[i] == init[i]);
            } else {
                assert(entries[n].0 == k);
            }
        }
        assert forall|i: int| 0 <= i < entries.len() implies keyed(entries).contains_key(
            #[trigger] entries[i].0,
        ) && keyed(entries)[entries[i].0] == entries[i].1 by {
            if i < n {
                assert(init[i] == entries[i]);
                assert(entries[i].0 != entries[n].0);
            }
        }
    }
}

/// The keys of a table with distinct keys.
pub proof fn lemma_keyed_dom<K, V>(entries: Seq<(K, V)>, k: K)
    requires
        distinct_keys(entries),
    ensures
        keyed(entries).contains_key(k) <==> exists|i: int| 0 <= i < entries.len() && entries[i].0 == k,
{
    lemma_keyed_lookup(entries);
    if exists|i: int| 0 <= i < entries.len() && entries[i].0 == k {
        let i = choose|i: int| 0 <= i < entries.len() && entries[i].0 == k;
        assert(keyed(entries).contains_key(entries[i].0));
    }
}

/// Removing the entry of a key removes the key, and the keys stay distinct.
pub proof fn lemma_keyed_remove<K, V>(entries: Seq<(K, V)>, i: int)
    requires
        distinct_keys(entries),
        0 <= i < entries.len(),
    ensures
        distinct_keys(entries.remove(i)),
        keyed(entries.remove(i)) == keyed(entries).remove(entries[i].0),
{
    let r = entries.remove(i);
    assert forall|a: int| 0 <= a < r.len() implies #[trigger] r[a] == (if a < i {
        entries[a]
    } else {
        entries[a + 1]
    }) by {}
    assert(distinct_keys(r)) by {
        assert forall|a: int, b: int|
            0 <= a < r.len() && 0 <= b < r.len() && a != b implies r[a].0 != r[b].0 by {
            let ea = if a < i { a } else { a + 1 };
            let eb = if b < i { b } else { b + 1 };
            assert(r[a] == entries[ea] && r[b] == entries[eb]);
        }
    }
    lemma_keyed_lookup(entries);
    lemma_keyed_lookup(r);
    let key = entries[i].0;
    assert forall|k: K| #[trigger] keyed(r).contains_key(k) <==> keyed(entries).remove(key).contains_key(k) by {
        lemma_keyed_dom(r, k);
        lemma_keyed_dom(entries, k);
        if keyed(entries).remove(key).contains_key(k) {
            let e = choose|e: int| 0 <= e < entries.len() && entries[e].0 == k;
            assert(e != i);
            let a = if e < i { e } else { e - 1 };
            assert(r[a].0 == k);
        }
        if keyed(r).contains_key(k) {
            let a = choose|a: int| 0 <= a < r.len() && r[a].0 == k;
            let e = if a < i { a } else { a + 1 };
            assert(entries[e].0 == k);
        }
    }
    assert forall|k: K| #[trigger] keyed(r).contains_key(k) implies keyed(r)[k] == keyed(entries).remove(key)[k] by {
        lemma_keyed_dom(r, k);
        let a = choose|a: int| 0 <= a < r.len() && r[a].0 == k;
        let e = if a < i { a } else { a + 1 };
        assert(r[a] == entries[e]);
    }
    assert(keyed(r) =~= keyed(entries).remove(key));
}

/// Replacing the value of an entry replaces the value of its key.
pub proof fn lemma_keyed_update<K, V>(entries: Seq<(K, V)>, i: int, v: V)
    requires
        distinct_keys(entries),
        0 <= i < entries.len(),
    ensures
        distinct_keys(entries.update(i, (entries[i].0, v))),
        keyed(entries.update(i, (entries[i].0, v))) == keyed(entries).insert(entries[i].0, v),
{
    let key = entries[i].0;
    let u = entries.update(i, (key, v));
    assert(distinct_keys(u)) by {
        assert forall|a: int, b: int|
            0 <= a < u.len() && 0 <= b < u.len() && a != b implies u[a].0 != u[b].0 by {
            assert(u[a].0 == entries[a].0 && u[b].0 == entries[b].0);
        }
    }
    lemma_keyed_lookup(entries);
    lemma_keyed_lookup(u);
    assert forall|k: K| #[trigger] keyed(u).contains_key(k) <==> keyed(entries).insert(key, v).contains_key(k) by {
        lemma_keyed_dom(u, k);
        lemma_keyed_dom(entries, k);
        if keyed(entries).contains_key(k) {
            let e = choose|e: int| 0 <= e < entries.len() && entries[e].0 == k;
            assert(u[e].0 == k);
        }
        if keyed(u).contains_key(k) {
            let e = choose|e: int| 0 <= e < u.len() && u[e].0 == k;
            assert(entries[e].0 == k);
        }
        if k == key {
            assert(u[i].0 == k);
        }
    }
    assert forall|k: K| #[trigger] keyed(u).contains_key(k) implies keyed(u)[k] == keyed(entries).insert(key, v)[k] by {
        lemma_keyed_dom(u, k);
        let e = choose|e: int| 0 <= e < u.len() && u[e].0 == k;
        if e != i {
            assert(u[e] == entries[e]);
        }
    }
    assert(keyed(u) =~= keyed(entries).insert(key, v));
}

/// A table with distinct keys has as many keys as entries.
pub proof fn lemma_distinct_key_count<K, V>(entries: Seq<(K, V)>)
    requires
        distinct_keys(entries),
    ensures
        keyed(entries).dom().finite(),
        keyed(entries).dom().len() == entries.len(),
    decreases entries.len(),
{
    if entries.len() > 0 {
        let init = entries.drop_last();
        let n = entries.len() - 1;
        assert(distinct_keys(init)) by {
            assert forall|i: int, j: int|
                0 <= i < init.len() && 0 <= j < init.len() && i != j implies init[i].0 != init[j].0 by {
                assert(init[i] == entries[i] && init[j] == entries[j]);
            }
        }
        lemma_distinct_key_count(init);
        lemma_keyed_dom(init, entries[n].0);
        if keyed(init).contains_key(entries[n].0) {
            let i = choose|i: int| 0 <= i < init.len() && init[i].0 == entries[n].0;
            assert(init[i] == entries[i]);
        }
        assert(keyed(entries).dom() == keyed(init).dom().insert(entries[n].0));
    }
}

} // verus!
