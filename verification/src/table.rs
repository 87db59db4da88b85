use vstd::prelude::*;

verus! {

/// Whether some entry of `entries` has the key `k`.
pub(crate) open spec fn holds<T, K>(entries: Seq<T>, key: spec_fn(T) -> K, k: K) -> bool {
    exists|i: int| 0 <= i < entries.len() && #[trigger] key(entries[i]) == k
}

/// The place of an entry with the key `k`.
pub(crate) open spec fn index_of<T, K>(entries: Seq<T>, key: spec_fn(T) -> K, k: K) -> int {
    choose|i: int| 0 <= i < entries.len() && #[trigger] key(entries[i]) == k
}

/// Whether no two entries share a key.
pub(crate) open spec fn distinct<T, K>(entries: Seq<T>, key: spec_fn(T) -> K) -> bool {
    forall|i: int, j: int|
        0 <= i < j < entries.len() ==> #[trigger] key(entries[i]) != #[trigger] key(entries[j])
}

/// The map from the keys of the entries to what `value` makes of the entry
/// with that key.
pub(crate) open spec fn table_of<T, K, V>(
    entries: Seq<T>,
    key: spec_fn(T) -> K,
    value: spec_fn(T) -> V,
) -> Map<K, V> {
    Map::new(|k: K| holds(entries, key, k), |k: K| value(entries[index_of(entries, key, k)]))
}

/// With distinct keys, the entry at a place is the one found by its key.
pub(crate) proof fn lemma_entry<T, K>(entries: Seq<T>, key: spec_fn(T) -> K, i: int)
    requires
        distinct(entries, key),
        0 <= i < entries.len(),
    ensures
        holds(entries, key, key(entries[i])),
        index_of(entries, key, key(entries[i])) == i,
{
    let k = key(entries[i]);
    assert(holds(entries, key, k));
    let found = index_of(entries, key, k);
    if found < i {
        assert(key(entries[found]) != key(entries[i]));
    } else if i < found {
        assert(key(entries[i]) != key(entries[found]));
    }
}

/// Putting an entry in the place of the one with its key, or at the end
/// where no entry has its key, keeps the keys distinct and inserts the
/// entry into the map.
pub(crate) proof fn lemma_put<T, K, V>(
    before: Seq<T>,
    after: Seq<T>,
    key: spec_fn(T) -> K,
    value: spec_fn(T) -> V,
    at: int,
)
    requires
        distinct(before, key),
        0 <= at < after.len(),
        at < before.len() ==> after == before.update(at, after[at]) && key(before[at]) == key(
            after[at],
        ),
        at >= before.len() ==> after == before.push(after[at]) && !holds(
            before,
            key,
            key(after[at]),
        ),
    ensures
        distinct(after, key),
        table_of(after, key, value) == table_of(before, key, value).insert(
            key(after[at]),
            value(after[at]),
        ),
{
    let entry = after[at];
    assert forall|a: int, b: int| 0 <= a < b < after.len() implies #[trigger] key(after[a])
        != #[trigger] key(after[b]) by {
        if b < before.len() {
            assert(key(before[a]) != key(before[b]));
        } else {
            assert(key(before[a]) == key(after[a]));
        }
    }
    assert forall|k: K| holds(after, key, k) == (holds(before, key, k) || k == key(entry)) by {
        if holds(after, key, k) {
            let i = index_of(after, key, k);
            if i < before.len() {
                assert(key(before[i]) == k);
            }
        }
        if holds(before, key, k) {
            let i = index_of(before, key, k);
            assert(key(after[i]) == k);
        }
        if k == key(entry) {
            assert(key(after[at]) == k);
        }
    }
    assert forall|k: K| holds(after, key, k) implies value(after[index_of(after, key, k)]) == (
    if k == key(entry) {
        value(entry)
    } else {
        value(before[index_of(before, key, k)])
    }) by {
        let i = index_of(after, key, k);
        lemma_entry(after, key, i);
        if k != key(entry) {
            assert(key(before[i]) == k);
            lemma_entry(before, key, i);
        } else {
            lemma_entry(after, key, at);
        }
    }
    assert(table_of(after, key, value) =~= table_of(before, key, value).insert(
        key(entry),
        value(entry),
    ));
}

/// Every key of the map is the key of the entry that the map is made from.
pub(crate) proof fn lemma_keyed<T, K>(entries: Seq<T>, key: spec_fn(T) -> K, k: K)
    requires
        holds(entries, key, k),
    ensures
        0 <= index_of(entries, key, k) < entries.len(),
        key(entries[index_of(entries, key, k)]) == k,
{
}

/// With distinct keys, the map has as many keys as there are entries.
pub(crate) proof fn lemma_size<T, K, V>(
    entries: Seq<T>,
    key: spec_fn(T) -> K,
    value: spec_fn(T) -> V,
)
    requires
        distinct(entries, key),
    ensures
        table_of(entries, key, value).dom().finite(),
        table_of(entries, key, value).dom().len() == entries.len(),
{
    let keys = entries.map_values(key);
    assert forall|i: int, j: int| 0 <= i < keys.len() && 0 <= j < keys.len() && i != j implies keys[i]
        != keys[j] by {
        if i < j {
            assert(key(entries[i]) != key(entries[j]));
        } else {
            assert(key(entries[j]) != key(entries[i]));
        }
    }
    assert(keys.no_duplicates());
    assert forall|k: K| keys.to_set().contains(k) == holds(entries, key, k) by {
        if keys.to_set().contains(k) {
            let i = choose|i: int| 0 <= i < keys.len() && keys[i] == k;
            assert(key(entries[i]) == k);
        }
        if holds(entries, key, k) {
            let i = index_of(entries, key, k);
            assert(keys[i] == k);
        }
    }
    assert(keys.to_set() =~= table_of(entries, key, value).dom());
    keys.unique_seq_to_set();
    vstd::seq_lib::seq_to_set_is_finite(keys);
}

} // verus!
