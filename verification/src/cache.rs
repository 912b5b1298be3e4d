//! Least-recently-used caches.
//!
//! A cache is seen as the sequence of its entries, the most recently used one first. The
//! functions below that carry a body of `lru::LruCache` calls are trusted to keep to that
//! picture; everything else is proved from it.

use crate::url_state::{UrlState, UrlStates};
use lru::LruCache;
use std::num::NonZeroUsize;
use vstd::prelude::*;

verus! {

#[verifier::external_type_specification]
#[verifier::external_body]
#[verifier::reject_recursive_types(K)]
#[verifier::reject_recursive_types(V)]
#[verifier::reject_recursive_types(S)]
pub struct ExLruCache<K, V, S>(lru::LruCache<K, V, S>);

/// No key occurs twice.
pub open spec fn distinct_keys<K, V>(entries: Seq<(K, V)>) -> bool {
    forall|i: int, j: int|
        0 <= i < entries.len() && 0 <= j < entries.len() && #[trigger] entries[i].0
            == #[trigger] entries[j].0 ==> i == j
}

/// The entry at `i` is that of `key`.
pub open spec fn entry_at<K, V>(entries: Seq<(K, V)>, key: K, i: int) -> bool {
    0 <= i < entries.len() && entries[i].0 == key
}

/// The value that the entries hold for `key`.
pub open spec fn found<K, V>(entries: Seq<(K, V)>, key: K) -> Option<V> {
    if exists|i: int| entry_at(entries, key, i) {
        Some(entries[choose|i: int| entry_at(entries, key, i)].1)
    } else {
        None
    }
}

/// The entries without that of `key`, which is one of them.
pub open spec fn without<K, V>(entries: Seq<(K, V)>, key: K) -> Seq<(K, V)> {
    entries.remove(choose|i: int| entry_at(entries, key, i))
}

/// The entries after a read of `key`: its entry, if there is one, has moved to the front.
pub open spec fn after_get<K, V>(entries: Seq<(K, V)>, key: K) -> Seq<(K, V)> {
    match found(entries, key) {
        Some(value) => seq![(key, value)] + without(entries, key),
        None => entries,
    }
}

/// The entries after a write: the written entry stands at the front. A cache that is full
/// makes room for a new key by dropping the entry at the back.
pub open spec fn after_put<K, V>(entries: Seq<(K, V)>, cap: nat, key: K, value: V) -> Seq<(K, V)> {
    if found(entries, key) is Some {
        seq![(key, value)] + without(entries, key)
    } else if entries.len() >= cap {
        seq![(key, value)] + entries.drop_last()
    } else {
        seq![(key, value)] + entries
    }
}

/// The largest capacity for which a cache can lay out its table.
pub open spec fn max_capacity() -> nat {
    (usize::MAX / 128) as nat
}

// Texts by identifier.

/// The entries of a cache of texts, the most recently used one first.
pub uninterp spec fn text_entries(cache: LruCache<u128, String>) -> Seq<(u128, Seq<char>)>;

/// How many entries a cache of texts holds at most.
pub uninterp spec fn text_cap(cache: LruCache<u128, String>) -> nat;

/// `LruCache::new`. Trusted: the cache is empty and holds at most `cap` entries. The bound on
/// `cap` keeps the table that is laid out at once within what can be addressed.
#[verifier::external_body]
pub(crate) fn text_cache_new(cap: usize) -> (cache: LruCache<u128, String>)
    requires
        0 < cap <= max_capacity(),
    ensures
        text_entries(cache) == Seq::<(u128, Seq<char>)>::empty(),
        text_cap(cache) == cap,
{
    LruCache::new(NonZeroUsize::new(cap).unwrap())
}

/// `LruCache::get`. Trusted: returns the value of the key and moves its entry to the front.
#[verifier::external_body]
pub(crate) fn text_cache_get(cache: &mut LruCache<u128, String>, key: u128) -> (value: Option<
    String,
>)
    ensures
        text_entries(*final(cache)) == after_get(text_entries(*old(cache)), key),
        text_cap(*final(cache)) == text_cap(*old(cache)),
        value is Some <==> found(text_entries(*old(cache)), key) is Some,
        value matches Some(text) ==> found(text_entries(*old(cache)), key) == Some(text@),
{
    cache.get(&key).cloned()
}

/// `LruCache::put`. Trusted: the entry stands at the front, in place of the one that the key had
/// or of the last one of a full cache.
#[verifier::external_body]
pub(crate) fn text_cache_put(cache: &mut LruCache<u128, String>, key: u128, value: String)
    ensures
        text_entries(*final(cache)) == after_put(
            text_entries(*old(cache)),
            text_cap(*old(cache)),
            key,
            value@,
        ),
        text_cap(*final(cache)) == text_cap(*old(cache)),
{
    cache.put(key, value);
}

// Identifiers by text.

/// The entries of a cache of identifiers, the most recently used one first.
pub uninterp spec fn id_entries(cache: LruCache<String, u128>) -> Seq<(Seq<char>, u128)>;

/// How many entries a cache of identifiers holds at most.
pub uninterp spec fn id_cap(cache: LruCache<String, u128>) -> nat;

/// `LruCache::new`, for identifiers by text. Trusted as [`text_cache_new`] is.
#[verifier::external_body]
pub(crate) fn id_cache_new(cap: usize) -> (cache: LruCache<String, u128>)
    requires
        0 < cap <= max_capacity(),
    ensures
        id_entries(cache) == Seq::<(Seq<char>, u128)>::empty(),
        id_cap(cache) == cap,
{
    LruCache::new(NonZeroUsize::new(cap).unwrap())
}

/// `LruCache::get`, for identifiers by text. Trusted as [`text_cache_get`] is.
#[verifier::external_body]
pub(crate) fn id_cache_get(cache: &mut LruCache<String, u128>, key: &str) -> (value: Option<u128>)
    ensures
        id_entries(*final(cache)) == after_get(id_entries(*old(cache)), key@),
        id_cap(*final(cache)) == id_cap(*old(cache)),
        value == found(id_entries(*old(cache)), key@),
{
    cache.get(key).copied()
}

/// `LruCache::put`, for identifiers by text. Trusted as [`text_cache_put`] is.
#[verifier::external_body]
pub(crate) fn id_cache_put(cache: &mut LruCache<String, u128>, key: String, value: u128)
    ensures
        id_entries(*final(cache)) == after_put(
            id_entries(*old(cache)),
            id_cap(*old(cache)),
            key@,
            value,
        ),
        id_cap(*final(cache)) == id_cap(*old(cache)),
{
    cache.put(key, value);
}

// URL states by domain.

/// The entries of a cache of URL states, the most recently used one first.
pub uninterp spec fn states_entries(cache: LruCache<u128, UrlStates>) -> Seq<
    (u128, Map<u128, UrlState>),
>;

/// How many entries a cache of URL states holds at most.
pub uninterp spec fn states_cap(cache: LruCache<u128, UrlStates>) -> nat;

/// `LruCache::new`, for URL states by domain. Trusted as [`text_cache_new`] is.
#[verifier::external_body]
pub(crate) fn states_cache_new(cap: usize) -> (cache: LruCache<u128, UrlStates>)
    requires
        0 < cap <= max_capacity(),
    ensures
        states_entries(cache) == Seq::<(u128, Map<u128, UrlState>)>::empty(),
        states_cap(cache) == cap,
{
    LruCache::new(NonZeroUsize::new(cap).unwrap())
}

/// `LruCache::get`, for URL states by domain. Trusted as [`text_cache_get`] is.
#[verifier::external_body]
pub(crate) fn states_cache_get(cache: &mut LruCache<u128, UrlStates>, key: u128) -> (value: Option<
    UrlStates,
>)
    ensures
        states_entries(*final(cache)) == after_get(states_entries(*old(cache)), key),
        states_cap(*final(cache)) == states_cap(*old(cache)),
        value is Some <==> found(states_entries(*old(cache)), key) is Some,
        value matches Some(states) ==> found(states_entries(*old(cache)), key) == Some(states@),
{
    cache.get(&key).cloned()
}

/// `LruCache::put`, for URL states by domain. Trusted as [`text_cache_put`] is.
#[verifier::external_body]
pub(crate) fn states_cache_put(cache: &mut LruCache<u128, UrlStates>, key: u128, value: UrlStates)
    ensures
        states_entries(*final(cache)) == after_put(
            states_entries(*old(cache)),
            states_cap(*old(cache)),
            key,
            value@,
        ),
        states_cap(*final(cache)) == states_cap(*old(cache)),
{
    cache.put(key, value);
}

/// `LruCache::len`. Trusted: the number of entries.
#[verifier::external_body]
pub(crate) fn states_cache_len(cache: &LruCache<u128, UrlStates>) -> (len: usize)
    ensures
        len == states_entries(*cache).len(),
{
    cache.len()
}

/// `LruCache::contains`. Trusted: whether the key has an entry.
#[verifier::external_body]
pub(crate) fn states_cache_contains(cache: &LruCache<u128, UrlStates>, key: u128) -> (present: bool)
    ensures
        present == (found(states_entries(*cache), key) is Some),
{
    cache.contains(&key)
}

/// `LruCache::pop_lru`. Trusted: takes the entry at the back out and returns it.
#[verifier::external_body]
pub(crate) fn states_cache_pop_lru(cache: &mut LruCache<u128, UrlStates>) -> (popped: Option<
    (u128, UrlStates),
>)
    ensures
        popped is Some <==> states_entries(*old(cache)).len() > 0,
        popped matches Some(entry) ==> (entry.0, entry.1@) == states_entries(*old(cache)).last()
            && states_entries(*final(cache)) == states_entries(*old(cache)).drop_last(),
        popped is None ==> states_entries(*final(cache)) == states_entries(*old(cache)),
        states_cap(*final(cache)) == states_cap(*old(cache)),
{
    cache.pop_lru()
}

// What follows from the picture.

/// With distinct keys, the entry at `i` is what a search for its key finds.
pub proof fn lemma_found_at<K, V>(entries: Seq<(K, V)>, i: int)
    requires
        distinct_keys(entries),
        0 <= i < entries.len(),
    ensures
        found(entries, entries[i].0) == Some(entries[i].1),
{
    assert(entry_at(entries, entries[i].0, i));
}

/// A search that succeeds finds one of the entries.
pub proof fn lemma_found_is_entry<K, V>(entries: Seq<(K, V)>, key: K) -> (i: int)
    requires
        found(entries, key) is Some,
    ensures
        0 <= i < entries.len(),
        entries[i] == (key, found(entries, key).unwrap()),
{
    let i = choose|i: int| entry_at(entries, key, i);
    assert(entry_at(entries, key, i));
    i
}

/// Two sequences of distinct entries that hold the same entries find the same values.
pub proof fn lemma_found_same<K, V>(a: Seq<(K, V)>, b: Seq<(K, V)>, key: K)
    requires
        distinct_keys(a),
        distinct_keys(b),
        forall|e: (K, V)| e.0 == key ==> (a.contains(e) <==> b.contains(e)),
    ensures
        found(a, key) == found(b, key),
{
    if found(a, key) is Some {
        let i = lemma_found_is_entry(a, key);
        assert(a.contains(a[i]));
        let j = b.index_of(a[i]);
        assert(b[j] == a[i]);
        lemma_found_at(b, j);
    } else if found(b, key) is Some {
        let i = lemma_found_is_entry(b, key);
        assert(b.contains(b[i]));
        let j = a.index_of(b[i]);
        assert(a[j] == b[i]);
        lemma_found_at(a, j);
    }
}

/// A read changes the order of the entries and nothing else.
pub proof fn lemma_after_get<K, V>(entries: Seq<(K, V)>, key: K)
    requires
        distinct_keys(entries),
    ensures
        distinct_keys(after_get(entries, key)),
        after_get(entries, key).len() == entries.len(),
        forall|k: K| #[trigger] found(after_get(entries, key), k) == found(entries, k),
{
    let after = after_get(entries, key);
    if found(entries, key) is Some {
        let i = choose|i: int| entry_at(entries, key, i);
        assert(entry_at(entries, key, i));
        assert(after[0] == entries[i]);
        assert forall|j: int| 1 <= j < after.len() implies #[trigger] after[j] == (if j - 1 < i {
            entries[j - 1]
        } else {
            entries[j]
        }) by {}
        assert forall|k: K| #[trigger] found(after, k) == found(entries, k) by {
            assert forall|e: (K, V)| e.0 == k implies (after.contains(e) <==> entries.contains(e)) by {
                if entries.contains(e) {
                    let j = entries.index_of(e);
                    if j == i {
                        assert(after[0] == e);
                    } else if j < i {
                        assert(after[j + 1] == e);
                    } else {
                        assert(after[j] == e);
                    }
                }
                if after.contains(e) {
                    let j = after.index_of(e);
                    if j == 0 {
                        assert(entries[i] == e);
                    } else if j - 1 < i {
                        assert(entries[j - 1] == e);
                    } else {
                        assert(entries[j] == e);
                    }
                }
            }
            lemma_found_same(after, entries, k);
        }
    }
}

/// A write is found again. Of the other keys, a cache keeps what it held, except that a full one
/// that is given a new key loses the entry at the back.
pub proof fn lemma_after_put<K, V>(entries: Seq<(K, V)>, cap: nat, key: K, value: V)
    requires
        distinct_keys(entries),
        0 < cap,
        entries.len() <= cap,
    ensures
        distinct_keys(after_put(entries, cap, key, value)),
        after_put(entries, cap, key, value).len() <= cap,
        entries.len() <= after_put(entries, cap, key, value).len() <= entries.len() + 1,
        found(after_put(entries, cap, key, value), key) == Some(value),
        forall|k: K|
            k != key ==> {
                ||| #[trigger] found(after_put(entries, cap, key, value), k) == found(entries, k)
                ||| found(after_put(entries, cap, key, value), k) is None && entries.len() == cap
            },
{
    let after = after_put(entries, cap, key, value);
    assert(after[0] == (key, value));
    if found(entries, key) is Some {
        let i = choose|i: int| entry_at(entries, key, i);
        assert(entry_at(entries, key, i));
        assert forall|j: int| 1 <= j < after.len() implies #[trigger] after[j] == (if j - 1 < i {
            entries[j - 1]
        } else {
            entries[j]
        }) by {}
        lemma_found_at(after, 0);
        assert forall|k: K| k != key implies #[trigger] found(after, k) == found(entries, k) by {
            assert forall|e: (K, V)| e.0 == k implies (after.contains(e) <==> entries.contains(e)) by {
                if entries.contains(e) {
                    let j = entries.index_of(e);
                    if j < i {
                        assert(after[j + 1] == e);
                    } else {
                        assert(after[j] == e);
                    }
                }
                if after.contains(e) {
                    let j = after.index_of(e);
                    if j - 1 < i {
                        assert(entries[j - 1] == e);
                    } else {
                        assert(entries[j] == e);
                    }
                }
            }
            lemma_found_same(after, entries, k);
        }
    } else {
        let kept = if entries.len() >= cap {
            entries.drop_last()
        } else {
            entries
        };
        assert forall|j: int| 1 <= j < after.len() implies #[trigger] after[j] == entries[j - 1]
            && after[j].0 != key by {
            assert(!entry_at(entries, key, j - 1));
        }
        assert(distinct_keys(after));
        lemma_found_at(after, 0);
        assert forall|k: K| k != key implies {
            ||| #[trigger] found(after, k) == found(entries, k)
            ||| found(after, k) is None && entries.len() == cap
        } by {
            if found(after, k) is Some {
                let j = lemma_found_is_entry(after, k);
                lemma_found_at(entries, j - 1);
            } else if found(entries, k) is Some {
                let j = lemma_found_is_entry(entries, k);
                if j < kept.len() {
                    assert(after[j + 1] == entries[j]);
                    lemma_found_at(after, j + 1);
                }
            }
        }
    }
}

} // verus!
