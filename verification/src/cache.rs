//! The cache engine of a partition: a bounded map from key to value that
//! forgets the entry used longest ago when it is full.

use crate::parser::build_lsd_response;
use crate::text::option_text;
use lru::LruCache;
use std::num::NonZeroUsize;
use vstd::prelude::*;

verus! {

/// The cache of the `lru` crate. Its inside is not visible to proofs: what
/// it holds is named by `lru_entries` and `lru_capacity`.
#[verifier::external_type_specification]
#[verifier::external_body]
#[verifier::reject_recursive_types(K)]
#[verifier::reject_recursive_types(V)]
#[verifier::reject_recursive_types(S)]
pub struct ExLruCache<K, V, S>(LruCache<K, V, S>);

/// The entries of a cache as key and value, the most recently used first.
pub type Entries = Seq<(Seq<char>, Seq<char>)>;

/// What an `LruCache` holds: its entries, the most recently used first.
pub uninterp spec fn lru_entries(c: LruCache<String, String>) -> Entries;

/// The number of entries that an `LruCache` was made to hold at most.
pub uninterp spec fn lru_capacity(c: LruCache<String, String>) -> nat;

/// The index of the first entry with the given key, or the number of
/// entries when no entry has it.
pub open spec fn key_index(entries: Entries, key: Seq<char>) -> int
    decreases entries.len(),
{
    if entries.len() == 0 {
        0
    } else if entries[0].0 == key {
        0
    } else {
        1 + key_index(entries.drop_first(), key)
    }
}

/// Whether some entry has the given key.
pub open spec fn holds(entries: Entries, key: Seq<char>) -> bool {
    key_index(entries, key) < entries.len()
}

/// The value stored under a key, if any.
pub open spec fn value_at(entries: Entries, key: Seq<char>) -> Option<Seq<char>> {
    if holds(entries, key) {
        Some(entries[key_index(entries, key)].1)
    } else {
        None
    }
}

/// The entries once the given key is gone; the others keep their order.
pub open spec fn forget(entries: Entries, key: Seq<char>) -> Entries {
    if holds(entries, key) {
        entries.remove(key_index(entries, key))
    } else {
        entries
    }
}

/// The entries once the given key was read: its entry moves to the front,
/// and nothing changes when no entry has the key.
pub open spec fn touch(entries: Entries, key: Seq<char>) -> Entries {
    if holds(entries, key) {
        seq![entries[key_index(entries, key)]] + forget(entries, key)
    } else {
        entries
    }
}

/// The entries once a value was stored under a key: the new entry stands at
/// the front; an older entry of the same key is replaced, and otherwise a
/// full cache loses its last entry, the one used longest ago.
pub open spec fn store(entries: Entries, capacity: nat, key: Seq<char>, value: Seq<char>)
    -> Entries {
    if holds(entries, key) {
        seq![(key, value)] + forget(entries, key)
    } else if entries.len() == capacity {
        seq![(key, value)] + entries.drop_last()
    } else {
        seq![(key, value)] + entries
    }
}

/// No two entries share a key.
pub open spec fn distinct_keys(entries: Entries) -> bool {
    forall|i: int, j: int|
        0 <= i < entries.len() && 0 <= j < entries.len() && i != j ==> (#[trigger] entries[i]).0
            != (#[trigger] entries[j]).0
}

/// The entries fit a cache of the given capacity.
pub open spec fn fits(entries: Entries, capacity: nat) -> bool {
    &&& capacity >= 1
    &&& entries.len() <= capacity
    &&& distinct_keys(entries)
}

/// The entries that a snapshot lists.
pub open spec fn pairs_view(pairs: Seq<(String, String)>) -> Entries {
    pairs.map_values(|p: (String, String)| (p.0@, p.1@))
}

/// Makes an empty cache, by `LruCache::new`. It holds nothing and its
/// capacity is the one given.
#[verifier::external_body]
fn lru_new(capacity: usize) -> (c: LruCache<String, String>)
    requires
        capacity > 0,
    ensures
        lru_entries(c) == Seq::<(Seq<char>, Seq<char>)>::empty(),
        lru_capacity(c) == capacity,
{
    LruCache::new(NonZeroUsize::new(capacity).unwrap())
}

/// Stores a value, by `LruCache::put`: the entry becomes the most recently
/// used one; an entry of the same key is replaced, and otherwise a cache
/// that is full drops its least recently used entry.
#[verifier::external_body]
fn lru_put(c: &mut LruCache<String, String>, key: String, value: String)
    ensures
        lru_entries(*final(c)) == store(
            lru_entries(*old(c)),
            lru_capacity(*old(c)),
            key@,
            value@,
        ),
        lru_capacity(*final(c)) == lru_capacity(*old(c)),
{
    c.put(key, value);
}

/// Reads a value, by `LruCache::get`: the copy returned is the value stored
/// under the key, and the entry becomes the most recently used one.
#[verifier::external_body]
fn lru_get(c: &mut LruCache<String, String>, key: &str) -> (r: Option<String>)
    ensures
        option_text(r) == value_at(lru_entries(*old(c)), key@),
        lru_entries(*final(c)) == touch(lru_entries(*old(c)), key@),
        lru_capacity(*final(c)) == lru_capacity(*old(c)),
{
    c.get(key).cloned()
}

/// Removes a key, by `LruCache::pop`: its entry is gone and the others keep
/// their order.
#[verifier::external_body]
fn lru_pop(c: &mut LruCache<String, String>, key: &str)
    ensures
        lru_entries(*final(c)) == forget(lru_entries(*old(c)), key@),
        lru_capacity(*final(c)) == lru_capacity(*old(c)),
{
    c.pop(key);
}

/// Copies the entries out, by `LruCache::iter`, which walks them from the
/// most to the least recently used.
#[verifier::external_body]
pub(crate) fn lru_snapshot(c: &LruCache<String, String>) -> (pairs: Vec<(String, String)>)
    ensures
        pairs_view(pairs@) == lru_entries(*c),
{
    c.iter().map(|(k, v)| (k.clone(), v.clone())).collect()
}

/// Where a key stands: before it no entry has the key, and an entry at that
/// index has it.
pub proof fn lemma_key_index(entries: Entries, key: Seq<char>)
    ensures
        0 <= key_index(entries, key) <= entries.len(),
        forall|j: int| 0 <= j < key_index(entries, key) ==> (#[trigger] entries[j]).0 != key,
        holds(entries, key) ==> entries[key_index(entries, key)].0 == key,
    decreases entries.len(),
{
    if entries.len() > 0 && entries[0].0 != key {
        let rest = entries.drop_first();
        lemma_key_index(rest, key);
        assert forall|j: int| 0 <= j < key_index(entries, key) implies (#[trigger] entries[j]).0
            != key by {
            if j > 0 {
                assert(entries[j] == rest[j - 1]);
            }
        }
    }
}

/// Forgetting a key leaves entries that fit, and none of them has the key.
pub proof fn lemma_forget_fits(entries: Entries, capacity: nat, key: Seq<char>)
    requires
        fits(entries, capacity),
    ensures
        fits(forget(entries, key), capacity),
        !holds(forget(entries, key), key),
        forget(entries, key).len() == if holds(entries, key) {
            entries.len() - 1
        } else {
            entries.len() as int
        },
{
    lemma_key_index(entries, key);
    let after = forget(entries, key);
    let at = key_index(entries, key);
    lemma_key_index(after, key);
    if holds(entries, key) {
        assert forall|j: int| 0 <= j < after.len() implies (#[trigger] after[j]).0 != key by {
            if j < at {
                assert(after[j] == entries[j]);
            } else {
                assert(after[j] == entries[j + 1]);
            }
        }
        assert(distinct_keys(after)) by {
            assert forall|i: int, j: int|
                0 <= i < after.len() && 0 <= j < after.len() && i != j implies
                    (#[trigger] after[i]).0 != (#[trigger] after[j]).0 by {
                let a = if i < at {
                    i
                } else {
                    i + 1
                };
                let b = if j < at {
                    j
                } else {
                    j + 1
                };
                assert(after[i] == entries[a]);
                assert(after[j] == entries[b]);
            }
        }
    }
    if holds(after, key) {
        assert(after[key_index(after, key)].0 == key);
    }
}

proof fn lemma_front_fits(entry: (Seq<char>, Seq<char>), rest: Entries, capacity: nat)
    requires
        capacity >= 1,
        rest.len() < capacity,
        distinct_keys(rest),
        !holds(rest, entry.0),
    ensures
        fits(seq![entry] + rest, capacity),
        holds(seq![entry] + rest, entry.0),
        key_index(seq![entry] + rest, entry.0) == 0,
{
    let all = seq![entry] + rest;
    lemma_key_index(rest, entry.0);
    assert forall|i: int, j: int|
        0 <= i < all.len() && 0 <= j < all.len() && i != j implies (#[trigger] all[i]).0 != (
    #[trigger] all[j]).0 by {
        if i > 0 {
            assert(all[i] == rest[i - 1]);
        }
        if j > 0 {
            assert(all[j] == rest[j - 1]);
        }
    }
}

/// Reading a key leaves entries that fit: the same entries in another order.
pub proof fn lemma_touch_fits(entries: Entries, capacity: nat, key: Seq<char>)
    requires
        fits(entries, capacity),
    ensures
        fits(touch(entries, key), capacity),
        touch(entries, key).len() == entries.len(),
        holds(entries, key) ==> touch(entries, key)[0] == entries[key_index(entries, key)],
{
    if holds(entries, key) {
        lemma_key_index(entries, key);
        lemma_forget_fits(entries, capacity, key);
        lemma_front_fits(entries[key_index(entries, key)], forget(entries, key), capacity);
    }
}

/// Storing a value leaves entries that fit, with the new entry in front.
pub proof fn lemma_store_fits(entries: Entries, capacity: nat, key: Seq<char>, value: Seq<char>)
    requires
        fits(entries, capacity),
    ensures
        fits(store(entries, capacity, key, value), capacity),
        store(entries, capacity, key, value)[0] == (key, value),
        value_at(store(entries, capacity, key, value), key) == Some(value),
{
    lemma_key_index(entries, key);
    if holds(entries, key) {
        lemma_forget_fits(entries, capacity, key);
        lemma_front_fits((key, value), forget(entries, key), capacity);
    } else if entries.len() == capacity {
        let rest = entries.drop_last();
        lemma_key_index(rest, key);
        if holds(rest, key) {
            assert(rest[key_index(rest, key)] == entries[key_index(rest, key)]);
        }
        assert(distinct_keys(rest)) by {
            assert forall|i: int, j: int|
                0 <= i < rest.len() && 0 <= j < rest.len() && i != j implies
                    (#[trigger] rest[i]).0 != (#[trigger] rest[j]).0 by {
                assert(rest[i] == entries[i]);
                assert(rest[j] == entries[j]);
            }
        }
        lemma_front_fits((key, value), rest, capacity);
    } else {
        lemma_front_fits((key, value), entries, capacity);
    }
}

/// An entry with the key, anywhere, means that the key is held.
pub proof fn lemma_holds_at(entries: Entries, key: Seq<char>, at: int)
    requires
        0 <= at < entries.len(),
        entries[at].0 == key,
    ensures
        holds(entries, key),
{
    lemma_key_index(entries, key);
}

/// What a cache holds after the given pairs were stored one after another,
/// starting from an empty cache.
pub open spec fn fill(pairs: Entries, capacity: nat) -> Entries
    decreases pairs.len(),
{
    if pairs.len() == 0 {
        pairs
    } else {
        store(fill(pairs.drop_last(), capacity), capacity, pairs.last().0, pairs.last().1)
    }
}

/// The last `capacity` of the pairs, or all of them if they are fewer, the
/// latest first.
pub open spec fn newest(pairs: Entries, capacity: nat) -> Entries {
    let kept = if pairs.len() <= capacity {
        pairs.len()
    } else {
        capacity
    };
    Seq::new(kept, |i: int| pairs[pairs.len() - 1 - i])
}

/// Storing distinct keys into an empty cache keeps exactly the newest ones,
/// up to the capacity, the latest first. So with one key more than the
/// capacity, the key stored first, and no other, is gone.
pub proof fn lemma_fill_keeps_newest(pairs: Entries, capacity: nat)
    requires
        capacity >= 1,
        distinct_keys(pairs),
    ensures
        fill(pairs, capacity) == newest(pairs, capacity),
        fits(fill(pairs, capacity), capacity),
        pairs.len() == capacity + 1 ==> !holds(fill(pairs, capacity), pairs[0].0),
        pairs.len() == capacity + 1 ==> forall|i: int|
            1 <= i < pairs.len() ==> value_at(fill(pairs, capacity), (#[trigger] pairs[i]).0)
                == Some(pairs[i].1),
    decreases pairs.len(),
{
    let result = newest(pairs, capacity);
    if pairs.len() == 0 {
        assert(fill(pairs, capacity) =~= result);
    } else {
        let before = pairs.drop_last();
        let last = pairs.last();
        assert(distinct_keys(before)) by {
            assert forall|i: int, j: int|
                0 <= i < before.len() && 0 <= j < before.len() && i != j implies
                    (#[trigger] before[i]).0 != (#[trigger] before[j]).0 by {
                assert(before[i] == pairs[i]);
                assert(before[j] == pairs[j]);
            }
        }
        lemma_fill_keeps_newest(before, capacity);
        let held = newest(before, capacity);
        lemma_key_index(held, last.0);
        if holds(held, last.0) {
            let at = key_index(held, last.0);
            assert(held[at] == pairs[before.len() - 1 - at]);
        }
        lemma_store_fits(held, capacity, last.0, last.1);
        assert(store(held, capacity, last.0, last.1) =~= result);
    }
    assert(distinct_keys(result)) by {
        assert forall|i: int, j: int|
            0 <= i < result.len() && 0 <= j < result.len() && i != j implies
                (#[trigger] result[i]).0 != (#[trigger] result[j]).0 by {
            assert(result[i] == pairs[pairs.len() - 1 - i]);
            assert(result[j] == pairs[pairs.len() - 1 - j]);
        }
    }
    if pairs.len() == capacity + 1 {
        lemma_key_index(result, pairs[0].0);
        if holds(result, pairs[0].0) {
            let at = key_index(result, pairs[0].0);
            assert(result[at] == pairs[pairs.len() - 1 - at]);
        }
        assert forall|i: int| 1 <= i < pairs.len() implies value_at(
            result,
            (#[trigger] pairs[i]).0,
        ) == Some(pairs[i].1) by {
            let at = pairs.len() - 1 - i;
            assert(result[at] == pairs[i]);
            lemma_holds_at(result, pairs[i].0, at);
            lemma_key_index(result, pairs[i].0);
            let found = key_index(result, pairs[i].0);
            if found != at {
                assert(result[found].0 == result[at].0);
            }
        }
    }
}

/// A key that was just read is not the next to leave: in a cache of two
/// entries or more, storing a new key after the read keeps the key that was
/// read, with its value.
pub proof fn lemma_read_refreshes(
    entries: Entries,
    capacity: nat,
    key: Seq<char>,
    new_key: Seq<char>,
    new_value: Seq<char>,
)
    requires
        fits(entries, capacity),
        capacity >= 2,
        holds(entries, key),
        !holds(entries, new_key),
    ensures
        value_at(store(touch(entries, key), capacity, new_key, new_value), key) == value_at(
            entries,
            key,
        ),
{
    lemma_key_index(entries, key);
    lemma_key_index(entries, new_key);
    lemma_touch_fits(entries, capacity, key);
    lemma_forget_fits(entries, capacity, key);
    let read = touch(entries, key);
    let entry = entries[key_index(entries, key)];
    assert(read[0] == entry);
    lemma_key_index(read, new_key);
    if holds(read, new_key) {
        let at = key_index(read, new_key);
        if at > 0 {
            let rest = forget(entries, key);
            assert(read[at] == rest[at - 1]);
            let from = if at - 1 < key_index(entries, key) {
                at - 1
            } else {
                at
            };
            assert(rest[at - 1] == entries[from]);
            lemma_holds_at(entries, new_key, from);
        }
    }
    let after = store(read, capacity, new_key, new_value);
    assert(after[1] == entry);
    lemma_holds_at(after, key, 1);
    lemma_key_index(after, key);
    lemma_store_fits(read, capacity, new_key, new_value);
    let found = key_index(after, key);
    if found != 1 {
        assert(after[found].0 == after[1].0);
    }
}

/// A bounded cache of texts whose least recently used entry leaves first.
pub struct Cache {
    store: LruCache<String, String>,
}

impl Cache {
    /// The entries held, the most recently used first.
    pub closed spec fn entries(&self) -> Entries {
        lru_entries(self.store)
    }

    /// The largest number of entries held at once.
    pub closed spec fn capacity(&self) -> nat {
        lru_capacity(self.store)
    }

    /// The cache is within its capacity and holds each key once.
    pub open spec fn wf(&self) -> bool {
        fits(self.entries(), self.capacity())
    }

    /// An empty cache that holds up to `capacity` entries.
    pub fn new(capacity: usize) -> (cache: Cache)
        requires
            capacity > 0,
        ensures
            cache.wf(),
            cache.entries() == Seq::<(Seq<char>, Seq<char>)>::empty(),
            cache.capacity() == capacity,
    {
        Cache { store: lru_new(capacity) }
    }

    /// The value stored under `key`, if any. A key that is found becomes the
    /// most recently used one.
    pub fn get(&mut self, key: &str) -> (value: Option<String>)
        requires
            old(self).wf(),
        ensures
            final(self).wf(),
            option_text(value) == value_at(old(self).entries(), key@),
            final(self).entries() == touch(old(self).entries(), key@),
            final(self).capacity() == old(self).capacity(),
    {
        proof {
            lemma_touch_fits(self.entries(), self.capacity(), key@);
        }
        lru_get(&mut self.store, key)
    }

    /// Stores `value` under `key` as the most recently used entry. A cache
    /// that is full first drops its least recently used entry.
    pub fn put(&mut self, key: String, value: String)
        requires
            old(self).wf(),
        ensures
            final(self).wf(),
            final(self).entries() == store(
                old(self).entries(),
                old(self).capacity(),
                key@,
                value@,
            ),
            final(self).capacity() == old(self).capacity(),
    {
        proof {
            lemma_store_fits(self.entries(), self.capacity(), key@, value@);
        }
        lru_put(&mut self.store, key, value)
    }

    /// Removes `key`; nothing happens when it is not there.
    pub fn delete(&mut self, key: &str)
        requires
            old(self).wf(),
        ensures
            final(self).wf(),
            final(self).entries() == forget(old(self).entries(), key@),
            final(self).capacity() == old(self).capacity(),
    {
        proof {
            lemma_forget_fits(self.entries(), self.capacity(), key@);
        }
        lru_pop(&mut self.store, key)
    }

    /// The frame that lists every entry, the most recently used first.
    pub fn dump(&self) -> (frame: Vec<u8>)
        ensures
            frame@ == crate::parser::frame_of(crate::parser::listing_text(self.entries())),
    {
        build_lsd_response(&self.store)
    }
}

} // verus!
