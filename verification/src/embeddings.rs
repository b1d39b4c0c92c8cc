//! A bounded cache of embedding vectors with least-recently-used eviction, and
//! the text preparation that precedes embedding.

use crate::text::{
    chars_of, hex_text, join_lines, join_range, join_range_with, join_with, lines_of, push_hex,
    rows, slice_source, split_lines, split_words, str_equal, string_of, trim, trim_chars,
    words_of,
};
use std::collections::hash_map::DefaultHasher;
use std::hash::Hasher;
use vstd::arithmetic::power2::{lemma_pow2_strictly_increases, lemma_pow2_unfold, pow2};
use vstd::prelude::*;
use vstd::std_specs::hash::DefaultHasherAdditionalSpecFns;
use vstd::utf8::{decode_utf8, encode_utf8, is_char_boundary};
use vstd::wrapping::u32_specs::wrapping_add;

verus! {

/// Capacity of a cache made without a capacity of the caller's choice.
pub const DEFAULT_CAPACITY: usize = 10000;

/// One cached vector, with the time it was stored at and the hash of the
/// content it was computed from.
#[derive(Debug, Clone)]
pub struct CacheEntry<T> {
    pub embedding: T,
    pub timestamp: u64,
    pub hash: String,
}

/// What a cache holds: its keys in order of use, least recently used first, the
/// entry of each key, and the largest number of entries it may hold.
pub ghost struct CacheState<T> {
    pub recency: Seq<Seq<char>>,
    pub entries: Map<Seq<char>, CacheEntry<T>>,
    pub capacity: nat,
}

/// The first position at or after `from` that holds `key` (the length if none).
pub open spec fn position(keys: Seq<Seq<char>>, key: Seq<char>, from: int) -> int
    decreases keys.len() - from,
{
    if from < 0 || from >= keys.len() {
        keys.len() as int
    } else if keys[from] == key {
        from
    } else {
        position(keys, key, from + 1)
    }
}

/// `position` answers a place between `from` and the length; below the length
/// it holds the key, and the key is nowhere between `from` and it.
pub proof fn lemma_position(keys: Seq<Seq<char>>, key: Seq<char>, from: int)
    requires
        0 <= from <= keys.len(),
    ensures
        from <= position(keys, key, from) <= keys.len(),
        position(keys, key, from) < keys.len() ==> keys[position(keys, key, from)] == key,
        forall|i: int| from <= i < position(keys, key, from) ==> keys[i] != key,
    decreases keys.len() - from,
{
    if from < keys.len() && keys[from] != key {
        lemma_position(keys, key, from + 1);
    }
}

/// The keys after `key` was used: `key` moves to the end if it is among them.
pub open spec fn touched(keys: Seq<Seq<char>>, key: Seq<char>) -> Seq<Seq<char>> {
    let at = position(keys, key, 0);
    if at < keys.len() {
        keys.remove(at).push(key)
    } else {
        keys
    }
}

/// The invariant of a cache: no key occurs twice, the keys with an entry are
/// the keys in the order of use, and there are at most `capacity` of them.
pub open spec fn state_wf<T>(s: CacheState<T>) -> bool {
    &&& s.recency.no_duplicates()
    &&& s.entries.dom() == s.recency.to_set()
    &&& s.recency.len() <= s.capacity
}

/// The state of a new or cleared cache.
pub open spec fn empty_state<T>(capacity: nat) -> CacheState<T> {
    CacheState { recency: Seq::empty(), entries: Map::empty(), capacity }
}

/// The state after a lookup of `key`: a key that has an entry becomes the most
/// recently used; nothing else changes.
pub open spec fn after_get<T>(s: CacheState<T>, key: Seq<char>) -> CacheState<T> {
    CacheState { recency: touched(s.recency, key), entries: s.entries, capacity: s.capacity }
}

/// The state after `entry` was stored under `key`. A cache of capacity 0
/// stores nothing. A key that has an entry gets the new one and becomes the
/// most recently used. For a new key in a full cache the least recently used
/// entry leaves first. The new key is then the most recently used.
pub open spec fn after_set<T>(s: CacheState<T>, key: Seq<char>, entry: CacheEntry<T>) -> CacheState<
    T,
> {
    if s.capacity == 0 {
        s
    } else if s.entries.dom().contains(key) {
        CacheState {
            recency: touched(s.recency, key),
            entries: s.entries.insert(key, entry),
            capacity: s.capacity,
        }
    } else if s.recency.len() >= s.capacity {
        CacheState {
            recency: s.recency.remove(0).push(key),
            entries: s.entries.remove(s.recency[0]).insert(key, entry),
            capacity: s.capacity,
        }
    } else {
        CacheState {
            recency: s.recency.push(key),
            entries: s.entries.insert(key, entry),
            capacity: s.capacity,
        }
    }
}

/// Using a key keeps the keys the same, each still once, and puts it last.
pub proof fn lemma_touched(keys: Seq<Seq<char>>, key: Seq<char>)
    requires
        keys.no_duplicates(),
    ensures
        touched(keys, key).no_duplicates(),
        touched(keys, key).to_set() == keys.to_set(),
        touched(keys, key).len() == keys.len(),
        keys.contains(key) ==> touched(keys, key).last() == key,
{
    lemma_position(keys, key, 0);
    let at = position(keys, key, 0);
    if at < keys.len() {
        let rest = keys.remove(at);
        let moved = rest.push(key);
        assert forall|i: int| 0 <= i < rest.len() implies rest[i] == keys[if i < at {
            i
        } else {
            i + 1
        }] && rest[i] != key by {}
        assert forall|i: int, j: int| 0 <= i < moved.len() && 0 <= j < moved.len() && i != j implies moved[i]
            != moved[j] by {}
        assert forall|k: Seq<char>| moved.to_set().contains(k) <==> keys.to_set().contains(k) by {
            if keys.contains(k) {
                let j = choose|j: int| 0 <= j < keys.len() && keys[j] == k;
                if j == at {
                    assert(moved[rest.len() as int] == k);
                } else {
                    let i = if j < at {
                        j
                    } else {
                        j - 1
                    };
                    assert(moved[i] == k);
                }
            }
        }
    }
}

/// A lookup keeps the invariant, the entries and the number of keys.
pub proof fn lemma_after_get_wf<T>(s: CacheState<T>, key: Seq<char>)
    requires
        state_wf(s),
    ensures
        state_wf(after_get(s, key)),
        after_get(s, key).entries == s.entries,
        after_get(s, key).recency.len() == s.recency.len(),
        s.entries.dom().contains(key) ==> after_get(s, key).recency.last() == key,
{
    lemma_touched(s.recency, key);
}

/// Storing keeps the invariant. In a cache that can hold anything, the key then
/// has the new entry and is the most recently used, and at most one other key
/// has left: the least recently used one, and only if the cache was full and
/// the key was new.
pub proof fn lemma_after_set_wf<T>(s: CacheState<T>, key: Seq<char>, entry: CacheEntry<T>)
    requires
        state_wf(s),
    ensures
        state_wf(after_set(s, key, entry)),
        after_set(s, key, entry).capacity == s.capacity,
        s.capacity > 0 ==> after_set(s, key, entry).entries.dom().contains(key) && after_set(
            s,
            key,
            entry,
        ).entries[key] == entry && after_set(s, key, entry).recency.last() == key,
        forall|k: Seq<char>|
            s.entries.dom().contains(k) && !(s.recency.len() >= s.capacity && k == s.recency[0]
                && !s.entries.dom().contains(key)) ==> #[trigger] after_set(
                s,
                key,
                entry,
            ).entries.dom().contains(k),
        forall|k: Seq<char>|
            s.entries.dom().contains(k) && k != key && #[trigger] after_set(
                s,
                key,
                entry,
            ).entries.dom().contains(k) ==> after_set(s, key, entry).entries[k] == s.entries[k],
{
    let t = after_set(s, key, entry);
    if s.capacity == 0 {
    } else if s.entries.dom().contains(key) {
        lemma_touched(s.recency, key);
        assert(t.entries.dom() =~= t.recency.to_set());
    } else if s.recency.len() >= s.capacity {
        let keys = s.recency;
        let rest = keys.remove(0);
        let moved = rest.push(key);
        assert forall|i: int| 0 <= i < rest.len() implies rest[i] == keys[i + 1] && rest[i] != key
            && rest[i] != keys[0] by {}
        assert forall|i: int, j: int| 0 <= i < moved.len() && 0 <= j < moved.len() && i != j implies moved[i]
            != moved[j] by {}
        assert forall|k: Seq<char>| t.entries.dom().contains(k) <==> moved.to_set().contains(k) by {
            if keys.contains(k) && k != keys[0] {
                let j = choose|j: int| 0 <= j < keys.len() && keys[j] == k;
                assert(moved[j - 1] == k);
            }
            if k == key {
                assert(moved[rest.len() as int] == k);
            }
        }
        assert(t.entries.dom() =~= moved.to_set());
    } else {
        let keys = s.recency;
        let moved = keys.push(key);
        assert forall|i: int, j: int| 0 <= i < moved.len() && 0 <= j < moved.len() && i != j implies moved[i]
            != moved[j] by {}
        assert forall|k: Seq<char>| t.entries.dom().contains(k) <==> moved.to_set().contains(k) by {
            if keys.contains(k) {
                let j = choose|j: int| 0 <= j < keys.len() && keys[j] == k;
                assert(moved[j] == k);
            }
            if k == key {
                assert(moved[keys.len() as int] == k);
            }
        }
        assert(t.entries.dom() =~= moved.to_set());
    }
}

/// The state after storing `entries[i]` under `keys[i]` for each `i`, in order.
pub open spec fn after_sets<T>(
    s: CacheState<T>,
    keys: Seq<Seq<char>>,
    entries: Seq<CacheEntry<T>>,
) -> CacheState<T>
    decreases keys.len(),
{
    if keys.len() == 0 || entries.len() != keys.len() {
        s
    } else {
        after_set(after_sets(s, keys.drop_last(), entries.drop_last()), keys.last(), entries.last())
    }
}

/// Storing distinct keys, no more than the capacity, into an empty cache keeps
/// them all, in the order stored.
pub proof fn lemma_fill_keeps_all<T>(
    capacity: nat,
    keys: Seq<Seq<char>>,
    entries: Seq<CacheEntry<T>>,
)
    requires
        keys.no_duplicates(),
        keys.len() <= capacity,
        entries.len() == keys.len(),
    ensures
        state_wf(after_sets(empty_state::<T>(capacity), keys, entries)),
        after_sets(empty_state::<T>(capacity), keys, entries).recency == keys,
        after_sets(empty_state::<T>(capacity), keys, entries).capacity == capacity,
        forall|i: int|
            0 <= i < keys.len() ==> after_sets(
                empty_state::<T>(capacity),
                keys,
                entries,
            ).entries[#[trigger] keys[i]] == entries[i],
    decreases keys.len(),
{
    let start = empty_state::<T>(capacity);
    if keys.len() == 0 {
        assert(start.entries.dom() =~= start.recency.to_set());
    } else {
        let front = keys.drop_last();
        let front_entries = entries.drop_last();
        assert forall|i: int, j: int| 0 <= i < front.len() && 0 <= j < front.len() && i != j implies front[i]
            != front[j] by {}
        lemma_fill_keeps_all(capacity, front, front_entries);
        let mid = after_sets(start, front, front_entries);
        let end = after_set(mid, keys.last(), entries.last());
        assert(!mid.entries.dom().contains(keys.last())) by {}
        lemma_after_set_wf(mid, keys.last(), entries.last());
        assert forall|i: int| 0 <= i < keys.len() implies end.entries[#[trigger] keys[i]]
            == entries[i] by {
            if i < front.len() {
                assert(mid.entries[front[i]] == front_entries[i]);
            }
        }
    }
}

/// Storing one more distinct key than the capacity into an empty cache leaves
/// exactly `capacity` entries: the key stored first is gone, and every other
/// key is there with its entry.
pub proof fn lemma_overfill_evicts_first<T>(
    capacity: nat,
    keys: Seq<Seq<char>>,
    entries: Seq<CacheEntry<T>>,
)
    requires
        keys.no_duplicates(),
        keys.len() == capacity + 1,
        entries.len() == keys.len(),
    ensures
        state_wf(after_sets(empty_state::<T>(capacity), keys, entries)),
        after_sets(empty_state::<T>(capacity), keys, entries).recency.len() == capacity,
        !after_sets(empty_state::<T>(capacity), keys, entries).entries.dom().contains(keys[0]),
        forall|i: int|
            1 <= i < keys.len() ==> after_sets(
                empty_state::<T>(capacity),
                keys,
                entries,
            ).entries.dom().contains(#[trigger] keys[i]) && after_sets(
                empty_state::<T>(capacity),
                keys,
                entries,
            ).entries[keys[i]] == entries[i],
{
    let start = empty_state::<T>(capacity);
    let front = keys.drop_last();
    let front_entries = entries.drop_last();
    assert forall|i: int, j: int| 0 <= i < front.len() && 0 <= j < front.len() && i != j implies front[i]
        != front[j] by {}
    lemma_fill_keeps_all(capacity, front, front_entries);
    let mid = after_sets(start, front, front_entries);
    let end = after_set(mid, keys.last(), entries.last());
    assert(!mid.entries.dom().contains(keys.last())) by {}
    lemma_after_set_wf(mid, keys.last(), entries.last());
    if capacity > 0 {
        assert(!end.recency.contains(keys[0])) by {}
        assert forall|i: int| 1 <= i < keys.len() implies end.entries.dom().contains(
            #[trigger] keys[i],
        ) && end.entries[keys[i]] == entries[i] by {
            if i < front.len() {
                assert(mid.entries[front[i]] == front_entries[i]);
            }
        }
    }
}

/// A key with its entry.
struct Slot<T> {
    key: String,
    entry: CacheEntry<T>,
}

/// A cache from keys to entries that holds at most `capacity` entries and
/// evicts the least recently used one to make room.
pub struct EmbeddingCache<T> {
    /// The entries, least recently used first.
    slots: Vec<Slot<T>>,
    max_size: usize,
}

/// The keys of a sequence of slots.
spec fn slot_keys<T>(slots: Seq<Slot<T>>) -> Seq<Seq<char>> {
    Seq::new(slots.len(), |i: int| slots[i].key@)
}

/// The entries of a sequence of slots, by key.
spec fn slot_entries<T>(slots: Seq<Slot<T>>) -> Map<Seq<char>, CacheEntry<T>> {
    Map::new(
        |k: Seq<char>| slot_keys(slots).contains(k),
        |k: Seq<char>| slots[position(slot_keys(slots), k, 0)].entry,
    )
}

/// Where no key occurs twice, each slot's key is mapped to that slot's entry.
proof fn lemma_slot_entries<T>(slots: Seq<Slot<T>>, i: int)
    requires
        slot_keys(slots).no_duplicates(),
        0 <= i < slots.len(),
    ensures
        slot_entries(slots).dom().contains(slots[i].key@),
        slot_entries(slots)[slots[i].key@] == slots[i].entry,
        position(slot_keys(slots), slots[i].key@, 0) == i,
{
    let keys = slot_keys(slots);
    assert(keys[i] == slots[i].key@);
    lemma_position(keys, slots[i].key@, 0);
}

/// The keys with an entry are the keys of the slots.
proof fn lemma_slot_domain<T>(slots: Seq<Slot<T>>)
    ensures
        slot_entries(slots).dom() == slot_keys(slots).to_set(),
{
}

/// Appending a slot with a new key appends the key and adds its entry.
proof fn lemma_push_slot<T>(slots: Seq<Slot<T>>, slot: Slot<T>)
    requires
        slot_keys(slots).no_duplicates(),
        !slot_keys(slots).contains(slot.key@),
    ensures
        slot_keys(slots.push(slot)) == slot_keys(slots).push(slot.key@),
        slot_keys(slots.push(slot)).no_duplicates(),
        slot_entries(slots.push(slot)) == slot_entries(slots).insert(slot.key@, slot.entry),
{
    let keys = slot_keys(slots);
    let more = slots.push(slot);
    let keys2 = slot_keys(more);
    assert forall|i: int, j: int| 0 <= i < keys2.len() && 0 <= j < keys2.len() && i != j implies keys2[i]
        != keys2[j] by {
        if i < keys.len() {
            assert(keys[i] == keys2[i]);
        }
        if j < keys.len() {
            assert(keys[j] == keys2[j]);
        }
    }
    let want = slot_entries(slots).insert(slot.key@, slot.entry);
    assert forall|k: Seq<char>| slot_entries(more).dom().contains(k) <==> want.dom().contains(k) by {
        if keys2.contains(k) {
            let i = choose|i: int| 0 <= i < keys2.len() && keys2[i] == k;
            if i < keys.len() {
                assert(keys[i] == k);
            }
        }
        if keys.contains(k) {
            let i = choose|i: int| 0 <= i < keys.len() && keys[i] == k;
            assert(keys2[i] == k);
        }
        if k == slot.key@ {
            assert(keys2[keys.len() as int] == k);
        }
    }
    assert forall|k: Seq<char>| slot_entries(more).dom().contains(k) implies slot_entries(more)[k]
        == want[k] by {
        let i = choose|i: int| 0 <= i < keys2.len() && keys2[i] == k;
        lemma_slot_entries(more, i);
        if i < keys.len() {
            lemma_slot_entries(slots, i);
        }
    }
}

/// Removing a slot removes its key and its entry.
proof fn lemma_remove_slot<T>(slots: Seq<Slot<T>>, at: int)
    requires
        slot_keys(slots).no_duplicates(),
        0 <= at < slots.len(),
    ensures
        slot_keys(slots.remove(at)) == slot_keys(slots).remove(at),
        slot_keys(slots.remove(at)).no_duplicates(),
        !slot_keys(slots.remove(at)).contains(slots[at].key@),
        slot_entries(slots.remove(at)) == slot_entries(slots).remove(slots[at].key@),
{
    let keys = slot_keys(slots);
    let fewer = slots.remove(at);
    let keys2 = slot_keys(fewer);
    let gone = slots[at].key@;
    assert(keys[at] == gone);
    assert(keys2 =~= keys.remove(at));
    assert forall|i: int| 0 <= i < keys2.len() implies keys2[i] == keys[if i < at {
        i
    } else {
        i + 1
    }] && keys2[i] != gone by {}
    assert forall|i: int, j: int| 0 <= i < keys2.len() && 0 <= j < keys2.len() && i != j implies keys2[i]
        != keys2[j] by {}
    let want = slot_entries(slots).remove(gone);
    assert forall|k: Seq<char>| slot_entries(fewer).dom().contains(k) <==> want.dom().contains(k) by {
        if keys.contains(k) && k != gone {
            let j = choose|j: int| 0 <= j < keys.len() && keys[j] == k;
            let i = if j < at {
                j
            } else {
                j - 1
            };
            assert(keys2[i] == k);
        }
    }
    assert forall|k: Seq<char>| slot_entries(fewer).dom().contains(k) implies slot_entries(fewer)[k]
        == want[k] by {
        let i = choose|i: int| 0 <= i < keys2.len() && keys2[i] == k;
        let j = if i < at {
            i
        } else {
            i + 1
        };
        lemma_slot_entries(fewer, i);
        lemma_slot_entries(slots, j);
    }
}

impl<T> View for EmbeddingCache<T> {
    type V = CacheState<T>;

    closed spec fn view(&self) -> CacheState<T> {
        CacheState {
            recency: slot_keys(self.slots@),
            entries: slot_entries(self.slots@),
            capacity: self.max_size as nat,
        }
    }
}

impl<T> EmbeddingCache<T> {
    /// Whether the cache's invariant holds.
    pub open spec fn wf(&self) -> bool {
        state_wf(self@)
    }

    /// An empty cache with the given capacity.
    pub fn new(max_size: usize) -> (cache: Self)
        ensures
            cache.wf(),
            cache@ == empty_state::<T>(max_size as nat),
    {
        let cache = EmbeddingCache { slots: Vec::new(), max_size };
        assert(cache@.recency =~= Seq::<Seq<char>>::empty());
        assert(cache@.entries =~= Map::<Seq<char>, CacheEntry<T>>::empty());
        cache
    }

    /// The number of entries.
    pub fn len(&self) -> (n: usize)
        ensures
            n == self@.recency.len(),
    {
        self.slots.len()
    }

    /// The capacity the cache was made with.
    pub fn max_size(&self) -> (n: usize)
        ensures
            n == self@.capacity,
    {
        self.max_size
    }

    /// Removes every entry.
    pub fn clear(&mut self)
        ensures
            final(self).wf(),
            final(self)@ == empty_state::<T>(old(self)@.capacity),
    {
        self.slots.clear();
        assert(self@.recency =~= Seq::<Seq<char>>::empty());
        assert(self@.entries =~= Map::<Seq<char>, CacheEntry<T>>::empty());
    }

    /// Finds the slot that holds `key`.
    fn find(&self, key: &str) -> (at: usize)
        ensures
            at == position(self@.recency, key@, 0),
            at <= self.slots@.len(),
            at < self.slots@.len() <==> self@.recency.contains(key@),
            at < self.slots@.len() ==> self@.recency[at as int] == key@,
    {
        let mut i: usize = 0;
        while i < self.slots.len() && !str_equal(self.slots[i].key.as_str(), key)
            invariant
                i <= self.slots@.len(),
                position(self@.recency, key@, i as int) == position(self@.recency, key@, 0),
            decreases self.slots@.len() - i,
        {
            i += 1;
        }
        proof {
            lemma_position(self@.recency, key@, 0);
        }
        i
    }

    /// Whether `key` has an entry. The order of use stays as it is.
    pub fn contains_key(&self, key: &str) -> (found: bool)
        requires
            self.wf(),
        ensures
            found == self@.entries.dom().contains(key@),
    {
        let at = self.find(key);
        at < self.slots.len()
    }

    /// Looks up `key`. A key that has an entry becomes the most recently used.
    pub fn get(&mut self, key: &str) -> (found: Option<&T>)
        requires
            old(self).wf(),
        ensures
            final(self).wf(),
            final(self)@ == after_get(old(self)@, key@),
            match found {
                Some(vector) => old(self)@.entries.dom().contains(key@) && *vector
                    == old(self)@.entries[key@].embedding,
                None => !old(self)@.entries.dom().contains(key@),
            },
    {
        let at = self.find(key);
        if at >= self.slots.len() {
            return None;
        }
        proof {
            lemma_slot_entries(self.slots@, at as int);
            lemma_remove_slot(self.slots@, at as int);
        }
        let slot = self.slots.remove(at);
        proof {
            lemma_push_slot(self.slots@, slot);
            lemma_slot_domain(self.slots@.push(slot));
        }
        self.slots.push(slot);
        assert(self@.entries =~= old(self)@.entries);
        let last: usize = self.slots.len() - 1;
        Some(&self.slots[last].entry.embedding)
    }

    /// Stores `entry` under `key` and makes `key` the most recently used. A
    /// full cache first evicts its least recently used entry, unless `key`
    /// already has one. A cache of capacity 0 stores nothing.
    pub fn set(&mut self, key: String, entry: CacheEntry<T>)
        requires
            old(self).wf(),
        ensures
            final(self).wf(),
            final(self)@ == after_set(old(self)@, key@, entry),
    {
        if self.max_size == 0 {
            return ;
        }
        let at = self.find(key.as_str());
        if at < self.slots.len() {
            proof {
                lemma_slot_entries(self.slots@, at as int);
                lemma_remove_slot(self.slots@, at as int);
            }
            let _ = self.slots.remove(at);
        } else if self.slots.len() >= self.max_size {
            proof {
                lemma_slot_entries(self.slots@, 0);
                lemma_remove_slot(self.slots@, 0);
            }
            let _ = self.slots.remove(0);
        }
        let slot = Slot { key, entry };
        proof {
            lemma_push_slot(self.slots@, slot);
            lemma_slot_domain(self.slots@.push(slot));
        }
        self.slots.push(slot);
        proof {
            let want = after_set(old(self)@, key@, entry);
            assert(self@.entries =~= want.entries);
        }
    }
}

/// Number of tokens a text is cut to where the caller names none.
pub const DEFAULT_MAX_TOKENS: u32 = 8192;

/// Bytes allowed per token.
pub const BYTES_PER_TOKEN: u64 = 4;

/// The lines that are not blank, each trimmed, in order.
pub open spec fn kept_lines(lines: Seq<Seq<char>>) -> Seq<Seq<char>>
    decreases lines.len(),
{
    if lines.len() == 0 {
        Seq::empty()
    } else if trim(lines.last()).len() == 0 {
        kept_lines(lines.drop_last())
    } else {
        kept_lines(lines.drop_last()).push(trim(lines.last()))
    }
}

/// The last place at or before `at` that falls between two characters.
pub open spec fn floor_boundary(bytes: Seq<u8>, at: int) -> int
    decreases at,
{
    if at <= 0 {
        0
    } else if is_char_boundary(bytes, at) {
        at
    } else {
        floor_boundary(bytes, at - 1)
    }
}

/// `text` cut to at most `max_bytes` bytes of its UTF-8 encoding, and no
/// character cut in two.
pub open spec fn truncated(text: Seq<char>, max_bytes: int) -> Seq<char> {
    let bytes = encode_utf8(text);
    if bytes.len() > max_bytes {
        decode_utf8(bytes.subrange(0, floor_boundary(bytes, max_bytes)))
    } else {
        text
    }
}

/// A text made ready for embedding: its lines trimmed, blank lines dropped, the
/// rest joined by line feeds, and the whole cut to four bytes per token.
pub open spec fn preprocessed(text: Seq<char>, max_tokens: int) -> Seq<char> {
    truncated(join_lines(kept_lines(lines_of(text))), max_tokens * BYTES_PER_TOKEN)
}

/// Makes a text ready for embedding. Without `max_tokens` the text is cut to 8192 tokens.
pub fn preprocess_text(text: String, max_tokens: Option<u32>) -> (out: String)
    ensures
        out@ == preprocessed(
            text@,
            match max_tokens {
                Some(n) => n as int,
                None => DEFAULT_MAX_TOKENS as int,
            },
        ),
{
    let limit: u32 = match max_tokens {
        Some(n) => n,
        None => DEFAULT_MAX_TOKENS,
    };
    let all = chars_of(text.as_str());
    let lines = split_lines(all.as_slice());
    let mut kept: Vec<Vec<char>> = Vec::new();
    let mut i: usize = 0;
    while i < lines.len()
        invariant
            i <= lines@.len(),
            rows(kept@) == kept_lines(rows(lines@).take(i as int)),
        decreases lines@.len() - i,
    {
        let trimmed = trim_chars(lines[i].as_slice());
        proof {
            let next = rows(lines@).take(i + 1);
            assert(next.drop_last() =~= rows(lines@).take(i as int));
        }
        if trimmed.len() > 0 {
            let line = vstd::slice::slice_to_vec(trimmed);
            kept.push(line);
        }
        i += 1;
    }
    assert(rows(lines@).take(i as int) =~= rows(lines@));
    assert(rows(kept@).subrange(0, kept@.len() as int) =~= rows(kept@));
    let joined = join_range(&kept, 0, kept.len());
    let normalized = string_of(joined.as_slice());
    let size: usize = normalized.as_str().as_bytes().len();
    let max_bytes: u64 = limit as u64 * BYTES_PER_TOKEN;
    if size as u64 <= max_bytes {
        return normalized;
    }
    let ghost bytes = encode_utf8(normalized@);
    let mut cut: usize = max_bytes as usize;
    while cut > 0 && !normalized.as_str().is_char_boundary(cut)
        invariant
            cut <= max_bytes < size,
            size == bytes.len(),
            bytes == encode_utf8(normalized@),
            floor_boundary(bytes, cut as int) == floor_boundary(bytes, max_bytes as int),
        decreases cut,
    {
        cut -= 1;
    }
    proof {
        vstd::utf8::encode_utf8_valid_utf8(normalized@);
    }
    match slice_source(normalized.as_str(), 0, cut) {
        Some(head) => head.to_string(),
        None => normalized,
    }
}

/// The text of a 64-bit hash: sixteen hexadecimal digits in lower case.
pub open spec fn hash_code_text(code: u64) -> Seq<char> {
    hex_text(code as nat, 16)
}

/// The cache key of a content: the hash that the standard library's default
/// hasher gives its UTF-8 bytes followed by one byte `0xff`, as sixteen
/// hexadecimal digits.
pub open spec fn content_hash_text(content: Seq<char>) -> Seq<char> {
    hash_code_text(DefaultHasher::spec_finish(seq![encode_utf8(content), seq![0xffu8]]))
}

/// Computes the cache key of a content.
pub fn compute_content_hash(content: String) -> (key: String)
    ensures
        key@ == content_hash_text(content@),
{
    let mut hasher = DefaultHasher::new();
    hasher.write(content.as_str().as_bytes());
    let end: [u8; 1] = [0xff];
    hasher.write(end.as_slice());
    let code: u64 = hasher.finish();
    let mut digits: Vec<char> = Vec::new();
    push_hex(&mut digits, code, 16);
    proof {
        assert(end@ =~= seq![0xffu8]);
        assert(hasher@ =~= seq![encode_utf8(content@), seq![0xffu8]]);
    }
    string_of(digits.as_slice())
}

/// Words per chunk where the caller names no number.
pub const DEFAULT_CHUNK_WORDS: u32 = 512;

/// Words shared by neighbouring chunks where the caller names no number.
pub const DEFAULT_OVERLAP_WORDS: u32 = 50;

/// A run of words cut from a text for embedding.
#[derive(Debug, Clone)]
pub struct TextChunk {
    pub text: String,
    pub start_offset: u32,
    pub end_offset: u32,
    pub overlap_prev: u32,
}

/// What a `TextChunk` holds, as plain values.
pub ghost struct TextChunkView {
    pub text: Seq<char>,
    pub start_offset: u32,
    pub end_offset: u32,
    pub overlap_prev: u32,
}

impl View for TextChunk {
    type V = TextChunkView;

    open spec fn view(&self) -> TextChunkView {
        TextChunkView {
            text: self.text@,
            start_offset: self.start_offset,
            end_offset: self.end_offset,
            overlap_prev: self.overlap_prev,
        }
    }
}

/// The views of a sequence of text chunks.
pub open spec fn text_chunk_views(v: Seq<TextChunk>) -> Seq<TextChunkView> {
    Seq::new(v.len(), |i: int| v[i]@)
}

/// The offset of word `upto` in the text that the words make when each is
/// followed by one byte: the UTF-8 lengths of the words before it, plus one
/// for each, counted in 32 bits and wrapping beyond.
pub open spec fn offset_of(words: Seq<Seq<char>>, upto: int) -> u32
    decreases upto,
{
    if upto <= 0 || upto > words.len() {
        0
    } else {
        wrapping_add(
            offset_of(words, upto - 1),
            wrapping_add(encode_utf8(words[upto - 1]).len() as u32, 1),
        )
    }
}

/// Where the chunk that starts at word `from` ends (exclusive).
pub open spec fn chunk_words_end(words: Seq<Seq<char>>, from: int, size: int) -> int {
    if from + size >= words.len() {
        words.len() as int
    } else {
        from + size
    }
}

/// The chunk of up to `size` words that starts at word `from`.
pub open spec fn text_chunk_at(words: Seq<Seq<char>>, from: int, size: int, overlap: u32) -> TextChunkView {
    let end = chunk_words_end(words, from, size);
    TextChunkView {
        text: join_with(words.subrange(from, end), ' '),
        start_offset: offset_of(words, from),
        end_offset: offset_of(words, end),
        overlap_prev: if from > 0 {
            overlap
        } else {
            0
        },
    }
}

/// The chunks cut from word `from` on: each holds up to `size` words, and the
/// next starts `size - overlap` words after it, until one reaches the last word.
pub open spec fn text_chunks_from(words: Seq<Seq<char>>, from: int, size: int, overlap: u32) -> Seq<
    TextChunkView,
>
    decreases words.len() - from,
{
    if from < 0 || from >= words.len() {
        Seq::empty()
    } else if chunk_words_end(words, from, size) >= words.len() || size <= overlap {
        seq![text_chunk_at(words, from, size, overlap)]
    } else {
        seq![text_chunk_at(words, from, size, overlap)] + text_chunks_from(
            words,
            from + size - overlap,
            size,
            overlap,
        )
    }
}

/// The number of words per chunk that the caller's choice stands for.
pub open spec fn chunk_words(chunk_size: Option<u32>) -> u32 {
    match chunk_size {
        Some(n) => n,
        None => DEFAULT_CHUNK_WORDS,
    }
}

/// The number of shared words that the caller's choice stands for.
pub open spec fn overlap_words(overlap: Option<u32>) -> u32 {
    match overlap {
        Some(n) => n,
        None => DEFAULT_OVERLAP_WORDS,
    }
}

/// Cuts a text into chunks of `chunk_size` words (512 if not given) of which
/// neighbours share `overlap` words (50 if not given). A text of more words
/// than one chunk holds needs an overlap smaller than the chunk.
pub fn chunk_for_embedding(text: String, chunk_size: Option<u32>, overlap: Option<u32>) -> (chunks:
    Vec<TextChunk>)
    requires
        words_of(text@).len() <= chunk_words(chunk_size) || overlap_words(overlap) < chunk_words(
            chunk_size,
        ),
    ensures
        text_chunk_views(chunks@) == text_chunks_from(
            words_of(text@),
            0,
            chunk_words(chunk_size) as int,
            overlap_words(overlap),
        ),
{
    let size: u32 = match chunk_size {
        Some(n) => n,
        None => DEFAULT_CHUNK_WORDS,
    };
    let shared: u32 = match overlap {
        Some(n) => n,
        None => DEFAULT_OVERLAP_WORDS,
    };
    let all = chars_of(text.as_str());
    let words = split_words(all.as_slice());
    let n: usize = words.len();
    let ghost w = rows(words@);
    // the offset of each word, and of the end of the last
    let mut offsets: Vec<u32> = Vec::new();
    offsets.push(0);
    let mut j: usize = 0;
    while j < n
        invariant
            j <= n,
            n == words@.len(),
            w == rows(words@),
            offsets@.len() == j + 1,
            forall|k: int| 0 <= k <= j ==> offsets@[k] == offset_of(w, k),
        decreases n - j,
    {
        let word = string_of(words[j].as_slice());
        let bytes: usize = word.as_str().as_bytes().len();
        let step: u32 = (#[verifier::truncate] (bytes as u32)).wrapping_add(1);
        let next: u32 = offsets[j].wrapping_add(step);
        assert(offsets@[j as int] == offset_of(w, j as int));
        offsets.push(next);
        j += 1;
    }
    let mut chunks: Vec<TextChunk> = Vec::new();
    let mut i: usize = 0;
    let ghost mut done: Seq<TextChunkView> = Seq::empty();
    while i < n
        invariant
            i <= n,
            n == words@.len(),
            w == rows(words@),
            w == words_of(text@),
            n <= size || shared < size,
            offsets@.len() == n + 1,
            forall|k: int| 0 <= k <= n ==> offsets@[k] == offset_of(w, k),
            text_chunk_views(chunks@) == done,
            done + text_chunks_from(w, i as int, size as int, shared) == text_chunks_from(
                w,
                0,
                size as int,
                shared,
            ),
        decreases n - i,
    {
        let end: usize = if size as usize >= n - i {
            n
        } else {
            i + size as usize
        };
        let body = join_range_with(&words, i, end, ' ');
        let chunk = TextChunk {
            text: string_of(body.as_slice()),
            start_offset: offsets[i],
            end_offset: offsets[end],
            overlap_prev: if i > 0 {
                shared
            } else {
                0
            },
        };
        proof {
            done = done.push(chunk@);
        }
        chunks.push(chunk);
        if end >= n {
            i = n;
        } else {
            i = i + (size - shared) as usize;
        }
    }
    chunks
}

/// Bits per component where the caller names no number.
pub const DEFAULT_QUANT_BITS: u32 = 8;

/// Most bits per component that a quantized value can have.
pub const MAX_QUANT_BITS: u32 = 31;

/// The smallest and the largest value of a component quantized to `bits` bits:
/// `-2^(bits-1)` and `2^(bits-1) - 1`.
pub fn quantization_range(bits: u32) -> (range: (i32, i32))
    requires
        1 <= bits <= MAX_QUANT_BITS,
    ensures
        range.0 == -pow2((bits - 1) as nat),
        range.1 == pow2((bits - 1) as nat) - 1,
{
    let mut half: i32 = 1;
    let mut k: u32 = 0;
    proof {
        vstd::arithmetic::power2::lemma2_to64();
    }
    while k < bits - 1
        invariant
            k <= bits - 1 <= 30,
            half == pow2(k as nat),
            pow2(30) == 0x40000000,
        decreases bits - 1 - k,
    {
        proof {
            lemma_pow2_unfold((k + 1) as nat);
            if k + 1 < 30 {
                lemma_pow2_strictly_increases((k + 1) as nat, 30);
            }
        }
        half = half * 2;
        k += 1;
    }
    (-half, half - 1)
}

} // verus!
