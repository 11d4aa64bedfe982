//! The keyed store with expiry. A key has at most one entry; an entry
//! whose deadline has passed counts as absent and is removed by the next
//! `get` of its key or the next `keys`.
//!
//! Time is a count of milliseconds on a monotonic clock, handed in by the
//! caller. The store is described by a map from key to entry; the functions
//! below say what each operation does to that map.

use crate::reply::texts_of;
use crate::text::str_eq;
use vstd::prelude::*;

verus! {

/// What the store holds for a key: the value and, if the entry expires, the
/// time from which it counts as absent.
pub struct StoreEntry {
    pub value: Seq<char>,
    pub expires_at: Option<nat>,
}

/// The entry has no deadline, or its deadline lies after `now`.
pub open spec fn is_live(e: StoreEntry, now: nat) -> bool {
    match e.expires_at {
        None => true,
        Some(deadline) => now < deadline,
    }
}

/// The deadline of an entry set at `now` with the time to live `ttl_ms`.
pub open spec fn deadline(ttl_ms: Option<u64>, now: nat) -> Option<nat> {
    match ttl_ms {
        None => None,
        Some(ttl) => Some(now + ttl as nat),
    }
}

/// The store after `set`: the key holds the new value and the new deadline,
/// or none; nothing of an earlier entry of the key is left.
pub open spec fn after_set(
    m: Map<Seq<char>, StoreEntry>,
    key: Seq<char>,
    value: Seq<char>,
    ttl_ms: Option<u64>,
    now: nat,
) -> Map<Seq<char>, StoreEntry> {
    m.insert(key, StoreEntry { value, expires_at: deadline(ttl_ms, now) })
}

/// What `get` returns: the value of a live entry, `None` for a key that is
/// absent or expired.
pub open spec fn lookup(m: Map<Seq<char>, StoreEntry>, key: Seq<char>, now: nat) -> Option<
    Seq<char>,
> {
    if m.contains_key(key) && is_live(m[key], now) {
        Some(m[key].value)
    } else {
        None
    }
}

/// The store after `get`: an expired entry of the key is gone, all else is
/// as before.
pub open spec fn after_get(m: Map<Seq<char>, StoreEntry>, key: Seq<char>, now: nat) -> Map<
    Seq<char>,
    StoreEntry,
> {
    if m.contains_key(key) && !is_live(m[key], now) {
        m.remove(key)
    } else {
        m
    }
}

/// The keys that `keys` reports: those whose entry is live.
pub open spec fn live_keys(m: Map<Seq<char>, StoreEntry>, now: nat) -> Set<Seq<char>> {
    Set::new(|k: Seq<char>| m.contains_key(k) && is_live(m[k], now))
}

/// The store after `keys`: the live entries and no others.
pub open spec fn after_keys(m: Map<Seq<char>, StoreEntry>, now: nat) -> Map<
    Seq<char>,
    StoreEntry,
> {
    m.restrict(live_keys(m, now))
}

/// The store after the pairs of `pairs` were set in order, none with a
/// deadline.
pub open spec fn after_load(m: Map<Seq<char>, StoreEntry>, pairs: Seq<(Seq<char>, Seq<char>)>) -> Map<
    Seq<char>,
    StoreEntry,
>
    decreases pairs.len(),
{
    if pairs.len() == 0 {
        m
    } else {
        after_load(m, pairs.drop_last()).insert(
            pairs.last().0,
            StoreEntry { value: pairs.last().1, expires_at: None },
        )
    }
}

/// The texts of a list of pairs of strings.
pub open spec fn pairs_of(items: Seq<(String, String)>) -> Seq<(Seq<char>, Seq<char>)> {
    Seq::new(items.len(), |i: int| (items[i].0@, items[i].1@))
}

struct Slot {
    key: String,
    value: String,
    expires_at: Option<u128>,
}

spec fn key_at(s: Seq<Slot>, i: int) -> Seq<char> {
    s[i].key@
}

spec fn entry_of(slot: Slot) -> StoreEntry {
    StoreEntry {
        value: slot.value@,
        expires_at: match slot.expires_at {
            None => None,
            Some(d) => Some(d as nat),
        },
    }
}

spec fn distinct(s: Seq<Slot>) -> bool {
    forall|i: int, j: int| 0 <= i < j < s.len() ==> key_at(s, i) != key_at(s, j)
}

spec fn holds(s: Seq<Slot>, k: Seq<char>) -> bool {
    exists|i: int| 0 <= i < s.len() && key_at(s, i) == k
}

spec fn place(s: Seq<Slot>, k: Seq<char>) -> int {
    choose|i: int| 0 <= i < s.len() && key_at(s, i) == k
}

spec fn contents(s: Seq<Slot>) -> Map<Seq<char>, StoreEntry> {
    Map::new(|k: Seq<char>| holds(s, k), |k: Seq<char>| entry_of(s[place(s, k)]))
}

proof fn lemma_contents_at(s: Seq<Slot>, i: int)
    requires
        distinct(s),
        0 <= i < s.len(),
    ensures
        contents(s).contains_key(key_at(s, i)),
        contents(s)[key_at(s, i)] == entry_of(s[i]),
{
    let k = key_at(s, i);
    assert(holds(s, k));
    let p = place(s, k);
    assert(0 <= p < s.len() && key_at(s, p) == k);
    assert(p == i);
}

proof fn lemma_contents_push(s: Seq<Slot>, slot: Slot)
    requires
        distinct(s),
        !holds(s, slot.key@),
    ensures
        distinct(s.push(slot)),
        contents(s.push(slot)) == contents(s).insert(slot.key@, entry_of(slot)),
{
    let t = s.push(slot);
    assert forall|i: int, j: int| 0 <= i < j < t.len() implies key_at(t, i) != key_at(t, j) by {
        if j == s.len() {
            assert(key_at(s, i) == key_at(t, i));
        } else {
            assert(key_at(s, i) == key_at(t, i) && key_at(s, j) == key_at(t, j));
        }
    }
    assert forall|k: Seq<char>| holds(t, k) <==> (holds(s, k) || k == slot.key@) by {
        if holds(s, k) {
            let i = place(s, k);
            assert(key_at(t, i) == k);
        }
        if k == slot.key@ {
            assert(key_at(t, s.len() as int) == k);
        }
        if holds(t, k) {
            let i = place(t, k);
            if i < s.len() {
                assert(key_at(s, i) == k);
            }
        }
    }
    assert forall|k: Seq<char>| holds(t, k) implies #[trigger] contents(t)[k] == contents(
        s,
    ).insert(slot.key@, entry_of(slot))[k] by {
        let i = place(t, k);
        lemma_contents_at(t, i);
        if i < s.len() {
            assert(key_at(s, i) == k);
            lemma_contents_at(s, i);
        }
    }
    assert(contents(t) =~= contents(s).insert(slot.key@, entry_of(slot)));
}

proof fn lemma_contents_update(s: Seq<Slot>, i: int, slot: Slot)
    requires
        distinct(s),
        0 <= i < s.len(),
        slot.key@ == key_at(s, i),
    ensures
        distinct(s.update(i, slot)),
        contents(s.update(i, slot)) == contents(s).insert(slot.key@, entry_of(slot)),
{
    let t = s.update(i, slot);
    assert forall|a: int| 0 <= a < s.len() implies key_at(t, a) == key_at(s, a) by {}
    assert forall|a: int, b: int| 0 <= a < b < t.len() implies key_at(t, a) != key_at(t, b) by {
        assert(key_at(t, a) == key_at(s, a) && key_at(t, b) == key_at(s, b));
    }
    assert forall|k: Seq<char>| holds(t, k) <==> holds(s, k) by {
        if holds(s, k) {
            let a = place(s, k);
            assert(key_at(t, a) == k);
        }
        if holds(t, k) {
            let a = place(t, k);
            assert(key_at(s, a) == k);
        }
    }
    assert(holds(s, slot.key@));
    assert forall|k: Seq<char>| holds(t, k) implies #[trigger] contents(t)[k] == contents(
        s,
    ).insert(slot.key@, entry_of(slot))[k] by {
        let a = place(t, k);
        lemma_contents_at(t, a);
        assert(key_at(s, a) == k);
        lemma_contents_at(s, a);
    }
    assert(contents(t) =~= contents(s).insert(slot.key@, entry_of(slot)));
}

proof fn lemma_contents_remove(s: Seq<Slot>, i: int)
    requires
        distinct(s),
        0 <= i < s.len(),
    ensures
        distinct(s.remove(i)),
        contents(s.remove(i)) == contents(s).remove(key_at(s, i)),
{
    let t = s.remove(i);
    let gone = key_at(s, i);
    assert forall|a: int| 0 <= a < t.len() implies key_at(t, a) == key_at(
        s,
        if a < i {
            a
        } else {
            a + 1
        },
    ) by {}
    assert forall|a: int, b: int| 0 <= a < b < t.len() implies key_at(t, a) != key_at(t, b) by {
        let a2 = if a < i {
            a
        } else {
            a + 1
        };
        let b2 = if b < i {
            b
        } else {
            b + 1
        };
        assert(key_at(t, a) == key_at(s, a2) && key_at(t, b) == key_at(s, b2));
    }
    assert forall|k: Seq<char>| holds(t, k) <==> (holds(s, k) && k != gone) by {
        if holds(s, k) && k != gone {
            let a = place(s, k);
            let a2 = if a < i {
                a
            } else {
                a - 1
            };
            assert(key_at(t, a2) == k);
        }
        if holds(t, k) {
            let a = place(t, k);
            let a2 = if a < i {
                a
            } else {
                a + 1
            };
            assert(key_at(s, a2) == k);
        }
    }
    assert forall|k: Seq<char>| holds(t, k) implies #[trigger] contents(t)[k] == contents(
        s,
    ).remove(gone)[k] by {
        let a = place(t, k);
        let a2 = if a < i {
            a
        } else {
            a + 1
        };
        lemma_contents_at(t, a);
        assert(key_at(s, a2) == k);
        lemma_contents_at(s, a2);
    }
    assert(contents(t) =~= contents(s).remove(gone));
}

/// The index of the slot that holds `key`, if there is one.
fn find(slots: &Vec<Slot>, key: &str) -> (r: Option<usize>)
    ensures
        match r {
            Some(i) => i < slots@.len() && key_at(slots@, i as int) == key@,
            None => !holds(slots@, key@),
        },
{
    let mut i: usize = 0;
    while i < slots.len()
        invariant
            0 <= i <= slots@.len(),
            forall|j: int| 0 <= j < i ==> key_at(slots@, j) != key@,
        decreases slots@.len() - i,
    {
        if str_eq(slots[i].key.as_str(), key) {
            return Some(i);
        }
        i = i + 1;
    }
    None
}

/// The expiring key-value store.
pub struct Store {
    slots: Vec<Slot>,
}

impl View for Store {
    type V = Map<Seq<char>, StoreEntry>;

    closed spec fn view(&self) -> Map<Seq<char>, StoreEntry> {
        contents(self.slots@)
    }
}

impl Store {
    #[verifier::type_invariant]
    spec fn well_formed(self) -> bool {
        distinct(self.slots@)
    }

    /// A store that holds nothing.
    pub fn new() -> (s: Store)
        ensures
            s@ == Map::<Seq<char>, StoreEntry>::empty(),
    {
        let s = Store { slots: Vec::new() };
        proof {
            assert(s@ =~= Map::<Seq<char>, StoreEntry>::empty());
        }
        s
    }

    /// Binds `key` to `value`, whatever the key held before. With a time
    /// to live the entry expires `ttl_ms` milliseconds after `now`; without
    /// one it never does.
    pub fn set(&mut self, key: String, value: String, ttl_ms: Option<u64>, now: u64)
        ensures
            final(self)@ == after_set(old(self)@, key@, value@, ttl_ms, now as nat),
    {
        proof {
            use_type_invariant(&*self);
        }
        let expires_at: Option<u128> = match ttl_ms {
            None => None,
            Some(ttl) => Some(now as u128 + ttl as u128),
        };
        let mut slots: Vec<Slot> = Vec::new();
        std::mem::swap(&mut slots, &mut self.slots);
        let found = find(&slots, key.as_str());
        let slot = Slot { key, value, expires_at };
        match found {
            Some(i) => {
                proof {
                    lemma_contents_update(slots@, i as int, slot);
                }
                slots.set(i, slot);
            },
            None => {
                proof {
                    lemma_contents_push(slots@, slot);
                }
                slots.push(slot);
            },
        }
        self.slots = slots;
    }

    /// The value of `key`, if the key has a live entry at `now`. An entry
    /// that has expired is removed.
    pub fn get(&mut self, key: &str, now: u64) -> (r: Option<String>)
        ensures
            match lookup(old(self)@, key@, now as nat) {
                Some(value) => r matches Some(out) && out@ == value,
                None => r is None,
            },
            final(self)@ == after_get(old(self)@, key@, now as nat),
    {
        proof {
            use_type_invariant(&*self);
        }
        let mut slots: Vec<Slot> = Vec::new();
        std::mem::swap(&mut slots, &mut self.slots);
        let found = find(&slots, key);
        let r: Option<String> = match found {
            None => None,
            Some(i) => {
                proof {
                    lemma_contents_at(slots@, i as int);
                }
                let expired: bool = match slots[i].expires_at {
                    None => false,
                    Some(d) => now as u128 >= d,
                };
                if expired {
                    proof {
                        lemma_contents_remove(slots@, i as int);
                    }
                    let _gone = slots.remove(i);
                    None
                } else {
                    Some(slots[i].value.clone())
                }
            },
        };
        self.slots = slots;
        r
    }

    /// The keys whose entry is live at `now`, each once. Entries that have
    /// expired are removed.
    pub fn keys(&mut self, now: u64) -> (r: Vec<String>)
        ensures
            final(self)@ == after_keys(old(self)@, now as nat),
            texts_of(r@).no_duplicates(),
            forall|k: Seq<char>| texts_of(r@).contains(k) <==> live_keys(old(self)@, now as nat).contains(k),
    {
        proof {
            use_type_invariant(&*self);
        }
        let mut slots: Vec<Slot> = Vec::new();
        std::mem::swap(&mut slots, &mut self.slots);
        let ghost before = contents(slots@);
        let mut out: Vec<String> = Vec::new();
        let mut i: usize = 0;
        while i < slots.len()
            invariant
                distinct(slots@),
                0 <= i <= slots@.len(),
                out@.len() == i,
                forall|j: int| 0 <= j < i ==> #[trigger] out@[j]@ == key_at(slots@, j),
                forall|j: int| 0 <= j < i ==> is_live(entry_of(#[trigger] slots@[j]), now as nat),
                after_keys(contents(slots@), now as nat) == after_keys(before, now as nat),
            decreases slots@.len() - i,
        {
            let expired: bool = match slots[i].expires_at {
                None => false,
                Some(d) => now as u128 >= d,
            };
            if expired {
                proof {
                    lemma_contents_at(slots@, i as int);
                    lemma_contents_remove(slots@, i as int);
                    let m = contents(slots@);
                    let gone = key_at(slots@, i as int);
                    assert(live_keys(m.remove(gone), now as nat) =~= live_keys(m, now as nat));
                    assert(after_keys(m.remove(gone), now as nat) =~= after_keys(m, now as nat));
                    assert forall|j: int| 0 <= j < i implies key_at(slots@.remove(i as int), j)
                        == key_at(slots@, j) by {}
                }
                let _gone = slots.remove(i);
            } else {
                out.push(slots[i].key.clone());
                i = i + 1;
            }
        }
        proof {
            let m = contents(slots@);
            assert forall|k: Seq<char>| m.contains_key(k) implies is_live(m[k], now as nat) by {
                let j = place(slots@, k);
                lemma_contents_at(slots@, j);
            }
            assert(live_keys(m, now as nat) =~= m.dom());
            assert(after_keys(m, now as nat) =~= m);
            let names = texts_of(out@);
            assert forall|a: int, b: int| 0 <= a < names.len() && 0 <= b < names.len() && a
                != b implies names[a] != names[b] by {
                assert(names[a] == key_at(slots@, a) && names[b] == key_at(slots@, b));
            }
            assert forall|k: Seq<char>| names.contains(k) <==> live_keys(
                before,
                now as nat,
            ).contains(k) by {
                if names.contains(k) {
                    let a = choose|a: int| 0 <= a < names.len() && names[a] == k;
                    assert(key_at(slots@, a) == k);
                    lemma_contents_at(slots@, a);
                    assert(after_keys(before, now as nat).contains_key(k));
                }
                if live_keys(before, now as nat).contains(k) {
                    assert(after_keys(before, now as nat).contains_key(k));
                    assert(m.contains_key(k));
                    let a = place(slots@, k);
                    assert(names[a] == k);
                }
            }
        }
        self.slots = slots;
        out
    }

    /// Sets each pair of `pairs` in order, none with a deadline.
    pub fn load(&mut self, pairs: Vec<(String, String)>)
        ensures
            final(self)@ == after_load(old(self)@, pairs_of(pairs@)),
    {
        let ghost all = pairs_of(pairs@);
        let ghost start = self@;
        let mut i: usize = 0;
        proof {
            assert(all.take(0) =~= Seq::<(Seq<char>, Seq<char>)>::empty());
        }
        while i < pairs.len()
            invariant
                all == pairs_of(pairs@),
                0 <= i <= pairs@.len(),
                self@ == after_load(start, all.take(i as int)),
            decreases pairs@.len() - i,
        {
            proof {
                let next = all.take(i + 1);
                assert(next.drop_last() =~= all.take(i as int));
                assert(next.last() == all[i as int]);
            }
            let key: String = pairs[i].0.clone();
            let value: String = pairs[i].1.clone();
            self.set(key, value, None, 0);
            i = i + 1;
        }
        proof {
            assert(all.take(i as int) =~= all);
        }
    }
}

/// A value that was set without a time to live is found at any later time,
/// whatever the key held before.
pub proof fn lemma_set_then_get(
    m: Map<Seq<char>, StoreEntry>,
    key: Seq<char>,
    value: Seq<char>,
    now: nat,
    later: nat,
)
    ensures
        lookup(after_set(m, key, value, None, now), key, later) == Some(value),
        after_get(after_set(m, key, value, None, now), key, later) == after_set(
            m,
            key,
            value,
            None,
            now,
        ),
{
}

/// A value that was set with a time to live is found before its deadline.
/// From the deadline on it is not found, `get` removes it, and `keys` does
/// not report it.
pub proof fn lemma_expiry(
    m: Map<Seq<char>, StoreEntry>,
    key: Seq<char>,
    value: Seq<char>,
    ttl_ms: u64,
    now: nat,
    later: nat,
)
    ensures
        later < now + ttl_ms ==> lookup(after_set(m, key, value, Some(ttl_ms), now), key, later)
            == Some(value),
        later >= now + ttl_ms ==> lookup(after_set(m, key, value, Some(ttl_ms), now), key, later)
            is None,
        later >= now + ttl_ms ==> !after_get(
            after_set(m, key, value, Some(ttl_ms), now),
            key,
            later,
        ).contains_key(key),
        later >= now + ttl_ms ==> !live_keys(
            after_set(m, key, value, Some(ttl_ms), now),
            later,
        ).contains(key),
        later >= now + ttl_ms ==> !after_keys(
            after_get(after_set(m, key, value, Some(ttl_ms), now), key, later),
            later,
        ).contains_key(key),
{
}

/// A `set` without a time to live replaces value and deadline together:
/// the time to live of an earlier `set` of the key does not carry over.
pub proof fn lemma_overwrite_clears_deadline(
    m: Map<Seq<char>, StoreEntry>,
    key: Seq<char>,
    first: Seq<char>,
    ttl_ms: Option<u64>,
    second: Seq<char>,
    t1: nat,
    t2: nat,
    later: nat,
)
    ensures
        ({
            let twice = after_set(after_set(m, key, first, ttl_ms, t1), key, second, None, t2);
            &&& twice == after_set(m, key, second, None, t2)
            &&& twice[key].expires_at is None
            &&& lookup(twice, key, later) == Some(second)
        }),
{
    let twice = after_set(after_set(m, key, first, ttl_ms, t1), key, second, None, t2);
    assert(twice =~= after_set(m, key, second, None, t2));
}

/// `keys` and `get` agree: a key is reported exactly if `get` finds it, and
/// after `keys` every key that is left is found.
pub proof fn lemma_keys_agree_with_get(m: Map<Seq<char>, StoreEntry>, key: Seq<char>, now: nat)
    ensures
        live_keys(m, now).contains(key) <==> lookup(m, key, now) is Some,
        after_keys(m, now).contains_key(key) <==> lookup(m, key, now) is Some,
        lookup(after_keys(m, now), key, now) == lookup(m, key, now),
{
}

} // verus!
