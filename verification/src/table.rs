//! A table of time-stamped entries under string keys, in which no key
//! occurs twice.

use vstd::prelude::*;

verus! {

/// One entry of a table.
pub struct Slot<V> {
    pub key: String,
    pub value: V,
    pub stamp: u64,
}

/// An entry stamped at `stamp` has expired at `now` once its age has reached
/// `ttl`. A clock that reads earlier than the stamp gives the age zero.
pub open spec fn expired(stamp: u64, now: u64, ttl: u64) -> bool {
    now >= stamp && now - stamp >= ttl
}

/// Tells whether an entry stamped at `stamp` has expired at `now`.
pub fn is_expired(stamp: u64, now: u64, ttl: u64) -> (r: bool)
    ensures
        r == expired(stamp, now, ttl),
{
    now >= stamp && now - stamp >= ttl
}

/// Some slot of `s` has the key `k`.
pub open spec fn has_key<V>(s: Seq<Slot<V>>, k: Seq<char>) -> bool {
    exists|j: int| 0 <= j < s.len() && (#[trigger] s[j]).key@ == k
}

/// The index of a slot of `s` with the key `k`.
pub open spec fn index_of<V>(s: Seq<Slot<V>>, k: Seq<char>) -> int {
    choose|j: int| 0 <= j < s.len() && (#[trigger] s[j]).key@ == k
}

/// No two slots of `s` have the same key.
pub open spec fn distinct_keys<V>(s: Seq<Slot<V>>) -> bool {
    forall|i: int, j: int|
        0 <= i < j < s.len() ==> (#[trigger] s[i]).key@ != (#[trigger] s[j]).key@
}

/// The slots as a map from key to value and stamp.
pub open spec fn slots_map<V: View>(s: Seq<Slot<V>>) -> Map<Seq<char>, (V::V, u64)> {
    Map::new(
        |k: Seq<char>| has_key(s, k),
        |k: Seq<char>| (s[index_of(s, k)].value@, s[index_of(s, k)].stamp),
    )
}

/// The entries of `m` that have not expired at `now`.
pub open spec fn live<V>(m: Map<Seq<char>, (V, u64)>, now: u64, ttl: u64) -> Map<
    Seq<char>,
    (V, u64),
> {
    Map::new(
        |k: Seq<char>| m.contains_key(k) && !expired(m[k].1, now, ttl),
        |k: Seq<char>| m[k],
    )
}

/// What has expired at one time has expired at every later time: removing
/// the expired entries at `now`, and then again at `later`, leaves what
/// removing them at `later` alone leaves.
pub proof fn lemma_live_twice<V>(m: Map<Seq<char>, (V, u64)>, now: u64, later: u64, ttl: u64)
    requires
        now <= later,
    ensures
        live(live(m, now, ttl), later, ttl) == live(m, later, ttl),
{
    assert(live(live(m, now, ttl), later, ttl) =~= live(m, later, ttl));
}

/// With distinct keys, the map holds each slot under its key.
pub proof fn lemma_slot_in_map<V: View>(s: Seq<Slot<V>>, j: int)
    requires
        distinct_keys(s),
        0 <= j < s.len(),
    ensures
        slots_map(s).contains_key(s[j].key@),
        slots_map(s)[s[j].key@] == (s[j].value@, s[j].stamp),
        index_of(s, s[j].key@) == j,
{
    let k = s[j].key@;
    assert(has_key(s, k));
    let c = index_of(s, k);
    assert(0 <= c < s.len() && s[c].key@ == k);
    if c < j {
        assert(s[c].key@ != s[j].key@);
    }
    if j < c {
        assert(s[j].key@ != s[c].key@);
    }
}

/// Appending a slot with a new key keeps the keys distinct and inserts
/// the slot into the map.
pub proof fn lemma_push_map<V: View>(s: Seq<Slot<V>>, slot: Slot<V>)
    requires
        distinct_keys(s),
        !has_key(s, slot.key@),
    ensures
        distinct_keys(s.push(slot)),
        slots_map(s.push(slot)) == slots_map(s).insert(slot.key@, (slot.value@, slot.stamp)),
{
    let t = s.push(slot);
    assert(distinct_keys(t)) by {
        assert forall|i: int, j: int| 0 <= i < j < t.len() implies (#[trigger] t[i]).key@ != (
        #[trigger] t[j]).key@ by {
            if j == s.len() {
                assert(t[i] == s[i]);
                if s[i].key@ == slot.key@ {
                    assert(has_key(s, slot.key@));
                }
            } else {
                assert(t[i] == s[i] && t[j] == s[j]);
            }
        }
    }
    let a = slots_map(t);
    let b = slots_map(s).insert(slot.key@, (slot.value@, slot.stamp));
    assert forall|k: Seq<char>| a.contains_key(k) == b.contains_key(k) by {
        if has_key(t, k) {
            let j = index_of(t, k);
            if j < s.len() {
                assert(s[j] == t[j]);
                assert(has_key(s, k));
            }
        }
        if has_key(s, k) {
            let j = index_of(s, k);
            assert(t[j] == s[j]);
            assert(has_key(t, k));
        }
        if k == slot.key@ {
            assert(t[s.len() as int].key@ == k);
            assert(has_key(t, k));
        }
    }
    assert forall|k: Seq<char>| a.contains_key(k) implies a[k] == b[k] by {
        let j = index_of(t, k);
        lemma_slot_in_map(t, j);
        if j < s.len() {
            assert(t[j] == s[j]);
            lemma_slot_in_map(s, j);
        }
    }
    assert(a =~= b);
}

/// Removing a slot keeps the keys distinct and removes its key from the
/// map.
pub proof fn lemma_remove_map<V: View>(s: Seq<Slot<V>>, i: int)
    requires
        distinct_keys(s),
        0 <= i < s.len(),
    ensures
        distinct_keys(s.remove(i)),
        slots_map(s.remove(i)) == slots_map(s).remove(s[i].key@),
        !has_key(s.remove(i), s[i].key@),
{
    let t = s.remove(i);
    let gone = s[i].key@;
    assert forall|j: int| 0 <= j < t.len() implies #[trigger] t[j] == s[if j < i {
        j
    } else {
        j + 1
    }] by {}
    assert(distinct_keys(t)) by {
        assert forall|a: int, b: int| 0 <= a < b < t.len() implies (#[trigger] t[a]).key@ != (
        #[trigger] t[b]).key@ by {
            let a2 = if a < i {
                a
            } else {
                a + 1
            };
            let b2 = if b < i {
                b
            } else {
                b + 1
            };
            assert(t[a] == s[a2] && t[b] == s[b2]);
            assert(s[a2].key@ != s[b2].key@);
        }
    }
    assert(!has_key(t, gone)) by {
        if has_key(t, gone) {
            let j = index_of(t, gone);
            let j2 = if j < i {
                j
            } else {
                j + 1
            };
            assert(t[j] == s[j2]);
            if j2 < i {
                assert(s[j2].key@ != s[i].key@);
            } else {
                assert(s[i].key@ != s[j2].key@);
            }
        }
    }
    let a = slots_map(t);
    let b = slots_map(s).remove(gone);
    assert forall|k: Seq<char>| a.contains_key(k) == b.contains_key(k) by {
        if has_key(t, k) {
            let j = index_of(t, k);
            let j2 = if j < i {
                j
            } else {
                j + 1
            };
            assert(t[j] == s[j2]);
            assert(has_key(s, k));
        }
        if has_key(s, k) && k != gone {
            let j = index_of(s, k);
            let j2 = if j < i {
                j
            } else {
                j - 1
            };
            assert(t[j2] == s[j]);
            assert(has_key(t, k));
        }
    }
    assert forall|k: Seq<char>| a.contains_key(k) implies a[k] == b[k] by {
        let j = index_of(t, k);
        let j2 = if j < i {
            j
        } else {
            j + 1
        };
        assert(t[j] == s[j2]);
        lemma_slot_in_map(t, j);
        lemma_slot_in_map(s, j2);
    }
    assert(a =~= b);
}

/// A table of entries under string keys, each stamped with the time it was
/// put there.
pub struct TimedTable<V> {
    slots: Vec<Slot<V>>,
}

impl<V: View> TimedTable<V> {
    /// The table's entries: value and stamp under each key.
    pub closed spec fn entries(&self) -> Map<Seq<char>, (V::V, u64)> {
        slots_map(self.slots@)
    }

    /// The table's invariant: no key occurs twice.
    pub closed spec fn wf(&self) -> bool {
        distinct_keys(self.slots@)
    }

    /// An empty table.
    pub fn new() -> (t: Self)
        ensures
            t.wf(),
            t.entries() == Map::<Seq<char>, (V::V, u64)>::empty(),
    {
        let t = TimedTable { slots: Vec::new() };
        proof {
            assert(t.entries() =~= Map::<Seq<char>, (V::V, u64)>::empty());
        }
        t
    }

    /// Where the key stands among the slots, if it does.
    fn position(&self, key: &String) -> (r: Option<usize>)
        requires
            self.wf(),
        ensures
            match r {
                Some(i) => i < self.slots@.len() && self.slots@[i as int].key@ == key@,
                None => !has_key(self.slots@, key@),
            },
    {
        let mut i: usize = 0;
        while i < self.slots.len()
            invariant
                i <= self.slots@.len(),
                forall|j: int| 0 <= j < i ==> (#[trigger] self.slots@[j]).key@ != key@,
            decreases self.slots@.len() - i,
        {
            if self.slots[i].key == *key {
                return Some(i);
            }
            i = i + 1;
        }
        None
    }

    /// Tells whether the table has an entry under `key`.
    pub fn contains(&self, key: &String) -> (r: bool)
        requires
            self.wf(),
        ensures
            r == self.entries().contains_key(key@),
    {
        self.position(key).is_some()
    }

    /// The stamp of the entry under `key`, if there is one.
    pub fn stamp_of(&self, key: &String) -> (r: Option<u64>)
        requires
            self.wf(),
        ensures
            match r {
                Some(stamp) => self.entries().contains_key(key@) && self.entries()[key@].1
                    == stamp,
                None => !self.entries().contains_key(key@),
            },
    {
        match self.position(key) {
            Some(i) => {
                proof {
                    lemma_slot_in_map(self.slots@, i as int);
                }
                Some(self.slots[i].stamp)
            },
            None => None,
        }
    }

    /// The value of the entry under `key`, if there is one.
    pub fn get(&self, key: &String) -> (r: Option<&V>)
        requires
            self.wf(),
        ensures
            match r {
                Some(value) => self.entries().contains_key(key@) && self.entries()[key@].0
                    == value@,
                None => !self.entries().contains_key(key@),
            },
    {
        match self.position(key) {
            Some(i) => {
                proof {
                    lemma_slot_in_map(self.slots@, i as int);
                }
                Some(&self.slots[i].value)
            },
            None => None,
        }
    }

    /// Removes the entry under `key` and returns its value and stamp; does
    /// nothing where there is none.
    pub fn take(&mut self, key: &String) -> (r: Option<(V, u64)>)
        requires
            old(self).wf(),
        ensures
            final(self).wf(),
            match r {
                Some(e) => old(self).entries().contains_key(key@)
                    && (e.0@, e.1) == old(self).entries()[key@]
                    && final(self).entries() == old(self).entries().remove(key@),
                None => !old(self).entries().contains_key(key@)
                    && final(self).entries() == old(self).entries(),
            },
    {
        match self.position(key) {
            Some(i) => {
                proof {
                    lemma_slot_in_map(self.slots@, i as int);
                    lemma_remove_map(self.slots@, i as int);
                }
                let slot = self.slots.remove(i);
                Some((slot.value, slot.stamp))
            },
            None => None,
        }
    }

    /// Puts `value` under `key`, stamped `now`, in place of any entry that
    /// was there.
    pub fn put(&mut self, key: String, value: V, now: u64)
        requires
            old(self).wf(),
        ensures
            final(self).wf(),
            final(self).entries() == old(self).entries().insert(key@, (value@, now)),
    {
        let _ = self.take(&key);
        let slot = Slot { key, value, stamp: now };
        proof {
            assert(!self.entries().contains_key(slot.key@));
            assert(!has_key(self.slots@, slot.key@));
            lemma_push_map(self.slots@, slot);
            assert(old(self).entries().remove(slot.key@).insert(slot.key@, (value@, now))
                =~= old(self).entries().insert(slot.key@, (value@, now)));
        }
        self.slots.push(slot);
    }

    /// Removes every entry that has expired at `now`.
    pub fn sweep(&mut self, now: u64, ttl: u64)
        requires
            old(self).wf(),
        ensures
            final(self).wf(),
            final(self).entries() == live(old(self).entries(), now, ttl),
    {
        let mut i: usize = 0;
        while i < self.slots.len()
            invariant
                self.wf(),
                i <= self.slots@.len(),
                forall|j: int| 0 <= j < i ==> !expired((#[trigger] self.slots@[j]).stamp, now, ttl),
                live(self.entries(), now, ttl) == live(old(self).entries(), now, ttl),
            decreases self.slots@.len() - i,
        {
            if is_expired(self.slots[i].stamp, now, ttl) {
                proof {
                    lemma_slot_in_map(self.slots@, i as int);
                    lemma_remove_map(self.slots@, i as int);
                    let k = self.slots@[i as int].key@;
                    assert(live(self.entries().remove(k), now, ttl) =~= live(
                        self.entries(),
                        now,
                        ttl,
                    ));
                }
                let _ = self.slots.remove(i);
            } else {
                i = i + 1;
            }
        }
        proof {
            let m = self.entries();
            assert forall|k: Seq<char>| m.contains_key(k) implies !expired(m[k].1, now, ttl) by {
                let j = index_of(self.slots@, k);
                lemma_slot_in_map(self.slots@, j);
            }
            assert(live(m, now, ttl) =~= m);
        }
    }

    /// Removes every entry.
    pub fn clear(&mut self)
        ensures
            final(self).wf(),
            final(self).entries() == Map::<Seq<char>, (V::V, u64)>::empty(),
    {
        self.slots.clear();
        proof {
            assert(self.entries() =~= Map::<Seq<char>, (V::V, u64)>::empty());
        }
    }

    /// How many entries the table has.
    pub fn len(&self) -> (n: usize)
        requires
            self.wf(),
        ensures
            n == self.entries().dom().len(),
            self.entries().dom().finite(),
    {
        proof {
            lemma_map_size(self.slots@);
        }
        self.slots.len()
    }
}

/// With distinct keys, the map has as many entries as there are slots.
pub proof fn lemma_map_size<V: View>(s: Seq<Slot<V>>)
    requires
        distinct_keys(s),
    ensures
        slots_map(s).dom().finite(),
        slots_map(s).dom().len() == s.len(),
    decreases s.len(),
{
    if s.len() == 0 {
        assert(slots_map(s).dom() =~= Set::<Seq<char>>::empty());
    } else {
        let h = s.drop_last();
        let last = s.last();
        assert(distinct_keys(h)) by {
            assert forall|i: int, j: int| 0 <= i < j < h.len() implies (#[trigger] h[i]).key@ != (
            #[trigger] h[j]).key@ by {
                assert(h[i] == s[i] && h[j] == s[j]);
            }
        }
        assert(!has_key(h, last.key@)) by {
            if has_key(h, last.key@) {
                let j = index_of(h, last.key@);
                assert(h[j] == s[j]);
                assert(s[j].key@ != s[s.len() - 1].key@);
            }
        }
        lemma_map_size(h);
        lemma_push_map(h, last);
        assert(h.push(last) =~= s);
        assert(slots_map(s).dom() =~= slots_map(h).dom().insert(last.key@));
        assert(!slots_map(h).dom().contains(last.key@));
    }
}

} // verus!
