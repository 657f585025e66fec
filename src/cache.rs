//! A cache of shared sink handles keyed by routing key, under one of two
//! eviction policies: an idle timeout, or a bound on the number of entries
//! with least-recently-used eviction.
use vstd::prelude::*;
use std::sync::Arc;

verus! {

/// Relies on `Arc::clone`: a new handle to the same allocation.
#[verifier::external_body]
fn share<V>(h: &Arc<V>) -> (r: Arc<V>)
    ensures
        r == *h,
{
    Arc::clone(h)
}

/// How a cache decides which entries to drop.
#[derive(Clone, Copy, Debug, PartialEq, Eq, Structural)]
pub enum Policy {
    /// Drop an entry once it has gone unused for `ttl` time units.
    IdleTimeout { ttl: u64 },
    /// Keep at most `capacity` entries, dropping the least recently used.
    BoundedLru { capacity: usize },
}

/// An entry as the contracts see it: routing key, handle, time of last use.
pub type Item<V> = (Seq<char>, Arc<V>, u64);

/// Whether an entry last used at `used` has been idle for the whole of `ttl` at `now`.
pub open spec fn expired(used: u64, now: u64, ttl: u64) -> bool {
    used as int + ttl as int <= now as int
}

/// How many entries at the front of `s` have expired in a row.
pub open spec fn expired_prefix<V>(s: Seq<Item<V>>, now: u64, ttl: u64) -> nat
    decreases s.len(),
{
    if s.len() > 0 && expired(s[0].2, now, ttl) {
        1 + expired_prefix(s.drop_first(), now, ttl)
    } else {
        0
    }
}

/// What is left of `s` once the policy has dropped what it drops before a lookup.
pub open spec fn purged<V>(s: Seq<Item<V>>, policy: Policy, now: u64) -> Seq<Item<V>> {
    match policy {
        Policy::IdleTimeout { ttl } => s.skip(expired_prefix(s, now, ttl) as int),
        Policy::BoundedLru { .. } => s,
    }
}

/// Whether `s` holds an entry for `k`.
pub open spec fn has_key<V>(s: Seq<Item<V>>, k: Seq<char>) -> bool {
    exists|i: int| 0 <= i < s.len() && #[trigger] s[i].0 == k
}

/// The position of the entry for `k`, where there is one.
pub open spec fn position_of<V>(s: Seq<Item<V>>, k: Seq<char>) -> int {
    choose|i: int| 0 <= i < s.len() && #[trigger] s[i].0 == k
}

/// `s` with its entry at `i` moved to the back and marked as used at `now`.
pub open spec fn touched<V>(s: Seq<Item<V>>, i: int, now: u64) -> Seq<Item<V>> {
    s.remove(i).push((s[i].0, s[i].1, now))
}

/// `s` without its entry for `k`, if it has one.
pub open spec fn without_key<V>(s: Seq<Item<V>>, k: Seq<char>) -> Seq<Item<V>> {
    if has_key(s, k) {
        s.remove(position_of(s, k))
    } else {
        s
    }
}

/// What a policy keeps of `s` after an insertion.
pub open spec fn trimmed<V>(s: Seq<Item<V>>, policy: Policy) -> Seq<Item<V>> {
    match policy {
        Policy::BoundedLru { capacity } => if s.len() > capacity {
            s.skip(s.len() - capacity)
        } else {
            s
        },
        Policy::IdleTimeout { .. } => s,
    }
}

/// `s` after `v` has been stored for `k` with last use `time`.
pub open spec fn inserted<V>(s: Seq<Item<V>>, policy: Policy, k: Seq<char>, v: Arc<V>, time: u64) -> Seq<
    Item<V>,
> {
    trimmed(without_key(s, k).push((k, v, time)), policy)
}

/// Last-use times do not decrease from the front to the back.
pub open spec fn times_ordered<V>(s: Seq<Item<V>>) -> bool {
    forall|i: int, j: int| 0 <= i <= j < s.len() ==> s[i].2 <= s[j].2
}

/// No entry was used after `now`.
pub open spec fn used_by<V>(s: Seq<Item<V>>, now: u64) -> bool {
    forall|i: int| 0 <= i < s.len() ==> s[i].2 <= now
}

/// Each key stands at most once.
pub open spec fn unique_keys<V>(s: Seq<Item<V>>) -> bool {
    forall|i: int, j: int| 0 <= i < s.len() && 0 <= j < s.len() && i != j ==> s[i].0 != s[j].0
}

struct Slot<V> {
    key: String,
    handle: Arc<V>,
    used: u64,
}

spec fn slot_items<V>(s: Seq<Slot<V>>) -> Seq<Item<V>> {
    s.map_values(|e: Slot<V>| (e.key@, e.handle, e.used))
}

/// A cache of shared handles, oldest use first.
pub struct Cache<V> {
    slots: Vec<Slot<V>>,
    policy: Policy,
}

/// The result of looking a key up.
pub enum Entry<V> {
    /// The key is present.
    Occupied(OccupiedEntry<V>),
    /// The key is absent.
    Vacant(VacantEntry),
}

/// A key found in the cache, with its handle.
pub struct OccupiedEntry<V> {
    handle: Arc<V>,
}

/// A key absent from the cache, and the time of the lookup.
pub struct VacantEntry {
    key: String,
    time: u64,
}

impl<V> OccupiedEntry<V> {
    pub closed spec fn value(&self) -> Arc<V> {
        self.handle
    }

    /// The handle of the entry.
    pub fn into_value(self) -> (r: Arc<V>)
        ensures
            r == self.value(),
    {
        self.handle
    }
}

impl VacantEntry {
    pub closed spec fn key(&self) -> Seq<char> {
        self.key@
    }

    pub closed spec fn time(&self) -> u64 {
        self.time
    }
}

impl<V> Cache<V> {
    /// The entries, least recently used first.
    pub closed spec fn items(&self) -> Seq<Item<V>> {
        slot_items(self.slots@)
    }

    pub closed spec fn policy(&self) -> Policy {
        self.policy
    }

    /// Keys are unique, and entries stand in the order of their last use.
    pub open spec fn wf(&self) -> bool {
        &&& unique_keys(self.items())
        &&& times_ordered(self.items())
    }

    /// An empty cache under `policy`.
    pub fn new(policy: Policy) -> (r: Cache<V>)
        ensures
            r.wf(),
            r.items() == Seq::<Item<V>>::empty(),
            r.policy() == policy,
    {
        let r = Cache { slots: Vec::new(), policy };
        assert(r.items() =~= Seq::<Item<V>>::empty());
        r
    }

    /// The number of entries.
    pub fn len(&self) -> (r: usize)
        ensures
            r == self.items().len(),
    {
        self.slots.len()
    }

    /// The latest time at which an entry was used, or 0 for an empty cache.
    pub fn latest_use(&self) -> (r: u64)
        requires
            self.wf(),
        ensures
            used_by(self.items(), r),
            self.items().len() == 0 ==> r == 0,
    {
        if self.slots.len() == 0 {
            0
        } else {
            let r = self.slots[self.slots.len() - 1].used;
            assert(self.items()[self.items().len() - 1].2 == r);
            r
        }
    }

    /// Drops the entries at the front that have been idle for the whole timeout.
    fn purge(&mut self, now: u64, ttl: u64)
        requires
            old(self).wf(),
        ensures
            final(self).wf(),
            final(self).policy == old(self).policy,
            final(self).items() == old(self).items().skip(
                expired_prefix(old(self).items(), now, ttl) as int,
            ),
    {
        let ghost s = self.items();
        let ghost mut k: int = 0;
        assert(s.skip(0) =~= s);
        loop
            invariant
                self.policy == old(self).policy,
                s == old(self).items(),
                0 <= k <= s.len(),
                self.items() == s.skip(k),
                expired_prefix(s, now, ttl) == k + expired_prefix(s.skip(k), now, ttl),
                unique_keys(s),
                times_ordered(s),
            ensures
                self.policy == old(self).policy,
                0 <= k <= s.len(),
                self.items() == s.skip(k),
                expired_prefix(s, now, ttl) == k,
            decreases self.slots.len(),
        {
            if self.slots.len() == 0 {
                assert(expired_prefix(s.skip(k), now, ttl) == 0);
                break;
            }
            let used = self.slots[0].used;
            assert(self.items()[0].2 == used);
            if !(used <= now && now - used >= ttl) {
                assert(expired_prefix(s.skip(k), now, ttl) == 0);
                break;
            }
            let ghost before = self.slots@;
            self.slots.remove(0);
            proof {
                assert(slot_items(self.slots@) =~= slot_items(before).drop_first());
                assert(s.skip(k).drop_first() =~= s.skip(k + 1));
                k = k + 1;
            }
        }
        proof {
            assert(unique_keys(self.items())) by {
                assert forall|i: int, j: int|
                    0 <= i < self.items().len() && 0 <= j < self.items().len() && i != j
                    implies self.items()[i].0 != self.items()[j].0 by {
                    assert(self.items()[i] == s[i + k]);
                    assert(self.items()[j] == s[j + k]);
                }
            }
            assert(times_ordered(self.items())) by {
                assert forall|i: int, j: int| 0 <= i <= j < self.items().len()
                    implies self.items()[i].2 <= self.items()[j].2 by {
                    assert(self.items()[i] == s[i + k]);
                    assert(self.items()[j] == s[j + k]);
                }
            }
        }
    }

    fn find(&self, key: &String) -> (r: Option<usize>)
        ensures
            match r {
                Some(i) => i < self.slots.len() && self.items()[i as int].0 == key@,
                None => !has_key(self.items(), key@),
            },
    {
        let mut i: usize = 0;
        while i < self.slots.len()
            invariant
                i <= self.slots.len(),
                forall|j: int| 0 <= j < i ==> self.items()[j].0 != key@,
            decreases self.slots.len() - i,
        {
            if self.slots[i].key == *key {
                return Some(i);
            }
            i = i + 1;
        }
        None
    }

    /// Looks `key` up at time `now`.
    ///
    /// Under an idle timeout, the entries at the front that have been idle for
    /// the whole timeout are dropped first. A hit moves the entry to the back
    /// and marks it as used at `now`.
    pub fn entry(&mut self, key: String, now: u64) -> (r: Entry<V>)
        requires
            old(self).wf(),
            used_by(old(self).items(), now),
        ensures
            final(self).wf(),
            used_by(final(self).items(), now),
            final(self).policy() == old(self).policy(),
            ({
                let p = purged(old(self).items(), old(self).policy(), now);
                if has_key(p, key@) {
                    let i = position_of(p, key@);
                    &&& r is Occupied
                    &&& r->Occupied_0.value() == p[i].1
                    &&& final(self).items() == touched(p, i, now)
                } else {
                    &&& r is Vacant
                    &&& r->Vacant_0.key() == key@
                    &&& r->Vacant_0.time() == now
                    &&& final(self).items() == p
                }
            }),
    {
        let ghost s0 = self.items();
        if let Policy::IdleTimeout { ttl } = self.policy {
            self.purge(now, ttl);
        }
        let ghost p = self.items();
        proof {
            if let Policy::IdleTimeout { ttl } = self.policy {
                let k = expired_prefix(s0, now, ttl) as int;
                lemma_expired_prefix(s0, now, ttl);
                assert forall|a: int| 0 <= a < p.len() implies p[a].2 <= now by {
                    assert(p[a] == s0[a + k]);
                }
            }
        }
        match self.find(&key) {
            Some(i) => {
                proof {
                    assert(p[i as int].0 == key@);
                    assert(has_key(p, key@));
                    let j = position_of(p, key@);
                    assert(j == i as int);
                }
                let mut slot = self.slots.remove(i);
                slot.used = now;
                let handle = share(&slot.handle);
                let ghost before = self.slots@;
                self.slots.push(slot);
                proof {
                    assert(self.items() =~= touched(p, i as int, now));
                    assert forall|a: int, b: int|
                        0 <= a < self.items().len() && 0 <= b < self.items().len() && a != b
                        implies self.items()[a].0 != self.items()[b].0 by {
                        let n = p.len() - 1;
                        let oa = if a == n { i as int } else if a < i { a } else { a + 1 };
                        let ob = if b == n { i as int } else if b < i { b } else { b + 1 };
                        assert(self.items()[a].0 == p[oa].0);
                        assert(self.items()[b].0 == p[ob].0);
                    }
                    let n = p.len() - 1;
                    assert forall|a: int, b: int| 0 <= a <= b < self.items().len()
                        implies self.items()[a].2 <= self.items()[b].2 by {
                        let oa = if a < i { a } else { a + 1 };
                        let ob = if b < i { b } else { b + 1 };
                        if b < n {
                            assert(self.items()[a] == p[oa]);
                            assert(self.items()[b] == p[ob]);
                        } else if a < n {
                            assert(self.items()[a] == p[oa]);
                        }
                    }
                    assert forall|a: int| 0 <= a < self.items().len() implies self.items()[a].2 <= now by {
                        let oa = if a < i { a } else { a + 1 };
                        if a < n {
                            assert(self.items()[a] == p[oa]);
                        }
                    }
                }
                Entry::Occupied(OccupiedEntry { handle })
            },
            None => Entry::Vacant(VacantEntry { key, time: now }),
        }
    }
}

impl<V> Entry<V> {
    /// The handle of the entry, building the sink with `f` and storing it
    /// where the key is absent.
    pub fn or_insert_with<F: FnOnce() -> V>(self, cache: &mut Cache<V>, f: F) -> (r: Arc<V>)
        requires
            old(cache).wf(),
            self is Vacant ==> f.requires(()),
            self is Vacant ==> used_by(old(cache).items(), self->Vacant_0.time()),
        ensures
            final(cache).wf(),
            final(cache).policy() == old(cache).policy(),
            match self {
                Entry::Occupied(e) => r == e.value() && final(cache).items() == old(cache).items(),
                Entry::Vacant(e) => exists|v: V| #[trigger] f.ensures((), v) && r == v
                    && final(cache).items() == inserted(
                        old(cache).items(),
                        old(cache).policy(),
                        e.key(),
                        r,
                        e.time(),
                    ),
            },
    {
        match self {
            Entry::Occupied(e) => e.into_value(),
            Entry::Vacant(e) => {
                let v = f();
                e.insert(cache, v)
            },
        }
    }
}

impl VacantEntry {
    /// Stores `value` for this key, with the lookup's time as its last use,
    /// and returns a handle to it. A bounded cache then drops its least
    /// recently used entries down to its capacity.
    pub fn insert<V>(self, cache: &mut Cache<V>, value: V) -> (r: Arc<V>)
        requires
            old(cache).wf(),
            used_by(old(cache).items(), self.time()),
        ensures
            final(cache).wf(),
            final(cache).policy() == old(cache).policy(),
            r == value,
            final(cache).items() == inserted(
                old(cache).items(),
                old(cache).policy(),
                self.key(),
                r,
                self.time(),
            ),
    {
        let ghost s = cache.items();
        let handle = Arc::new(value);
        match cache.find(&self.key) {
            Some(i) => {
                proof {
                    assert(has_key(s, self.key@));
                    let j = position_of(s, self.key@);
                    assert(j == i as int);
                }
                let ghost before = cache.slots@;
                cache.slots.remove(i);
                proof {
                    assert(cache.items() =~= s.remove(i as int));
                }
            },
            None => {},
        }
        let ghost w = cache.items();
        assert(w == without_key(s, self.key@));
        assert forall|a: int, b: int| 0 <= a < w.len() && 0 <= b < w.len() && a != b
            implies w[a].0 != w[b].0 && w[a].0 != self.key@ by {
            if has_key(s, self.key@) {
                let i = position_of(s, self.key@);
                let oa = if a < i { a } else { a + 1 };
                let ob = if b < i { b } else { b + 1 };
                assert(w[a] == s[oa]);
                assert(w[b] == s[ob]);
            } else {
                assert(w[a] == s[a]);
            }
        }
        assert forall|a: int| 0 <= a < w.len() implies w[a].0 != self.key@ by {
            if has_key(s, self.key@) {
                let i = position_of(s, self.key@);
                let oa = if a < i { a } else { a + 1 };
                assert(w[a] == s[oa]);
            } else {
                assert(w[a] == s[a]);
                assert(!(0 <= a < s.len() && s[a].0 == self.key@));
            }
        }
        assert forall|a: int, b: int| 0 <= a <= b < w.len() implies w[a].2 <= w[b].2 by {
            if has_key(s, self.key@) {
                let i = position_of(s, self.key@);
                let oa = if a < i { a } else { a + 1 };
                let ob = if b < i { b } else { b + 1 };
                assert(w[a] == s[oa]);
                assert(w[b] == s[ob]);
            } else {
                assert(w[a] == s[a]);
                assert(w[b] == s[b]);
            }
        }
        assert forall|a: int| 0 <= a < w.len() implies w[a].2 <= self.time by {
            if has_key(s, self.key@) {
                let i = position_of(s, self.key@);
                let oa = if a < i { a } else { a + 1 };
                assert(w[a] == s[oa]);
            } else {
                assert(w[a] == s[a]);
            }
        }
        let ghost key_view = self.key@;
        let ghost time = self.time;
        let slot = Slot { key: self.key, handle: share(&handle), used: self.time };
        cache.slots.push(slot);
        let ghost t = cache.items();
        proof {
            assert(t =~= w.push((key_view, handle, time)));
        }
        if let Policy::BoundedLru { capacity } = cache.policy {
            let ghost mut k: int = 0;
            while cache.slots.len() > capacity
                invariant
                    0 <= k <= t.len(),
                    cache.items() == t.skip(k),
                    t.len() - k >= capacity || k == 0,
                    cache.policy == old(cache).policy,
                decreases cache.slots.len(),
            {
                let ghost before = cache.slots@;
                cache.slots.remove(0);
                proof {
                    assert(slot_items(cache.slots@) =~= slot_items(before).drop_first());
                    assert(t.skip(k).drop_first() =~= t.skip(k + 1));
                    k = k + 1;
                }
            }
            proof {
                if t.len() > capacity {
                    assert(k == t.len() - capacity);
                } else {
                    assert(k == 0);
                    assert(t.skip(0) =~= t);
                }
            }
        }
        proof {
            let f = cache.items();
            assert forall|a: int, b: int| 0 <= a < f.len() && 0 <= b < f.len() && a != b
                implies f[a].0 != f[b].0 by {
                let d = t.len() - f.len();
                assert(f[a] == t[a + d]);
                assert(f[b] == t[b + d]);
            }
            assert forall|a: int, b: int| 0 <= a <= b < f.len() implies f[a].2 <= f[b].2 by {
                let d = t.len() - f.len();
                assert(f[a] == t[a + d]);
                assert(f[b] == t[b + d]);
            }
        }
        handle
    }
}

/// The entries counted by `expired_prefix` have all expired; the one after
/// them, if any, has not.
pub proof fn lemma_expired_prefix<V>(s: Seq<Item<V>>, now: u64, ttl: u64)
    ensures
        expired_prefix(s, now, ttl) <= s.len(),
        forall|i: int| 0 <= i < expired_prefix(s, now, ttl) ==> expired(#[trigger] s[i].2, now, ttl),
        expired_prefix(s, now, ttl) < s.len() ==> !expired(s[expired_prefix(s, now, ttl) as int].2, now, ttl),
    decreases s.len(),
{
    if s.len() > 0 && expired(s[0].2, now, ttl) {
        lemma_expired_prefix(s.drop_first(), now, ttl);
        assert forall|i: int| 0 <= i < expired_prefix(s, now, ttl) implies expired(#[trigger] s[i].2, now, ttl) by {
            if i > 0 {
                assert(s[i] == s.drop_first()[i - 1]);
            }
        }
    }
}

/// Under an idle timeout, a lookup at `now` in a well-formed cache (whose
/// entries stand in the order of their last use) keeps exactly the entries
/// used within the timeout: an entry idle for the whole timeout is dropped,
/// any other survives.
pub proof fn lemma_idle_timeout_keeps_recent<V>(s: Seq<Item<V>>, now: u64, ttl: u64)
    requires
        unique_keys(s),
        times_ordered(s),
    ensures
        forall|i: int|
            0 <= i < s.len() ==> (has_key(purged(s, Policy::IdleTimeout { ttl }, now), #[trigger] s[i].0)
                <==> !expired(s[i].2, now, ttl)),
{
    lemma_expired_prefix(s, now, ttl);
    let n = expired_prefix(s, now, ttl) as int;
    let p = purged(s, Policy::IdleTimeout { ttl }, now);
    assert(p == s.skip(n));
    assert forall|i: int| 0 <= i < s.len() implies (has_key(p, #[trigger] s[i].0) <==> !expired(s[i].2, now, ttl)) by {
        if i < n {
            assert(expired(s[i].2, now, ttl));
            if has_key(p, s[i].0) {
                let j = choose|j: int| 0 <= j < p.len() && #[trigger] p[j].0 == s[i].0;
                assert(p[j] == s[j + n]);
            }
        } else {
            assert(s[n].2 <= s[i].2);
            assert(p[i - n] == s[i]);
        }
    }
}

/// `inserted` keeps keys unique, and the new entry stands last.
pub proof fn lemma_inserted<V>(s: Seq<Item<V>>, policy: Policy, k: Seq<char>, v: Arc<V>, time: u64)
    requires
        unique_keys(s),
        policy matches Policy::BoundedLru { capacity } ==> capacity > 0,
    ensures
        unique_keys(inserted(s, policy, k, v, time)),
        inserted(s, policy, k, v, time).len() > 0,
        inserted(s, policy, k, v, time).last() == (k, v, time),
{
    let w = without_key(s, k);
    assert forall|a: int| 0 <= a < w.len() implies w[a].0 != k by {
        if has_key(s, k) {
            let i = position_of(s, k);
            let oa = if a < i { a } else { a + 1 };
            assert(w[a] == s[oa]);
        } else {
            assert(w[a] == s[a]);
        }
    }
    assert forall|a: int, b: int| 0 <= a < w.len() && 0 <= b < w.len() && a != b implies w[a].0 != w[b].0 by {
        if has_key(s, k) {
            let i = position_of(s, k);
            let oa = if a < i { a } else { a + 1 };
            let ob = if b < i { b } else { b + 1 };
            assert(w[a] == s[oa]);
            assert(w[b] == s[ob]);
        } else {
            assert(w[a] == s[a]);
            assert(w[b] == s[b]);
        }
    }
    let t = w.push((k, v, time));
    let f = inserted(s, policy, k, v, time);
    assert(f == trimmed(t, policy));
    let d = t.len() - f.len();
    assert forall|a: int| 0 <= a < f.len() implies f[a] == t[a + d] by {}
    assert forall|a: int, b: int| 0 <= a < f.len() && 0 <= b < f.len() && a != b implies f[a].0 != f[b].0 by {
        assert(f[a] == t[a + d]);
        assert(f[b] == t[b + d]);
    }
    assert(f[f.len() - 1] == t[t.len() - 1]);
}

/// A bounded cache that is full drops exactly its least recently used entry
/// when a key it does not hold is inserted.
pub proof fn lemma_lru_evicts_least_recent<V>(
    s: Seq<Item<V>>,
    capacity: usize,
    k: Seq<char>,
    v: Arc<V>,
    time: u64,
)
    requires
        unique_keys(s),
        capacity > 0,
        s.len() == capacity,
        !has_key(s, k),
    ensures
        inserted(s, Policy::BoundedLru { capacity }, k, v, time) == s.drop_first().push((k, v, time)),
{
    assert(without_key(s, k) == s);
    assert(s.push((k, v, time)).skip(1) =~= s.drop_first().push((k, v, time)));
}

/// In a full bounded cache, an entry that was just looked up is not the one
/// that the next insertion of a new key drops: the least recently used of the
/// others goes, and the looked-up entry keeps its handle.
pub proof fn lemma_lru_access_protects<V>(
    s: Seq<Item<V>>,
    capacity: usize,
    i: int,
    now: u64,
    k: Seq<char>,
    v: Arc<V>,
    time: u64,
)
    requires
        unique_keys(s),
        capacity >= 2,
        s.len() == capacity,
        0 <= i < s.len(),
        !has_key(s, k),
    ensures
        has_key(inserted(touched(s, i, now), Policy::BoundedLru { capacity }, k, v, time), s[i].0),
        inserted(touched(s, i, now), Policy::BoundedLru { capacity }, k, v, time) == touched(
            s,
            i,
            now,
        ).drop_first().push((k, v, time)),
        touched(s, i, now)[0] == (if i == 0 { s[1] } else { s[0] }),
        inserted(touched(s, i, now), Policy::BoundedLru { capacity }, k, v, time)[capacity - 2] == (
            s[i].0,
            s[i].1,
            now,
        ),
{
    let t = touched(s, i, now);
    assert forall|a: int| 0 <= a < t.len() implies t[a].0 != k by {
        let oa = if a == t.len() - 1 { i } else if a < i { a } else { a + 1 };
        assert(t[a].0 == s[oa].0);
    }
    assert(!has_key(t, k));
    assert(without_key(t, k) == t);
    let f = inserted(t, Policy::BoundedLru { capacity }, k, v, time);
    assert(f == t.push((k, v, time)).skip(1));
    assert(f[f.len() - 2] == t[t.len() - 1]);
    assert(f[f.len() - 2].0 == s[i].0);
    assert(f =~= t.drop_first().push((k, v, time)));
    if i == 0 {
        assert(t[0] == s[1]);
    } else {
        assert(t[0] == s[0]);
    }
}

} // verus!
