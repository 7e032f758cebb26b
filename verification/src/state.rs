//! The shared state store and its deduplication rule.
//!
//! One `State` value is the single authoritative holder of the hello
//! counter, the per-address last-seen map and the host-fact snapshot. A pool
//! of request workers and one periodic refresh task share it behind
//! multiple-reader/single-writer access; every operation here is a pure
//! in-memory update that cannot fail, block or perform I/O, so an exclusive
//! section over it cannot be poisoned.
//!
//! Addresses are identified by a 128-bit value (an IPv4 address is carried
//! in its IPv6-mapped form) and times by a monotonic millisecond count, both
//! supplied by the caller.

use std::collections::HashMap;
use vstd::prelude::*;
use vstd::std_specs::iter::IteratorSpec;

use crate::persist::recovered_count;
use crate::system::HostSnapshot;

verus! {

broadcast use vstd::std_specs::hash::group_hash_axioms;

/// Whether a last-seen stamp `last` is already past the window at time
/// `now`. The comparison is strict: an age of exactly `max_age` is not yet
/// past it.
pub open spec fn entry_expired(last: u64, max_age: u64, now: u64) -> bool {
    now > last + max_age
}

/// The deduplication rule: a hello from `from` at time `now` is counted
/// exactly when the address was never seen, or when its last accepted hello
/// is strictly older than `max_age`. An age of exactly `max_age` is still
/// rejected.
pub open spec fn hello_accepted(hellos: Map<u128, u64>, max_age: u64, from: u128, now: u64) -> bool {
    !hellos.contains_key(from) || entry_expired(hellos[from], max_age, now)
}

/// One hello event applied to the counter and the last-seen map: an
/// accepted hello increments the count and stamps the address with `now`; a
/// rejected one changes nothing.
pub open spec fn hello_step(
    hellos: Map<u128, u64>,
    count: nat,
    max_age: u64,
    from: u128,
    now: u64,
) -> (Map<u128, u64>, nat) {
    if hello_accepted(hellos, max_age, from, now) {
        (hellos.insert(from, now), count + 1)
    } else {
        (hellos, count)
    }
}

/// The single authoritative holder of the counter, the per-address
/// last-seen map, the dedup window and the host-fact snapshot.
pub struct State {
    hi_count: usize,
    hellos: HashMap<u128, u64>,
    max_age: u64,
    snapshot: HostSnapshot,
}

impl State {
    /// The current counter value.
    pub closed spec fn count(&self) -> usize {
        self.hi_count
    }

    /// The last accepted hello time of each address counted so far.
    pub closed spec fn seen(&self) -> Map<u128, u64> {
        self.hellos@
    }

    /// The dedup window, in the caller's time unit.
    pub closed spec fn window(&self) -> u64 {
        self.max_age
    }

    /// The host-fact snapshot.
    pub closed spec fn facts(&self) -> HostSnapshot {
        self.snapshot
    }

    /// A fresh store: the given starting count, no addresses seen yet.
    pub fn new(hi_count: usize, max_age: u64, snapshot: HostSnapshot) -> (s: Self)
        ensures
            s.count() == hi_count,
            s.seen() == Map::<u128, u64>::empty(),
            s.window() == max_age,
            s.facts() == snapshot,
    {
        State { hi_count, hellos: HashMap::new(), max_age, snapshot }
    }

    /// A store seeded from the persisted counter file's contents, `None`
    /// standing for an absent file. Malformed or missing contents degrade
    /// to a count of zero, never to an error.
    pub fn load(contents: Option<&[u8]>, max_age: u64, snapshot: HostSnapshot) -> (s: Self)
        ensures
            s.count() as nat == recovered_count(
                match contents {
                    Some(c) => Some(c@),
                    None => None,
                },
            ),
            s.seen() == Map::<u128, u64>::empty(),
            s.window() == max_age,
            s.facts() == snapshot,
    {
        let hi_count = match contents {
            Some(c) => crate::persist::parse_count(c),
            None => 0,
        };
        Self::new(hi_count, max_age, snapshot)
    }

    /// Registers a hello from address `from` at time `now`, counting or
    /// rejecting it by the deduplication rule. Nothing else of the store
    /// changes, and a rejected hello changes nothing at all.
    pub fn inc_hi_count(&mut self, from: u128, now: u64)
        requires
            old(self).count() < usize::MAX,
        ensures
            (final(self).seen(), final(self).count() as nat) == hello_step(
                old(self).seen(),
                old(self).count() as nat,
                old(self).window(),
                from,
                now,
            ),
            final(self).window() == old(self).window(),
            final(self).facts() == old(self).facts(),
    {
        let accept = match self.hellos.get(&from) {
            Some(last) => now > *last && now - *last > self.max_age,
            None => true,
        };
        if accept {
            self.hellos.insert(from, now);
            self.hi_count = self.hi_count + 1;
        }
    }

    /// The current counter value.
    pub fn hi_count(&self) -> (r: usize)
        ensures
            r == self.count(),
    {
        self.hi_count
    }

    /// How many addresses the last-seen map currently holds.
    pub fn tracked_addresses(&self) -> (r: usize)
        ensures
            r == self.seen().dom().len(),
    {
        self.hellos.len()
    }

    /// A copy of the host-fact snapshot, for rendering.
    pub fn snapshot(&self) -> (r: HostSnapshot)
        ensures
            r == self.facts(),
    {
        self.snapshot.duplicate()
    }

    /// The bytes to persist for the current counter value: its decimal
    /// text. Writing them to the sibling temporary file and renaming it
    /// over the destination is the caller's side of the save protocol.
    pub fn save_hi_count(&self) -> (r: Vec<u8>)
        ensures
            r@ == crate::digits::dec_bytes(self.count() as nat),
    {
        crate::digits::dec_byte_vec(self.hi_count)
    }

    /// Drops every last-seen entry whose stamp is already past the window
    /// at time `now`, as the periodic refresh loop does each tick to keep
    /// the map from growing without bound. Sweeping such an entry cannot
    /// change any later dedup decision: an address old enough to be dropped
    /// would have its next hello accepted anyway (see
    /// `lemma_sweep_preserves_decisions`). The counter is untouched.
    pub fn sweep(&mut self, now: u64)
        ensures
            final(self).count() == old(self).count(),
            final(self).window() == old(self).window(),
            final(self).facts() == old(self).facts(),
            forall|a: u128|
                final(self).seen().contains_key(a) <==> (old(self).seen().contains_key(a)
                    && !entry_expired(old(self).seen()[a], old(self).window(), now)),
            forall|a: u128|
                final(self).seen().contains_key(a) ==> final(self).seen()[a] == old(
                    self,
                ).seen()[a],
    {
        let ghost m0 = self.hellos@;
        let ghost age = self.max_age;
        let mut all_keys: Vec<u128> = Vec::new();
        for k in it: self.hellos.keys()
            invariant
                all_keys@.len() == it.index(),
                forall|i: int| 0 <= i < all_keys@.len() ==> all_keys@[i] == *it.seq()[i],
        {
            all_keys.push(*k);
        }
        proof {
            let full = vstd::std_specs::hash::spec_keys_iter(&self.hellos).remaining();
            assert(full.unref().to_set() == m0.dom());
            assert(full.no_duplicates());
            assert(all_keys@ =~= full.unref());
            assert forall|i: int, j: int|
                0 <= i < j < all_keys@.len() implies all_keys@[i] != all_keys@[j] by {
                assert(full[i] != full[j]);
            }
            assert(all_keys@.no_duplicates());
        }
        let mut i: usize = 0;
        while i < all_keys.len()
            invariant
                i <= all_keys@.len(),
                all_keys@.no_duplicates(),
                all_keys@.to_set() == m0.dom(),
                self.hi_count == old(self).hi_count,
                self.max_age == old(self).max_age,
                age == self.max_age,
                self.snapshot == old(self).snapshot,
                m0 == old(self).hellos@,
                forall|a: u128|
                    self.hellos@.contains_key(a) <==> (m0.contains_key(a) && !(
                    all_keys@.take(i as int).contains(a) && entry_expired(
                        m0[a],
                        age,
                        now,
                    ))),
                forall|a: u128| self.hellos@.contains_key(a) ==> self.hellos@[a] == m0[a],
            decreases all_keys@.len() - i,
        {
            let k = all_keys[i];
            proof {
                assert(all_keys@.to_set().contains(k));
                assert(m0.contains_key(k));
                if all_keys@.take(i as int).contains(k) {
                    let j = choose|j: int|
                        0 <= j < i && #[trigger] all_keys@.take(i as int)[j] == k;
                    assert(all_keys@[j] == all_keys@[i as int]);
                }
                assert(!all_keys@.take(i as int).contains(k));
                assert(self.hellos@.contains_key(k));
            }
            let last = *self.hellos.get(&k).unwrap();
            proof {
                assert(last == m0[k]);
            }
            let is_stale = now > last && now - last > self.max_age;
            proof {
                assert(is_stale == entry_expired(m0[k], age, now));
            }
            let ghost mid = self.hellos@;
            if is_stale {
                self.hellos.remove(&k);
                proof {
                    assert(self.hellos@ == mid.remove(k));
                }
            }
            proof {
                let t0 = all_keys@.take(i as int);
                let t1 = all_keys@.take(i + 1);
                assert(t1 =~= t0.push(k));
                assert forall|a: u128|
                    self.hellos@.contains_key(a) <==> (m0.contains_key(a) && !(
                    t1.contains(a) && entry_expired(m0[a], age, now))) by {
                    if a == k {
                        assert(t1[i as int] == k);
                        assert(t1.contains(a));
                        assert(m0.contains_key(a));
                        if is_stale {
                            assert(entry_expired(m0[a], age, now));
                            assert(self.hellos@ == mid.remove(k));
                            assert(!self.hellos@.contains_key(a));
                        } else {
                            assert(!entry_expired(m0[a], age, now));
                            assert(self.hellos@ == mid);
                            assert(mid.contains_key(k));
                            assert(self.hellos@.contains_key(a));
                        }
                    } else {
                        assert(mid.contains_key(a) <==> (m0.contains_key(a) && !(
                        t0.contains(a) && entry_expired(m0[a], age, now))));
                        assert(self.hellos@.contains_key(a) == mid.contains_key(a));
                        assert(t1.contains(a) == t0.contains(a)) by {
                            if t1.contains(a) {
                                let j = choose|j: int|
                                    0 <= j < t1.len() && #[trigger] t1[j] == a;
                                assert(t0[j] == a);
                                assert(t0.contains(a));
                            }
                            if t0.contains(a) {
                                let j = choose|j: int|
                                    0 <= j < t0.len() && #[trigger] t0[j] == a;
                                assert(t1[j] == a);
                                assert(t1.contains(a));
                            }
                        }
                    }
                }
                assert forall|a: u128|
                    self.hellos@.contains_key(a) implies self.hellos@[a] == m0[a] by {
                    assert(mid.contains_key(a) && mid[a] == m0[a]);
                }
            }
            i = i + 1;
        }
        proof {
            let t_all = all_keys@.take(all_keys@.len() as int);
            assert(t_all =~= all_keys@);
            assert forall|a: u128|
                self.hellos@.contains_key(a) <==> (m0.contains_key(a) && !entry_expired(
                    m0[a],
                    age,
                    now,
                )) by {
                let in_take = all_keys@.take(i as int).contains(a);
                let expired = entry_expired(m0[a], age, now);
                assert(self.hellos@.contains_key(a) <==> (m0.contains_key(a) && !(in_take
                    && expired)));
                if m0.contains_key(a) {
                    assert(all_keys@.to_set().contains(a));
                    assert(all_keys@.contains(a));
                    assert(all_keys@.take(i as int).contains(a));
                }
            }
        }
    }

    /// Replaces the host-fact snapshot wholesale, as the periodic refresh
    /// task does each tick. The counter and the last-seen map are untouched.
    pub fn refresh(&mut self, snapshot: HostSnapshot)
        ensures
            final(self).facts() == snapshot,
            final(self).count() == old(self).count(),
            final(self).seen() == old(self).seen(),
            final(self).window() == old(self).window(),
    {
        self.snapshot = snapshot;
    }
}

/// Whether the refresh task must persist the counter this tick: exactly
/// when it differs from the last value the task saw saved.
pub fn save_needed(current: usize, last_saved: usize) -> (r: bool)
    ensures
        r == (current != last_saved),
{
    current != last_saved
}

/// Sweeping never changes a dedup decision: from the moment of the sweep
/// on, a hello is accepted against the swept map exactly when it would have
/// been accepted against the unswept one.
pub proof fn lemma_sweep_preserves_decisions(
    before: Map<u128, u64>,
    after: Map<u128, u64>,
    max_age: u64,
    sweep_time: u64,
    from: u128,
    now: u64,
)
    requires
        sweep_time <= now,
        forall|a: u128|
            after.contains_key(a) <==> (before.contains_key(a) && !entry_expired(
                before[a],
                max_age,
                sweep_time,
            )),
        forall|a: u128| after.contains_key(a) ==> after[a] == before[a],
    ensures
        hello_accepted(after, max_age, from, now) == hello_accepted(before, max_age, from, now),
{
}

/// Within the window, a repeat hello is not counted; past it, it is. Two
/// hellos from one address, the first of them counted, increment the
/// counter exactly once when they are at most `max_age` apart, and exactly
/// twice when they are further apart.
pub proof fn lemma_dedup_window(
    hellos: Map<u128, u64>,
    count: nat,
    max_age: u64,
    from: u128,
    t1: u64,
    t2: u64,
)
    requires
        hello_accepted(hellos, max_age, from, t1),
        t1 <= t2,
    ensures
        ({
            let (h1, c1) = hello_step(hellos, count, max_age, from, t1);
            let (h2, c2) = hello_step(h1, c1, max_age, from, t2);
            c2 == if t2 - t1 <= max_age {
                count + 1
            } else {
                count + 2
            }
        }),
{
}

/// A run of hello events applied in order.
pub open spec fn run_hellos(
    hellos: Map<u128, u64>,
    count: nat,
    max_age: u64,
    events: Seq<(u128, u64)>,
) -> (Map<u128, u64>, nat)
    decreases events.len(),
{
    if events.len() == 0 {
        (hellos, count)
    } else {
        let (h, c) = hello_step(hellos, count, max_age, events[0].0, events[0].1);
        run_hellos(h, c, max_age, events.drop_first())
    }
}

/// The counter never decreases: no hello event, counted or rejected, can
/// lower it, so over a process's lifetime the count only grows.
pub proof fn lemma_counter_monotone(
    hellos: Map<u128, u64>,
    count: nat,
    max_age: u64,
    events: Seq<(u128, u64)>,
)
    ensures
        run_hellos(hellos, count, max_age, events).1 >= count,
    decreases events.len(),
{
    if events.len() > 0 {
        let (h, c) = hello_step(hellos, count, max_age, events[0].0, events[0].1);
        lemma_counter_monotone(h, c, max_age, events.drop_first());
    }
}

/// Hellos from distinct, never-seen addresses all count: however N such
/// events are interleaved with each other, and whatever their times, the
/// counter rises by exactly N.
pub proof fn lemma_distinct_addresses_all_count(
    hellos: Map<u128, u64>,
    count: nat,
    max_age: u64,
    events: Seq<(u128, u64)>,
)
    requires
        forall|i: int, j: int|
            0 <= i < j < events.len() ==> (#[trigger] events[i]).0 != (#[trigger] events[j]).0,
        forall|i: int| 0 <= i < events.len() ==> !hellos.contains_key((#[trigger] events[i]).0),
    ensures
        run_hellos(hellos, count, max_age, events).1 == count + events.len(),
    decreases events.len(),
{
    if events.len() > 0 {
        let (from, now) = events[0];
        assert(hello_accepted(hellos, max_age, from, now));
        let h1 = hellos.insert(from, now);
        let rest = events.drop_first();
        assert(forall|i: int|
            0 <= i < rest.len() ==> !h1.contains_key((#[trigger] rest[i]).0)) by {
            assert(forall|i: int|
                0 <= i < rest.len() ==> rest[i] == events[i + 1] && (#[trigger] rest[i]).0
                    != from);
        }
        lemma_distinct_addresses_all_count(h1, count + 1, max_age, rest);
    }
}

} // verus!
