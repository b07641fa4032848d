//! The transient map: values plus last-touch timestamps and a fixed lifetime.

use crate::clock::{StandardTimer, Timer};
use std::collections::HashMap;
use vstd::prelude::*;
use std::collections::hash_map::Entry;
use vstd::std_specs::hash::EntrySpecFns;
use vstd::std_specs::iter::IteratorSpec;
use vstd::std_specs::iter::VerusForLoopWrapper;

verus! {

broadcast use vstd::std_specs::hash::group_hash_axioms;

/// The window left of a `lifetime`-second window once `elapsed` seconds have
/// passed: `lifetime - elapsed`, clamped into `[0, lifetime]`. A negative
/// elapsed time (a stamp ahead of the clock, which only clock misuse can
/// produce) reports the full window.
pub open spec fn remaining_after(lifetime: u32, elapsed: int) -> u32 {
    if lifetime <= elapsed {
        0u32
    } else if elapsed <= 0 {
        lifetime
    } else {
        (lifetime - elapsed) as u32
    }
}

/// The remaining lifetime of `key` at time `now`: zero for a key with no
/// recorded stamp, otherwise the clamped window left since its last touch.
pub open spec fn spec_remaining(stamps: Map<u64, i64>, lifetime: u32, key: u64, now: i64) -> u32 {
    if stamps.contains_key(key) {
        remaining_after(lifetime, now - stamps[key])
    } else {
        0u32
    }
}

/// The stamps that a prune at time `now` retains: exactly those whose elapsed
/// time is still under `lifetime`.
pub open spec fn pruned_stamps(stamps: Map<u64, i64>, lifetime: u32, now: i64) -> Map<u64, i64> {
    stamps.restrict(stamps.dom().filter(|k: u64| now - stamps[k] < lifetime))
}

/// The values that a prune retains: exactly those whose key kept its stamp.
pub open spec fn pruned_values<V>(values: Map<u64, V>, kept: Map<u64, i64>) -> Map<u64, V> {
    values.restrict(kept.dom())
}

/// What one prune sweep at time `now` does: the stale stamps are dropped, the
/// value mapping is filtered down to the keys that kept a stamp, and the
/// removed stamp keys are reported.
pub open spec fn prune_outcome<V>(
    pre_values: Map<u64, V>,
    pre_stamps: Map<u64, i64>,
    lifetime: u32,
    post_values: Map<u64, V>,
    post_stamps: Map<u64, i64>,
    removed: Seq<u64>,
    now: i64,
) -> bool {
    let kept = pruned_stamps(pre_stamps, lifetime, now);
    &&& post_stamps == kept
    &&& post_values == pruned_values(pre_values, kept)
    &&& removed.to_set() == pre_stamps.dom().difference(kept.dom())
}

/// A map whose entries are garbage collected (pruned) after not being touched
/// for a fixed lifetime, measured in seconds of the supplied [`Timer`].
///
/// Pruning does not occur automatically: call [`Self::prune`] to drop the
/// entries whose window has elapsed. Every access through [`Self::insert`],
/// [`Self::entry`], [`Self::get`], [`Self::get_mut`] or [`Self::contains_key`]
/// touches the key involved, resetting its window to the full lifetime;
/// [`Self::remaining_lifetime`] and the [`Self::direct`] views touch nothing.
pub struct TransientHashMap<V, T = StandardTimer> where T: Timer {
    backing: HashMap<u64, V>,
    timestamps: HashMap<u64, i64>,
    lifetime: u32,
    timer: T,
}

impl<V> TransientHashMap<V, StandardTimer> {
    /// Creates an empty map over the system clock with the given lifetime.
    pub fn new(lifetime: u32) -> (r: Self)
        ensures
            r.values() == Map::<u64, V>::empty(),
            r.stamps() == Map::<u64, i64>::empty(),
            r.lifetime() == lifetime,
    {
        Self::new_with_timer(lifetime, StandardTimer {})
    }
}

impl<V, T: Timer> TransientHashMap<V, T> {
    /// The value mapping, as it stands.
    pub closed spec fn values(self) -> Map<u64, V> {
        self.backing@
    }

    /// The last-touch stamp of each key that has ever been touched and not
    /// yet pruned.
    pub closed spec fn stamps(self) -> Map<u64, i64> {
        self.timestamps@
    }

    /// The idle window, in seconds, fixed at construction.
    pub closed spec fn lifetime(self) -> u32 {
        self.lifetime
    }

    /// The owned time source.
    pub closed spec fn timer(self) -> T {
        self.timer
    }

    /// Creates an empty map with the given lifetime and time source.
    pub fn new_with_timer(lifetime: u32, t: T) -> (r: Self)
        ensures
            r.values() == Map::<u64, V>::empty(),
            r.stamps() == Map::<u64, i64>::empty(),
            r.lifetime() == lifetime,
            r.timer() == t,
    {
        TransientHashMap {
            backing: HashMap::new(),
            timestamps: HashMap::new(),
            lifetime,
            timer: t,
        }
    }

    /// Records `now` as the last touch of `key`.
    fn touch_at(&mut self, key: u64, now: i64)
        ensures
            final(self).stamps() == old(self).stamps().insert(key, now),
            final(self).values() == old(self).values(),
            final(self).lifetime() == old(self).lifetime(),
            final(self).timer() == old(self).timer(),
    {
        self.timestamps.insert(key, now);
    }

    /// Inserts `value` under `key` as of time `now`, touching `key` and
    /// returning the value it displaced, if any.
    pub fn insert_at(&mut self, key: u64, value: V, now: i64) -> (prev: Option<V>)
        ensures
            final(self).values() == old(self).values().insert(key, value),
            final(self).stamps() == old(self).stamps().insert(key, now),
            final(self).lifetime() == old(self).lifetime(),
            final(self).timer() == old(self).timer(),
            prev == (if old(self).values().contains_key(key) {
                Some(old(self).values()[key])
            } else {
                None::<V>
            }),
    {
        self.touch_at(key, now);
        self.backing.insert(key, value)
    }

    /// Inserts `value` under `key`, overwriting and returning any previous
    /// value. Touches `key`: its remaining lifetime is reset to the full
    /// configured window, whether or not it was present before.
    pub fn insert(&mut self, key: u64, value: V) -> (prev: Option<V>)
        ensures
            final(self).values() == old(self).values().insert(key, value),
            final(self).lifetime() == old(self).lifetime(),
            final(self).timer() == old(self).timer(),
            prev == (if old(self).values().contains_key(key) {
                Some(old(self).values()[key])
            } else {
                None::<V>
            }),
            exists|now: i64| final(self).stamps() == old(self).stamps().insert(key, now),
    {
        let now = self.timer.get_time();
        self.insert_at(key, value, now)
    }

    /// Touches `key` as of time `now`, then returns a reference to its value,
    /// if present. The touch happens on a miss too.
    pub fn get_at(&mut self, key: &u64, now: i64) -> (r: Option<&V>)
        ensures
            final(self).stamps() == old(self).stamps().insert(*key, now),
            final(self).values() == old(self).values(),
            final(self).lifetime() == old(self).lifetime(),
            final(self).timer() == old(self).timer(),
            match r {
                Some(v) => old(self).values().contains_key(*key) && *v == old(self).values()[*key],
                None => !old(self).values().contains_key(*key),
            },
    {
        self.touch_at(*key, now);
        self.backing.get(key)
    }

    /// Returns a reference to the value stored under `key`, if any.
    ///
    /// Touches `key` unconditionally, even on a miss: looking a key up
    /// records a fresh last-seen stamp for it.
    pub fn get(&mut self, key: &u64) -> (r: Option<&V>)
        ensures
            final(self).values() == old(self).values(),
            final(self).lifetime() == old(self).lifetime(),
            final(self).timer() == old(self).timer(),
            exists|now: i64| final(self).stamps() == old(self).stamps().insert(*key, now),
            match r {
                Some(v) => old(self).values().contains_key(*key) && *v == old(self).values()[*key],
                None => !old(self).values().contains_key(*key),
            },
    {
        let now = self.timer.get_time();
        self.get_at(key, now)
    }

    /// Touches `key` as of time `now`, then reports whether it holds a value.
    pub fn contains_key_at(&mut self, key: &u64, now: i64) -> (r: bool)
        ensures
            final(self).stamps() == old(self).stamps().insert(*key, now),
            final(self).values() == old(self).values(),
            final(self).lifetime() == old(self).lifetime(),
            final(self).timer() == old(self).timer(),
            r == old(self).values().contains_key(*key),
    {
        self.touch_at(*key, now);
        self.backing.contains_key(key)
    }

    /// Reports whether `key` holds a value.
    ///
    /// Touches `key` unconditionally, even when it is absent.
    pub fn contains_key(&mut self, key: &u64) -> (r: bool)
        ensures
            final(self).values() == old(self).values(),
            final(self).lifetime() == old(self).lifetime(),
            final(self).timer() == old(self).timer(),
            exists|now: i64| final(self).stamps() == old(self).stamps().insert(*key, now),
            r == old(self).values().contains_key(*key),
    {
        let now = self.timer.get_time();
        self.contains_key_at(key, now)
    }

    /// Touches `key` as of time `now`, then yields the entry of the value
    /// mapping for `key`, through which the caller may inspect, fill or
    /// remove the slot. The touch happens whether or not the caller writes.
    pub fn entry_at<'a>(&'a mut self, key: u64, now: i64) -> (e: Entry<'a, u64, V>)
        ensures
            final(self).stamps() == old(self).stamps().insert(key, now),
            final(self).lifetime() == old(self).lifetime(),
            final(self).timer() == old(self).timer(),
            e.spec_key() == key,
            e.value() == old(self).values().get(key),
            final(self).values() == (match e.final_value() {
                Some(v) => old(self).values().insert(key, v),
                None => old(self).values().remove(key),
            }),
    {
        self.touch_at(key, now);
        self.backing.entry(key)
    }

    /// Yields the upsert-capable entry for `key` in the value mapping.
    ///
    /// Touches `key` unconditionally, even if the caller never writes
    /// through the returned entry.
    pub fn entry<'a>(&'a mut self, key: u64) -> (e: Entry<'a, u64, V>)
        ensures
            final(self).lifetime() == old(self).lifetime(),
            final(self).timer() == old(self).timer(),
            exists|now: i64| final(self).stamps() == old(self).stamps().insert(key, now),
            e.spec_key() == key,
            e.value() == old(self).values().get(key),
            final(self).values() == (match e.final_value() {
                Some(v) => old(self).values().insert(key, v),
                None => old(self).values().remove(key),
            }),
    {
        let now = self.timer.get_time();
        self.entry_at(key, now)
    }

    /// Touches `key` as of time `now`, then returns a mutable reference to
    /// its value, if present. The touch happens on a miss too.
    pub fn get_mut_at<'a>(&'a mut self, key: &u64, now: i64) -> (r: Option<&'a mut V>)
        ensures
            final(self).stamps() == old(self).stamps().insert(*key, now),
            final(self).lifetime() == old(self).lifetime(),
            final(self).timer() == old(self).timer(),
            (match r {
                Some(v) => {
                    &&& old(self).values().contains_key(*key)
                    &&& *v == old(self).values()[*key]
                    &&& final(self).values() == old(self).values().insert(*key, *final(v))
                },
                None => {
                    &&& !old(self).values().contains_key(*key)
                    &&& final(self).values() == old(self).values()
                },
            }),
    {
        self.touch_at(*key, now);
        match self.backing.entry(*key) {
            Entry::Occupied(occ) => Some(occ.into_mut()),
            Entry::Vacant(_) => {
                proof {
                    assert(old(self).values().remove(*key) =~= old(self).values());
                }
                None
            },
        }
    }

    /// Returns a mutable reference to the value stored under `key`, if any.
    ///
    /// Touches `key` unconditionally, even on a miss.
    pub fn get_mut<'a>(&'a mut self, key: &u64) -> (r: Option<&'a mut V>)
        ensures
            final(self).lifetime() == old(self).lifetime(),
            final(self).timer() == old(self).timer(),
            exists|now: i64| final(self).stamps() == old(self).stamps().insert(*key, now),
            (match r {
                Some(v) => {
                    &&& old(self).values().contains_key(*key)
                    &&& *v == old(self).values()[*key]
                    &&& final(self).values() == old(self).values().insert(*key, *final(v))
                },
                None => {
                    &&& !old(self).values().contains_key(*key)
                    &&& final(self).values() == old(self).values()
                },
            }),
    {
        let now = self.timer.get_time();
        self.get_mut_at(key, now)
    }

    /// The remaining lifetime of `key` at time `now`, touching nothing:
    /// zero for a key with no recorded stamp, otherwise the configured
    /// lifetime less the elapsed time, clamped into `[0, lifetime]`.
    pub fn remaining_lifetime_at(&self, key: &u64, now: i64) -> (r: u32)
        ensures
            r == spec_remaining(self.stamps(), self.lifetime(), *key, now),
    {
        match self.timestamps.get(key) {
            None => 0,
            Some(t) => {
                let elapsed: i128 = now as i128 - *t as i128;
                if self.lifetime as i128 <= elapsed {
                    0
                } else if elapsed <= 0 {
                    self.lifetime
                } else {
                    self.lifetime - elapsed as u32
                }
            },
        }
    }

    /// Sweeps the map as of time `now`: every stamp `lifetime` seconds old or
    /// older is dropped, the value mapping is filtered down to the keys that
    /// kept a stamp, and the keys whose stamps were dropped are returned,
    /// each once, in no particular order.
    pub fn prune_at(&mut self, now: i64) -> (removed: Vec<u64>)
        ensures
            final(self).lifetime() == old(self).lifetime(),
            final(self).timer() == old(self).timer(),
            prune_outcome(
                old(self).values(),
                old(self).stamps(),
                old(self).lifetime(),
                final(self).values(),
                final(self).stamps(),
                removed@,
                now,
            ),
            removed@.no_duplicates(),
    {
        let ghost s0 = self.timestamps@;
        let ghost v0 = self.backing@;
        let ghost l0 = self.lifetime;
        let ghost tm0 = self.timer;
        let ghost stale = s0.dom().difference(pruned_stamps(s0, l0, now).dom());

        // Enumerate the stamped keys before mutating anything.
        let mut all_keys: Vec<u64> = Vec::new();
        let mut it = VerusForLoopWrapper::new(self.timestamps.keys(), Ghost(None));
        let ghost all0: Seq<u64> = it.seq().unref();
        proof {
            assert(all0.to_set() =~= s0.dom());
            assert forall|i: int, j: int|
                0 <= i < all0.len() && 0 <= j < all0.len() && i != j implies all0[i] != all0[j] by {
                assert(it.seq()[i] != it.seq()[j]);
            };
            assert(all0.no_duplicates());
        }
        loop
            invariant
                it.wf(),
                it.iter.decrease() is Some,
                it.seq().unref() == all0,
                all_keys@ == all0.take(it.index()),
            ensures
                all_keys@ == all0,
            decreases it.iter.decrease()->0,
        {
            match it.next() {
                Some(k) => {
                    all_keys.push(*k);
                    proof {
                        assert(all_keys@ =~= all0.take(it.index()));
                    }
                },
                None => {
                    proof {
                        assert(all0.take(it.index()) =~= all0);
                    }
                    break ;
                },
            }
        }
        proof {
            assert(all_keys@.to_set() == s0.dom());
        }

        // Drop each stale key from both mappings.
        let lifetime_wide: i128 = self.lifetime as i128;
        let mut removed: Vec<u64> = Vec::new();
        let mut i: usize = 0;
        while i < all_keys.len()
            invariant
                i <= all_keys.len(),
                all_keys@.no_duplicates(),
                all_keys@.to_set() == s0.dom(),
                self.lifetime == l0,
                self.timer == tm0,
                lifetime_wide == l0 as i128,
                stale == s0.dom().difference(pruned_stamps(s0, l0, now).dom()),
                removed@.no_duplicates(),
                removed@.to_set().subset_of(stale),
                self.timestamps@ == s0.remove_keys(removed@.to_set()),
                self.backing@ == v0.remove_keys(removed@.to_set()),
                forall|j: int|
                    0 <= j < i ==> (stale.contains(all_keys@[j]) ==> removed@.to_set().contains(
                        all_keys@[j],
                    )),
                forall|k: u64|
                    removed@.to_set().contains(k) ==> all_keys@.take(i as int).contains(k),
            decreases all_keys.len() - i,
        {
            let k: u64 = all_keys[i];
            proof {
                assert(all_keys@.to_set().contains(k));
                assert(!removed@.to_set().contains(k)) by {
                    if removed@.to_set().contains(k) {
                        let j = choose|j: int|
                            0 <= j < i && all_keys@.take(i as int)[j] == k;
                        assert(all_keys@[j] == all_keys@[i as int]);
                    }
                };
                assert(self.timestamps@.contains_key(k) && self.timestamps@[k] == s0[k]);
            }
            let t: i64 = *self.timestamps.get(&k).unwrap();
            let elapsed: i128 = now as i128 - t as i128;
            let ghost removed_pre = removed@.to_set();
            let ghost removed_seq_pre = removed@;
            if lifetime_wide <= elapsed {
                proof {
                    assert(t == s0[k]);
                    assert(now - s0[k] >= l0);
                    assert(!pruned_stamps(s0, l0, now).dom().contains(k));
                    assert(stale.contains(k));
                }
                self.timestamps.remove(&k);
                self.backing.remove(&k);
                removed.push(k);
                proof {
                    assert(removed@ == removed_seq_pre.push(k));
                    assert forall|x: u64|
                        removed@.to_set().contains(x) <==> removed_pre.insert(k).contains(x) by {
                        if removed@.contains(x) {
                            let j = choose|j: int|
                                0 <= j < removed@.len() && removed@[j] == x;
                            if j < removed_seq_pre.len() {
                                assert(removed_seq_pre[j] == x);
                                assert(removed_seq_pre.contains(x));
                            } else {
                                assert(x == k);
                            }
                        }
                        if removed_pre.insert(k).contains(x) {
                            if x == k {
                                assert(removed@[removed@.len() - 1] == k);
                                assert(removed@.contains(x));
                            } else {
                                assert(removed_seq_pre.contains(x));
                                let j = choose|j: int|
                                    0 <= j < removed_seq_pre.len() && removed_seq_pre[j] == x;
                                assert(removed@[j] == x);
                                assert(removed@.contains(x));
                            }
                        }
                    };
                    assert(removed@.to_set() =~= removed_pre.insert(k));
                    assert(!removed_seq_pre.contains(k));
                    assert forall|i2: int, j2: int|
                        0 <= i2 < removed@.len() && 0 <= j2 < removed@.len() && i2 != j2
                        implies removed@[i2] != removed@[j2] by {
                        if i2 < removed_seq_pre.len() && j2 < removed_seq_pre.len() {
                            assert(removed_seq_pre[i2] != removed_seq_pre[j2]);
                        } else if i2 < removed_seq_pre.len() {
                            assert(removed_seq_pre[i2] == removed@[i2]);
                            assert(removed@[j2] == k);
                            assert(removed_seq_pre.contains(removed_seq_pre[i2]));
                        } else {
                            assert(removed@[i2] == k);
                            assert(removed_seq_pre[j2] == removed@[j2]);
                            assert(removed_seq_pre.contains(removed_seq_pre[j2]));
                        }
                    };
                    assert(removed@.no_duplicates());
                    assert(self.timestamps@ =~= s0.remove_keys(removed@.to_set()));
                    assert(self.backing@ =~= v0.remove_keys(removed@.to_set()));
                }
            } else {
                proof {
                    assert(t == s0[k]);
                    assert(now - s0[k] < l0);
                    assert(pruned_stamps(s0, l0, now).dom().contains(k));
                    assert(!stale.contains(k));
                }
            }
            i += 1;
            proof {
                assert forall|x: u64|
                    removed@.to_set().contains(x) implies all_keys@.take(i as int).contains(x) by {
                    if x == k {
                        assert(all_keys@.take(i as int)[i - 1] == k);
                    } else {
                        assert(removed_pre.contains(x));
                        let j = choose|j: int|
                            0 <= j < (i - 1) as int && #[trigger] all_keys@.take((i - 1) as int)[j]
                                == x;
                        assert(all_keys@.take(i as int)[j] == x);
                    }
                };
            }
        }
        proof {
            assert forall|k: u64| stale.contains(k) implies removed@.to_set().contains(k) by {
                assert(all_keys@.to_set().contains(k));
                let j = choose|j: int| 0 <= j < all_keys@.len() && all_keys@[j] == k;
                assert(stale.contains(all_keys@[j]));
            };
            assert(removed@.to_set() =~= stale);
            assert(self.timestamps@ =~= pruned_stamps(s0, l0, now));
        }

        // A touch on a miss can leave a stamp with no backing value, and a
        // direct mutation can leave a value with no stamp: filter the value
        // mapping down to the keys that kept a stamp.
        let ghost kept = self.timestamps@;
        let ghost b1 = self.backing@;
        let mut dangling: Vec<u64> = Vec::new();
        let mut it2 = VerusForLoopWrapper::new(self.backing.keys(), Ghost(None));
        let ghost bkeys: Seq<u64> = it2.seq().unref();
        proof {
            assert(bkeys.to_set() =~= b1.dom());
            assert forall|i: int, j: int|
                0 <= i < bkeys.len() && 0 <= j < bkeys.len() && i != j implies bkeys[i]
                != bkeys[j] by {
                assert(it2.seq()[i] != it2.seq()[j]);
            };
            assert(bkeys.no_duplicates());
        }
        loop
            invariant
                it2.wf(),
                it2.iter.decrease() is Some,
                it2.seq().unref() == bkeys,
                bkeys.no_duplicates(),
                self.timestamps@ == kept,
                dangling@.no_duplicates(),
                forall|j: int| 0 <= j < dangling@.len() ==> !kept.contains_key(dangling@[j]),
                forall|j: int|
                    0 <= j < dangling@.len() ==> bkeys.take(it2.index()).contains(dangling@[j]),
                forall|j: int|
                    0 <= j < it2.index() ==> (kept.contains_key(bkeys[j]) || dangling@.contains(
                        bkeys[j],
                    )),
            ensures
                dangling@.no_duplicates(),
                forall|j: int| 0 <= j < dangling@.len() ==> !kept.contains_key(dangling@[j]),
                forall|j: int| 0 <= j < dangling@.len() ==> bkeys.contains(dangling@[j]),
                forall|j: int|
                    0 <= j < bkeys.len() ==> (kept.contains_key(bkeys[j]) || dangling@.contains(
                        bkeys[j],
                    )),
            decreases it2.iter.decrease()->0,
        {
            match it2.next() {
                Some(k2) => {
                    proof {
                        assert(*k2 == bkeys[it2.index() - 1]);
                        assert(!dangling@.contains(*k2)) by {
                            if dangling@.contains(*k2) {
                                let j = choose|j: int|
                                    0 <= j < dangling@.len() && dangling@[j] == *k2;
                                let j2 = choose|j2: int|
                                    0 <= j2 < it2.index() - 1 && #[trigger] bkeys.take(
                                        it2.index() - 1,
                                    )[j2] == *k2;
                                assert(bkeys[j2] == bkeys[it2.index() - 1]);
                            }
                        };
                    }
                    let ghost dang_pre = dangling@;
                    if !self.timestamps.contains_key(k2) {
                        dangling.push(*k2);
                        proof {
                            assert(!self.timestamps@.contains_key(*k2));
                            assert(!kept.contains_key(*k2));
                            assert(dangling@ == dang_pre.push(*k2));
                            assert(dangling@[dangling@.len() - 1] == *k2);
                            assert(dangling@.contains(*k2));
                            assert forall|i2: int, j2: int|
                                0 <= i2 < dangling@.len() && 0 <= j2 < dangling@.len() && i2 != j2
                                implies dangling@[i2] != dangling@[j2] by {
                                if i2 < dang_pre.len() && j2 < dang_pre.len() {
                                    assert(dang_pre[i2] != dang_pre[j2]);
                                } else if i2 < dang_pre.len() {
                                    assert(dang_pre.contains(dang_pre[i2]));
                                } else {
                                    assert(dang_pre.contains(dang_pre[j2]));
                                }
                            };
                            assert(dangling@.no_duplicates());
                        }
                    } else {
                        proof {
                            assert(self.timestamps@.contains_key(*k2));
                            assert(kept.contains_key(*k2));
                        }
                    }
                    proof {
                        assert(kept.contains_key(*k2) || dangling@.contains(*k2));
                        assert forall|j: int|
                            0 <= j < dangling@.len() implies !kept.contains_key(dangling@[j])
                            && bkeys.take(it2.index()).contains(dangling@[j]) by {
                            if j < dang_pre.len() {
                                assert(dangling@[j] == dang_pre[j]);
                                let j2 = choose|j2: int|
                                    0 <= j2 < it2.index() - 1 && #[trigger] bkeys.take(
                                        it2.index() - 1,
                                    )[j2] == dang_pre[j];
                                assert(bkeys.take(it2.index())[j2] == dang_pre[j]);
                            } else {
                                assert(dangling@[j] == *k2);
                                assert(bkeys.take(it2.index())[it2.index() - 1] == *k2);
                            }
                        };
                        assert forall|j: int|
                            0 <= j < it2.index() implies (kept.contains_key(bkeys[j])
                            || dangling@.contains(bkeys[j])) by {
                            if j < it2.index() - 1 {
                                if dang_pre.contains(bkeys[j]) {
                                    let j2 = choose|j2: int|
                                        0 <= j2 < dang_pre.len() && dang_pre[j2] == bkeys[j];
                                    assert(dangling@[j2] == bkeys[j]);
                                    assert(dangling@.contains(bkeys[j]));
                                }
                            } else {
                                assert(bkeys[j] == *k2);
                            }
                        };
                    }
                },
                None => {
                    break ;
                },
            }
        }
        proof {
            assert forall|x: u64|
                b1.dom().contains(x) implies (kept.contains_key(x) || dangling@.contains(x)) by {
                assert(bkeys.to_set().contains(x));
                let j = choose|j: int| 0 <= j < bkeys.len() && bkeys[j] == x;
            };
        }
        let mut d: usize = 0;
        while d < dangling.len()
            invariant
                d <= dangling.len(),
                dangling@.no_duplicates(),
                self.lifetime == l0,
                self.timer == tm0,
                self.timestamps@ == kept,
                self.backing@ == b1.remove_keys(dangling@.take(d as int).to_set()),
            decreases dangling.len() - d,
        {
            let k3: u64 = dangling[d];
            self.backing.remove(&k3);
            d += 1;
            proof {
                assert forall|x: u64|
                    dangling@.take(d as int).to_set().contains(x) <==> dangling@.take(
                        (d - 1) as int,
                    ).to_set().insert(dangling@[d - 1]).contains(x) by {
                    if dangling@.take(d as int).contains(x) {
                        let j = choose|j: int|
                            0 <= j < d as int && dangling@.take(d as int)[j] == x;
                        if j < d - 1 {
                            assert(dangling@.take((d - 1) as int)[j] == x);
                        }
                    }
                    if dangling@.take((d - 1) as int).contains(x) {
                        let j = choose|j: int|
                            0 <= j < (d - 1) as int && #[trigger] dangling@.take((d - 1) as int)[j]
                                == x;
                        assert(dangling@.take(d as int)[j] == x);
                    }
                    if x == dangling@[d - 1] {
                        assert(dangling@.take(d as int)[d - 1] == x);
                    }
                };
                assert(self.backing@ =~= b1.remove_keys(dangling@.take(d as int).to_set()));
            }
        }
        proof {
            assert(dangling@.take(dangling@.len() as int) =~= dangling@);
            assert forall|x: u64|
                self.backing@.dom().contains(x) <==> pruned_values(v0, kept).dom().contains(
                    x,
                ) by {
                if v0.contains_key(x) && kept.contains_key(x) {
                    assert(!stale.contains(x));
                    assert(b1.dom().contains(x));
                    assert(!dangling@.contains(x));
                }
            };
            assert(self.backing@ =~= pruned_values(v0, kept));
        }
        removed
    }

    /// Sweeps the map as of the timer's current reading, returning the keys
    /// whose stamps were dropped. This is the only operation that removes
    /// entries; nothing expires without it.
    pub fn prune(&mut self) -> (removed: Vec<u64>)
        ensures
            final(self).lifetime() == old(self).lifetime(),
            final(self).timer() == old(self).timer(),
            removed@.no_duplicates(),
            exists|now: i64|
                prune_outcome(
                    old(self).values(),
                    old(self).stamps(),
                    old(self).lifetime(),
                    final(self).values(),
                    final(self).stamps(),
                    removed@,
                    now,
                ),
    {
        let now = self.timer.get_time();
        self.prune_at(now)
    }

    /// A read-only view of the backing value mapping, touching nothing.
    pub fn direct(&self) -> (m: &HashMap<u64, V>)
        ensures
            m@ == self.values(),
    {
        &self.backing
    }

    /// A mutable view of the backing value mapping, touching nothing. A key
    /// inserted through it gets no stamp, so the next prune removes it
    /// unless a touching operation sees it first.
    pub fn direct_mut(&mut self) -> (m: &mut HashMap<u64, V>)
        ensures
            (*m)@ == old(self).values(),
            final(self).values() == (*final(m))@,
            final(self).stamps() == old(self).stamps(),
            final(self).lifetime() == old(self).lifetime(),
            final(self).timer() == old(self).timer(),
    {
        &mut self.backing
    }

    /// The remaining lifetime of `key` as of the timer's current reading.
    ///
    /// A pure query: it does not touch `key`. A key with no recorded stamp
    /// reports zero.
    pub fn remaining_lifetime(&self, key: &u64) -> (r: u32)
        ensures
            exists|now: i64| r == spec_remaining(self.stamps(), self.lifetime(), *key, now),
    {
        let now = self.timer.get_time();
        self.remaining_lifetime_at(key, now)
    }
}

/// A key that was never touched, or whose stamp a prune has dropped, has no
/// recorded stamp, and its remaining lifetime is the zero sentinel at every
/// instant.
pub proof fn lemma_untracked_key_has_no_lifetime(
    stamps: Map<u64, i64>,
    lifetime: u32,
    key: u64,
    now: i64,
)
    requires
        !stamps.contains_key(key),
    ensures
        spec_remaining(stamps, lifetime, key, now) == 0,
{
}

/// Touching a key resets its remaining lifetime to the full configured
/// window, whatever its state was before: as of the touch instant, the
/// query reports exactly `lifetime`. Every touching operation stamps the
/// key this way, a fresh insert as much as a repeated lookup.
pub proof fn lemma_touch_resets_lifetime(
    stamps: Map<u64, i64>,
    lifetime: u32,
    key: u64,
    now: i64,
)
    ensures
        spec_remaining(stamps.insert(key, now), lifetime, key, now) == lifetime,
{
}

/// While the window has not yet elapsed, the remaining lifetime counts down
/// exactly: `d` ticks after a touch, `lifetime - d` is left.
pub proof fn lemma_remaining_counts_down(
    stamps: Map<u64, i64>,
    lifetime: u32,
    key: u64,
    now: i64,
    d: int,
)
    requires
        stamps.contains_key(key),
        now - stamps[key] == d,
        0 <= d < lifetime,
    ensures
        spec_remaining(stamps, lifetime, key, now) == lifetime - d,
{
}

/// Once at least the full window has elapsed since the last touch, the
/// remaining lifetime is zero: it never goes negative.
pub proof fn lemma_expired_key_reports_zero(
    stamps: Map<u64, i64>,
    lifetime: u32,
    key: u64,
    now: i64,
)
    requires
        stamps.contains_key(key),
        now - stamps[key] >= lifetime,
    ensures
        spec_remaining(stamps, lifetime, key, now) == 0,
{
}

/// A prune at time `now` removes exactly the keys whose elapsed time since
/// the last touch has reached the lifetime: such a key loses both stamp and
/// value, while every other stamped key keeps its stamp and its value
/// unchanged.
pub proof fn lemma_prune_is_exact<V>(
    values: Map<u64, V>,
    stamps: Map<u64, i64>,
    lifetime: u32,
    now: i64,
    key: u64,
)
    ensures
        (stamps.contains_key(key) && now - stamps[key] >= lifetime) ==> ({
            let kept = pruned_stamps(stamps, lifetime, now);
            !kept.contains_key(key) && !pruned_values(values, kept).contains_key(key)
        }),
        (stamps.contains_key(key) && now - stamps[key] < lifetime) ==> ({
            let kept = pruned_stamps(stamps, lifetime, now);
            &&& kept.contains_key(key)
            &&& kept[key] == stamps[key]
            &&& values.contains_key(key) ==> {
                &&& pruned_values(values, kept).contains_key(key)
                &&& pruned_values(values, kept)[key] == values[key]
            }
        }),
{
}

/// After a prune, every key still reachable in the value mapping has a
/// remaining lifetime above zero at the prune instant. The statement leaves
/// out one input: a zero lifetime combined with a stamp ahead of the clock
/// (clock misuse), where a key survives the sweep with nothing left.
pub proof fn lemma_pruned_survivors_are_live<V>(
    values: Map<u64, V>,
    stamps: Map<u64, i64>,
    lifetime: u32,
    now: i64,
    key: u64,
)
    requires
        pruned_values(values, pruned_stamps(stamps, lifetime, now)).contains_key(key),
        lifetime > 0 || now >= stamps[key],
    ensures
        spec_remaining(pruned_stamps(stamps, lifetime, now), lifetime, key, now) > 0,
{
}

/// Inserting and immediately reading back: a get at the insert instant
/// returns the inserted value, and its own touch writes the very stamp the
/// insert wrote, so the key's remaining lifetime is exactly what the
/// insert's refresh already made it.
pub proof fn lemma_insert_then_get_round_trip<V>(
    values: Map<u64, V>,
    stamps: Map<u64, i64>,
    lifetime: u32,
    key: u64,
    value: V,
    now: i64,
)
    ensures
        values.insert(key, value).contains_key(key),
        values.insert(key, value)[key] == value,
        stamps.insert(key, now).insert(key, now) == stamps.insert(key, now),
        spec_remaining(stamps.insert(key, now), lifetime, key, now) == lifetime,
{
    assert(stamps.insert(key, now).insert(key, now) =~= stamps.insert(key, now));
}

} // verus!
