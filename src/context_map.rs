use vstd::prelude::*;

use std::collections::HashMap;

use crate::error::ContextError;
use crate::history::{accepts, floor_of, increasing, latest, value_at, Entry, Registry};

verus! {

broadcast use vstd::std_specs::hash::group_hash_axioms;

/// What a `ContextMap` holds: each written key's history, and for each owned
/// value the key that owns it.
pub struct ContextState {
    pub histories: Map<u64, Seq<Entry>>,
    pub owners: Map<u64, u64>,
}

/// The history of `key` in `m`, empty for a key never written.
pub open spec fn history_of(m: Map<u64, Seq<Entry>>, key: u64) -> Seq<Entry> {
    if m.contains_key(key) {
        m[key]
    } else {
        Seq::empty()
    }
}

/// The key owning `value` in `s`, if any.
pub open spec fn owner(s: ContextState, value: u64) -> Option<u64> {
    if s.owners.contains_key(value) {
        Some(s.owners[value])
    } else {
        None
    }
}

/// Whatever `key`'s latest entry binds, `key` owns.
pub open spec fn latest_owned(s: ContextState, key: u64) -> bool {
    match latest(history_of(s.histories, key)) {
        Some(v) => s.owners.contains_key(v) && s.owners[v] == key,
        None => true,
    }
}

/// `m` after appending `(context, binding)` to the history of `key`.
pub open spec fn appended(
    m: Map<u64, Seq<Entry>>,
    key: u64,
    context: u64,
    binding: Option<u64>,
) -> Map<u64, Seq<Entry>> {
    m.insert(key, history_of(m, key).push((context, binding)))
}

/// The key that an overwrite of `value` by `key` retracts: the owner of
/// `value` when that is another key.
pub open spec fn displaced(s: ContextState, key: u64, value: u64) -> Option<u64> {
    match owner(s, value) {
        Some(k) => if k != key {
            Some(k)
        } else {
            None
        },
        None => None,
    }
}

/// Whether an overwrite of `value` by `key` at `context` is taken: both
/// `key`'s history and the displaced owner's, if any, must accept `context`.
pub open spec fn overwrite_accepted(s: ContextState, key: u64, context: u64, value: u64) -> bool {
    &&& accepts(history_of(s.histories, key), context)
    &&& match displaced(s, key, value) {
        Some(k) => accepts(history_of(s.histories, k), context),
        None => true,
    }
}

/// `s` after a successful overwrite: the displaced owner, if any, is
/// retracted at `context`, then `key` binds `value` at `context` and owns it;
/// every other value keeps its owner.
pub open spec fn overwritten(s: ContextState, key: u64, context: u64, value: u64) -> ContextState {
    let cleared = match displaced(s, key, value) {
        Some(k) => appended(s.histories, k, context, None),
        None => s.histories,
    };
    ContextState {
        histories: appended(cleared, key, context, Some(value)),
        owners: s.owners.insert(value, key),
    }
}

/// `s` after `key` binds the unowned `value` at `context` and comes to own
/// it; every other history and owner stays as it was.
pub open spec fn bound(s: ContextState, key: u64, context: u64, value: u64) -> ContextState {
    ContextState {
        histories: appended(s.histories, key, context, Some(value)),
        owners: s.owners.insert(value, key),
    }
}

/// What `update_overwrite(key, context, value)` returns on `s`, and the state
/// it leaves.
pub open spec fn overwrite_step(s: ContextState, key: u64, context: u64, value: u64) -> (
    Result<(), ContextError>,
    ContextState,
) {
    if overwrite_accepted(s, key, context, value) {
        (Ok(()), overwritten(s, key, context, value))
    } else {
        (Err(ContextError::NonMonotonicContext), s)
    }
}

/// What `update_no_overwrite(key, context, value)` returns on `s`, and the
/// state it leaves.
pub open spec fn no_overwrite_step(s: ContextState, key: u64, context: u64, value: u64) -> (
    Result<(), ContextError>,
    ContextState,
) {
    if s.owners.contains_key(value) {
        (Err(ContextError::ValueAlreadyOwned), s)
    } else if !accepts(history_of(s.histories, key), context) {
        (Err(ContextError::NonMonotonicContext), s)
    } else {
        (Ok(()), bound(s, key, context, value))
    }
}

/// Keys bound to values over time, with a reverse index from each owned value
/// to the one key owning it.
///
/// A key comes to own a value by binding it, and keeps it until an overwrite
/// by another key takes it, which retracts the old owner's history. A key
/// that binds a new value keeps owning the values it bound before, so
/// several values may be owned by one key; whatever a key's latest entry
/// binds, that key owns, so no value is live under two keys. A key's history
/// is created by its first successful write and is kept from then on.
///
/// Keys, contexts and values are `u64`: keys and values are identity handles
/// (an index into the caller's own arena of keys and values), contexts are
/// points on a totally ordered timeline.
pub struct ContextMap {
    keys_to_registries: HashMap<u64, Registry>,
    values_to_keys: HashMap<u64, u64>,
}

impl View for ContextMap {
    type V = ContextState;

    closed spec fn view(&self) -> ContextState {
        ContextState {
            histories: self.keys_to_registries@.map_values(|r: Registry| r@),
            owners: self.values_to_keys@,
        }
    }
}

impl ContextMap {
    spec fn registries_wf(&self) -> bool {
        forall|k: u64| #[trigger]
            self.keys_to_registries@.contains_key(k) ==> self.keys_to_registries@[k].wf()
    }

    /// Every history is strictly increasing; every owner has a non-empty
    /// history; and whatever a key's latest entry binds, that key owns.
    pub closed spec fn wf(&self) -> bool {
        &&& self.registries_wf()
        &&& forall|v: u64| #[trigger]
            self@.owners.contains_key(v) ==> history_of(self@.histories, self@.owners[v]).len()
                > 0
        &&& forall|k: u64| #[trigger] latest_owned(self@, k)
    }

    /// An empty map: no key has a history and no value an owner.
    pub fn new() -> (r: ContextMap)
        ensures
            r.wf(),
            r@.histories == Map::<u64, Seq<Entry>>::empty(),
            r@.owners == Map::<u64, u64>::empty(),
    {
        let r = ContextMap { keys_to_registries: HashMap::new(), values_to_keys: HashMap::new() };
        assert(r@.histories =~= Map::<u64, Seq<Entry>>::empty());
        r
    }

    /// The value that `key` held live at `context`: absent when `key` was
    /// never written, when nothing was recorded for it by `context`, or when
    /// the entry in effect there is a retraction.
    pub fn get(&self, key: u64, context: u64) -> (r: Option<u64>)
        requires
            self.wf(),
        ensures
            r == value_at(history_of(self@.histories, key), context),
    {
        match self.keys_to_registries.get(&key) {
            Some(reg) => reg.get(context),
            None => None,
        }
    }

    /// Whether `key`'s history would take a write at `context`.
    fn key_accepts(&self, key: u64, context: u64) -> (r: bool)
        requires
            self.registries_wf(),
        ensures
            r == accepts(history_of(self@.histories, key), context),
    {
        match self.keys_to_registries.get(&key) {
            Some(reg) => reg.accepts(context),
            None => true,
        }
    }

    /// Appends `(context, binding)` to `key`'s history, creating it if needed;
    /// the reverse index is left as it is.
    fn append(&mut self, key: u64, context: u64, binding: Option<u64>)
        requires
            old(self).registries_wf(),
            accepts(history_of(old(self)@.histories, key), context),
        ensures
            final(self).registries_wf(),
            final(self)@.histories == appended(old(self)@.histories, key, context, binding),
            final(self).values_to_keys@ == old(self).values_to_keys@,
    {
        let mut reg = match self.keys_to_registries.remove(&key) {
            Some(r) => r,
            None => Registry::new(),
        };
        let _ = reg.update(context, binding);
        self.keys_to_registries.insert(key, reg);
        assert(self@.histories =~= appended(old(self)@.histories, key, context, binding));
    }

    /// Retracts `key`, which owns `value`, at `context`: a tombstone is
    /// appended to its history and `value` leaves the reverse index.
    fn retract(&mut self, key: u64, context: u64, value: u64)
        requires
            old(self).wf(),
            owner(old(self)@, value) == Some(key),
            accepts(history_of(old(self)@.histories, key), context),
        ensures
            final(self).wf(),
            final(self)@.histories == appended(old(self)@.histories, key, context, None),
            final(self)@.owners == old(self)@.owners.remove(value),
    {
        self.append(key, context, None);
        self.values_to_keys.remove(&value);
        proof {
            let s = old(self)@;
            assert forall|v: u64| #[trigger] self@.owners.contains_key(v) implies history_of(
                self@.histories,
                self@.owners[v],
            ).len() > 0 by {
                assert(s.owners.contains_key(v));
            }
            assert forall|k: u64| #[trigger] latest_owned(self@, k) by {
                if k != key {
                    assert(latest_owned(s, k));
                }
            }
        }
    }

    /// Binds `value`, which no other key owns, to `key` at `context`: appends
    /// to `key`'s history and records `key` as its owner. Refused with
    /// `NonMonotonicContext`, and nothing changed, when `key`'s history does
    /// not accept `context`.
    fn update_unchecked(&mut self, key: u64, context: u64, value: u64) -> (r: Result<
        (),
        ContextError,
    >)
        requires
            old(self).wf(),
            owner(old(self)@, value) is None || owner(old(self)@, value) == Some(key),
        ensures
            final(self).wf(),
            r == (if accepts(history_of(old(self)@.histories, key), context) {
                Ok::<(), ContextError>(())
            } else {
                Err(ContextError::NonMonotonicContext)
            }),
            r is Ok ==> final(self)@ == bound(old(self)@, key, context, value),
            r is Err ==> final(self)@ == old(self)@,
    {
        if !self.key_accepts(key, context) {
            return Err(ContextError::NonMonotonicContext);
        }
        self.append(key, context, Some(value));
        self.values_to_keys.insert(value, key);
        proof {
            let s = old(self)@;
            assert forall|v: u64| #[trigger] self@.owners.contains_key(v) implies history_of(
                self@.histories,
                self@.owners[v],
            ).len() > 0 by {
                if v != value {
                    assert(s.owners.contains_key(v));
                }
            }
            assert forall|k: u64| #[trigger] latest_owned(self@, k) by {
                if k != key {
                    assert(latest_owned(s, k));
                }
            }
        }
        Ok(())
    }

    /// Binds `value` to `key` at `context`, taking it from any other key that
    /// owns it: that key's history is retracted at `context`. Refused with
    /// `NonMonotonicContext`, and nothing changed, when `key`'s history or the
    /// retracted key's does not accept `context`. A key that already owns
    /// `value` simply records it again. Every other value keeps its owner.
    pub fn update_overwrite(&mut self, key: u64, context: u64, value: u64) -> (r: Result<
        (),
        ContextError,
    >)
        requires
            old(self).wf(),
        ensures
            final(self).wf(),
            (r, final(self)@) == overwrite_step(old(self)@, key, context, value),
    {
        if !self.key_accepts(key, context) {
            return Err(ContextError::NonMonotonicContext);
        }
        let prior: Option<u64> = match self.values_to_keys.get(&value) {
            Some(k) => Some(*k),
            None => None,
        };
        match prior {
            Some(k) => {
                if k != key {
                    if !self.key_accepts(k, context) {
                        return Err(ContextError::NonMonotonicContext);
                    }
                    self.retract(k, context, value);
                }
            },
            None => {},
        }
        let r = self.update_unchecked(key, context, value);
        proof {
            let s = old(self)@;
            let t = overwritten(s, key, context, value);
            assert(self@.owners =~= t.owners);
            assert(self@.histories =~= t.histories);
        }
        r
    }

    /// Binds `value` to `key` at `context` provided no key owns `value`,
    /// `key` included. Refused with `ValueAlreadyOwned` when one does,
    /// otherwise with `NonMonotonicContext` when `key`'s history does not
    /// accept `context`; nothing is changed when refused.
    pub fn update_no_overwrite(&mut self, key: u64, context: u64, value: u64) -> (r: Result<
        (),
        ContextError,
    >)
        requires
            old(self).wf(),
        ensures
            final(self).wf(),
            (r, final(self)@) == no_overwrite_step(old(self)@, key, context, value),
    {
        if self.values_to_keys.contains_key(&value) {
            return Err(ContextError::ValueAlreadyOwned);
        }
        self.update_unchecked(key, context, value)
    }

    /// Every history of a well-formed map is strictly increasing.
    proof fn lemma_histories_increasing(&self, key: u64)
        requires
            self.wf(),
        ensures
            increasing(history_of(self@.histories, key)),
    {
        if self.keys_to_registries@.contains_key(key) {
            assert(self.keys_to_registries@[key].wf());
        }
    }

    /// Writes to one key only go forward in context. Its history is strictly
    /// increasing; a write at a context that is not after every context
    /// already recorded for it is refused by either policy and changes
    /// nothing (by the overwrite policy with `NonMonotonicContext`, and by
    /// the other one too unless the value is owned); a write that is taken
    /// appends at the end of its history, which stays increasing.
    pub proof fn lemma_monotonic(&self, key: u64, context: u64, value: u64)
        requires
            self.wf(),
        ensures
            increasing(history_of(self@.histories, key)),
            (exists|i: int|
                0 <= i < history_of(self@.histories, key).len() && #[trigger] history_of(
                    self@.histories,
                    key,
                )[i].0 >= context) ==> {
                &&& overwrite_step(self@, key, context, value) == (Err::<(), ContextError>(
                    ContextError::NonMonotonicContext,
                ), self@)
                &&& no_overwrite_step(self@, key, context, value).0 is Err
                &&& no_overwrite_step(self@, key, context, value).1 == self@
                &&& owner(self@, value) is None ==> no_overwrite_step(self@, key, context, value).0
                    == Err::<(), ContextError>(ContextError::NonMonotonicContext)
            },
            overwrite_step(self@, key, context, value).0 is Ok ==> {
                let h = history_of(overwrite_step(self@, key, context, value).1.histories, key);
                h == history_of(self@.histories, key).push((context, Some(value))) && increasing(h)
            },
            no_overwrite_step(self@, key, context, value).0 is Ok ==> {
                let h = history_of(no_overwrite_step(self@, key, context, value).1.histories, key);
                h == history_of(self@.histories, key).push((context, Some(value))) && increasing(h)
            },
    {
        let s = history_of(self@.histories, key);
        self.lemma_histories_increasing(key);
        if exists|i: int| 0 <= i < s.len() && #[trigger] s[i].0 >= context {
            let i = choose|i: int| 0 <= i < s.len() && #[trigger] s[i].0 >= context;
            if i < s.len() - 1 {
                assert(s[i].0 < s[s.len() - 1].0);
            }
            assert(!accepts(s, context));
        }
        if accepts(s, context) {
            let t = s.push((context, Some(value)));
            assert forall|i: int, j: int| 0 <= i < j < t.len() implies #[trigger] t[i].0
                < #[trigger] t[j].0 by {
                if j == s.len() && i < s.len() - 1 {
                    assert(s[i].0 < s[s.len() - 1].0);
                }
            }
        }
    }

    /// No value is live under two keys: when the histories of `k1` and `k2`
    /// both give `value` at their own latest context, `k1` and `k2` are the
    /// same key, the owner of `value`.
    pub proof fn lemma_value_unique(&self, k1: u64, k2: u64, value: u64)
        requires
            self.wf(),
            history_of(self@.histories, k1).len() > 0,
            history_of(self@.histories, k2).len() > 0,
            value_at(history_of(self@.histories, k1), history_of(self@.histories, k1).last().0)
                == Some(value),
            value_at(history_of(self@.histories, k2), history_of(self@.histories, k2).last().0)
                == Some(value),
        ensures
            k1 == k2,
            owner(self@, value) == Some(k1),
    {
        assert(latest(history_of(self@.histories, k1)) == Some(value));
        assert(latest(history_of(self@.histories, k2)) == Some(value));
        assert(latest_owned(self@, k1));
        assert(latest_owned(self@, k2));
    }

    /// Overwriting hands a value over: when `a` owns `value` and its latest
    /// entry is at `c1`, and another key `b` writes `value` at `c2 > c1` with
    /// the overwrite policy (its history taking `c2`), the write is taken;
    /// afterwards `a` has nothing live at `c2`, `b` has `value` there and owns
    /// it, and every other value keeps its owner.
    pub proof fn lemma_overwrite_transfer(
        &self,
        a: u64,
        b: u64,
        c1: u64,
        c2: u64,
        value: u64,
    )
        requires
            self.wf(),
            owner(self@, value) == Some(a),
            history_of(self@.histories, a).last().0 == c1,
            a != b,
            c1 < c2,
            accepts(history_of(self@.histories, b), c2),
        ensures
            overwrite_step(self@, b, c2, value).0 is Ok,
            value_at(history_of(overwrite_step(self@, b, c2, value).1.histories, a), c2) is None,
            value_at(history_of(overwrite_step(self@, b, c2, value).1.histories, b), c2) == Some(
                value,
            ),
            owner(overwrite_step(self@, b, c2, value).1, value) == Some(b),
            forall|w: u64|
                w != value ==> #[trigger] owner(overwrite_step(self@, b, c2, value).1, w) == owner(
                    self@,
                    w,
                ),
    {
        assert(history_of(self@.histories, a).len() > 0);
        let m1 = appended(self@.histories, a, c2, None);
        let m2 = appended(m1, b, c2, Some(value));
        assert(history_of(m1, b) == history_of(self@.histories, b));
        assert(history_of(m2, a) == history_of(self@.histories, a).push((c2, None)));
        assert(floor_of(history_of(m2, a), c2) == Some(None::<u64>));
        assert(floor_of(history_of(m2, b), c2) == Some(Some(value)));
    }

    /// Without overwrite an owned value cannot be taken: when `a` owns
    /// `value`, a no-overwrite write of it by any key `b`, `a` included, is
    /// refused with `ValueAlreadyOwned` and leaves every history and owner,
    /// and so every lookup, as it was.
    pub proof fn lemma_no_overwrite_rejects(&self, a: u64, b: u64, context: u64, value: u64)
        requires
            self.wf(),
            owner(self@, value) == Some(a),
        ensures
            no_overwrite_step(self@, b, context, value) == (Err::<(), ContextError>(
                ContextError::ValueAlreadyOwned,
            ), self@),
    {
    }

    /// A taken no-overwrite write moves no value between owners: the written
    /// value goes from unowned to owned by the writing key, and every other
    /// value keeps its owner, with no retraction written anywhere.
    pub proof fn lemma_no_overwrite_keeps_owners(&self, key: u64, context: u64, value: u64)
        requires
            self.wf(),
        ensures
            no_overwrite_step(self@, key, context, value).0 is Ok ==> {
                let t = no_overwrite_step(self@, key, context, value).1;
                &&& owner(self@, value) is None
                &&& owner(t, value) == Some(key)
                &&& forall|w: u64| w != value ==> #[trigger] owner(t, w) == owner(self@, w)
                &&& forall|k: u64|
                    k != key ==> #[trigger] history_of(t.histories, k) == history_of(
                        self@.histories,
                        k,
                    )
            },
    {
    }

    /// A holder re-recording its own value makes an ordinary write: when `a`
    /// owns `value` and its latest entry is at `c1`, an overwrite of `value`
    /// by `a` at `c2 > c1` is taken, appends `(c2, value)` to `a`'s history
    /// alone, with no retraction, leaves every owner as it was, and `a` has
    /// `value` at `c2`.
    pub proof fn lemma_self_reassign(&self, a: u64, c1: u64, c2: u64, value: u64)
        requires
            self.wf(),
            owner(self@, value) == Some(a),
            history_of(self@.histories, a).last().0 == c1,
            c1 < c2,
        ensures
            overwrite_step(self@, a, c2, value).0 is Ok,
            overwrite_step(self@, a, c2, value).1.histories == appended(
                self@.histories,
                a,
                c2,
                Some(value),
            ),
            overwrite_step(self@, a, c2, value).1.owners == self@.owners,
            value_at(history_of(overwrite_step(self@, a, c2, value).1.histories, a), c2) == Some(
                value,
            ),
    {
        assert(history_of(self@.histories, a).len() > 0);
        let m2 = appended(self@.histories, a, c2, Some(value));
        assert(floor_of(history_of(m2, a), c2) == Some(Some(value)));
        assert(self@.owners.insert(value, a) =~= self@.owners);
    }
}

} // verus!
