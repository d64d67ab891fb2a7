//! The deduplicating prefetch cache: it remembers which account keys and
//! which (account, slot) pairs were already targeted for prefetch, so that
//! repeated deltas touching the same keys are not walked again.

use vstd::prelude::*;

use crate::delta::AccountRecord;
use crate::delta::StateDelta;
use crate::delta::StateDeltaV;
use crate::delta::StorageDelta;
use crate::delta::StorageDeltaV;
use crate::delta::contains_u64;
use crate::delta::find_index;
use crate::delta::has_key;
use crate::delta::lemma_filter_push;
use crate::delta::lemma_map_values_push;
use crate::delta::lemma_push_assoc;
use crate::delta::lemma_remove_assoc;
use crate::delta::lemma_storages_view;
use crate::delta::lemma_uniq_val;
use crate::delta::lookup_record;
use crate::delta::uniq_keys;
use crate::delta::val_of;

verus! {

/// What the cache has seen of one account's storage.
struct SlotCache {
    wiped_seen: bool,
    slots: Vec<u64>,
}

/// The prefetch engine's state: the dedup cache. It only grows; it lives as
/// long as the scheduler loop that owns it.
pub struct TriePrefetch {
    seen_accounts: Vec<u64>,
    seen_storage: Vec<(u64, SlotCache)>,
}

/// Mathematical image of the cache: the set of seen account keys, the seen
/// slot keys per account, and the accounts whose storage wipe was seen.
#[verifier::ext_equal]
pub struct CacheV {
    pub accounts: Set<u64>,
    pub slots: Map<u64, Set<u64>>,
    pub wiped: Set<u64>,
}

impl View for TriePrefetch {
    type V = CacheV;

    closed spec fn view(&self) -> CacheV {
        CacheV {
            accounts: self.seen_accounts@.to_set(),
            slots: Map::new(
                |a: u64| has_key(self.seen_storage@, a),
                |a: u64| val_of(self.seen_storage@, a).slots@.to_set(),
            ),
            wiped: Set::new(
                |a: u64| has_key(self.seen_storage@, a) && val_of(self.seen_storage@, a).wiped_seen,
            ),
        }
    }
}

/// The slot keys the cache has seen for account `a` (empty when unknown).
pub open spec fn slots_of(c: CacheV, a: u64) -> Set<u64> {
    if c.slots.dom().contains(a) {
        c.slots[a]
    } else {
        Set::empty()
    }
}

/// The predicate picking slot entries whose key the cache has not seen for `a`.
pub open spec fn slot_unseen(c: CacheV, a: u64) -> spec_fn((u64, u64)) -> bool {
    |q: (u64, u64)| !slots_of(c, a).contains(q.0)
}

/// The slot entries of `sd` whose keys the cache has not seen for account `a`.
pub open spec fn fresh_slots(sd: StorageDeltaV, a: u64, c: CacheV) -> Seq<(u64, u64)> {
    sd.slots.filter(slot_unseen(c, a))
}

/// Whether `sd` carries a wipe of account `a` that the cache has not seen.
pub open spec fn fresh_wipe(sd: StorageDeltaV, a: u64, c: CacheV) -> bool {
    sd.wiped && !c.wiped.contains(a)
}

/// Whether the storage entry survives deduplication: it has a fresh slot, or
/// a fresh wipe signal (a wipe must reach the prefix sets even when every
/// slot value is already cached).
pub open spec fn storage_included(sd: StorageDeltaV, a: u64, c: CacheV) -> bool {
    fresh_slots(sd, a, c).len() > 0 || fresh_wipe(sd, a, c)
}

/// The deduplicated image of one storage entry.
pub open spec fn residual_storage_entry(sd: StorageDeltaV, a: u64, c: CacheV) -> StorageDeltaV {
    StorageDeltaV { wiped: fresh_wipe(sd, a, c), slots: fresh_slots(sd, a, c) }
}

/// The predicate picking storage entries that survive deduplication.
pub open spec fn included_pred(c: CacheV) -> spec_fn((u64, StorageDeltaV)) -> bool {
    |e: (u64, StorageDeltaV)| storage_included(e.1, e.0, c)
}

/// The map from a surviving storage entry to its deduplicated image.
pub open spec fn residual_map(c: CacheV) -> spec_fn((u64, StorageDeltaV)) -> (u64, StorageDeltaV) {
    |e: (u64, StorageDeltaV)| (e.0, residual_storage_entry(e.1, e.0, c))
}

/// The storage entries of the residual delta, in input order.
pub open spec fn residual_storages(d: StateDeltaV, c: CacheV) -> Seq<(u64, StorageDeltaV)> {
    d.storages.filter(included_pred(c)).map_values(residual_map(c))
}

/// The predicate picking accounts that pass the account-level dedup: no
/// storage entry in the delta, and not yet seen.
pub open spec fn fp_pred(d: StateDeltaV, c: CacheV) -> spec_fn((u64, AccountRecord)) -> bool {
    |p: (u64, AccountRecord)| !has_key(d.storages, p.0) && !c.accounts.contains(p.0)
}

/// Account entries that pass the account-level dedup.
pub open spec fn first_pass_accounts(d: StateDeltaV, c: CacheV) -> Seq<(u64, AccountRecord)> {
    d.accounts.filter(fp_pred(d, c))
}

/// The predicate picking storage entries that survive and also have an
/// account record in the delta.
pub open spec fn carried_pred(d: StateDeltaV, c: CacheV) -> spec_fn((u64, StorageDeltaV)) -> bool {
    |e: (u64, StorageDeltaV)| storage_included(e.1, e.0, c) && has_key(d.accounts, e.0)
}

/// The map from such a storage entry to the carried account record.
pub open spec fn carried_map(d: StateDeltaV) -> spec_fn((u64, StorageDeltaV)) -> (
    u64,
    AccountRecord,
) {
    |e: (u64, StorageDeltaV)| (e.0, val_of(d.accounts, e.0))
}

/// Account records carried into the residual because their storage entry
/// survived: the walker must still see the record of such an account.
pub open spec fn carried_accounts(d: StateDeltaV, c: CacheV) -> Seq<(u64, AccountRecord)> {
    d.storages.filter(carried_pred(d, c)).map_values(carried_map(d))
}

/// The account entries of the residual delta.
pub open spec fn residual_accounts(d: StateDeltaV, c: CacheV) -> Seq<(u64, AccountRecord)> {
    first_pass_accounts(d, c) + carried_accounts(d, c)
}

/// The account keys marked by the account-level pass over the first `i`
/// account entries.
pub open spec fn pass1_marks(d: StateDeltaV, i: int) -> Set<u64> {
    Set::new(|k: u64| has_key(d.accounts.take(i), k) && !has_key(d.storages, k))
}

/// The account keys the pass marks as seen: accounts without a storage entry.
pub open spec fn acct_marks(d: StateDeltaV) -> Set<u64> {
    Set::new(|k: u64| has_key(d.accounts, k) && !has_key(d.storages, k))
}

/// Seen accounts after one pass.
pub open spec fn cache_accounts_after(d: StateDeltaV, c: CacheV) -> Set<u64> {
    c.accounts + acct_marks(d)
}

/// The slot keys of one storage entry.
pub open spec fn slot_key_set(sd: StorageDeltaV) -> Set<u64> {
    Set::new(|s: u64| has_key(sd.slots, s))
}

/// Seen slots of account `a` after one pass.
pub open spec fn cache_slots_after(d: StateDeltaV, c: CacheV, a: u64) -> Set<u64> {
    if has_key(d.storages, a) {
        slots_of(c, a) + slot_key_set(val_of(d.storages, a))
    } else {
        slots_of(c, a)
    }
}

/// Seen wipes after one pass.
pub open spec fn cache_wiped_after(d: StateDeltaV, c: CacheV) -> Set<u64> {
    c.wiped + Set::new(|a: u64| has_key(d.storages, a) && val_of(d.storages, a).wiped)
}

/// The whole cache after one pass over `d`.
pub open spec fn cache_after(d: StateDeltaV, c: CacheV) -> CacheV {
    CacheV {
        accounts: cache_accounts_after(d, c),
        slots: Map::new(
            |a: u64| c.slots.dom().contains(a) || has_key(d.storages, a),
            |a: u64| cache_slots_after(d, c, a),
        ),
        wiped: cache_wiped_after(d, c),
    }
}

/// The wipe signals seen after processing the first `j` storage entries.
pub open spec fn wipe_marks(d: StateDeltaV, j: int) -> Set<u64> {
    Set::new(|x: u64| has_key(d.storages.take(j), x) && val_of(d.storages, x).wiped)
}

/// The per-account slot caches after processing the first `j` storage entries.
pub open spec fn slots_after(d: StateDeltaV, c: CacheV, j: int) -> Map<u64, Set<u64>> {
    Map::new(
        |x: u64| c.slots.dom().contains(x) || has_key(d.storages.take(j), x),
        |x: u64|
            if has_key(d.storages.take(j), x) {
                slots_of(c, x) + slot_key_set(val_of(d.storages, x))
            } else {
                slots_of(c, x)
            },
    )
}

impl TriePrefetch {
    /// The cache's internal invariant.
    pub closed spec fn wf(&self) -> bool {
        uniq_keys(self.seen_storage@)
    }

    /// Creates an empty cache.
    pub fn new() -> (r: Self)
        ensures
            r.wf(),
            r@.accounts =~= Set::<u64>::empty(),
            r@.wiped =~= Set::<u64>::empty(),
            forall|a: u64| slots_of(r@, a) =~= Set::<u64>::empty(),
    {
        let r = TriePrefetch { seen_accounts: Vec::new(), seen_storage: Vec::new() };
        proof {
            assert forall|a: u64| slots_of(r@, a) =~= Set::<u64>::empty() by {
                assert(!has_key(r.seen_storage@, a));
            }
        }
        r
    }

    /// Marks the slot keys and the wipe signal of one storage entry as seen,
    /// returns the slot entries that were not yet cached, and whether the
    /// entry carries a wipe the cache had not seen.
    fn mark_storage(&mut self, a: u64, sd: &StorageDelta) -> (r: (Vec<(u64, u64)>, bool))
        requires
            old(self).wf(),
            uniq_keys(sd@.slots),
        ensures
            final(self).wf(),
            r.0@ == fresh_slots(sd@, a, old(self)@),
            uniq_keys(r.0@),
            r.1 == fresh_wipe(sd@, a, old(self)@),
            final(self)@.accounts == old(self)@.accounts,
            final(self)@.wiped =~= if sd@.wiped {
                old(self)@.wiped.insert(a)
            } else {
                old(self)@.wiped
            },
            forall|x: u64|
                #![trigger slots_of(final(self)@, x)]
                slots_of(final(self)@, x) =~= if x == a {
                    slots_of(old(self)@, x) + slot_key_set(sd@)
                } else {
                    slots_of(old(self)@, x)
                },
            final(self)@.slots =~~= old(self)@.slots.insert(
                a,
                slots_of(old(self)@, a) + slot_key_set(sd@),
            ),
    {
        let ghost c0 = old(self)@;
        let ghost s0 = self.seen_storage@;
        let sc_found = find_index(&self.seen_storage, a);
        let mut sc: SlotCache = match sc_found {
            Some(i) => {
                proof {
                    lemma_uniq_val(self.seen_storage@, i as int);
                    lemma_remove_assoc(self.seen_storage@, i as int);
                }
                let e = self.seen_storage.remove(i);
                e.1
            },
            None => SlotCache { wiped_seen: false, slots: Vec::new() },
        };
        proof {
            // the entry for `a` is out of the list; `sc` is its cached image
            assert(uniq_keys(self.seen_storage@));
            assert(!has_key(self.seen_storage@, a));
            assert(sc.slots@.to_set() =~= slots_of(c0, a)) by {
                if sc_found is Some {
                } else {
                    assert(!has_key(s0, a));
                    assert(sc.slots@.len() == 0);
                    assert forall|x: u64| !sc.slots@.to_set().contains(x) by {
                        assert(!sc.slots@.contains(x));
                    }
                }
            }
            assert(sc.wiped_seen == c0.wiped.contains(a));
            assert(forall|x: u64|
                x != a ==> (has_key(self.seen_storage@, x) <==> has_key(s0, x)));
            assert(forall|x: u64|
                x != a && has_key(s0, x) ==> #[trigger] val_of(self.seen_storage@, x) == val_of(
                    s0,
                    x,
                ));
        }
        let ghost mid = self.seen_storage@;
        let SlotCache { wiped_seen: sc_wiped, slots: mut sl } = sc;
        let mut fresh: Vec<(u64, u64)> = Vec::new();
        let mut t: usize = 0;
        while t < sd.slots.len()
            invariant
                t <= sd.slots@.len(),
                uniq_keys(sd@.slots),
                sd@.slots == sd.slots@,
                forall|x: u64|
                    sl@.to_set().contains(x) <==> slots_of(c0, a).contains(x) || has_key(
                        sd.slots@.take(t as int),
                        x,
                    ),
                fresh@ == sd.slots@.take(t as int).filter(slot_unseen(c0, a)),
                uniq_keys(fresh@),
                forall|x: u64| has_key(fresh@, x) ==> has_key(sd.slots@.take(t as int), x),
                sc_wiped == c0.wiped.contains(a),
            decreases sd.slots@.len() - t,
        {
            let (s, v) = sd.slots[t];
            proof {
                assert(sd.slots@[t as int] == (s, v));
                // uniqueness: `s` is not among the keys already processed
                assert(!has_key(sd.slots@.take(t as int), s)) by {
                    if has_key(sd.slots@.take(t as int), s) {
                        let j = choose|j: int|
                            0 <= j < t && (#[trigger] sd.slots@.take(t as int)[j]).0 == s;
                        assert(sd.slots@[j].0 == sd.slots@[t as int].0);
                    }
                }
                assert(sd.slots@.take(t as int + 1) =~= sd.slots@.take(t as int).push((s, v)));
                lemma_filter_push(sd.slots@.take(t as int), (s, v), slot_unseen(c0, a));
                crate::delta::lemma_has_key_push(sd.slots@.take(t as int), (s, v));
            }
            let seen = contains_u64(&sl, s);
            if !seen {
                let ghost f0 = fresh@;
                let ghost sl0 = sl@;
                proof {
                    assert(sl0.to_set().contains(s) == sl0.contains(s));
                    assert(!slots_of(c0, a).contains(s));
                    assert(slot_unseen(c0, a)((s, v)));
                }
                sl.push(s);
                fresh.push((s, v));
                proof {
                    assert(!has_key(f0, s));
                    assert(fresh@ == sd.slots@.take(t as int + 1).filter(slot_unseen(c0, a)));
                    assert(uniq_keys(fresh@)) by {
                        assert forall|i: int, j: int| 0 <= i < j < fresh@.len() implies (
                        #[trigger] fresh@[i]).0 != (#[trigger] fresh@[j]).0 by {
                            if j == fresh@.len() - 1 {
                                assert(f0[i] == fresh@[i]);
                                assert(has_key(f0, f0[i].0));
                            }
                        }
                    }
                    assert forall|x: u64|
                        sl@.to_set().contains(x) <==> slots_of(c0, a).contains(x) || has_key(
                            sd.slots@.take(t as int + 1),
                            x,
                        ) by {
                        assert(sl@ == sl0.push(s));
                        if sl@.to_set().contains(x) {
                            assert(sl@.contains(x));
                            let i = choose|i: int| 0 <= i < sl@.len() && sl@[i] == x;
                            if i < sl0.len() {
                                assert(sl0[i] == x);
                                assert(sl0.to_set().contains(x));
                                if !slots_of(c0, a).contains(x) {
                                    assert(has_key(sd.slots@.take(t as int), x));
                                    let j = choose|j: int|
                                        0 <= j < t && (#[trigger] sd.slots@.take(t as int)[j]).0
                                            == x;
                                    assert(sd.slots@.take(t as int + 1)[j].0 == x);
                                }
                            } else {
                                assert(x == s);
                                assert(sd.slots@.take(t as int + 1)[t as int].0 == x);
                            }
                        }
                        if sl0.to_set().contains(x) {
                            let i = choose|i: int| 0 <= i < sl0.len() && sl0[i] == x;
                            assert(sl@[i] == x);
                        }
                        if x == s {
                            assert(sl@[sl@.len() - 1] == x);
                        }
                        if has_key(sd.slots@.take(t as int + 1), x) {
                            let j = choose|j: int|
                                0 <= j <= t && (#[trigger] sd.slots@.take(t as int + 1)[j]).0 == x;
                            if j < t {
                                assert(sd.slots@.take(t as int)[j].0 == x);
                            }
                        }
                    }
                    assert forall|x: u64| has_key(fresh@, x) implies has_key(
                        sd.slots@.take(t as int + 1),
                        x,
                    ) by {
                        crate::delta::lemma_has_key_push(f0, (s, v));
                        if has_key(f0, x) {
                            let j = choose|j: int|
                                0 <= j < t && (#[trigger] sd.slots@.take(t as int)[j]).0 == x;
                            assert(sd.slots@.take(t as int + 1)[j].0 == x);
                        } else {
                            assert(x == s);
                            assert(sd.slots@.take(t as int + 1)[t as int].0 == x);
                        }
                    }
                }
            } else {
                proof {
                    // a seen slot was seen before this delta: it cannot be a
                    // duplicate within the entry
                    assert(slots_of(c0, a).contains(s)) by {
                        assert(sl@.to_set().contains(s) == sl@.contains(s));
                        assert(sl@.to_set().contains(s));
                    }
                    assert(!(slot_unseen(c0, a)((s, v))));
                    assert(fresh@ == sd.slots@.take(t as int + 1).filter(slot_unseen(c0, a)));
                    assert forall|x: u64|
                        sl@.to_set().contains(x) <==> slots_of(c0, a).contains(x) || has_key(
                            sd.slots@.take(t as int + 1),
                            x,
                        ) by {
                        if sl@.to_set().contains(x) && !slots_of(c0, a).contains(x) {
                            let j = choose|j: int|
                                0 <= j < t && (#[trigger] sd.slots@.take(t as int)[j]).0 == x;
                            assert(sd.slots@.take(t as int + 1)[j].0 == x);
                        }
                        if has_key(sd.slots@.take(t as int + 1), x) {
                            let j = choose|j: int|
                                0 <= j <= t && (#[trigger] sd.slots@.take(t as int + 1)[j]).0 == x;
                            if j < t {
                                assert(sd.slots@.take(t as int)[j].0 == x);
                            } else {
                                assert(x == s);
                            }
                        }
                    }
                    assert forall|x: u64| has_key(fresh@, x) implies has_key(
                        sd.slots@.take(t as int + 1),
                        x,
                    ) by {
                        let j = choose|j: int|
                            0 <= j < t && (#[trigger] sd.slots@.take(t as int)[j]).0 == x;
                        assert(sd.slots@.take(t as int + 1)[j].0 == x);
                    }
                }
            }
            t += 1;
        }
        proof {
            assert(sd.slots@.take(sd.slots@.len() as int) =~= sd.slots@);
        }
        let fw = sd.wiped && !sc_wiped;
        let sc2 = SlotCache { wiped_seen: sc_wiped || sd.wiped, slots: sl };
        let ghost sc_final = sc2;
        proof {
            lemma_push_assoc(self.seen_storage@, a, sc2);
        }
        self.seen_storage.push((a, sc2));
        proof {
            let cf = self@;
            assert(cf.wiped =~= if sd@.wiped {
                c0.wiped.insert(a)
            } else {
                c0.wiped
            }) by {
                assert forall|x: u64|
                    cf.wiped.contains(x) <==> (if sd@.wiped {
                        c0.wiped.insert(a)
                    } else {
                        c0.wiped
                    }).contains(x) by {
                    if x == a {
                        assert(val_of(self.seen_storage@, a) == sc_final);
                    } else {
                        if has_key(mid, x) {
                            assert(val_of(self.seen_storage@, x) == val_of(mid, x));
                            assert(val_of(mid, x) == val_of(s0, x));
                        }
                    }
                }
            }
            assert forall|x: u64|
                #![trigger slots_of(cf, x)]
                slots_of(cf, x) =~= if x == a {
                    slots_of(c0, x) + slot_key_set(sd@)
                } else {
                    slots_of(c0, x)
                } by {
                if x == a {
                    assert(has_key(self.seen_storage@, a));
                    assert(val_of(self.seen_storage@, a) == sc_final);
                    assert(slots_of(cf, a) == sc_final.slots@.to_set());
                } else {
                    if has_key(mid, x) {
                        assert(val_of(self.seen_storage@, x) == val_of(mid, x));
                        assert(val_of(mid, x) == val_of(s0, x));
                    }
                }
            }
            assert(cf.slots =~~= c0.slots.insert(a, slots_of(c0, a) + slot_key_set(sd@))) by {
                assert forall|x: u64|
                    cf.slots.dom().contains(x) <==> c0.slots.dom().contains(x) || x == a by {
                    if x != a {
                        if has_key(mid, x) {
                            assert(has_key(self.seen_storage@, x));
                        }
                    } else {
                        assert(has_key(self.seen_storage@, a));
                    }
                }
                assert forall|x: u64| cf.slots.dom().contains(x) implies cf.slots[x]
                    =~= c0.slots.insert(a, slots_of(c0, a) + slot_key_set(sd@))[x] by {
                    assert(cf.slots[x] == slots_of(cf, x));
                    if x == a {
                        assert(slots_of(cf, a) =~= slots_of(c0, a) + slot_key_set(sd@));
                    } else {
                        assert(slots_of(cf, x) =~= slots_of(c0, x));
                        assert(c0.slots.dom().contains(x));
                        assert(c0.slots[x] == slots_of(c0, x));
                    }
                }
            }
        }
        (fresh, fw)
    }

    /// Filters a state delta against the cache and marks everything the delta
    /// touches as seen.
    ///
    /// The residual keeps: accounts not yet seen that have no storage entry in
    /// the delta; storage entries with at least one unseen slot or an unseen
    /// wipe signal, reduced to their unseen slots; and, for each surviving
    /// storage entry, the account record from the delta when there is one, so
    /// the trie walker still sees it. The residual is a subset of the input:
    /// no key is invented.
    pub fn filter_and_mark(&mut self, delta: &StateDelta) -> (res: StateDelta)
        requires
            old(self).wf(),
            delta.wf(),
        ensures
            final(self).wf(),
            res.wf(),
            res@.accounts =~= residual_accounts(delta@, old(self)@),
            res@.storages =~~= residual_storages(delta@, old(self)@),
            final(self)@.accounts =~= cache_accounts_after(delta@, old(self)@),
            forall|x: u64|
                #![trigger slots_of(final(self)@, x)]
                slots_of(final(self)@, x) =~= cache_slots_after(delta@, old(self)@, x),
            final(self)@.wiped =~= cache_wiped_after(delta@, old(self)@),
            final(self)@ =~~= cache_after(delta@, old(self)@),
    {
        let ghost c0 = old(self)@;
        let ghost d = delta@;
        proof {
            lemma_storages_view(delta.storages@);
        }
        let mut res_accounts: Vec<(u64, AccountRecord)> = Vec::new();
        let mut res_storages: Vec<(u64, StorageDelta)> = Vec::new();

        // account-level pass: accounts with no storage entry in the delta
        let mut i: usize = 0;
        while i < delta.accounts.len()
            invariant
                i <= delta.accounts@.len(),
                self.wf(),
                delta.wf(),
                d == delta@,
                c0.accounts == old(self)@.accounts,
                self@.slots == c0.slots,
                self@.wiped == c0.wiped,
                self@.accounts =~= c0.accounts + pass1_marks(d, i as int),
                res_accounts@ == d.accounts.take(i as int).filter(fp_pred(d, c0)),
                uniq_keys(res_accounts@),
                forall|x: u64|
                    has_key(res_accounts@, x) ==> has_key(d.accounts.take(i as int), x)
                        && !has_key(d.storages, x),
            decreases delta.accounts@.len() - i,
        {
            let (k, rec) = delta.accounts[i];
            proof {
                lemma_storages_view(delta.storages@);
                assert(d.accounts[i as int] == (k, rec));
                assert(!has_key(d.accounts.take(i as int), k)) by {
                    if has_key(d.accounts.take(i as int), k) {
                        let j = choose|j: int|
                            0 <= j < i && (#[trigger] d.accounts.take(i as int)[j]).0 == k;
                        assert(d.accounts[j].0 == d.accounts[i as int].0);
                    }
                }
                assert(d.accounts.take(i as int + 1) =~= d.accounts.take(i as int).push((k, rec)));
                lemma_filter_push(d.accounts.take(i as int), (k, rec), fp_pred(d, c0));
                crate::delta::lemma_has_key_push(d.accounts.take(i as int), (k, rec));
            }
            let in_storages = find_index(&delta.storages, k).is_some();
            if !in_storages {
                let already = contains_u64(&self.seen_accounts, k);
                proof {
                    assert(!has_key(d.storages, k));
                    assert(self@.accounts.contains(k) == self.seen_accounts@.contains(k));
                    assert(!pass1_marks(d, i as int).contains(k));
                    assert(already == c0.accounts.contains(k));
                    assert(fp_pred(d, c0)((k, rec)) == !already);
                }
                let ghost ra0 = res_accounts@;
                if !already {
                    res_accounts.push((k, rec));
                    proof {
                        crate::delta::lemma_has_key_push(ra0, (k, rec));
                        assert(uniq_keys(res_accounts@)) by {
                            assert forall|p: int, q: int| 0 <= p < q < res_accounts@.len() implies (
                            #[trigger] res_accounts@[p]).0 != (#[trigger] res_accounts@[q]).0 by {
                                if q == res_accounts@.len() - 1 {
                                    assert(ra0[p] == res_accounts@[p]);
                                    assert(has_key(ra0, ra0[p].0));
                                }
                            }
                        }
                    }
                }
                self.mark_account(k);
            } else {
                proof {
                    assert(has_key(delta.storages@, k));
                    assert(has_key(d.storages, k));
                    assert(fp_pred(d, c0)((k, rec)) == false);
                }
            }
            proof {
                assert(self@.accounts =~= c0.accounts + pass1_marks(d, i as int + 1)) by {
                    assert forall|x: u64|
                        pass1_marks(d, i as int + 1).contains(x) <==> pass1_marks(
                            d,
                            i as int,
                        ).contains(x) || (x == k && !has_key(d.storages, k)) by {}
                }
                assert(res_accounts@ == d.accounts.take(i as int + 1).filter(fp_pred(d, c0)));
            }
            i += 1;
        }
        proof {
            assert(d.accounts.take(d.accounts.len() as int) =~= d.accounts);
            assert(res_accounts@ == first_pass_accounts(d, c0));
            assert(self@.accounts =~= cache_accounts_after(d, c0)) by {
                assert forall|x: u64|
                    pass1_marks(d, d.accounts.len() as int).contains(x) <==> acct_marks(
                        d,
                    ).contains(x) by {}
            }
        }
        let ghost fpa = res_accounts@;
        proof {
            assert(self@.slots =~~= slots_after(d, c0, 0)) by {
                assert(forall|x: u64| !has_key(d.storages.take(0), x));
                assert forall|x: u64|
                    self@.slots.dom().contains(x) <==> slots_after(d, c0, 0).dom().contains(x) by {}
                assert forall|x: u64| self@.slots.dom().contains(x) implies self@.slots[x]
                    =~= slots_after(d, c0, 0)[x] by {
                    assert(slots_after(d, c0, 0)[x] == slots_of(c0, x));
                }
            }
            assert(self@.wiped =~= c0.wiped + wipe_marks(d, 0)) by {
                assert(forall|x: u64| !has_key(d.storages.take(0), x));
            }
        }

        // storage-level pass: unseen slots and unseen wipe signals survive
        let mut j: usize = 0;
        while j < delta.storages.len()
            invariant
                j <= delta.storages@.len(),
                self.wf(),
                delta.wf(),
                d == delta@,
                fpa == first_pass_accounts(d, c0),
                self@.accounts =~= cache_accounts_after(d, c0),
                self@.slots =~~= slots_after(d, c0, j as int),
                self@.wiped =~= c0.wiped + wipe_marks(d, j as int),
                crate::delta::storages_view(res_storages@) == d.storages.take(j as int).filter(
                    included_pred(c0),
                ).map_values(residual_map(c0)),
                res_accounts@ == fpa + d.storages.take(j as int).filter(carried_pred(d, c0)).map_values(
                    carried_map(d),
                ),
                uniq_keys(res_accounts@),
                forall|x: u64|
                    has_key(res_accounts@, x) ==> has_key(d.accounts, x) && (!has_key(d.storages, x)
                        || has_key(d.storages.take(j as int), x)),
                uniq_keys(res_storages@),
                forall|x: u64| has_key(res_storages@, x) ==> has_key(d.storages.take(j as int), x),
                forall|idx: int|
                    0 <= idx < res_storages@.len() ==> uniq_keys(
                        (#[trigger] res_storages@[idx]).1.slots@,
                    ),
            decreases delta.storages@.len() - j,
        {
            let entry = &delta.storages[j];
            let a = entry.0;
            let sd = &entry.1;
            proof {
                lemma_storages_view(delta.storages@);
                assert(delta.storages@[j as int] == (a, *sd));
                assert(d.storages[j as int] == (a, sd@));
                assert(uniq_keys(d.storages));
                lemma_uniq_val(d.storages, j as int);
                assert(val_of(d.storages, a) == sd@);
                assert(uniq_keys(sd@.slots));
                assert(!has_key(d.storages.take(j as int), a)) by {
                    if has_key(d.storages.take(j as int), a) {
                        let q = choose|q: int|
                            0 <= q < j && (#[trigger] d.storages.take(j as int)[q]).0 == a;
                        assert(d.storages[q].0 == d.storages[j as int].0);
                    }
                }
                assert(d.storages.take(j as int + 1) =~= d.storages.take(j as int).push((a, sd@)));
                lemma_filter_push(d.storages.take(j as int), (a, sd@), included_pred(c0));
                lemma_filter_push(d.storages.take(j as int), (a, sd@), carried_pred(d, c0));
                crate::delta::lemma_has_key_push(d.storages.take(j as int), (a, sd@));
            }
            let ghost cj = self@;
            let (fresh, fw) = self.mark_storage(a, sd);
            proof {
                // relative to the cache before this pass, the same slots and
                // wipe are fresh: this entry's account was not touched yet
                assert(slots_of(cj, a) =~= slots_of(c0, a));
                assert(cj.wiped.contains(a) == c0.wiped.contains(a));
                crate::delta::lemma_filter_congruent(
                    sd@.slots,
                    slot_unseen(cj, a),
                    slot_unseen(c0, a),
                );
                assert(fresh@ == fresh_slots(sd@, a, c0));
                assert(fw == fresh_wipe(sd@, a, c0));
            }
            let keep = fresh.len() > 0 || fw;
            proof {
                assert(keep == storage_included(sd@, a, c0));
            }
            if keep {
                let carried = lookup_record(&delta.accounts, a);
                let ghost ra0 = res_accounts@;
                if let Some(r) = carried {
                    res_accounts.push((a, r));
                    proof {
                        crate::delta::lemma_has_key_push(ra0, (a, r));
                        assert(!has_key(ra0, a));
                        assert(uniq_keys(res_accounts@)) by {
                            assert forall|p: int, q: int| 0 <= p < q < res_accounts@.len() implies (
                            #[trigger] res_accounts@[p]).0 != (#[trigger] res_accounts@[q]).0 by {
                                if q == res_accounts@.len() - 1 {
                                    assert(ra0[p] == res_accounts@[p]);
                                    assert(has_key(ra0, ra0[p].0));
                                }
                            }
                        }
                        assert(carried_pred(d, c0)((a, sd@)));
                        assert(carried_map(d)((a, sd@)) == (a, r));
                        lemma_map_values_push(
                            d.storages.take(j as int).filter(carried_pred(d, c0)),
                            (a, sd@),
                            carried_map(d),
                        );
                        assert(res_accounts@ == fpa + d.storages.take(j as int + 1).filter(
                            carried_pred(d, c0),
                        ).map_values(carried_map(d))) by {
                            assert(res_accounts@ =~= fpa + (d.storages.take(j as int).filter(
                                carried_pred(d, c0),
                            ).map_values(carried_map(d))).push((a, r)));
                        }
                    }
                } else {
                    proof {
                        assert(!has_key(d.accounts, a));
                        assert(!(carried_pred(d, c0)((a, sd@))));
                    }
                }
                let ghost rs0 = res_storages@;
                let new_sd = StorageDelta { wiped: fw, slots: fresh };
                res_storages.push((a, new_sd));
                proof {
                    crate::delta::lemma_has_key_push(rs0, (a, new_sd));
                    assert(uniq_keys(res_storages@)) by {
                        assert forall|p: int, q: int| 0 <= p < q < res_storages@.len() implies (
                        #[trigger] res_storages@[p]).0 != (#[trigger] res_storages@[q]).0 by {
                            if q == res_storages@.len() - 1 {
                                assert(rs0[p] == res_storages@[p]);
                                assert(has_key(rs0, rs0[p].0));
                            }
                        }
                    }
                    assert(new_sd@ == residual_storage_entry(sd@, a, c0)) by {
                        assert(new_sd@.slots == fresh_slots(sd@, a, c0));
                        assert(new_sd@.wiped == fresh_wipe(sd@, a, c0));
                        assert(new_sd@ =~= residual_storage_entry(sd@, a, c0));
                    }
                    assert(residual_map(c0)((a, sd@)) == (a, new_sd@));
                    lemma_map_values_push(
                        d.storages.take(j as int).filter(included_pred(c0)),
                        (a, sd@),
                        residual_map(c0),
                    );
                    assert(crate::delta::storages_view(res_storages@) == d.storages.take(
                        j as int + 1,
                    ).filter(included_pred(c0)).map_values(residual_map(c0))) by {
                        assert(crate::delta::storages_view(res_storages@) =~= crate::delta::storages_view(
                            rs0,
                        ).push((a, new_sd@)));
                    }
                    assert forall|x: u64| has_key(res_storages@, x) implies has_key(
                        d.storages.take(j as int + 1),
                        x,
                    ) by {
                        let q0 = choose|q0: int|
                            0 <= q0 < res_storages@.len() && (#[trigger] res_storages@[q0]).0 == x;
                        if q0 < rs0.len() {
                            assert(rs0[q0].0 == x);
                            assert(has_key(rs0, x));
                            let q = choose|q: int|
                                0 <= q < j && (#[trigger] d.storages.take(j as int)[q]).0 == x;
                            assert(d.storages.take(j as int + 1)[q].0 == x);
                        } else {
                            assert(x == a);
                            assert(d.storages.take(j as int + 1)[j as int].0 == x);
                        }
                    }
                    assert forall|x: u64| has_key(res_accounts@, x) implies has_key(d.accounts, x)
                        && (!has_key(d.storages, x) || has_key(
                        d.storages.take(j as int + 1),
                        x,
                    )) by {
                        let q0 = choose|q0: int|
                            0 <= q0 < res_accounts@.len() && (#[trigger] res_accounts@[q0]).0 == x;
                        if q0 < ra0.len() {
                            assert(ra0[q0].0 == x);
                            assert(has_key(ra0, x));
                            if has_key(d.storages.take(j as int), x) {
                                let q = choose|q: int|
                                    0 <= q < j && (#[trigger] d.storages.take(j as int)[q]).0 == x;
                                assert(d.storages.take(j as int + 1)[q].0 == x);
                            }
                        } else {
                            assert(x == a);
                            assert(has_key(d.accounts, a));
                            assert(d.storages.take(j as int + 1)[j as int].0 == x);
                        }
                    }
                }
            } else {
                proof {
                    assert(!(carried_pred(d, c0)((a, sd@))));
                    assert(!(included_pred(c0)((a, sd@))));
                    assert forall|x: u64| has_key(res_storages@, x) implies has_key(
                        d.storages.take(j as int + 1),
                        x,
                    ) by {
                        let q = choose|q: int|
                            0 <= q < j && (#[trigger] d.storages.take(j as int)[q]).0 == x;
                        assert(d.storages.take(j as int + 1)[q].0 == x);
                    }
                    assert forall|x: u64| has_key(res_accounts@, x) implies has_key(d.accounts, x)
                        && (!has_key(d.storages, x) || has_key(
                        d.storages.take(j as int + 1),
                        x,
                    )) by {
                        if has_key(d.storages.take(j as int), x) {
                            let q = choose|q: int|
                                0 <= q < j && (#[trigger] d.storages.take(j as int)[q]).0 == x;
                            assert(d.storages.take(j as int + 1)[q].0 == x);
                        }
                    }
                }
            }
            proof {
                // the cache now covers this entry too
                assert(self@.wiped =~= c0.wiped + wipe_marks(d, j as int + 1)) by {
                    assert(cj.wiped == c0.wiped + wipe_marks(d, j as int));
                    assert forall|x: u64|
                        self@.wiped.contains(x) <==> (c0.wiped + wipe_marks(d, j as int + 1)).contains(
                            x,
                        ) by {
                        if x == a {
                            assert(has_key(d.storages.take(j as int + 1), a)) by {
                                assert(d.storages.take(j as int + 1)[j as int].0 == a);
                            }
                            assert(!wipe_marks(d, j as int).contains(a));
                            assert(self@.wiped.contains(a) == (cj.wiped.contains(a) || sd@.wiped));
                            assert(wipe_marks(d, j as int + 1).contains(a) == sd@.wiped);
                        } else {
                            assert(self@.wiped.contains(x) == cj.wiped.contains(x));
                            assert(wipe_marks(d, j as int + 1).contains(x) == wipe_marks(
                                d,
                                j as int,
                            ).contains(x)) by {
                                if has_key(d.storages.take(j as int + 1), x) {
                                    let q = choose|q: int|
                                        0 <= q <= j && (#[trigger] d.storages.take(
                                            j as int + 1,
                                        )[q]).0 == x;
                                    assert(d.storages.take(j as int)[q].0 == x);
                                }
                                if has_key(d.storages.take(j as int), x) {
                                    let q = choose|q: int|
                                        0 <= q < j && (#[trigger] d.storages.take(j as int)[q]).0
                                            == x;
                                    assert(d.storages.take(j as int + 1)[q].0 == x);
                                }
                            }
                        }
                    }
                }
                assert(self@.slots =~~= slots_after(d, c0, j as int + 1)) by {
                    assert(cj.slots == slots_after(d, c0, j as int));
                    assert(self@.slots == cj.slots.insert(a, slots_of(cj, a) + slot_key_set(sd@)));
                    assert(slots_of(cj, a) =~= slots_of(c0, a)) by {
                        assert(!has_key(d.storages.take(j as int), a));
                    }
                    assert(has_key(d.storages.take(j as int + 1), a)) by {
                        assert(d.storages.take(j as int + 1)[j as int].0 == a);
                    }
                    assert forall|x: u64|
                        self@.slots.dom().contains(x) <==> slots_after(
                            d,
                            c0,
                            j as int + 1,
                        ).dom().contains(x) by {
                        if x != a {
                            if has_key(d.storages.take(j as int + 1), x) {
                                let q = choose|q: int|
                                    0 <= q <= j && (#[trigger] d.storages.take(j as int + 1)[q]).0
                                        == x;
                                assert(d.storages.take(j as int)[q].0 == x);
                            }
                            if has_key(d.storages.take(j as int), x) {
                                let q = choose|q: int|
                                    0 <= q < j && (#[trigger] d.storages.take(j as int)[q]).0 == x;
                                assert(d.storages.take(j as int + 1)[q].0 == x);
                            }
                        }
                    }
                    assert forall|x: u64| self@.slots.dom().contains(x) implies self@.slots[x]
                        =~= slots_after(d, c0, j as int + 1)[x] by {
                        if x == a {
                            assert(self@.slots[a] == slots_of(cj, a) + slot_key_set(sd@));
                            assert(val_of(d.storages, a) == sd@);
                            assert(slots_after(d, c0, j as int + 1)[a] == slots_of(c0, a)
                                + slot_key_set(sd@));
                        } else {
                            assert(self@.slots[x] == cj.slots[x]);
                            assert(has_key(d.storages.take(j as int + 1), x) == has_key(
                                d.storages.take(j as int),
                                x,
                            )) by {
                                if has_key(d.storages.take(j as int + 1), x) {
                                    let q = choose|q: int|
                                        0 <= q <= j && (#[trigger] d.storages.take(
                                            j as int + 1,
                                        )[q]).0 == x;
                                    assert(d.storages.take(j as int)[q].0 == x);
                                }
                                if has_key(d.storages.take(j as int), x) {
                                    let q = choose|q: int|
                                        0 <= q < j && (#[trigger] d.storages.take(j as int)[q]).0
                                            == x;
                                    assert(d.storages.take(j as int + 1)[q].0 == x);
                                }
                            }
                            assert(cj.slots.dom().contains(x));
                            assert(cj.slots[x] == slots_after(d, c0, j as int)[x]);
                        }
                    }
                }
            }
            j += 1;
        }
        let res = StateDelta { accounts: res_accounts, storages: res_storages };
        proof {
            lemma_storages_view(res.storages@);
            assert(d.storages.take(d.storages.len() as int) =~= d.storages);
            assert(res@.accounts =~= residual_accounts(d, c0));
            assert(res@.storages =~~= residual_storages(d, c0));
            assert(res.wf()) by {
                assert forall|idx: int| 0 <= idx < res@.storages.len() implies uniq_keys(
                    (#[trigger] res@.storages[idx]).1.slots,
                ) by {
                    assert(res@.storages[idx] == (res.storages@[idx].0, res.storages@[idx].1@));
                }
            }
            let ghost n = d.storages.len() as int;
            assert(self@.slots == slots_after(d, c0, n));
            assert(self@.wiped == c0.wiped + wipe_marks(d, n));
            assert forall|x: u64|
                #![trigger slots_of(self@, x)]
                slots_of(self@, x) =~= cache_slots_after(d, c0, x) by {
                assert(has_key(d.storages.take(n), x) == has_key(d.storages, x));
                if self@.slots.dom().contains(x) {
                    assert(self@.slots[x] == slots_after(d, c0, n)[x]);
                } else {
                    assert(!has_key(d.storages, x));
                    assert(!c0.slots.dom().contains(x));
                }
            }
            assert(self@.wiped =~= cache_wiped_after(d, c0)) by {
                assert forall|x: u64|
                    self@.wiped.contains(x) <==> cache_wiped_after(d, c0).contains(x) by {
                    assert(has_key(d.storages.take(n), x) == has_key(d.storages, x));
                }
            }
            assert(self@ =~~= cache_after(d, c0)) by {
                assert(self@.slots =~~= cache_after(d, c0).slots) by {
                    assert forall|x: u64|
                        self@.slots.dom().contains(x) <==> cache_after(d, c0).slots.dom().contains(
                            x,
                        ) by {
                        assert(has_key(d.storages.take(n), x) == has_key(d.storages, x));
                    }
                    assert forall|x: u64| self@.slots.dom().contains(x) implies self@.slots[x]
                        =~= cache_after(d, c0).slots[x] by {
                        assert(has_key(d.storages.take(n), x) == has_key(d.storages, x));
                        assert(self@.slots[x] == slots_after(d, c0, n)[x]);
                        assert(cache_after(d, c0).slots[x] == cache_slots_after(d, c0, x));
                    }
                }
            }
        }
        res
    }

    /// Marks account `k` as seen.
    fn mark_account(&mut self, k: u64)
        requires
            old(self).wf(),
        ensures
            final(self).wf(),
            final(self)@.accounts =~= old(self)@.accounts.insert(k),
            final(self)@.slots == old(self)@.slots,
            final(self)@.wiped == old(self)@.wiped,
    {
        if !contains_u64(&self.seen_accounts, k) {
            let ghost s0 = self.seen_accounts@;
            self.seen_accounts.push(k);
            proof {
                assert forall|x: u64|
                    self.seen_accounts@.to_set().contains(x) <==> s0.to_set().insert(k).contains(
                        x,
                    ) by {
                    if self.seen_accounts@.contains(x) {
                        let i = choose|i: int|
                            0 <= i < self.seen_accounts@.len() && self.seen_accounts@[i] == x;
                        if i < s0.len() {
                            assert(s0[i] == x);
                        }
                    }
                    if s0.contains(x) {
                        let i = choose|i: int| 0 <= i < s0.len() && s0[i] == x;
                        assert(self.seen_accounts@[i] == x);
                    }
                    if x == k {
                        assert(self.seen_accounts@[s0.len() as int] == k);
                    }
                }
                assert(self@.accounts =~= old(self)@.accounts.insert(k));
            }
        } else {
            proof {
                assert(self@.accounts =~= old(self)@.accounts.insert(k));
            }
        }
    }
}

impl Default for TriePrefetch {
    /// An empty cache.
    fn default() -> (r: Self)
        ensures
            r.wf(),
            r@.accounts =~= Set::<u64>::empty(),
            r@.wiped =~= Set::<u64>::empty(),
            forall|a: u64| slots_of(r@, a) =~= Set::<u64>::empty(),
    {
        TriePrefetch::new()
    }
}

/// If a storage entry survives deduplication, its image stands in the
/// residual at some position.
proof fn lemma_residual_storage_entry_at(d: StateDeltaV, c: CacheV, i: int)
    requires
        0 <= i < d.storages.len(),
        included_pred(c)(d.storages[i]),
    ensures
        exists|k: int|
            0 <= k < residual_storages(d, c).len() && #[trigger] residual_storages(d, c)[k] == (
                d.storages[i].0,
                residual_storage_entry(d.storages[i].1, d.storages[i].0, c),
            ),
{
    let e = d.storages[i];
    d.storages.lemma_filter_contains(included_pred(c), i);
    let f = d.storages.filter(included_pred(c));
    assert(f.contains(e));
    let k = choose|k: int| 0 <= k < f.len() && f[k] == e;
    assert(residual_storages(d, c)[k] == residual_map(c)(e));
}

/// Whether a delta still carries anything the cache has not seen. When it
/// does not, deduplication filters it to an empty residual.
pub open spec fn delta_effective(d: StateDeltaV, c: CacheV) -> bool {
    (exists|i: int| 0 <= i < d.accounts.len() && fp_pred(d, c)(#[trigger] d.accounts[i])) || (
    exists|i: int| 0 <= i < d.storages.len() && included_pred(c)(#[trigger] d.storages[i]))
}

/// Deduplicating an effective delta yields a non-empty residual: the first
/// pass over a fresh delta always surfaces work.
pub proof fn lemma_dedup_first_nonempty(d: StateDeltaV, c: CacheV)
    requires
        delta_effective(d, c),
    ensures
        residual_accounts(d, c).len() + residual_storages(d, c).len() > 0,
{
    if exists|i: int| 0 <= i < d.accounts.len() && fp_pred(d, c)(#[trigger] d.accounts[i]) {
        let i = choose|i: int| 0 <= i < d.accounts.len() && fp_pred(d, c)(#[trigger] d.accounts[i]);
        d.accounts.lemma_filter_contains(fp_pred(d, c), i);
        assert(first_pass_accounts(d, c).contains(d.accounts[i]));
    } else {
        let i = choose|i: int|
            0 <= i < d.storages.len() && included_pred(c)(#[trigger] d.storages[i]);
        d.storages.lemma_filter_contains(included_pred(c), i);
        assert(d.storages.filter(included_pred(c)).contains(d.storages[i]));
    }
}

/// Deduplication is idempotent: once a delta's keys are marked, running the
/// same delta against the updated cache yields an empty residual.
pub proof fn lemma_dedup_idempotent(d: StateDeltaV, c: CacheV, c2: CacheV)
    requires
        uniq_keys(d.accounts),
        uniq_keys(d.storages),
        c2.accounts == cache_accounts_after(d, c),
        forall|x: u64| #![trigger slots_of(c2, x)] slots_of(c2, x) == cache_slots_after(d, c, x),
        c2.wiped == cache_wiped_after(d, c),
    ensures
        residual_accounts(d, c2).len() == 0,
        residual_storages(d, c2).len() == 0,
{
    assert forall|i: int| 0 <= i < d.storages.len() implies !(included_pred(c2)(
        #[trigger] d.storages[i],
    )) by {
        let e = d.storages[i];
        lemma_uniq_val(d.storages, i);
        assert(val_of(d.storages, e.0) == e.1);
        assert(slots_of(c2, e.0) == slots_of(c, e.0) + slot_key_set(e.1));
        assert forall|k: int| 0 <= k < e.1.slots.len() implies !(slot_unseen(c2, e.0)(
            #[trigger] e.1.slots[k],
        )) by {
            assert(has_key(e.1.slots, e.1.slots[k].0));
            assert(slot_key_set(e.1).contains(e.1.slots[k].0));
        }
        crate::delta::lemma_filter_none(e.1.slots, slot_unseen(c2, e.0));
        if e.1.wiped {
            assert(c2.wiped.contains(e.0));
        }
    }
    crate::delta::lemma_filter_none(d.storages, included_pred(c2));
    assert forall|i: int| 0 <= i < d.accounts.len() implies !(fp_pred(d, c2)(
        #[trigger] d.accounts[i],
    )) by {
        let p = d.accounts[i];
        if !has_key(d.storages, p.0) {
            assert(acct_marks(d).contains(p.0));
            assert(c2.accounts.contains(p.0));
        }
    }
    crate::delta::lemma_filter_none(d.accounts, fp_pred(d, c2));
    assert forall|i: int| 0 <= i < d.storages.len() implies !(carried_pred(d, c2)(
        #[trigger] d.storages[i],
    )) by {}
    crate::delta::lemma_filter_none(d.storages, carried_pred(d, c2));
}

/// The residual never invents keys: every residual account entry is an entry
/// of the input delta, and every residual storage entry names an input
/// storage key and only slots that the input holds under that key.
pub proof fn lemma_residual_subset(d: StateDeltaV, c: CacheV)
    requires
        uniq_keys(d.accounts),
        uniq_keys(d.storages),
    ensures
        forall|i: int|
            0 <= i < residual_accounts(d, c).len() ==> d.accounts.contains(
                #[trigger] residual_accounts(d, c)[i],
            ),
        forall|i: int|
            0 <= i < residual_storages(d, c).len() ==> has_key(
                d.storages,
                (#[trigger] residual_storages(d, c)[i]).0,
            ) && forall|k: int|
                0 <= k < residual_storages(d, c)[i].1.slots.len() ==> val_of(
                    d.storages,
                    residual_storages(d, c)[i].0,
                ).slots.contains(#[trigger] residual_storages(d, c)[i].1.slots[k]),
{
    crate::delta::lemma_filter_subseq(d.accounts, fp_pred(d, c));
    crate::delta::lemma_filter_subseq(d.storages, carried_pred(d, c));
    crate::delta::lemma_filter_subseq(d.storages, included_pred(c));
    assert forall|i: int| 0 <= i < residual_accounts(d, c).len() implies d.accounts.contains(
        #[trigger] residual_accounts(d, c)[i],
    ) by {
        let fp = first_pass_accounts(d, c);
        if i < fp.len() {
            assert(residual_accounts(d, c)[i] == fp[i]);
        } else {
            let j = i - fp.len();
            let fc = d.storages.filter(carried_pred(d, c));
            let e = fc[j];
            assert(residual_accounts(d, c)[i] == carried_map(d)(e));
            assert(d.storages.contains(e));
            assert(carried_pred(d, c)(e)) by {
                d.storages.lemma_filter_pred(carried_pred(d, c), j);
            }
            assert(has_key(d.accounts, e.0));
            let w = choose|w: int| 0 <= w < d.accounts.len() && (#[trigger] d.accounts[w]).0 == e.0;
            lemma_uniq_val(d.accounts, w);
            assert(d.accounts[w] == (e.0, val_of(d.accounts, e.0)));
        }
    }
    assert forall|i: int| 0 <= i < residual_storages(d, c).len() implies has_key(
        d.storages,
        (#[trigger] residual_storages(d, c)[i]).0,
    ) && forall|k: int|
        0 <= k < residual_storages(d, c)[i].1.slots.len() ==> val_of(
            d.storages,
            residual_storages(d, c)[i].0,
        ).slots.contains(#[trigger] residual_storages(d, c)[i].1.slots[k]) by {
        let fs = d.storages.filter(included_pred(c));
        let e = fs[i];
        assert(residual_storages(d, c)[i] == residual_map(c)(e));
        assert(d.storages.contains(e));
        let w = choose|w: int| 0 <= w < d.storages.len() && #[trigger] d.storages[w] == e;
        assert(has_key(d.storages, e.0));
        lemma_uniq_val(d.storages, w);
        assert(val_of(d.storages, e.0) == e.1);
        crate::delta::lemma_filter_subseq(e.1.slots, slot_unseen(c, e.0));
    }
}

/// Account-level marking and storage-level marking are independent: a delta
/// that touches account `a` through storage with something unseen surfaces
/// both `a`'s storage entry and `a`'s account record, whatever the
/// account-level cache says of `a`.
pub proof fn lemma_cross_delta_accumulation(d: StateDeltaV, c: CacheV, a: u64)
    requires
        uniq_keys(d.accounts),
        uniq_keys(d.storages),
        has_key(d.accounts, a),
        has_key(d.storages, a),
        storage_included(val_of(d.storages, a), a, c),
    ensures
        has_key(residual_accounts(d, c), a),
        has_key(residual_storages(d, c), a),
{
    let i = choose|i: int| 0 <= i < d.storages.len() && (#[trigger] d.storages[i]).0 == a;
    lemma_uniq_val(d.storages, i);
    assert(included_pred(c)(d.storages[i]));
    lemma_residual_storage_entry_at(d, c, i);
    let k = choose|k: int|
        0 <= k < residual_storages(d, c).len() && #[trigger] residual_storages(d, c)[k] == (
            d.storages[i].0,
            residual_storage_entry(d.storages[i].1, d.storages[i].0, c),
        );
    assert(residual_storages(d, c)[k].0 == a);
    assert(carried_pred(d, c)(d.storages[i]));
    d.storages.lemma_filter_contains(carried_pred(d, c), i);
    let fc = d.storages.filter(carried_pred(d, c));
    assert(fc.contains(d.storages[i]));
    let m = choose|m: int| 0 <= m < fc.len() && fc[m] == d.storages[i];
    assert(carried_accounts(d, c)[m] == carried_map(d)(d.storages[i]));
    let fp = first_pass_accounts(d, c);
    assert(residual_accounts(d, c)[fp.len() + m].0 == a);
}

/// A wipe signal the cache has not seen survives deduplication, even when
/// every slot value of the entry is already cached.
pub proof fn lemma_wipe_signal_survives(d: StateDeltaV, c: CacheV, a: u64)
    requires
        uniq_keys(d.storages),
        has_key(d.storages, a),
        val_of(d.storages, a).wiped,
        !c.wiped.contains(a),
    ensures
        has_key(residual_storages(d, c), a),
        exists|k: int|
            0 <= k < residual_storages(d, c).len() && (#[trigger] residual_storages(d, c)[k]).0
                == a && residual_storages(d, c)[k].1.wiped,
{
    let i = choose|i: int| 0 <= i < d.storages.len() && (#[trigger] d.storages[i]).0 == a;
    lemma_uniq_val(d.storages, i);
    assert(fresh_wipe(d.storages[i].1, a, c));
    assert(included_pred(c)(d.storages[i]));
    lemma_residual_storage_entry_at(d, c, i);
    let k = choose|k: int|
        0 <= k < residual_storages(d, c).len() && #[trigger] residual_storages(d, c)[k] == (
            d.storages[i].0,
            residual_storage_entry(d.storages[i].1, d.storages[i].0, c),
        );
    assert(residual_storages(d, c)[k].0 == a && residual_storages(d, c)[k].1.wiped);
}

} // verus!
