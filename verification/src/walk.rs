//! The storage-root prefetcher and the account-trie walker: per-account
//! storage walks pruned by prefix sets, and the pass over the account trie
//! that consumes the precomputed results at its leaves.
//!
//! The persistent trie is consumed through a read-only, point-in-time view
//! handed in as plain values: each account's persisted storage entries, and
//! the account trie's branch paths and leaf keys. A per-account fault in that
//! view stands for a cursor failure; a snapshot fault stands for a failure of
//! the storage backend itself.

use vstd::prelude::*;

use crate::dedup::TriePrefetch;
use crate::delta::AccountRecord;
use crate::delta::StateDelta;
use crate::delta::StateDeltaV;
use crate::delta::StorageDelta;
use crate::delta::StorageDeltaV;
use crate::delta::find_index;
use crate::delta::has_key;
use crate::delta::lemma_filter_push;
use crate::delta::lemma_storages_view;
use crate::delta::lemma_uniq_val;
use crate::delta::uniq_keys;
use crate::delta::val_of;
use crate::errors::ProviderError;
use crate::errors::StorageRootError;
use crate::errors::TriePrefetchError;
use crate::prefix::PrefixSet;
use crate::prefix::TriePrefixSets;
use crate::prefix::construct_prefix_sets;
use crate::prefix::touched;

verus! {

/// One account's persisted storage in the read-only view; `fault` injects a
/// per-account cursor failure.
#[derive(Debug)]
pub struct AccountStorage {
    pub fault: Option<StorageRootError>,
    pub slots: Vec<(u64, u64)>,
}

/// The hashed-storage cursor source: per-account persisted storage entries.
#[derive(Debug)]
pub struct StorageSource {
    pub entries: Vec<(u64, AccountStorage)>,
}

impl StorageSource {
    /// Unique account keys; unique slot keys per account.
    pub open spec fn wf(&self) -> bool {
        &&& uniq_keys(self.entries@)
        &&& forall|i: int|
            0 <= i < self.entries@.len() ==> uniq_keys((#[trigger] self.entries@[i]).1.slots@)
    }
}

/// The cursor fault injected for account `a`, if any.
pub open spec fn src_fault(src: StorageSource, a: u64) -> Option<StorageRootError> {
    if has_key(src.entries@, a) {
        val_of(src.entries@, a).fault
    } else {
        None
    }
}

/// The persisted storage entries of account `a`.
pub open spec fn src_slots(src: StorageSource, a: u64) -> Seq<(u64, u64)> {
    if has_key(src.entries@, a) {
        val_of(src.entries@, a).slots@
    } else {
        Seq::empty()
    }
}

/// The predicate picking slot entries under covered paths.
pub open spec fn covered_slot(p: PrefixSet) -> spec_fn((u64, u64)) -> bool {
    |q: (u64, u64)| p.covers(q.0)
}

/// The predicate picking persisted entries under covered paths that the
/// overlay does not shadow.
pub open spec fn covered_unshadowed(p: PrefixSet, ov: StorageDeltaV) -> spec_fn((u64, u64)) -> bool {
    |q: (u64, u64)| p.covers(q.0) && !has_key(ov.slots, q.0)
}

/// The overlay a storage walk sees: the in-flight storage delta of the
/// account, or nothing.
pub open spec fn overlay_of(o: Option<&StorageDelta>) -> StorageDeltaV {
    match o {
        Some(sd) => sd@,
        None => StorageDeltaV { wiped: false, slots: Seq::empty() },
    }
}

/// The result of one account's storage-root walk: how many storage entries
/// the pruned walk visits over the overlaid view. Overlay entries shadow
/// persisted ones; a wiped overlay hides the persisted storage entirely.
pub open spec fn storage_root_of(persisted: Seq<(u64, u64)>, ov: StorageDeltaV, p: PrefixSet) -> int {
    ov.slots.filter(covered_slot(p)).len() as int + if ov.wiped {
        0int
    } else {
        persisted.filter(covered_unshadowed(p, ov)).len() as int
    }
}

/// Walks one account's storage trie, pruned by `prefix`, over the persisted
/// view overlaid with the in-flight delta. Fails exactly when the read-only
/// view reports a cursor fault for this account.
pub fn compute_storage_root(
    src: &StorageSource,
    a: u64,
    overlay: Option<&StorageDelta>,
    prefix: &PrefixSet,
) -> (r: Result<u64, StorageRootError>)
    requires
        src.wf(),
        uniq_keys(overlay_of(overlay).slots),
        overlay_of(overlay).slots.len() + src_slots(*src, a).len() <= u64::MAX,
    ensures
        match r {
            Ok(n) => src_fault(*src, a) is None && n as int == storage_root_of(
                src_slots(*src, a),
                overlay_of(overlay),
                *prefix,
            ),
            Err(e) => src_fault(*src, a) == Some(e),
        },
{
    let ghost ov = overlay_of(overlay);
    let idx = find_index(&src.entries, a);
    if let Some(i) = idx {
        proof {
            lemma_uniq_val(src.entries@, i as int);
        }
        let ent = &src.entries[i];
        if let Some(e) = ent.1.fault {
            return Err(e);
        }
    }
    let mut count: u64 = 0;
    let mut wiped = false;
    if let Some(sd) = overlay {
        wiped = sd.wiped;
        let mut t: usize = 0;
        while t < sd.slots.len()
            invariant
                t <= sd.slots@.len(),
                ov == sd@,
                count as int == sd.slots@.take(t as int).filter(covered_slot(*prefix)).len(),
                count <= t,
            decreases sd.slots@.len() - t,
        {
            let (s, v) = sd.slots[t];
            proof {
                assert(sd.slots@[t as int] == (s, v));
                assert(sd.slots@.take(t as int + 1) =~= sd.slots@.take(t as int).push((s, v)));
                lemma_filter_push(sd.slots@.take(t as int), (s, v), covered_slot(*prefix));
            }
            if prefix.contains_path(s) {
                count += 1;
            }
            t += 1;
        }
        proof {
            assert(sd.slots@.take(sd.slots@.len() as int) =~= sd.slots@);
        }
    }
    let ghost ov_count = count as int;
    proof {
        assert(ov_count == ov.slots.filter(covered_slot(*prefix)).len());
    }
    if !wiped {
        if let Some(i) = idx {
            proof {
                lemma_uniq_val(src.entries@, i as int);
            }
            let ent = &src.entries[i];
            let mut t: usize = 0;
            while t < ent.1.slots.len()
                invariant
                    t <= ent.1.slots@.len(),
                    ov == overlay_of(overlay),
                    uniq_keys(ov.slots),
                    ent.1.slots@ == src_slots(*src, a),
                    ov_count == ov.slots.filter(covered_slot(*prefix)).len(),
                    ov_count + ent.1.slots@.len() <= u64::MAX,
                    count as int == ov_count + ent.1.slots@.take(t as int).filter(
                        covered_unshadowed(*prefix, ov),
                    ).len(),
                    count as int <= ov_count + t,
                decreases ent.1.slots@.len() - t,
            {
                let (s, v) = ent.1.slots[t];
                proof {
                    assert(ent.1.slots@[t as int] == (s, v));
                    assert(ent.1.slots@.take(t as int + 1) =~= ent.1.slots@.take(t as int).push(
                        (s, v),
                    ));
                    lemma_filter_push(
                        ent.1.slots@.take(t as int),
                        (s, v),
                        covered_unshadowed(*prefix, ov),
                    );
                }
                let shadowed = match overlay {
                    Some(sd) => find_index(&sd.slots, s).is_some(),
                    None => false,
                };
                proof {
                    assert(shadowed == has_key(ov.slots, s));
                }
                if prefix.contains_path(s) && !shadowed {
                    count += 1;
                }
                t += 1;
            }
            proof {
                assert(ent.1.slots@.take(ent.1.slots@.len() as int) =~= ent.1.slots@);
            }
        } else {
            proof {
                assert(src_slots(*src, a) =~= Seq::<(u64, u64)>::empty());
                crate::delta::lemma_filter_none(
                    src_slots(*src, a),
                    covered_unshadowed(*prefix, ov),
                );
            }
        }
    }
    Ok(count)
}

/// The storage-root target of account `a`: the walk its prefix set directs.
/// Accounts touched only at the account level get an empty prefix set, so
/// their targeted walk visits nothing.
pub open spec fn target_root(d: StateDeltaV, sets: TriePrefixSets, src: StorageSource, a: u64) -> int {
    if has_key(d.storages, a) {
        storage_root_of(
            src_slots(src, a),
            val_of(d.storages, a),
            val_of(sets.storage_prefix_sets@, a),
        )
    } else {
        0
    }
}

/// Computes the storage root of every touched account, pruned by its prefix
/// set. A per-account failure degrades that account's result to absent and
/// never aborts the others: prefetching is best-effort.
pub fn prefetch_storage_roots(
    residual: &StateDelta,
    sets: &TriePrefixSets,
    src: &StorageSource,
) -> (roots: Vec<(u64, u64)>)
    requires
        residual.wf(),
        sets.matches(residual@),
        src.wf(),
        forall|a: u64|
            overlay_len(residual@, a) + src_slots(*src, a).len() <= u64::MAX,
    ensures
        uniq_keys(roots@),
        forall|a: u64|
            #[trigger] has_key(roots@, a) <==> touched(residual@, a) && src_fault(*src, a) is None,
        forall|a: u64|
            has_key(roots@, a) ==> #[trigger] val_of(roots@, a) as int == target_root(
                residual@,
                *sets,
                *src,
                a,
            ),
{
    let ghost d = residual@;
    proof {
        lemma_storages_view(residual.storages@);
    }
    let mut roots: Vec<(u64, u64)> = Vec::new();
    let mut j: usize = 0;
    while j < residual.storages.len()
        invariant
            j <= residual.storages@.len(),
            d == residual@,
            residual.wf(),
            sets.matches(d),
            src.wf(),
            forall|a: u64| overlay_len(d, a) + src_slots(*src, a).len() <= u64::MAX,
            uniq_keys(roots@),
            forall|a: u64|
                #[trigger] has_key(roots@, a) <==> has_key(d.storages.take(j as int), a)
                    && src_fault(*src, a) is None,
            forall|a: u64|
                has_key(roots@, a) ==> #[trigger] val_of(roots@, a) as int == target_root(
                    d,
                    *sets,
                    *src,
                    a,
                ),
        decreases residual.storages@.len() - j,
    {
        let entry = &residual.storages[j];
        let a = entry.0;
        let sd = &entry.1;
        proof {
            lemma_storages_view(residual.storages@);
            assert(d.storages[j as int] == (a, sd@));
            lemma_uniq_val(d.storages, j as int);
            assert(val_of(d.storages, a) == sd@);
            assert(!has_key(d.storages.take(j as int), a)) by {
                if has_key(d.storages.take(j as int), a) {
                    let q = choose|q: int|
                        0 <= q < j && (#[trigger] d.storages.take(j as int)[q]).0 == a;
                    assert(d.storages[q].0 == d.storages[j as int].0);
                }
            }
            assert(overlay_len(d, a) == sd@.slots.len());
        }
        let pidx = find_index(&sets.storage_prefix_sets, a);
        proof {
            assert(has_key(sets.storage_prefix_sets@, a));
        }
        let pi = pidx.unwrap();
        proof {
            lemma_uniq_val(sets.storage_prefix_sets@, pi as int);
        }
        let prefix = &sets.storage_prefix_sets[pi].1;
        let ghost r0 = roots@;
        let outcome = compute_storage_root(src, a, Some(sd), prefix);
        match outcome {
            Ok(n) => {
                proof {
                    crate::delta::lemma_push_assoc(r0, a, n);
                }
                roots.push((a, n));
            },
            Err(_) => {},
        }
        proof {
            assert forall|x: u64|
                #[trigger] has_key(roots@, x) <==> has_key(d.storages.take(j as int + 1), x)
                    && src_fault(*src, x) is None by {
                if has_key(roots@, x) && !has_key(r0, x) {
                    assert(x == a);
                }
                if has_key(r0, x) {
                    let q = choose|q: int|
                        0 <= q < j && (#[trigger] d.storages.take(j as int)[q]).0 == x;
                    assert(d.storages.take(j as int + 1)[q].0 == x);
                }
                if x == a && outcome is Ok {
                    assert(d.storages.take(j as int + 1)[j as int].0 == a);
                }
                if has_key(d.storages.take(j as int + 1), x) && src_fault(*src, x) is None {
                    let q = choose|q: int|
                        0 <= q <= j && (#[trigger] d.storages.take(j as int + 1)[q]).0 == x;
                    if q < j {
                        assert(d.storages.take(j as int)[q].0 == x);
                        assert(has_key(d.storages.take(j as int), x));
                        assert(has_key(r0, x));
                        if outcome is Ok {
                            assert(has_key(roots@, x));
                        }
                    } else {
                        assert(x == a);
                    }
                }
            }
            assert forall|x: u64| has_key(roots@, x) implies #[trigger] val_of(roots@, x) as int
                == target_root(d, *sets, *src, x) by {
                if x == a && !has_key(r0, a) {
                } else {
                    assert(has_key(r0, x));
                    assert(val_of(roots@, x) == val_of(r0, x));
                }
            }
        }
        j += 1;
    }
    proof {
        assert(d.storages.take(d.storages.len() as int) =~= d.storages);
    }
    let ghost rs = roots@;
    let mut i: usize = 0;
    while i < residual.accounts.len()
        invariant
            i <= residual.accounts@.len(),
            d == residual@,
            residual.wf(),
            sets.matches(d),
            src.wf(),
            forall|a: u64| overlay_len(d, a) + src_slots(*src, a).len() <= u64::MAX,
            uniq_keys(roots@),
            forall|a: u64|
                #[trigger] has_key(roots@, a) <==> (has_key(d.storages, a) || has_key(
                    d.accounts.take(i as int),
                    a,
                )) && src_fault(*src, a) is None,
            forall|a: u64|
                has_key(roots@, a) ==> #[trigger] val_of(roots@, a) as int == target_root(
                    d,
                    *sets,
                    *src,
                    a,
                ),
        decreases residual.accounts@.len() - i,
    {
        let k = residual.accounts[i].0;
        proof {
            assert(d.accounts[i as int].0 == k);
            assert(!has_key(d.accounts.take(i as int), k)) by {
                if has_key(d.accounts.take(i as int), k) {
                    let q = choose|q: int|
                        0 <= q < i && (#[trigger] d.accounts.take(i as int)[q]).0 == k;
                    assert(d.accounts[q].0 == d.accounts[i as int].0);
                }
            }
        }
        let in_storages = find_index(&residual.storages, k).is_some();
        let ghost r0 = roots@;
        proof {
            lemma_storages_view(residual.storages@);
        }
        if !in_storages {
            let none_set = PrefixSet::none();
            proof {
                assert(!has_key(d.storages, k));
                assert(overlay_len(d, k) + src_slots(*src, k).len() <= u64::MAX);
                assert(overlay_len(d, k) == 0);
                assert(uniq_keys(overlay_of(None).slots));
            }
            let outcome = compute_storage_root(src, k, None, &none_set);
            match outcome {
                Ok(n) => {
                    proof {
                        crate::delta::lemma_push_assoc(r0, k, n);
                        assert(n as int == 0) by {
                            crate::delta::lemma_filter_none(
                                overlay_of(None).slots,
                                covered_slot(none_set),
                            );
                            crate::delta::lemma_filter_none(
                                src_slots(*src, k),
                                covered_unshadowed(none_set, overlay_of(None)),
                            );
                        }
                    }
                    roots.push((k, n));
                    proof {
                        assert(has_key(roots@, k)) by {
                            assert(roots@[r0.len() as int].0 == k);
                        }
                    }
                },
                Err(e) => {
                    proof {
                        assert(src_fault(*src, k) == Some(e));
                    }
                },
            }
        } else {
            proof {
                assert(has_key(residual.storages@, k));
                assert(has_key(d.storages, k));
            }
        }
        proof {
            assert forall|x: u64|
                #[trigger] has_key(roots@, x) <==> (has_key(d.storages, x) || has_key(
                    d.accounts.take(i as int + 1),
                    x,
                )) && src_fault(*src, x) is None by {
                if has_key(roots@, x) && !has_key(r0, x) {
                    assert(x == k);
                    assert(d.accounts.take(i as int + 1)[i as int].0 == x);
                }
                if has_key(r0, x) {
                    let w = choose|w: int| 0 <= w < r0.len() && (#[trigger] r0[w]).0 == x;
                    assert(roots@[w].0 == x);
                    assert(has_key(roots@, x));
                    if !has_key(d.storages, x) {
                        let q = choose|q: int|
                            0 <= q < i && (#[trigger] d.accounts.take(i as int)[q]).0 == x;
                        assert(d.accounts.take(i as int + 1)[q].0 == x);
                    }
                }
                if has_key(d.accounts.take(i as int + 1), x) && !has_key(d.storages, x)
                    && src_fault(*src, x) is None {
                    let q = choose|q: int|
                        0 <= q <= i && (#[trigger] d.accounts.take(i as int + 1)[q]).0 == x;
                    if q < i {
                        assert(d.accounts.take(i as int)[q].0 == x);
                        assert(has_key(d.accounts.take(i as int), x));
                        assert(has_key(r0, x));
                    } else {
                        assert(x == k);
                    }
                }
            }
            assert forall|x: u64| has_key(roots@, x) implies #[trigger] val_of(roots@, x) as int
                == target_root(d, *sets, *src, x) by {
                if has_key(r0, x) {
                    assert(val_of(roots@, x) == val_of(r0, x));
                } else {
                    assert(x == k && !has_key(d.storages, k));
                }
            }
        }
        i += 1;
    }
    proof {
        assert(d.accounts.take(d.accounts.len() as int) =~= d.accounts);
    }
    roots
}

/// The length of the in-flight storage overlay of account `a`.
pub open spec fn overlay_len(d: StateDeltaV, a: u64) -> int {
    if has_key(d.storages, a) {
        val_of(d.storages, a).slots.len() as int
    } else {
        0
    }
}


/// The account trie's read-only view: branch node paths in walk order, leaf
/// keys of the persisted accounts, and an injected backend fault.
#[derive(Debug)]
pub struct AccountTrieSnapshot {
    pub fault: Option<u32>,
    pub branches: Vec<u64>,
    pub leaves: Vec<u64>,
}

impl AccountTrieSnapshot {
    /// Persisted leaf keys are unique.
    pub open spec fn wf(&self) -> bool {
        uniq_leaves(self.leaves@)
    }
}

/// Pairwise-distinct keys.
pub open spec fn uniq_leaves(s: Seq<u64>) -> bool {
    forall|i: int, j: int| 0 <= i < j < s.len() ==> s[i] != s[j]
}

/// Per-pass statistics: how many branch and leaf nodes the walk visited.
#[derive(Clone, Copy, PartialEq, Eq, Structural, Debug)]
pub struct Stats {
    pub branches_added: u64,
    pub leaves_added: u64,
}

/// The predicate picking branch paths the walk must visit.
pub open spec fn covered_key(p: PrefixSet) -> spec_fn(u64) -> bool {
    |k: u64| p.covers(k)
}

/// The predicate picking delta accounts under covered paths.
pub open spec fn covered_acct(p: PrefixSet) -> spec_fn((u64, AccountRecord)) -> bool {
    |q: (u64, AccountRecord)| p.covers(q.0)
}

/// The predicate picking persisted leaves still to visit: under a covered
/// path and not shadowed by a delta account (those were already visited).
pub open spec fn covered_extra(p: PrefixSet, d: StateDeltaV) -> spec_fn(u64) -> bool {
    |k: u64| p.covers(k) && !has_key(d.accounts, k)
}

/// The key of an account entry.
pub open spec fn acct_key() -> spec_fn((u64, AccountRecord)) -> u64 {
    |q: (u64, AccountRecord)| q.0
}

/// The branch paths one pass visits.
pub open spec fn visited_branches(snap: AccountTrieSnapshot, p: PrefixSet) -> Seq<u64> {
    snap.branches@.filter(covered_key(p))
}

/// The leaf keys one pass visits, in walk order: the delta's own accounts
/// under covered paths, then persisted leaves under covered paths that the
/// delta does not shadow. Each key appears at most once.
pub open spec fn visited_leaves(d: StateDeltaV, snap: AccountTrieSnapshot, p: PrefixSet) -> Seq<
    u64,
> {
    d.accounts.filter(covered_acct(p)).map_values(acct_key()) + snap.leaves@.filter(
        covered_extra(p, d),
    )
}

/// Walks the account trie pruned by the account prefix set, counting branch
/// and leaf nodes. At each leaf the matching storage-root result is consumed
/// (removed: ownership transfer, it cannot be reused); a leaf without one
/// gets its storage root recomputed on the spot, unpruned, and a failure of
/// that fallback is swallowed: it must not abort the walk.
pub fn walk_accounts(
    snap: &AccountTrieSnapshot,
    residual: &StateDelta,
    prefix: &PrefixSet,
    storage_roots: &mut Vec<(u64, u64)>,
    src: &StorageSource,
) -> (stats: Stats)
    requires
        residual.wf(),
        src.wf(),
        snap.fault is None,
        uniq_keys(old(storage_roots)@),
        forall|a: u64| overlay_len(residual@, a) + src_slots(*src, a).len() <= u64::MAX,
        snap.branches@.len() <= u64::MAX,
        residual.accounts@.len() + snap.leaves@.len() <= u64::MAX,
    ensures
        stats.branches_added as int == visited_branches(*snap, *prefix).len(),
        stats.leaves_added as int == visited_leaves(residual@, *snap, *prefix).len(),
        uniq_keys(final(storage_roots)@),
        forall|x: u64|
            #[trigger] has_key(final(storage_roots)@, x) <==> has_key(old(storage_roots)@, x)
                && !visited_leaves(residual@, *snap, *prefix).contains(x),
        forall|x: u64|
            has_key(final(storage_roots)@, x) ==> #[trigger] val_of(final(storage_roots)@, x)
                == val_of(old(storage_roots)@, x),
{
    let ghost d = residual@;
    let ghost roots0 = storage_roots@;
    proof {
        lemma_storages_view(residual.storages@);
    }
    let mut branches: u64 = 0;
    let mut b: usize = 0;
    while b < snap.branches.len()
        invariant
            b <= snap.branches@.len(),
            snap.branches@.len() <= u64::MAX,
            branches as int == snap.branches@.take(b as int).filter(covered_key(*prefix)).len(),
            branches <= b,
        decreases snap.branches@.len() - b,
    {
        let path = snap.branches[b];
        proof {
            assert(snap.branches@[b as int] == path);
            assert(snap.branches@.take(b as int + 1) =~= snap.branches@.take(b as int).push(
                path,
            ));
            lemma_filter_push(snap.branches@.take(b as int), path, covered_key(*prefix));
        }
        if prefix.contains_path(path) {
            branches += 1;
        }
        b += 1;
    }
    proof {
        assert(snap.branches@.take(snap.branches@.len() as int) =~= snap.branches@);
    }
    let full = PrefixSet::every();
    let mut leaves: u64 = 0;
    let mut i: usize = 0;
    while i < residual.accounts.len()
        invariant
            i <= residual.accounts@.len(),
            d == residual@,
            residual.wf(),
            src.wf(),
            forall|a: u64| overlay_len(d, a) + src_slots(*src, a).len() <= u64::MAX,
            forall|k: u64| full.covers(k),
            residual.accounts@.len() + snap.leaves@.len() <= u64::MAX,
            leaves as int == d.accounts.take(i as int).filter(covered_acct(*prefix)).len(),
            leaves <= i,
            uniq_keys(storage_roots@),
            forall|x: u64|
                #[trigger] has_key(storage_roots@, x) <==> has_key(roots0, x) && !d.accounts.take(
                    i as int,
                ).filter(covered_acct(*prefix)).map_values(acct_key()).contains(x),
            forall|x: u64|
                has_key(storage_roots@, x) ==> #[trigger] val_of(storage_roots@, x) == val_of(
                    roots0,
                    x,
                ),
        decreases residual.accounts@.len() - i,
    {
        let k = residual.accounts[i].0;
        let ghost va0 = d.accounts.take(i as int).filter(covered_acct(*prefix)).map_values(
            acct_key(),
        );
        proof {
            assert(d.accounts[i as int].0 == k);
            assert(d.accounts.take(i as int + 1) =~= d.accounts.take(i as int).push(
                d.accounts[i as int],
            ));
            lemma_filter_push(d.accounts.take(i as int), d.accounts[i as int], covered_acct(*prefix));
            crate::delta::lemma_map_values_push(
                d.accounts.take(i as int).filter(covered_acct(*prefix)),
                d.accounts[i as int],
                acct_key(),
            );
        }
        if prefix.contains_path(k) {
            let ghost r0 = storage_roots@;
            match find_index(storage_roots, k) {
                Some(ri) => {
                    proof {
                        lemma_uniq_val(storage_roots@, ri as int);
                        crate::delta::lemma_remove_assoc(storage_roots@, ri as int);
                    }
                    let _consumed = storage_roots.remove(ri);
                },
                None => {
                    let ov_idx = find_index(&residual.storages, k);
                    proof {
                        lemma_storages_view(residual.storages@);
                        if ov_idx is Some {
                            lemma_uniq_val(residual.storages@, ov_idx.unwrap() as int);
                            lemma_uniq_val(d.storages, ov_idx.unwrap() as int);
                        }
                    }
                    let overlay = match ov_idx {
                        Some(oi) => Some(&residual.storages[oi].1),
                        None => None,
                    };
                    proof {
                        assert(uniq_keys(overlay_of(overlay).slots));
                        assert(overlay_of(overlay).slots.len() + src_slots(*src, k).len()
                            <= u64::MAX) by {
                            assert(overlay_len(d, k) + src_slots(*src, k).len() <= u64::MAX);
                        }
                    }
                    let _warmed = compute_storage_root(src, k, overlay, &full);
                },
            }
            leaves += 1;
            proof {
                assert forall|x: u64|
                    #[trigger] has_key(storage_roots@, x) <==> has_key(roots0, x)
                        && !va0.push(k).contains(x) by {
                    if x == k {
                        assert(!has_key(storage_roots@, k));
                        assert(va0.push(k)[va0.len() as int] == k);
                    } else {
                        assert(has_key(storage_roots@, x) == has_key(r0, x));
                        assert(va0.push(k).contains(x) == va0.contains(x)) by {
                            if va0.push(k).contains(x) {
                                let w = choose|w: int|
                                    0 <= w < va0.push(k).len() && va0.push(k)[w] == x;
                                assert(va0[w] == x);
                            }
                            if va0.contains(x) {
                                let w = choose|w: int| 0 <= w < va0.len() && va0[w] == x;
                                assert(va0.push(k)[w] == x);
                            }
                        }
                    }
                }
                assert(d.accounts.take(i as int + 1).filter(covered_acct(*prefix)).map_values(
                    acct_key(),
                ) == va0.push(k));
            }
        } else {
            proof {
                assert(d.accounts.take(i as int + 1).filter(covered_acct(*prefix)).map_values(
                    acct_key(),
                ) == va0);
            }
        }
        i += 1;
    }
    let ghost va = d.accounts.filter(covered_acct(*prefix)).map_values(acct_key());
    proof {
        assert(d.accounts.take(d.accounts.len() as int) =~= d.accounts);
    }
    let mut t: usize = 0;
    while t < snap.leaves.len()
        invariant
            t <= snap.leaves@.len(),
            d == residual@,
            residual.wf(),
            src.wf(),
            forall|a: u64| overlay_len(d, a) + src_slots(*src, a).len() <= u64::MAX,
            forall|k: u64| full.covers(k),
            va == d.accounts.filter(covered_acct(*prefix)).map_values(acct_key()),
            va.len() + snap.leaves@.len() <= u64::MAX,
            leaves as int == va.len() + snap.leaves@.take(t as int).filter(
                covered_extra(*prefix, d),
            ).len(),
            leaves as int <= va.len() + t,
            uniq_keys(storage_roots@),
            forall|x: u64|
                #[trigger] has_key(storage_roots@, x) <==> has_key(roots0, x) && !(va + snap.leaves@.take(
                    t as int,
                ).filter(covered_extra(*prefix, d))).contains(x),
            forall|x: u64|
                has_key(storage_roots@, x) ==> #[trigger] val_of(storage_roots@, x) == val_of(
                    roots0,
                    x,
                ),
        decreases snap.leaves@.len() - t,
    {
        let k = snap.leaves[t];
        let ghost ve0 = snap.leaves@.take(t as int).filter(covered_extra(*prefix, d));
        proof {
            assert(snap.leaves@[t as int] == k);
            assert(snap.leaves@.take(t as int + 1) =~= snap.leaves@.take(t as int).push(k));
            lemma_filter_push(snap.leaves@.take(t as int), k, covered_extra(*prefix, d));
        }
        let shadowed = find_index(&residual.accounts, k).is_some();
        if prefix.contains_path(k) && !shadowed {
            let ghost r0 = storage_roots@;
            match find_index(storage_roots, k) {
                Some(ri) => {
                    proof {
                        lemma_uniq_val(storage_roots@, ri as int);
                        crate::delta::lemma_remove_assoc(storage_roots@, ri as int);
                    }
                    let _consumed = storage_roots.remove(ri);
                },
                None => {
                    let ov_idx = find_index(&residual.storages, k);
                    proof {
                        lemma_storages_view(residual.storages@);
                        if ov_idx is Some {
                            lemma_uniq_val(residual.storages@, ov_idx.unwrap() as int);
                            lemma_uniq_val(d.storages, ov_idx.unwrap() as int);
                        }
                    }
                    let overlay = match ov_idx {
                        Some(oi) => Some(&residual.storages[oi].1),
                        None => None,
                    };
                    proof {
                        assert(uniq_keys(overlay_of(overlay).slots));
                        assert(overlay_of(overlay).slots.len() + src_slots(*src, k).len()
                            <= u64::MAX) by {
                            assert(overlay_len(d, k) + src_slots(*src, k).len() <= u64::MAX);
                        }
                    }
                    let _warmed = compute_storage_root(src, k, overlay, &full);
                },
            }
            leaves += 1;
            proof {
                assert forall|x: u64|
                    #[trigger] has_key(storage_roots@, x) <==> has_key(roots0, x) && !(va
                        + ve0.push(k)).contains(x) by {
                    if x == k {
                        assert(!has_key(storage_roots@, k));
                        assert((va + ve0.push(k))[va.len() as int + ve0.len() as int] == k);
                    } else {
                        assert(has_key(storage_roots@, x) == has_key(r0, x));
                        assert((va + ve0.push(k)).contains(x) == (va + ve0).contains(x)) by {
                            if (va + ve0.push(k)).contains(x) {
                                let w = choose|w: int|
                                    0 <= w < (va + ve0.push(k)).len() && (va + ve0.push(k))[w]
                                        == x;
                                assert((va + ve0)[w] == x);
                            }
                            if (va + ve0).contains(x) {
                                let w = choose|w: int|
                                    0 <= w < (va + ve0).len() && (va + ve0)[w] == x;
                                assert((va + ve0.push(k))[w] == x);
                            }
                        }
                    }
                }
                assert(va + snap.leaves@.take(t as int + 1).filter(covered_extra(*prefix, d))
                    =~= va + ve0.push(k));
            }
        } else {
            proof {
                assert(!(covered_extra(*prefix, d)(k))) by {
                    if shadowed {
                        assert(has_key(residual.accounts@, k));
                    }
                }
            }
        }
        t += 1;
    }
    proof {
        assert(snap.leaves@.take(snap.leaves@.len() as int) =~= snap.leaves@);
        assert(visited_leaves(d, *snap, *prefix) == va + snap.leaves@.filter(
            covered_extra(*prefix, d),
        ));
    }
    Stats { branches_added: branches, leaves_added: leaves }
}


/// The predicate picking branch paths under accounts the delta touches.
pub open spec fn touched_branch(d: StateDeltaV) -> spec_fn(u64) -> bool {
    |k: u64| touched(d, k)
}

/// The predicate picking persisted leaves a pass visits beyond the delta's
/// own accounts: touched through storage only.
pub open spec fn extra_leaf(d: StateDeltaV) -> spec_fn(u64) -> bool {
    |k: u64| has_key(d.storages, k) && !has_key(d.accounts, k)
}

/// The branch paths one pass over `d` visits.
pub open spec fn pass_branches(d: StateDeltaV, snap: AccountTrieSnapshot) -> Seq<u64> {
    snap.branches@.filter(touched_branch(d))
}

/// The leaf keys one pass over `d` visits: every account of the delta, then
/// every persisted leaf touched through storage alone.
pub open spec fn pass_leaves(d: StateDeltaV, snap: AccountTrieSnapshot) -> Seq<u64> {
    d.accounts.map_values(acct_key()) + snap.leaves@.filter(extra_leaf(d))
}

/// A pass over a delta with no storage changes visits exactly one leaf per
/// touched account: the walk is bounded by the prefix set, not by trie size.
pub proof fn lemma_accounts_only_pass_counts(d: StateDeltaV, snap: AccountTrieSnapshot)
    requires
        d.storages.len() == 0,
    ensures
        pass_leaves(d, snap).len() == d.accounts.len(),
{
    assert forall|i: int| 0 <= i < snap.leaves@.len() implies !(extra_leaf(d)(
        #[trigger] snap.leaves@[i],
    )) by {
        assert(!has_key(d.storages, snap.leaves@[i]));
    }
    crate::delta::lemma_filter_none(snap.leaves@, extra_leaf(d));
}

impl TriePrefetch {
    /// One prefetch pass over a residual delta: derives the prefix sets,
    /// computes the storage-root targets, and walks the account trie
    /// consuming them at its leaves. Fails exactly when the account-trie
    /// view reports a backend fault; a per-account storage fault degrades
    /// that account's target and never aborts the pass.
    pub fn prefetch_once(
        &self,
        snap: &AccountTrieSnapshot,
        src: &StorageSource,
        residual: StateDelta,
    ) -> (r: Result<Stats, TriePrefetchError>)
        requires
            residual.wf(),
            src.wf(),
            forall|a: u64| overlay_len(residual@, a) + src_slots(*src, a).len() <= u64::MAX,
            snap.branches@.len() <= u64::MAX,
            residual.accounts@.len() + snap.leaves@.len() <= u64::MAX,
        ensures
            (r is Ok) == (snap.fault is None),
            snap.fault is Some ==> r == Err::<Stats, TriePrefetchError>(
                TriePrefetchError::Provider(ProviderError::Database(snap.fault.unwrap())),
            ),
            r matches Ok(st) ==> st.branches_added as int == pass_branches(residual@, *snap).len()
                && st.leaves_added as int == pass_leaves(residual@, *snap).len(),
    {
        let ghost d = residual@;
        let sets = construct_prefix_sets(&residual);
        let mut roots = prefetch_storage_roots(&residual, &sets, src);
        if let Some(code) = snap.fault {
            return Err(TriePrefetchError::Provider(ProviderError::Database(code)));
        }
        let stats = walk_accounts(snap, &residual, &sets.account_prefix_set, &mut roots, src);
        proof {
            let ps = sets.account_prefix_set;
            crate::delta::lemma_filter_congruent(snap.branches@, covered_key(ps), touched_branch(d));
            assert forall|i: int| 0 <= i < d.accounts.len() implies covered_acct(ps)(
                #[trigger] d.accounts[i],
            ) by {
                assert(has_key(d.accounts, d.accounts[i].0));
                assert(touched(d, d.accounts[i].0));
            }
            crate::delta::lemma_filter_all(d.accounts, covered_acct(ps));
            crate::delta::lemma_filter_congruent(
                snap.leaves@,
                covered_extra(ps, d),
                extra_leaf(d),
            );
        }
        Ok(stats)
    }
}

} // verus!
