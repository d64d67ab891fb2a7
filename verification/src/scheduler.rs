//! The scheduler loop's decisions: one iteration per received delta, and the
//! cancellation bookkeeping. The loop itself — waiting on the delta queue and
//! racing it against the cancellation signal — is the caller's: it hands each
//! received delta to [`TriePrefetch::on_delta`] and, on cancellation, reports
//! through [`Report`] how much was processed and how much remained queued.

use vstd::prelude::*;

use crate::dedup::CacheV;
use crate::dedup::TriePrefetch;
use crate::dedup::cache_accounts_after;
use crate::dedup::cache_after;
use crate::dedup::cache_slots_after;
use crate::dedup::cache_wiped_after;
use crate::dedup::residual_accounts;
use crate::dedup::residual_storage_entry;
use crate::dedup::residual_storages;
use crate::dedup::slots_of;
use crate::delta::StateDelta;
use crate::delta::StateDeltaV;
use crate::delta::has_key;
use crate::delta::lemma_uniq_val;
use crate::delta::uniq_keys;
use crate::delta::val_of;
use crate::errors::ProviderError;
use crate::errors::TriePrefetchError;
use crate::walk::AccountTrieSnapshot;
use crate::walk::StorageSource;
use crate::walk::overlay_len;
use crate::walk::src_slots;

verus! {

/// What the loop reports when cancellation stops it: how many deltas it
/// processed and how many were still queued.
#[derive(Clone, Copy, PartialEq, Eq, Structural, Debug)]
pub struct Report {
    pub processed: u64,
    pub remaining: u64,
}

/// The residual delta as a mathematical value.
pub open spec fn residual_of(d: StateDeltaV, c: CacheV) -> StateDeltaV {
    StateDeltaV { accounts: residual_accounts(d, c), storages: residual_storages(d, c) }
}

/// The cache after the first `n` deltas of a queue have been deduplicated
/// and marked, in arrival order.
pub open spec fn cache_after_queue(c: CacheV, ds: Seq<StateDelta>, n: int) -> CacheV
    decreases n,
{
    if n <= 0 {
        c
    } else {
        cache_after(ds[n - 1]@, cache_after_queue(c, ds, n - 1))
    }
}

/// The residual's storage overlays never exceed the input's: deduplication
/// only drops entries and slots.
proof fn lemma_residual_bounds(d: StateDeltaV, c: CacheV)
    requires
        uniq_keys(d.storages),
    ensures
        residual_accounts(d, c).len() <= d.accounts.len() + d.storages.len(),
        forall|a: u64| overlay_len(residual_of(d, c), a) <= overlay_len(d, a),
{
    d.accounts.lemma_filter_len(crate::dedup::fp_pred(d, c));
    d.storages.lemma_filter_len(crate::dedup::carried_pred(d, c));
    assert forall|a: u64| overlay_len(residual_of(d, c), a) <= overlay_len(d, a) by {
        let rs = residual_storages(d, c);
        if has_key(rs, a) {
            let i = choose|i: int| 0 <= i < rs.len() && (#[trigger] rs[i]).0 == a;
            let fs = d.storages.filter(crate::dedup::included_pred(c));
            assert(rs[i] == crate::dedup::residual_map(c)(fs[i]));
            crate::delta::lemma_filter_subseq(d.storages, crate::dedup::included_pred(c));
            assert(d.storages.contains(fs[i]));
            let w = choose|w: int| 0 <= w < d.storages.len() && #[trigger] d.storages[w] == fs[i];
            lemma_uniq_val(d.storages, w);
            assert(val_of(d.storages, a) == fs[i].1);
            fs[i].1.slots.lemma_filter_len(crate::dedup::slot_unseen(c, a));
            assert(val_of(rs, a).slots.len() <= fs[i].1.slots.len()) by {
                let j = choose|j: int| 0 <= j < rs.len() && (#[trigger] rs[j]).0 == a;
                assert(rs[j] == crate::dedup::residual_map(c)(fs[j]));
                assert(d.storages.contains(fs[j]));
                let w2 = choose|w2: int|
                    0 <= w2 < d.storages.len() && #[trigger] d.storages[w2] == fs[j];
                lemma_uniq_val(d.storages, w2);
                assert(fs[j].1 == val_of(d.storages, a));
                assert(val_of(rs, a) == residual_storage_entry(fs[j].1, a, c));
                fs[j].1.slots.lemma_filter_len(crate::dedup::slot_unseen(c, a));
            }
        }
    }
}

impl TriePrefetch {
    /// One scheduler iteration for a received delta: deduplicate it against
    /// the cache, then drive one prefetch pass over the residual. A per-pass
    /// failure is returned as a diagnostic, never propagated: the loop goes
    /// on to the next delta.
    pub fn on_delta(
        &mut self,
        delta: &StateDelta,
        snap: &AccountTrieSnapshot,
        src: &StorageSource,
    ) -> (diag: Option<TriePrefetchError>)
        requires
            old(self).wf(),
            delta.wf(),
            src.wf(),
            forall|a: u64| overlay_len(delta@, a) + src_slots(*src, a).len() <= u64::MAX,
            snap.branches@.len() <= u64::MAX,
            delta@.accounts.len() + delta@.storages.len() + snap.leaves@.len() <= u64::MAX,
        ensures
            final(self).wf(),
            diag is Some <==> snap.fault is Some,
            snap.fault is Some ==> diag == Some(
                TriePrefetchError::Provider(ProviderError::Database(snap.fault.unwrap())),
            ),
            final(self)@.accounts =~= cache_accounts_after(delta@, old(self)@),
            forall|x: u64|
                #![trigger slots_of(final(self)@, x)]
                slots_of(final(self)@, x) =~= cache_slots_after(delta@, old(self)@, x),
            final(self)@.wiped =~= cache_wiped_after(delta@, old(self)@),
            final(self)@ =~~= cache_after(delta@, old(self)@),
    {
        let ghost c0 = self@;
        let residual = self.filter_and_mark(delta);
        proof {
            lemma_residual_bounds(delta@, c0);
            assert(residual@ == residual_of(delta@, c0));
            assert forall|a: u64|
                overlay_len(residual@, a) + src_slots(*src, a).len() <= u64::MAX by {
                assert(overlay_len(residual@, a) <= overlay_len(delta@, a));
                assert(overlay_len(delta@, a) + src_slots(*src, a).len() <= u64::MAX);
            }
        }
        match self.prefetch_once(snap, src, residual) {
            Ok(_) => None,
            Err(e) => Some(e),
        }
    }

    /// Drives the loop over a queue of deltas with the cancellation signal
    /// observed after `cancel_after` receives: every delta up to that point
    /// is piped through the dedup cache and one prefetch pass, strictly in
    /// arrival order — the final cache is the fold of the per-delta marking
    /// over exactly the processed prefix. Cancellation stops the loop at
    /// once, whatever is still queued, and every queued delta is accounted
    /// for: processed plus remaining is the queue's length.
    pub fn run_queue(
        &mut self,
        deltas: &Vec<StateDelta>,
        cancel_after: usize,
        snap: &AccountTrieSnapshot,
        src: &StorageSource,
    ) -> (r: Report)
        requires
            old(self).wf(),
            src.wf(),
            snap.branches@.len() <= u64::MAX,
            forall|i: int|
                0 <= i < deltas@.len() ==> (#[trigger] deltas@[i]).wf()
                    && deltas@[i]@.accounts.len() + deltas@[i]@.storages.len()
                    + snap.leaves@.len() <= u64::MAX,
            forall|i: int, a: u64|
                0 <= i < deltas@.len() ==> #[trigger] overlay_len(deltas@[i]@, a) + src_slots(
                    *src,
                    a,
                ).len() <= u64::MAX,
        ensures
            final(self).wf(),
            r.processed as int == if cancel_after as int <= deltas@.len() {
                cancel_after as int
            } else {
                deltas@.len() as int
            },
            r.processed as int + r.remaining as int == deltas@.len(),
            final(self)@ =~~= cache_after_queue(old(self)@, deltas@, r.processed as int),
    {
        let ghost c0 = old(self)@;
        let mut i: usize = 0;
        while i < deltas.len() && i < cancel_after
            invariant
                self.wf(),
                self@ =~~= cache_after_queue(c0, deltas@, i as int),
                src.wf(),
                snap.branches@.len() <= u64::MAX,
                i <= deltas@.len(),
                i <= cancel_after,
                forall|j: int|
                    0 <= j < deltas@.len() ==> (#[trigger] deltas@[j]).wf()
                        && deltas@[j]@.accounts.len() + deltas@[j]@.storages.len()
                        + snap.leaves@.len() <= u64::MAX,
                forall|j: int, a: u64|
                    0 <= j < deltas@.len() ==> #[trigger] overlay_len(deltas@[j]@, a) + src_slots(
                        *src,
                        a,
                    ).len() <= u64::MAX,
            decreases deltas@.len() - i,
        {
            let delta = &deltas[i];
            let ghost prev = self@;
            let _diag = self.on_delta(delta, snap, src);
            proof {
                assert(prev == cache_after_queue(c0, deltas@, i as int));
                assert(self@ =~~= cache_after(deltas@[i as int]@, prev));
                assert(cache_after_queue(c0, deltas@, i as int + 1) == cache_after(
                    deltas@[i as int]@,
                    cache_after_queue(c0, deltas@, i as int),
                ));
                assert(self@ =~~= cache_after_queue(c0, deltas@, i as int + 1));
            }
            i += 1;
        }
        Report { processed: i as u64, remaining: (deltas.len() - i) as u64 }
    }
}

} // verus!
