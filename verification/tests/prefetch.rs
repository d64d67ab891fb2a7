use trie_prefetch::dedup::TriePrefetch;
use trie_prefetch::delta::AccountRecord;
use trie_prefetch::delta::StateDelta;
use trie_prefetch::delta::StorageDelta;
use trie_prefetch::errors::ProviderError;
use trie_prefetch::errors::StorageRootError;
use trie_prefetch::errors::TriePrefetchError;
use trie_prefetch::scheduler::Report;
use trie_prefetch::walk::AccountStorage;
use trie_prefetch::walk::AccountTrieSnapshot;
use trie_prefetch::prefix::PrefixSet;
use trie_prefetch::prefix::construct_prefix_sets;
use trie_prefetch::walk::StorageSource;
use trie_prefetch::walk::compute_storage_root;
use trie_prefetch::walk::prefetch_storage_roots;
use trie_prefetch::walk::walk_accounts;

fn record(balance: u128) -> AccountRecord {
    AccountRecord { nonce: 0, balance, code_hash: 0 }
}

fn accounts_delta(entries: Vec<(u64, u128)>) -> StateDelta {
    StateDelta {
        accounts: entries.into_iter().map(|(k, b)| (k, record(b))).collect(),
        storages: Vec::new(),
    }
}

fn storage_delta(account: u64, wiped: bool, slots: Vec<(u64, u64)>) -> StateDelta {
    StateDelta {
        accounts: Vec::new(),
        storages: vec![(account, StorageDelta { wiped, slots })],
    }
}

fn empty_snapshot() -> AccountTrieSnapshot {
    AccountTrieSnapshot { fault: None, branches: Vec::new(), leaves: Vec::new() }
}

fn empty_source() -> StorageSource {
    StorageSource { entries: Vec::new() }
}

#[test]
fn idempotent_dedup_accounts() {
    let mut cache = TriePrefetch::new();
    let first = cache.filter_and_mark(&accounts_delta(vec![(1, 10), (2, 20)]));
    assert_eq!(first.accounts.len(), 2);
    assert_eq!(first.storages.len(), 0);
    let second = cache.filter_and_mark(&accounts_delta(vec![(1, 10), (2, 20)]));
    assert_eq!(second.accounts.len(), 0);
    assert_eq!(second.storages.len(), 0);
}

#[test]
fn idempotent_dedup_storages() {
    let mut cache = TriePrefetch::new();
    let first = cache.filter_and_mark(&storage_delta(7, false, vec![(100, 1), (101, 2)]));
    assert_eq!(first.storages.len(), 1);
    assert_eq!(first.storages[0].0, 7);
    assert_eq!(first.storages[0].1.slots, vec![(100, 1), (101, 2)]);
    let second = cache.filter_and_mark(&storage_delta(7, false, vec![(100, 1), (101, 2)]));
    assert_eq!(second.accounts.len(), 0);
    assert_eq!(second.storages.len(), 0);
}

#[test]
fn residual_is_subset_of_input() {
    let mut cache = TriePrefetch::new();
    // pre-mark slot 100 of account 7
    cache.filter_and_mark(&storage_delta(7, false, vec![(100, 1)]));
    let delta = StateDelta {
        accounts: vec![(7, record(5)), (8, record(6))],
        storages: vec![(7, StorageDelta { wiped: false, slots: vec![(100, 1), (200, 2)] })],
    };
    let residual = cache.filter_and_mark(&delta);
    // account 8 from the account pass; account 7 carried by its storage entry
    for (k, _) in &residual.accounts {
        assert!(*k == 7 || *k == 8);
    }
    assert_eq!(residual.storages.len(), 1);
    assert_eq!(residual.storages[0].0, 7);
    // only the unseen slot survives; no invented keys
    assert_eq!(residual.storages[0].1.slots, vec![(200, 2)]);
}

#[test]
fn cross_delta_accumulation() {
    let mut cache = TriePrefetch::new();
    // delta one: a balance change of account 1 marks it seen at account level
    let first = cache.filter_and_mark(&accounts_delta(vec![(1, 10)]));
    assert_eq!(first.accounts.len(), 1);
    // delta two: account 1 again, now with a storage change; its record must
    // surface again alongside the storage entry
    let delta2 = StateDelta {
        accounts: vec![(1, record(11))],
        storages: vec![(1, StorageDelta { wiped: false, slots: vec![(50, 5)] })],
    };
    let second = cache.filter_and_mark(&delta2);
    assert_eq!(second.accounts.len(), 1);
    assert_eq!(second.accounts[0].0, 1);
    assert_eq!(second.accounts[0].1.balance, 11);
    assert_eq!(second.storages.len(), 1);
    assert_eq!(second.storages[0].0, 1);
    assert_eq!(second.storages[0].1.slots, vec![(50, 5)]);
}

#[test]
fn wipe_signal_survives_cached_slots() {
    let mut cache = TriePrefetch::new();
    // mark both slots of account 3 without a wipe
    cache.filter_and_mark(&storage_delta(3, false, vec![(10, 1), (11, 2)]));
    // the same slots arrive again, now under a wipe: the wipe alone survives
    let wiped = cache.filter_and_mark(&storage_delta(3, true, vec![(10, 1), (11, 2)]));
    assert_eq!(wiped.storages.len(), 1);
    assert_eq!(wiped.storages[0].0, 3);
    assert!(wiped.storages[0].1.wiped);
    assert_eq!(wiped.storages[0].1.slots.len(), 0);
    // and is itself deduplicated on repeat
    let again = cache.filter_and_mark(&storage_delta(3, true, vec![(10, 1), (11, 2)]));
    assert_eq!(again.storages.len(), 0);
}

#[test]
fn walk_visits_one_leaf_per_account() {
    let cache = TriePrefetch::new();
    let snap = AccountTrieSnapshot {
        fault: None,
        branches: vec![1, 2, 99],
        leaves: vec![2, 99],
    };
    let delta = accounts_delta(vec![(1, 1), (2, 2), (3, 3)]);
    let stats = cache
        .prefetch_once(&snap, &empty_source(), delta)
        .expect("pass must succeed without a backend fault");
    // exactly one leaf per touched account, however the persisted trie looks
    assert_eq!(stats.leaves_added, 3);
    // branches under touched paths: 1 and 2
    assert_eq!(stats.branches_added, 2);
}

#[test]
fn cancellation_accounts_for_every_delta() {
    let mut cache = TriePrefetch::new();
    let deltas: Vec<StateDelta> = (0..5u64).map(|i| accounts_delta(vec![(i, 1)])).collect();
    let report: Report =
        cache.run_queue(&deltas, 2, &empty_snapshot(), &empty_source());
    assert_eq!(report.processed, 2);
    assert_eq!(report.remaining, 3);
    assert_eq!(report.processed + report.remaining, 5);
}

#[test]
fn cancellation_after_queue_drained() {
    let mut cache = TriePrefetch::new();
    let deltas: Vec<StateDelta> = (0..3u64).map(|i| accounts_delta(vec![(i, 1)])).collect();
    let report = cache.run_queue(&deltas, 10, &empty_snapshot(), &empty_source());
    assert_eq!(report.processed, 3);
    assert_eq!(report.remaining, 0);
}

#[test]
fn per_account_failure_is_isolated() {
    let cache = TriePrefetch::new();
    // three accounts with storage changes; the cursor for account 2 faults
    let src = StorageSource {
        entries: vec![
            (1, AccountStorage { fault: None, slots: vec![(10, 1)] }),
            (2, AccountStorage { fault: Some(StorageRootError::MalformedNode), slots: vec![] }),
            (3, AccountStorage { fault: None, slots: vec![(30, 3)] }),
        ],
    };
    let delta = StateDelta {
        accounts: Vec::new(),
        storages: vec![
            (1, StorageDelta { wiped: false, slots: vec![(10, 9)] }),
            (2, StorageDelta { wiped: false, slots: vec![(20, 9)] }),
            (3, StorageDelta { wiped: false, slots: vec![(30, 9)] }),
        ],
    };
    let snap = AccountTrieSnapshot { fault: None, branches: vec![], leaves: vec![1, 2, 3] };
    // the faulty account degrades to absent; the walk still visits all three
    let stats = cache
        .prefetch_once(&snap, &src, delta)
        .expect("one faulty account must not abort the pass");
    assert_eq!(stats.leaves_added, 3);
}

#[test]
fn backend_fault_fails_the_pass() {
    let cache = TriePrefetch::new();
    let snap = AccountTrieSnapshot { fault: Some(42), branches: vec![], leaves: vec![] };
    let r = cache.prefetch_once(&snap, &empty_source(), accounts_delta(vec![(1, 1)]));
    assert_eq!(r, Err(TriePrefetchError::Provider(ProviderError::Database(42))));
}

#[test]
fn end_to_end_scenario() {
    let mut cache = TriePrefetch::new();
    // delta: account A with balance 10, no storage
    let first = cache.filter_and_mark(&accounts_delta(vec![(0xA, 10)]));
    assert_eq!(first.accounts.len(), 1);
    assert_eq!(first.accounts[0].0, 0xA);
    assert_eq!(first.accounts[0].1.balance, 10);
    assert_eq!(first.storages.len(), 0);
    // the identical delta again: fully deduplicated
    let second = cache.filter_and_mark(&accounts_delta(vec![(0xA, 10)]));
    assert_eq!(second.accounts.len(), 0);
    assert_eq!(second.storages.len(), 0);
    // delta: storage-only change of A, slot S1 -> 5
    let third = cache.filter_and_mark(&storage_delta(0xA, false, vec![(0x51, 5)]));
    assert_eq!(third.storages.len(), 1);
    assert_eq!(third.storages[0].0, 0xA);
    assert_eq!(third.storages[0].1.slots, vec![(0x51, 5)]);
    // A had no record in this delta's accounts map, so none is carried
    assert_eq!(third.accounts.len(), 0);
    // a repeat of the same delta yields an empty residual
    let fourth = cache.filter_and_mark(&storage_delta(0xA, false, vec![(0x51, 5)]));
    assert_eq!(fourth.accounts.len(), 0);
    assert_eq!(fourth.storages.len(), 0);
}

#[test]
fn storage_carry_includes_account_record() {
    let mut cache = TriePrefetch::new();
    let delta = StateDelta {
        accounts: vec![(0xA, record(7))],
        storages: vec![(0xA, StorageDelta { wiped: false, slots: vec![(0x51, 5)] })],
    };
    let residual = cache.filter_and_mark(&delta);
    assert_eq!(residual.storages.len(), 1);
    assert_eq!(residual.accounts.len(), 1);
    assert_eq!(residual.accounts[0], (0xA, record(7)));
}

#[test]
fn error_conversion_is_partial() {
    let db = TriePrefetchError::StorageRoot(StorageRootError::Database(7));
    assert_eq!(db.to_provider_error(), Some(ProviderError::Database(7)));
    let provider = TriePrefetchError::Provider(ProviderError::Database(9));
    assert_eq!(provider.to_provider_error(), Some(ProviderError::Database(9)));
    let malformed = TriePrefetchError::StorageRoot(StorageRootError::MalformedNode);
    assert_eq!(malformed.to_provider_error(), None);
}

#[test]
fn storage_root_counts_overlaid_entries() {
    let src = StorageSource {
        entries: vec![(7, AccountStorage { fault: None, slots: vec![(1, 10), (2, 20)] })],
    };
    let every = PrefixSet::every();
    // overlay shadows slot 2 and adds slot 3: 2 overlay entries + 1 persisted
    let overlay = StorageDelta { wiped: false, slots: vec![(2, 99), (3, 9)] };
    assert_eq!(compute_storage_root(&src, 7, Some(&overlay), &every), Ok(3));
    // a wiped overlay hides the persisted storage entirely
    let wiped = StorageDelta { wiped: true, slots: vec![(3, 9)] };
    assert_eq!(compute_storage_root(&src, 7, Some(&wiped), &every), Ok(1));
    // an empty prefix set prunes the whole walk
    let none = PrefixSet::none();
    assert_eq!(compute_storage_root(&src, 7, Some(&overlay), &none), Ok(0));
    // a cursor fault surfaces as the storage-root error
    let faulty = StorageSource {
        entries: vec![(7, AccountStorage { fault: Some(StorageRootError::Database(3)), slots: vec![] })],
    };
    assert_eq!(
        compute_storage_root(&faulty, 7, None, &every),
        Err(StorageRootError::Database(3))
    );
}

#[test]
fn walk_consumes_each_root_once() {
    let snap = AccountTrieSnapshot { fault: None, branches: vec![], leaves: vec![1, 2] };
    let residual = accounts_delta(vec![(1, 5)]);
    let every = PrefixSet::every();
    // roots for the visited leaf 1 and for an untouched account 9
    let mut roots = vec![(1u64, 4u64), (9u64, 8u64)];
    let stats = walk_accounts(&snap, &residual, &every, &mut roots, &empty_source());
    // leaf 1 comes from the delta, leaf 2 from the persisted trie
    assert_eq!(stats.leaves_added, 2);
    // the root of the visited leaf was consumed; the other entry stays
    assert_eq!(roots, vec![(9u64, 8u64)]);
}

#[test]
fn prefetch_roots_skip_faulty_accounts() {
    let src = StorageSource {
        entries: vec![
            (1, AccountStorage { fault: None, slots: vec![(10, 1), (11, 1)] }),
            (2, AccountStorage { fault: Some(StorageRootError::Database(9)), slots: vec![] }),
        ],
    };
    let delta = StateDelta {
        accounts: Vec::new(),
        storages: vec![
            (1, StorageDelta { wiped: false, slots: vec![(10, 7)] }),
            (2, StorageDelta { wiped: false, slots: vec![(20, 7)] }),
        ],
    };
    let sets = construct_prefix_sets(&delta);
    let roots = prefetch_storage_roots(&delta, &sets, &src);
    // account 1: the overlaid slot 10 is counted once, under its prefix set
    assert_eq!(roots, vec![(1u64, 1u64)]);
}

#[test]
fn queue_processing_marks_the_cache() {
    let mut cache = TriePrefetch::new();
    let deltas = vec![accounts_delta(vec![(1, 10)]), accounts_delta(vec![(2, 20)])];
    let report = cache.run_queue(&deltas, 1, &empty_snapshot(), &empty_source());
    assert_eq!(report.processed, 1);
    // the processed delta went through the dedup cache: replaying it is empty
    let again = cache.filter_and_mark(&accounts_delta(vec![(1, 10)]));
    assert_eq!(again.accounts.len(), 0);
    // the delta still queued at cancellation was not processed, so its keys
    // are unmarked
    let fresh = cache.filter_and_mark(&accounts_delta(vec![(2, 20)]));
    assert_eq!(fresh.accounts.len(), 1);
}
