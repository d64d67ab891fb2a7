use trie_prefetch::noop::BlockExecutionError;
use trie_prefetch::noop::NoopBlockExecutorProvider;
use trie_prefetch::prefix::construct_prefix_sets;
use trie_prefetch::trace_helper::AccountState;
use trie_prefetch::trace_helper::AccountStore;
use trie_prefetch::trace_helper::BlockEnv;
use trie_prefetch::trace_helper::BscTraceHelper;
use trie_prefetch::trace_helper::Parlia;
use trie_prefetch::trace_helper::SYSTEM_ADDRESS;
use trie_prefetch::delta::AccountRecord;
use trie_prefetch::delta::StateDelta;
use trie_prefetch::delta::StorageDelta;
use trie_prefetch::replay::ReplayTx;
use trie_prefetch::replay::replay_transactions_until;

fn env(timestamp: u64, coinbase: u64) -> BlockEnv {
    BlockEnv { number: 1, timestamp, coinbase }
}

#[test]
fn prefix_sets_cover_exactly_the_touched_paths() {
    let delta = StateDelta {
        accounts: vec![(1, AccountRecord { nonce: 0, balance: 1, code_hash: 0 })],
        storages: vec![(2, StorageDelta { wiped: false, slots: vec![(20, 1)] })],
    };
    let sets = construct_prefix_sets(&delta);
    assert!(sets.account_prefix_set.contains_path(1));
    assert!(sets.account_prefix_set.contains_path(2));
    assert!(!sets.account_prefix_set.contains_path(3));
    assert_eq!(sets.storage_prefix_sets.len(), 1);
    assert_eq!(sets.storage_prefix_sets[0].0, 2);
    assert!(sets.storage_prefix_sets[0].1.contains_path(20));
    assert!(!sets.storage_prefix_sets[0].1.contains_path(21));
}

#[test]
fn wiped_storage_prefix_set_covers_everything() {
    let delta = StateDelta {
        accounts: vec![],
        storages: vec![(2, StorageDelta { wiped: true, slots: vec![(20, 1)] })],
    };
    let sets = construct_prefix_sets(&delta);
    assert!(sets.storage_prefix_sets[0].1.contains_path(20));
    assert!(sets.storage_prefix_sets[0].1.contains_path(12345));
}

#[test]
fn block_reward_moves_to_coinbase() {
    let mut db = AccountStore::new();
    db.set_balance(SYSTEM_ADDRESS, 500);
    db.set_balance(77, 25);
    let helper = BscTraceHelper::new(Parlia { feynman_activation: None, upgrades: vec![] });
    helper.add_block_reward(&mut db, &env(0, 77));
    assert_eq!(db.balance(SYSTEM_ADDRESS), 0);
    assert_eq!(db.balance(77), 525);
    assert_eq!(db.state(77), AccountState::Touched);
}

#[test]
fn block_reward_without_accrual_changes_nothing() {
    let mut db = AccountStore::new();
    db.set_balance(77, 25);
    let helper = BscTraceHelper::new(Parlia { feynman_activation: None, upgrades: vec![] });
    helper.add_block_reward(&mut db, &env(0, 77));
    assert_eq!(db.balance(SYSTEM_ADDRESS), 0);
    assert_eq!(db.balance(77), 25);
}

#[test]
fn upgrade_runs_before_system_txs_until_fork() {
    let parlia = Parlia { feynman_activation: Some(1000), upgrades: vec![(5, 0xC0DE)] };
    let helper = BscTraceHelper::new(parlia);
    let mut db = AccountStore::new();
    // before the fork, the upgrade runs on the before-system-txs call
    helper.upgrade_system_contracts(&mut db, &env(999, 1), 998, true);
    assert_eq!(db.code_hash(5), 0xC0DE);
    assert_eq!(db.state(5), AccountState::Touched);
    // and not on the after-system-txs call
    let mut db2 = AccountStore::new();
    helper.upgrade_system_contracts(&mut db2, &env(999, 1), 998, false);
    assert_eq!(db2.code_hash(5), 0);
}

#[test]
fn upgrade_runs_after_system_txs_once_fork_active() {
    let parlia = Parlia { feynman_activation: Some(1000), upgrades: vec![(5, 0xC0DE)] };
    let helper = BscTraceHelper::new(parlia);
    let mut db = AccountStore::new();
    helper.upgrade_system_contracts(&mut db, &env(1000, 1), 999, true);
    assert_eq!(db.code_hash(5), 0);
    helper.upgrade_system_contracts(&mut db, &env(1000, 1), 999, false);
    assert_eq!(db.code_hash(5), 0xC0DE);
}

#[test]
fn noop_executor_refuses_execution() {
    let provider = NoopBlockExecutorProvider::default();
    let executor = provider.executor();
    assert_eq!(executor.execute(), Err(BlockExecutionError::UnavailableForNoop));
    let mut batch = provider.batch_executor();
    assert_eq!(batch.execute_and_verify_one(), Err(BlockExecutionError::UnavailableForNoop));
    batch.set_tip(7);
    batch.set_prune_modes(0);
    assert_eq!(batch.size_hint(), None);
}

#[test]
fn replay_stops_at_target_and_crosses_boundary() {
    let txs = vec![
        ReplayTx { hash: 1, signer: 10, system: false },
        ReplayTx { hash: 2, signer: 10, system: false },
        ReplayTx { hash: 3, signer: 99, system: true },
        ReplayTx { hash: 4, signer: 10, system: false },
    ];
    // target before the boundary: two executed, no reward
    let plan = replay_transactions_until(&txs, 3, true);
    assert_eq!(plan.executed, 2);
    assert!(plan.reward_applied);
    let early = replay_transactions_until(&txs, 2, true);
    assert_eq!(early.executed, 1);
    assert!(!early.reward_applied);
    // unknown target: everything executes
    let all = replay_transactions_until(&txs, 77, true);
    assert_eq!(all.executed, 4);
    assert!(all.reward_applied);
    // not a system chain: no reward bookkeeping
    let plain = replay_transactions_until(&txs, 77, false);
    assert!(!plain.reward_applied);
}
