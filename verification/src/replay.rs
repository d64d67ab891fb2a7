//! The decisions of the trace-replay loop: where the system-transaction
//! boundary falls, whether the block reward is applied, and how many
//! transactions are executed before the target transaction is reached. The
//! execution of each transaction itself is the virtual machine's work and
//! stays with the caller, which follows this plan.

use vstd::prelude::*;

verus! {

/// What the replay decisions read of one signed transaction.
#[derive(Clone, Copy, PartialEq, Eq, Structural, Debug)]
pub struct ReplayTx {
    pub hash: u64,
    pub signer: u64,
    pub system: bool,
}

/// The plan of one replay: how many transactions are executed before the
/// target, and whether the system boundary was crossed (block reward and
/// post-boundary contract upgrade applied).
#[derive(Clone, Copy, PartialEq, Eq, Structural, Debug)]
pub struct ReplayPlan {
    pub executed: u64,
    pub reward_applied: bool,
}

/// The position of the first transaction with the target hash, or the
/// sequence's length when none carries it.
pub open spec fn stop_index(s: Seq<ReplayTx>, h: u64) -> int
    decreases s.len(),
{
    if s.len() == 0 {
        0
    } else if s[0].hash == h {
        0
    } else {
        1 + stop_index(s.drop_first(), h)
    }
}

/// `stop_index` is the first position carrying the target hash.
pub proof fn lemma_stop_index_spec(s: Seq<ReplayTx>, h: u64)
    ensures
        0 <= stop_index(s, h) <= s.len(),
        stop_index(s, h) < s.len() ==> s[stop_index(s, h)].hash == h,
        forall|j: int| 0 <= j < stop_index(s, h) ==> (#[trigger] s[j]).hash != h,
    decreases s.len(),
{
    if s.len() > 0 && s[0].hash != h {
        lemma_stop_index_spec(s.drop_first(), h);
        assert forall|j: int| 0 <= j < stop_index(s, h) implies (#[trigger] s[j]).hash != h by {
            if j > 0 {
                assert(s.drop_first()[j - 1] == s[j]);
            }
        }
        if stop_index(s, h) < s.len() {
            assert(s.drop_first()[stop_index(s.drop_first(), h)] == s[stop_index(s, h)]);
        }
    }
}

/// Whether the replay crosses the system-transaction boundary: some system
/// transaction stands at or before the stopping point. The boundary test
/// runs before the target test, so the target transaction itself counts.
pub open spec fn crosses_boundary(s: Seq<ReplayTx>, h: u64) -> bool {
    exists|i: int| 0 <= i < s.len() && i <= stop_index(s, h) && (#[trigger] s[i]).system
}

/// Plans one replay up to the target transaction: every transaction before
/// the first one carrying `target_tx_hash` is executed (all of them when none
/// does), and on a chain with system transactions the block reward is applied
/// exactly when the boundary is crossed on the way.
pub fn replay_transactions_until(txs: &Vec<ReplayTx>, target_tx_hash: u64, is_bsc: bool) -> (r:
    ReplayPlan)
    ensures
        r.executed as int == stop_index(txs@, target_tx_hash),
        r.reward_applied == (is_bsc && crosses_boundary(txs@, target_tx_hash)),
{
    proof {
        lemma_stop_index_spec(txs@, target_tx_hash);
    }
    let mut before_system_tx = is_bsc;
    let mut reward_applied = false;
    let mut i: usize = 0;
    while i < txs.len()
        invariant
            i <= txs@.len(),
            0 <= stop_index(txs@, target_tx_hash) <= txs@.len(),
            stop_index(txs@, target_tx_hash) < txs@.len() ==> txs@[stop_index(
                txs@,
                target_tx_hash,
            )].hash == target_tx_hash,
            forall|j: int|
                0 <= j < stop_index(txs@, target_tx_hash) ==> (#[trigger] txs@[j]).hash
                    != target_tx_hash,
            i <= stop_index(txs@, target_tx_hash),
            before_system_tx == (is_bsc && !exists|j: int|
                0 <= j < i && (#[trigger] txs@[j]).system),
            reward_applied == (is_bsc && exists|j: int|
                0 <= j < i && (#[trigger] txs@[j]).system),
        decreases txs@.len() - i,
    {
        let tx = txs[i];
        if before_system_tx && tx.system {
            // the boundary: the block reward moves and the post-boundary
            // contract upgrade runs; later system transactions change nothing
            reward_applied = true;
            before_system_tx = false;
        }
        proof {
            assert(txs@[i as int] == tx);
            if tx.system {
                assert(exists|j: int| 0 <= j < i + 1 && (#[trigger] txs@[j]).system);
            } else {
                assert forall|j: int| 0 <= j < i + 1 && (#[trigger] txs@[j]).system implies 0 <= j
                    < i && txs@[j].system by {}
            }
        }
        if tx.hash == target_tx_hash {
            proof {
                assert(stop_index(txs@, target_tx_hash) == i) by {
                    if stop_index(txs@, target_tx_hash) > i {
                        assert(txs@[i as int].hash != target_tx_hash);
                    }
                }
                if reward_applied {
                    let j = choose|j: int| 0 <= j < i + 1 && (#[trigger] txs@[j]).system;
                    assert(crosses_boundary(txs@, target_tx_hash));
                }
                if is_bsc && crosses_boundary(txs@, target_tx_hash) {
                    let j = choose|j: int|
                        0 <= j < txs@.len() && j <= stop_index(txs@, target_tx_hash) && (
                        #[trigger] txs@[j]).system;
                    assert(0 <= j < i + 1 && txs@[j].system);
                }
            }
            return ReplayPlan { executed: i as u64, reward_applied };
        }
        proof {
            assert(stop_index(txs@, target_tx_hash) > i) by {
                if stop_index(txs@, target_tx_hash) == i {
                    assert(txs@[i as int].hash == target_tx_hash);
                }
            }
        }
        i += 1;
    }
    proof {
        assert(stop_index(txs@, target_tx_hash) == txs@.len());
        if reward_applied {
            let j = choose|j: int| 0 <= j < i && (#[trigger] txs@[j]).system;
            assert(crosses_boundary(txs@, target_tx_hash));
        }
        if is_bsc && crosses_boundary(txs@, target_tx_hash) {
            let j = choose|j: int|
                0 <= j < txs@.len() && j <= stop_index(txs@, target_tx_hash) && (
                #[trigger] txs@[j]).system;
            assert(0 <= j < i && txs@[j].system);
        }
    }
    ReplayPlan { executed: i as u64, reward_applied }
}

} // verus!
