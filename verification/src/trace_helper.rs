//! Collaborators around the prefetch core: the block-reward transfer and the
//! system-contract upgrade that trace replay applies between transactions.
//! They use only the minimal account-mutator surface — load or create an
//! account, zero or add a balance, mark existence, set code — over a cached
//! account store modeled as plain values.

use vstd::prelude::*;

use crate::delta::find_index;
use crate::delta::has_key;
use crate::delta::lemma_push_assoc;
use crate::delta::lemma_remove_assoc;
use crate::delta::lemma_uniq_val;
use crate::delta::uniq_keys;
use crate::delta::val_of;

verus! {

/// The account that accrues system rewards within a block.
pub const SYSTEM_ADDRESS: u64 = 0xfffffffffffffffe;

/// Whether the cached account exists from the chain's point of view.
#[derive(Clone, Copy, PartialEq, Eq, Structural, Debug)]
pub enum AccountState {
    NotExisting,
    Touched,
}

/// A cached account: the fields the collaborators mutate.
#[derive(Clone, Copy, PartialEq, Eq, Structural, Debug)]
pub struct StoredAccount {
    pub balance: u128,
    pub state: AccountState,
    pub code_hash: u64,
}

/// The cached account store the replay works on. An absent account reads as
/// balance zero, not existing, empty code.
#[derive(Debug)]
pub struct AccountStore {
    accounts: Vec<(u64, StoredAccount)>,
}

impl AccountStore {
    /// Unique account keys.
    pub closed spec fn wf(&self) -> bool {
        uniq_keys(self.accounts@)
    }

    /// The balance of account `a`.
    pub closed spec fn balance_of(&self, a: u64) -> u128 {
        if has_key(self.accounts@, a) {
            val_of(self.accounts@, a).balance
        } else {
            0
        }
    }

    /// The existence state of account `a`.
    pub closed spec fn state_of(&self, a: u64) -> AccountState {
        if has_key(self.accounts@, a) {
            val_of(self.accounts@, a).state
        } else {
            AccountState::NotExisting
        }
    }

    /// The code hash of account `a`.
    pub closed spec fn code_hash_of(&self, a: u64) -> u64 {
        if has_key(self.accounts@, a) {
            val_of(self.accounts@, a).code_hash
        } else {
            0
        }
    }

    /// An empty store.
    pub fn new() -> (r: Self)
        ensures
            r.wf(),
            forall|x: u64| r.balance_of(x) == 0,
            forall|x: u64| r.state_of(x) == AccountState::NotExisting,
            forall|x: u64| r.code_hash_of(x) == 0,
    {
        AccountStore { accounts: Vec::new() }
    }

    /// Reads the balance of account `a`.
    pub fn balance(&self, a: u64) -> (r: u128)
        requires
            self.wf(),
        ensures
            r == self.balance_of(a),
    {
        match find_index(&self.accounts, a) {
            Some(i) => {
                proof {
                    lemma_uniq_val(self.accounts@, i as int);
                }
                self.accounts[i].1.balance
            },
            None => 0,
        }
    }

    /// Reads the existence state of account `a`.
    pub fn state(&self, a: u64) -> (r: AccountState)
        requires
            self.wf(),
        ensures
            r == self.state_of(a),
    {
        match find_index(&self.accounts, a) {
            Some(i) => {
                proof {
                    lemma_uniq_val(self.accounts@, i as int);
                }
                self.accounts[i].1.state
            },
            None => AccountState::NotExisting,
        }
    }

    /// Reads the code hash of account `a`.
    pub fn code_hash(&self, a: u64) -> (r: u64)
        requires
            self.wf(),
        ensures
            r == self.code_hash_of(a),
    {
        match find_index(&self.accounts, a) {
            Some(i) => {
                proof {
                    lemma_uniq_val(self.accounts@, i as int);
                }
                self.accounts[i].1.code_hash
            },
            None => 0,
        }
    }

    /// Sets the balance of account `a`, creating the account if absent.
    pub fn set_balance(&mut self, a: u64, v: u128)
        requires
            old(self).wf(),
        ensures
            final(self).wf(),
            final(self).balance_of(a) == v,
            final(self).state_of(a) == old(self).state_of(a),
            final(self).code_hash_of(a) == old(self).code_hash_of(a),
            forall|x: u64|
                #![trigger final(self).balance_of(x)]
                #![trigger final(self).state_of(x)]
                #![trigger final(self).code_hash_of(x)]
                x != a ==> final(self).balance_of(x) == old(self).balance_of(x)
                    && final(self).state_of(x) == old(self).state_of(x)
                    && final(self).code_hash_of(x) == old(self).code_hash_of(x),
    {
        let mut acc = self.take_account(a);
        acc.balance = v;
        self.put_account(a, acc);
    }

    /// Loads account `a` out of the store, creating it if absent.
    fn take_account(&mut self, a: u64) -> (acc: StoredAccount)
        requires
            old(self).wf(),
        ensures
            final(self).wf(),
            !has_key(final(self).accounts_view(), a),
            acc.balance == old(self).balance_of(a),
            acc.state == old(self).state_of(a),
            acc.code_hash == old(self).code_hash_of(a),
            forall|x: u64|
                #![trigger final(self).balance_of(x)]
                #![trigger final(self).state_of(x)]
                #![trigger final(self).code_hash_of(x)]
                x != a ==> final(self).balance_of(x) == old(self).balance_of(x)
                    && final(self).state_of(x) == old(self).state_of(x)
                    && final(self).code_hash_of(x) == old(self).code_hash_of(x),
    {
        match find_index(&self.accounts, a) {
            Some(i) => {
                proof {
                    lemma_uniq_val(self.accounts@, i as int);
                    lemma_remove_assoc(self.accounts@, i as int);
                }
                let e = self.accounts.remove(i);
                e.1
            },
            None => StoredAccount {
                balance: 0,
                state: AccountState::NotExisting,
                code_hash: 0,
            },
        }
    }

    /// The store's raw bindings (for the take/put contract only).
    closed spec fn accounts_view(&self) -> Seq<(u64, StoredAccount)> {
        self.accounts@
    }

    /// Puts a loaded account back under key `a`.
    fn put_account(&mut self, a: u64, acc: StoredAccount)
        requires
            old(self).wf(),
            !has_key(old(self).accounts_view(), a),
        ensures
            final(self).wf(),
            final(self).balance_of(a) == acc.balance,
            final(self).state_of(a) == acc.state,
            final(self).code_hash_of(a) == acc.code_hash,
            forall|x: u64|
                #![trigger final(self).balance_of(x)]
                #![trigger final(self).state_of(x)]
                #![trigger final(self).code_hash_of(x)]
                x != a ==> final(self).balance_of(x) == old(self).balance_of(x)
                    && final(self).state_of(x) == old(self).state_of(x)
                    && final(self).code_hash_of(x) == old(self).code_hash_of(x),
    {
        proof {
            lemma_push_assoc(self.accounts@, a, acc);
        }
        self.accounts.push((a, acc));
    }
}

/// The block environment the collaborators read.
#[derive(Clone, Copy, PartialEq, Eq, Structural, Debug)]
pub struct BlockEnv {
    pub number: u64,
    pub timestamp: u64,
    pub coinbase: u64,
}

/// The consensus engine's configuration as the trace helper reads it: when
/// the relevant hard fork activates, and which system contracts the pending
/// upgrade installs (address and code hash).
#[derive(Debug)]
pub struct Parlia {
    pub feynman_activation: Option<u64>,
    pub upgrades: Vec<(u64, u64)>,
}

impl Parlia {
    /// Whether the hard fork is active at `timestamp`.
    pub open spec fn feynman_active_at(&self, timestamp: u64) -> bool {
        match self.feynman_activation {
            Some(t) => timestamp >= t,
            None => false,
        }
    }

    /// Tests hard-fork activation at `timestamp`.
    pub fn is_feynman_active_at_timestamp(&self, timestamp: u64) -> (r: bool)
        ensures
            r == self.feynman_active_at(timestamp),
    {
        match self.feynman_activation {
            Some(t) => timestamp >= t,
            None => false,
        }
    }
}

/// Applies consensus-side account mutations while replaying traced
/// transactions: block-reward transfer and system-contract upgrades.
#[derive(Debug)]
pub struct BscTraceHelper {
    pub parlia: Parlia,
}

impl BscTraceHelper {
    /// Creates a helper over the consensus configuration.
    pub fn new(parlia: Parlia) -> (r: Self)
        ensures
            r.parlia == parlia,
    {
        BscTraceHelper { parlia }
    }

    /// Moves the accrued block reward from the system address to the block's
    /// coinbase, marking the coinbase as existing if it was not. With no
    /// accrued reward nothing changes. (When the coinbase is the system
    /// address itself, the transfer lands back where it started.)
    pub fn add_block_reward(&self, db: &mut AccountStore, block_env: &BlockEnv)
        requires
            old(db).wf(),
            old(db).balance_of(block_env.coinbase) + old(db).balance_of(SYSTEM_ADDRESS)
                <= u128::MAX,
        ensures
            final(db).wf(),
            old(db).balance_of(SYSTEM_ADDRESS) == 0 ==> forall|x: u64|
                #![trigger final(db).balance_of(x)]
                #![trigger final(db).state_of(x)]
                #![trigger final(db).code_hash_of(x)]
                final(db).balance_of(x) == old(db).balance_of(x) && final(db).state_of(x)
                    == old(db).state_of(x),
            old(db).balance_of(SYSTEM_ADDRESS) > 0 && block_env.coinbase != SYSTEM_ADDRESS ==> {
                &&& final(db).balance_of(SYSTEM_ADDRESS) == 0
                &&& final(db).balance_of(block_env.coinbase) == old(db).balance_of(
                    block_env.coinbase,
                ) + old(db).balance_of(SYSTEM_ADDRESS)
                &&& final(db).state_of(block_env.coinbase) == (if old(db).state_of(
                    block_env.coinbase,
                ) == AccountState::NotExisting {
                    AccountState::Touched
                } else {
                    old(db).state_of(block_env.coinbase)
                })
                &&& final(db).state_of(SYSTEM_ADDRESS) == old(db).state_of(SYSTEM_ADDRESS)
                &&& forall|x: u64|
                    #![trigger final(db).balance_of(x)]
                    #![trigger final(db).state_of(x)]
                    x != SYSTEM_ADDRESS && x != block_env.coinbase
                        ==> final(db).balance_of(x) == old(db).balance_of(x)
                        && final(db).state_of(x) == old(db).state_of(x)
            },
            old(db).balance_of(SYSTEM_ADDRESS) > 0 && block_env.coinbase == SYSTEM_ADDRESS ==> {
                &&& final(db).balance_of(SYSTEM_ADDRESS) == old(db).balance_of(SYSTEM_ADDRESS)
                &&& final(db).state_of(SYSTEM_ADDRESS) == (if old(db).state_of(SYSTEM_ADDRESS)
                    == AccountState::NotExisting {
                    AccountState::Touched
                } else {
                    old(db).state_of(SYSTEM_ADDRESS)
                })
                &&& forall|x: u64|
                    #![trigger final(db).balance_of(x)]
                    #![trigger final(db).state_of(x)]
                    x != SYSTEM_ADDRESS ==> final(db).balance_of(x) == old(db).balance_of(x)
                        && final(db).state_of(x) == old(db).state_of(x)
            },
            forall|x: u64|
                #![trigger final(db).code_hash_of(x)]
                #![trigger final(db).state_of(x)]
                final(db).code_hash_of(x) == old(db).code_hash_of(x),
    {
        let mut sys_acc = db.take_account(SYSTEM_ADDRESS);
        let balance = sys_acc.balance;
        if balance > 0 {
            sys_acc.balance = 0;
            db.put_account(SYSTEM_ADDRESS, sys_acc);
            let mut val_acc = db.take_account(block_env.coinbase);
            if val_acc.state == AccountState::NotExisting {
                val_acc.state = AccountState::Touched;
            }
            val_acc.balance = val_acc.balance + balance;
            db.put_account(block_env.coinbase, val_acc);
        } else {
            db.put_account(SYSTEM_ADDRESS, sys_acc);
        }
    }

    /// Installs the pending system-contract upgrades: straddling the fork
    /// boundary, the upgrade runs before the system transactions until the
    /// fork activates, and after them once it has.
    pub fn upgrade_system_contracts(
        &self,
        db: &mut AccountStore,
        block_env: &BlockEnv,
        _parent_timestamp: u64,
        before_system_tx: bool,
    )
        requires
            old(db).wf(),
            uniq_keys(self.parlia.upgrades@),
        ensures
            final(db).wf(),
            ({
                let active = self.parlia.feynman_active_at(block_env.timestamp);
                if (before_system_tx && !active) || (!before_system_tx && active) {
                    upgraded(*old(db), *final(db), self.parlia.upgrades@)
                } else {
                    forall|x: u64|
                        #[trigger] final(db).balance_of(x) == old(db).balance_of(x)
                            && final(db).state_of(x) == old(db).state_of(x)
                            && final(db).code_hash_of(x) == old(db).code_hash_of(x)
                }
            }),
    {
        let is_feynman_active = self.parlia.is_feynman_active_at_timestamp(block_env.timestamp);
        if (before_system_tx && !is_feynman_active) || (!before_system_tx && is_feynman_active) {
            self.do_upgrade(db);
        }
    }

    /// Loads each upgraded contract's account, marks it as existing, and
    /// installs the new code hash; balances are untouched.
    fn do_upgrade(&self, db: &mut AccountStore)
        requires
            old(db).wf(),
            uniq_keys(self.parlia.upgrades@),
        ensures
            final(db).wf(),
            upgraded(*old(db), *final(db), self.parlia.upgrades@),
    {
        let ghost db0 = *db;
        let ghost ups = self.parlia.upgrades@;
        let mut i: usize = 0;
        while i < self.parlia.upgrades.len()
            invariant
                i <= ups.len(),
                ups == self.parlia.upgrades@,
                uniq_keys(ups),
                db.wf(),
                forall|x: u64|
                    #![trigger db.state_of(x)]
                    #![trigger db.code_hash_of(x)]
                    !has_key(ups.take(i as int), x) ==> db.state_of(x) == db0.state_of(x)
                        && db.code_hash_of(x) == db0.code_hash_of(x),
                forall|x: u64| #[trigger] db.balance_of(x) == db0.balance_of(x),
                forall|x: u64|
                    #![trigger db.code_hash_of(x)]
                    #![trigger db.state_of(x)]
                    has_key(ups.take(i as int), x) ==> db.code_hash_of(x) == val_of(ups, x)
                        && db.state_of(x) == (if db0.state_of(x) == AccountState::NotExisting {
                        AccountState::Touched
                    } else {
                        db0.state_of(x)
                    }),
            decreases ups.len() - i,
        {
            let (k, v) = self.parlia.upgrades[i];
            proof {
                assert(ups[i as int] == (k, v));
                lemma_uniq_val(ups, i as int);
                assert(!has_key(ups.take(i as int), k)) by {
                    if has_key(ups.take(i as int), k) {
                        let q = choose|q: int|
                            0 <= q < i && (#[trigger] ups.take(i as int)[q]).0 == k;
                        assert(ups[q].0 == ups[i as int].0);
                    }
                }
            }
            let mut acc = db.take_account(k);
            if acc.state == AccountState::NotExisting {
                acc.state = AccountState::Touched;
            }
            acc.code_hash = v;
            db.put_account(k, acc);
            proof {
                assert(ups.take(i as int + 1) =~= ups.take(i as int).push((k, v)));
                crate::delta::lemma_has_key_push(ups.take(i as int), (k, v));
            }
            i += 1;
        }
        proof {
            assert(ups.take(ups.len() as int) =~= ups);
        }
    }
}

/// The store after installing `ups`: each upgraded account exists and holds
/// its new code hash; everything else, and all balances, are unchanged.
pub open spec fn upgraded(
    before: AccountStore,
    after: AccountStore,
    ups: Seq<(u64, u64)>,
) -> bool {
    &&& forall|x: u64|
        #![trigger after.code_hash_of(x)]
        #![trigger after.state_of(x)]
        has_key(ups, x) ==> after.code_hash_of(x) == val_of(ups, x) && after.state_of(x) == (
        if before.state_of(x) == AccountState::NotExisting {
            AccountState::Touched
        } else {
            before.state_of(x)
        })
    &&& forall|x: u64|
        #![trigger after.state_of(x)]
        #![trigger after.code_hash_of(x)]
        !has_key(ups, x) ==> after.state_of(x) == before.state_of(x) && after.code_hash_of(x)
            == before.code_hash_of(x)
    &&& forall|x: u64| #[trigger] after.balance_of(x) == before.balance_of(x)
}

} // verus!
