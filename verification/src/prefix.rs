//! Prefix sets: the trie paths a residual delta is known to have touched.
//! They direct the walkers to skip untouched subtrees; pruning never skips a
//! touched path.

use vstd::prelude::*;

use crate::delta::StateDelta;
use crate::delta::StateDeltaV;
use crate::delta::has_key;
use crate::delta::lemma_storages_view;
use crate::delta::lemma_uniq_val;
use crate::delta::uniq_keys;
use crate::delta::val_of;

verus! {

/// A frozen set of touched trie paths below one root. `all` marks every path
/// as touched (a wiped storage trie must be re-walked in full).
#[derive(Debug)]
pub struct PrefixSet {
    all: bool,
    keys: Vec<u64>,
}

impl PrefixSet {
    /// Whether the path of key `k` must be visited.
    pub closed spec fn covers(&self, k: u64) -> bool {
        self.all || self.keys@.contains(k)
    }

    /// A prefix set covering nothing.
    pub fn none() -> (r: Self)
        ensures
            forall|k: u64| !r.covers(k),
    {
        PrefixSet { all: false, keys: Vec::new() }
    }

    /// A prefix set covering every path.
    pub fn every() -> (r: Self)
        ensures
            forall|k: u64| r.covers(k),
    {
        PrefixSet { all: true, keys: Vec::new() }
    }

    /// Tests whether the path of key `k` is covered.
    pub fn contains_path(&self, k: u64) -> (r: bool)
        ensures
            r == self.covers(k),
    {
        if self.all {
            true
        } else {
            crate::delta::contains_u64(&self.keys, k)
        }
    }
}

/// The prefix sets of one pass: one for the account trie, one per touched
/// account's storage trie.
pub struct TriePrefixSets {
    pub account_prefix_set: PrefixSet,
    pub storage_prefix_sets: Vec<(u64, PrefixSet)>,
}

/// Whether the delta touches account `a` at all.
pub open spec fn touched(d: StateDeltaV, a: u64) -> bool {
    has_key(d.accounts, a) || has_key(d.storages, a)
}

impl TriePrefixSets {
    /// Well-formedness of a pass's prefix sets against its residual delta:
    /// the account set covers exactly the touched accounts, and each touched
    /// storage trie has a set covering exactly its touched slots (every path
    /// when the storage was wiped).
    pub open spec fn matches(&self, d: StateDeltaV) -> bool {
        &&& forall|k: u64| #[trigger] self.account_prefix_set.covers(k) <==> touched(d, k)
        &&& uniq_keys(self.storage_prefix_sets@)
        &&& forall|a: u64|
            #[trigger] has_key(self.storage_prefix_sets@, a) <==> has_key(d.storages, a)
        &&& forall|a: u64, s: u64|
            has_key(d.storages, a) ==> (#[trigger] val_of(self.storage_prefix_sets@, a).covers(s)
                <==> val_of(d.storages, a).wiped || has_key(val_of(d.storages, a).slots, s))
    }
}

/// Derives the prefix sets of a residual delta: the account-level set holds
/// exactly the touched account keys; each storage entry gets a set of its
/// touched slot keys, widened to every path when the entry is wiped.
pub fn construct_prefix_sets(delta: &StateDelta) -> (r: TriePrefixSets)
    requires
        delta.wf(),
    ensures
        r.matches(delta@),
{
    let ghost d = delta@;
    proof {
        lemma_storages_view(delta.storages@);
    }
    let mut keys: Vec<u64> = Vec::new();
    let mut i: usize = 0;
    while i < delta.accounts.len()
        invariant
            i <= delta.accounts@.len(),
            d == delta@,
            forall|k: u64|
                #![trigger keys@.contains(k)]
                #![trigger has_key(d.accounts.take(i as int), k)]
                keys@.contains(k) <==> has_key(d.accounts.take(i as int), k),
        decreases delta.accounts@.len() - i,
    {
        let k = delta.accounts[i].0;
        let ghost keys0 = keys@;
        keys.push(k);
        proof {
            assert(d.accounts.take(i as int + 1) =~= d.accounts.take(i as int).push(
                d.accounts[i as int],
            ));
            assert forall|x: u64|
                keys@.contains(x) <==> has_key(d.accounts.take(i as int + 1), x) by {
                if keys@.contains(x) {
                    let w = choose|w: int| 0 <= w < keys@.len() && keys@[w] == x;
                    if w < keys0.len() {
                        assert(keys0[w] == x);
                        assert(keys0.contains(x));
                        assert(has_key(d.accounts.take(i as int), x));
                        let q = choose|q: int|
                            0 <= q < i && (#[trigger] d.accounts.take(i as int)[q]).0 == x;
                        assert(d.accounts.take(i as int + 1)[q].0 == x);
                    } else {
                        assert(x == k);
                        assert(d.accounts.take(i as int + 1)[i as int].0 == x);
                    }
                }
                if has_key(d.accounts.take(i as int + 1), x) {
                    let q = choose|q: int|
                        0 <= q <= i && (#[trigger] d.accounts.take(i as int + 1)[q]).0 == x;
                    if q < i {
                        assert(d.accounts.take(i as int)[q].0 == x);
                        assert(keys0.contains(x));
                        let w = choose|w: int| 0 <= w < keys0.len() && keys0[w] == x;
                        assert(keys@[w] == x);
                    } else {
                        assert(x == k);
                        assert(keys@[keys@.len() - 1] == x);
                    }
                }
            }
        }
        i += 1;
    }
    proof {
        assert(d.accounts.take(d.accounts.len() as int) =~= d.accounts);
        assert(forall|k: u64| !has_key(d.storages.take(0), k));
    }
    let mut storage_sets: Vec<(u64, PrefixSet)> = Vec::new();
    let mut j: usize = 0;
    while j < delta.storages.len()
        invariant
            j <= delta.storages@.len(),
            d == delta@,
            delta.wf(),
            forall|k: u64|
                #![trigger keys@.contains(k)]
                #![trigger has_key(d.storages.take(j as int), k)]
                keys@.contains(k) <==> has_key(d.accounts, k) || has_key(
                    d.storages.take(j as int),
                    k,
                ),
            uniq_keys(storage_sets@),
            forall|a: u64|
                #[trigger] has_key(storage_sets@, a) <==> has_key(d.storages.take(j as int), a),
            forall|a: u64, s: u64|
                has_key(d.storages.take(j as int), a) ==> (#[trigger] val_of(
                    storage_sets@,
                    a,
                ).covers(s) <==> val_of(d.storages, a).wiped || has_key(
                    val_of(d.storages, a).slots,
                    s,
                )),
        decreases delta.storages@.len() - j,
    {
        let entry = &delta.storages[j];
        let a = entry.0;
        let sd = &entry.1;
        proof {
            lemma_storages_view(delta.storages@);
            assert(d.storages[j as int] == (a, sd@));
            lemma_uniq_val(d.storages, j as int);
            assert(!has_key(d.storages.take(j as int), a)) by {
                if has_key(d.storages.take(j as int), a) {
                    let q = choose|q: int|
                        0 <= q < j && (#[trigger] d.storages.take(j as int)[q]).0 == a;
                    assert(d.storages[q].0 == d.storages[j as int].0);
                }
            }
        }
        let mut skeys: Vec<u64> = Vec::new();
        let mut t: usize = 0;
        while t < sd.slots.len()
            invariant
                t <= sd.slots@.len(),
                forall|x: u64|
                    #![trigger skeys@.contains(x)]
                    #![trigger has_key(sd.slots@.take(t as int), x)]
                    skeys@.contains(x) <==> has_key(sd.slots@.take(t as int), x),
            decreases sd.slots@.len() - t,
        {
            let sk = sd.slots[t].0;
            let ghost sk0 = skeys@;
            skeys.push(sk);
            proof {
                assert(sd.slots@[t as int].0 == sk);
                assert forall|x: u64|
                    skeys@.contains(x) <==> has_key(sd.slots@.take(t as int + 1), x) by {
                    if skeys@.contains(x) {
                        let w = choose|w: int| 0 <= w < skeys@.len() && skeys@[w] == x;
                        if w < sk0.len() {
                            assert(sk0[w] == x);
                            assert(sk0.contains(x));
                            assert(has_key(sd.slots@.take(t as int), x));
                            let q = choose|q: int|
                                0 <= q < t && (#[trigger] sd.slots@.take(t as int)[q]).0 == x;
                            assert(sd.slots@.take(t as int + 1)[q].0 == x);
                        } else {
                            assert(x == sk);
                            assert(sd.slots@.take(t as int + 1)[t as int].0 == x);
                        }
                    }
                    if has_key(sd.slots@.take(t as int + 1), x) {
                        let q = choose|q: int|
                            0 <= q <= t && (#[trigger] sd.slots@.take(t as int + 1)[q]).0 == x;
                        if q < t {
                            assert(sd.slots@.take(t as int)[q].0 == x);
                            assert(has_key(sd.slots@.take(t as int), x));
                            assert(sk0.contains(x));
                            let w = choose|w: int| 0 <= w < sk0.len() && sk0[w] == x;
                            assert(skeys@[w] == x);
                        } else {
                            assert(x == sk);
                            assert(skeys@[skeys@.len() - 1] == x);
                        }
                    }
                }
            }
            t += 1;
        }
        let pset = PrefixSet { all: sd.wiped, keys: skeys };
        proof {
            assert(sd.slots@.take(sd.slots@.len() as int) =~= sd.slots@);
            assert(forall|s: u64| #[trigger] pset.covers(s) <==> sd@.wiped || has_key(sd@.slots, s));
        }
        let ghost ss0 = storage_sets@;
        storage_sets.push((a, pset));
        proof {
            crate::delta::lemma_push_assoc(ss0, a, pset);
            assert(d.storages.take(j as int + 1) =~= d.storages.take(j as int).push((a, sd@)));
            crate::delta::lemma_has_key_push(d.storages.take(j as int), (a, sd@));
            assert forall|x: u64|
                #[trigger] has_key(storage_sets@, x) <==> has_key(
                    d.storages.take(j as int + 1),
                    x,
                ) by {
                if has_key(storage_sets@, x) {
                    let w = choose|w: int|
                        0 <= w < storage_sets@.len() && (#[trigger] storage_sets@[w]).0 == x;
                    if w < ss0.len() {
                        assert(ss0[w].0 == x);
                        assert(has_key(ss0, x));
                        let q = choose|q: int|
                            0 <= q < j && (#[trigger] d.storages.take(j as int)[q]).0 == x;
                        assert(d.storages.take(j as int + 1)[q].0 == x);
                    } else {
                        assert(x == a);
                        assert(d.storages.take(j as int + 1)[j as int].0 == x);
                    }
                }
                if has_key(d.storages.take(j as int + 1), x) {
                    let q = choose|q: int|
                        0 <= q <= j && (#[trigger] d.storages.take(j as int + 1)[q]).0 == x;
                    if q < j {
                        assert(d.storages.take(j as int)[q].0 == x);
                        assert(has_key(d.storages.take(j as int), x));
                        assert(has_key(ss0, x));
                        let w = choose|w: int| 0 <= w < ss0.len() && (#[trigger] ss0[w]).0 == x;
                        assert(storage_sets@[w].0 == x);
                    } else {
                        assert(x == a);
                        assert(storage_sets@[ss0.len() as int].0 == x);
                    }
                }
            }
            assert forall|x: u64, s: u64|
                has_key(d.storages.take(j as int + 1), x) implies (#[trigger] val_of(
                storage_sets@,
                x,
            ).covers(s) <==> val_of(d.storages, x).wiped || has_key(
                val_of(d.storages, x).slots,
                s,
            )) by {
                if x == a {
                    assert(val_of(storage_sets@, a) == pset);
                    assert(val_of(d.storages, a) == sd@);
                } else {
                    assert(val_of(storage_sets@, x) == val_of(ss0, x));
                    assert(has_key(d.storages.take(j as int), x)) by {
                        let q = choose|q: int|
                            0 <= q <= j && (#[trigger] d.storages.take(j as int + 1)[q]).0 == x;
                        assert(d.storages.take(j as int)[q].0 == x);
                    }
                }
            }
        }
        let ghost k0 = keys@;
        keys.push(a);
        proof {
            assert forall|k: u64|
                keys@.contains(k) <==> has_key(d.accounts, k) || has_key(
                    d.storages.take(j as int + 1),
                    k,
                ) by {
                if keys@.contains(k) {
                    let w = choose|w: int| 0 <= w < keys@.len() && keys@[w] == k;
                    if w < k0.len() {
                        assert(k0[w] == k);
                        assert(k0.contains(k));
                        if !has_key(d.accounts, k) {
                            let q = choose|q: int|
                                0 <= q < j && (#[trigger] d.storages.take(j as int)[q]).0 == k;
                            assert(d.storages.take(j as int + 1)[q].0 == k);
                        }
                    } else {
                        assert(k == a);
                        assert(d.storages.take(j as int + 1)[j as int].0 == k);
                    }
                } else {
                    assert(!k0.contains(k)) by {
                        if k0.contains(k) {
                            let w = choose|w: int| 0 <= w < k0.len() && k0[w] == k;
                            assert(keys@[w] == k);
                        }
                    }
                    if has_key(d.storages.take(j as int + 1), k) {
                        let q = choose|q: int|
                            0 <= q <= j && (#[trigger] d.storages.take(j as int + 1)[q]).0 == k;
                        if q < j {
                            assert(d.storages.take(j as int)[q].0 == k);
                            assert(k0.contains(k));
                        } else {
                            assert(k == a);
                            assert(keys@[keys@.len() - 1] == k);
                            assert(keys@.contains(k));
                        }
                    }
                }
            }
        }
        j += 1;
    }
    // account keys not yet present: accounts touched only through storage are
    // already in from the storage loop; accounts in both are in once
    let ghost dn = d.storages.len() as int;
    let mut keys_all = keys;
    proof {
        assert(d.accounts.take(d.accounts.len() as int) =~= d.accounts);
        assert(d.storages.take(dn) =~= d.storages);
    }
    let r = TriePrefixSets {
        account_prefix_set: PrefixSet { all: false, keys: keys_all },
        storage_prefix_sets: storage_sets,
    };
    proof {
        assert forall|k: u64| #[trigger] r.account_prefix_set.covers(k) <==> touched(d, k) by {}
        assert(forall|a: u64|
            #[trigger] has_key(r.storage_prefix_sets@, a) <==> has_key(d.storages, a));
    }
    r
}

} // verus!
