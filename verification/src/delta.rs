//! The state-delta data model: incremental account and storage changes
//! produced by transaction execution, keyed by hashed account and slot keys.

use vstd::prelude::*;

verus! {

/// An updated account record carried by a state delta.
#[derive(Clone, Copy, PartialEq, Eq, Structural, Debug)]
pub struct AccountRecord {
    pub nonce: u64,
    pub balance: u128,
    pub code_hash: u64,
}

/// The storage changes of one account within a state delta.
///
/// `wiped` means the account's storage was fully cleared before the updates
/// in `slots` apply.
#[derive(Debug)]
pub struct StorageDelta {
    pub wiped: bool,
    pub slots: Vec<(u64, u64)>,
}

/// Mathematical image of a [`StorageDelta`].
#[verifier::ext_equal]
pub struct StorageDeltaV {
    pub wiped: bool,
    pub slots: Seq<(u64, u64)>,
}

impl View for StorageDelta {
    type V = StorageDeltaV;

    open spec fn view(&self) -> StorageDeltaV {
        StorageDeltaV { wiped: self.wiped, slots: self.slots@ }
    }
}

/// An incremental snapshot of state changes: updated accounts and per-account
/// storage changes. An account may appear in `storages` without appearing in
/// `accounts` (storage-only changes are valid).
#[derive(Debug)]
pub struct StateDelta {
    pub accounts: Vec<(u64, AccountRecord)>,
    pub storages: Vec<(u64, StorageDelta)>,
}

/// Mathematical image of a [`StateDelta`].
#[verifier::ext_equal]
pub struct StateDeltaV {
    pub accounts: Seq<(u64, AccountRecord)>,
    pub storages: Seq<(u64, StorageDeltaV)>,
}

/// The mathematical image of a sequence of storage entries.
pub open spec fn storages_view(sv: Seq<(u64, StorageDelta)>) -> Seq<(u64, StorageDeltaV)> {
    sv.map_values(|e: (u64, StorageDelta)| (e.0, e.1@))
}

impl View for StateDelta {
    type V = StateDeltaV;

    open spec fn view(&self) -> StateDeltaV {
        StateDeltaV { accounts: self.accounts@, storages: storages_view(self.storages@) }
    }
}

/// `storages_view` keeps keys, uniqueness, and (under unique keys) the values.
pub proof fn lemma_storages_view(sv: Seq<(u64, StorageDelta)>)
    ensures
        storages_view(sv).len() == sv.len(),
        forall|i: int|
            0 <= i < sv.len() ==> #[trigger] storages_view(sv)[i] == (sv[i].0, sv[i].1@),
        forall|x: u64| has_key(storages_view(sv), x) <==> has_key(sv, x),
        uniq_keys(storages_view(sv)) <==> uniq_keys(sv),
        uniq_keys(sv) ==> forall|x: u64|
            has_key(sv, x) ==> #[trigger] val_of(storages_view(sv), x) == val_of(sv, x)@,
{
    let m = storages_view(sv);
    assert forall|x: u64| has_key(m, x) <==> has_key(sv, x) by {
        if has_key(m, x) {
            let i = choose|i: int| 0 <= i < m.len() && (#[trigger] m[i]).0 == x;
            assert(sv[i].0 == x);
        }
        if has_key(sv, x) {
            let i = choose|i: int| 0 <= i < sv.len() && (#[trigger] sv[i]).0 == x;
            assert(m[i].0 == x);
        }
    }
    if uniq_keys(sv) {
        assert forall|x: u64| has_key(sv, x) implies #[trigger] val_of(storages_view(sv), x)
            == val_of(sv, x)@ by {
            let i = choose|i: int| 0 <= i < m.len() && (#[trigger] m[i]).0 == x;
            let j = choose|j: int| 0 <= j < sv.len() && (#[trigger] sv[j]).0 == x;
            assert(sv[i].0 == x);
            if i != j {
                if i < j {
                    assert(sv[i].0 != sv[j].0);
                } else {
                    assert(sv[j].0 != sv[i].0);
                }
            }
        }
    }
    if uniq_keys(m) {
        assert forall|i: int, j: int| 0 <= i < j < sv.len() implies (#[trigger] sv[i]).0 != (
        #[trigger] sv[j]).0 by {
            assert(m[i].0 == sv[i].0 && m[j].0 == sv[j].0);
        }
    }
}

/// Whether key `k` appears in the association list `s`.
pub open spec fn has_key<T>(s: Seq<(u64, T)>, k: u64) -> bool {
    exists|i: int| 0 <= i < s.len() && (#[trigger] s[i]).0 == k
}

/// The value bound to key `k` in `s` (meaningful when the keys are unique).
pub open spec fn val_of<T>(s: Seq<(u64, T)>, k: u64) -> T {
    s[choose|i: int| 0 <= i < s.len() && (#[trigger] s[i]).0 == k].1
}

/// The keys of `s`, pairwise distinct.
pub open spec fn uniq_keys<T>(s: Seq<(u64, T)>) -> bool {
    forall|i: int, j: int|
        0 <= i < j < s.len() ==> (#[trigger] s[i]).0 != (#[trigger] s[j]).0
}

impl StateDelta {
    /// Well-formedness: account keys unique, storage keys unique, and each
    /// storage entry's slot keys unique.
    pub open spec fn wf(&self) -> bool {
        &&& uniq_keys(self.accounts@)
        &&& uniq_keys(self@.storages)
        &&& forall|i: int|
            0 <= i < self@.storages.len() ==> uniq_keys((#[trigger] self@.storages[i]).1.slots)
    }

    /// An empty delta.
    pub fn empty() -> (r: Self)
        ensures
            r.wf(),
            r@.accounts.len() == 0,
            r@.storages.len() == 0,
    {
        StateDelta { accounts: Vec::new(), storages: Vec::new() }
    }
}

/// With unique keys, any entry whose key is `k` holds `val_of(s, k)`.
pub proof fn lemma_uniq_val<T>(s: Seq<(u64, T)>, i: int)
    requires
        uniq_keys(s),
        0 <= i < s.len(),
    ensures
        has_key(s, s[i].0),
        val_of(s, s[i].0) == s[i].1,
{
    let k = s[i].0;
    assert(has_key(s, k));
    let j = choose|j: int| 0 <= j < s.len() && (#[trigger] s[j]).0 == k;
    if i != j {
        if i < j {
            assert(s[i].0 != s[j].0);
        } else {
            assert(s[j].0 != s[i].0);
        }
    }
}

/// Pushing a fresh key onto an association list: keys grow by exactly `k`,
/// existing bindings are kept.
pub proof fn lemma_push_assoc<T>(s: Seq<(u64, T)>, k: u64, v: T)
    requires
        uniq_keys(s),
        !has_key(s, k),
    ensures
        uniq_keys(s.push((k, v))),
        forall|x: u64| has_key(s.push((k, v)), x) <==> has_key(s, x) || x == k,
        val_of(s.push((k, v)), k) == v,
        forall|x: u64|
            x != k && has_key(s, x) ==> #[trigger] val_of(s.push((k, v)), x) == val_of(s, x),
{
    let t = s.push((k, v));
    assert forall|x: u64| has_key(t, x) <==> has_key(s, x) || x == k by {
        if has_key(t, x) {
            let i = choose|i: int| 0 <= i < t.len() && (#[trigger] t[i]).0 == x;
            if i < s.len() {
                assert(s[i].0 == x);
            }
        }
        if has_key(s, x) {
            let i = choose|i: int| 0 <= i < s.len() && (#[trigger] s[i]).0 == x;
            assert(t[i].0 == x);
        }
        if x == k {
            assert(t[s.len() as int].0 == k);
        }
    }
    assert(uniq_keys(t)) by {
        assert forall|i: int, j: int| 0 <= i < j < t.len() implies (#[trigger] t[i]).0 != (
        #[trigger] t[j]).0 by {
            if j < s.len() {
            } else {
                assert(t[j].0 == k);
                assert(s[i].0 == t[i].0);
                assert(has_key(s, s[i].0));
            }
        }
    }
    lemma_uniq_val(t, s.len() as int);
    assert forall|x: u64| x != k && has_key(s, x) implies #[trigger] val_of(t, x) == val_of(
        s,
        x,
    ) by {
        let i = choose|i: int| 0 <= i < s.len() && (#[trigger] s[i]).0 == x;
        lemma_uniq_val(s, i);
        assert(t[i].0 == x);
        lemma_uniq_val(t, i);
    }
}

/// Pushing any entry onto an association list grows the keys by its key.
pub proof fn lemma_has_key_push<T>(s: Seq<(u64, T)>, e: (u64, T))
    ensures
        forall|x: u64| has_key(s.push(e), x) <==> has_key(s, x) || x == e.0,
{
    let t = s.push(e);
    assert forall|x: u64| has_key(t, x) <==> has_key(s, x) || x == e.0 by {
        if has_key(t, x) {
            let i = choose|i: int| 0 <= i < t.len() && (#[trigger] t[i]).0 == x;
            if i < s.len() {
                assert(s[i].0 == x);
            }
        }
        if has_key(s, x) {
            let i = choose|i: int| 0 <= i < s.len() && (#[trigger] s[i]).0 == x;
            assert(t[i].0 == x);
        }
        if x == e.0 {
            assert(t[s.len() as int].0 == x);
        }
    }
}

/// Removing the entry at index `i`: its key leaves, other bindings are kept.
pub proof fn lemma_remove_assoc<T>(s: Seq<(u64, T)>, i: int)
    requires
        uniq_keys(s),
        0 <= i < s.len(),
    ensures
        uniq_keys(s.remove(i)),
        !has_key(s.remove(i), s[i].0),
        forall|x: u64| x != s[i].0 ==> (has_key(s.remove(i), x) <==> has_key(s, x)),
        forall|x: u64|
            x != s[i].0 && has_key(s, x) ==> #[trigger] val_of(s.remove(i), x) == val_of(s, x),
{
    let t = s.remove(i);
    let k = s[i].0;
    assert forall|j: int| 0 <= j < t.len() implies #[trigger] t[j] == if j < i {
        s[j]
    } else {
        s[j + 1]
    } by {}
    assert(uniq_keys(t)) by {
        assert forall|p: int, q: int| 0 <= p < q < t.len() implies (#[trigger] t[p]).0 != (
        #[trigger] t[q]).0 by {
            let sp: int = if p < i {
                p
            } else {
                p + 1
            };
            let sq: int = if q < i {
                q
            } else {
                q + 1
            };
            assert(t[p] == s[sp] && t[q] == s[sq]);
        }
    }
    assert(!has_key(t, k)) by {
        assert forall|j: int| 0 <= j < t.len() implies (#[trigger] t[j]).0 != k by {
            let sj: int = if j < i {
                j
            } else {
                j + 1
            };
            assert(t[j] == s[sj]);
            if sj < i {
                assert(s[sj].0 != s[i].0);
            } else {
                assert(s[i].0 != s[sj].0);
            }
        }
    }
    assert forall|x: u64| x != k implies (has_key(t, x) <==> has_key(s, x)) by {
        if has_key(t, x) {
            let j = choose|j: int| 0 <= j < t.len() && (#[trigger] t[j]).0 == x;
            let sj: int = if j < i {
                j
            } else {
                j + 1
            };
            assert(s[sj].0 == x);
        }
        if has_key(s, x) {
            let sj = choose|j: int| 0 <= j < s.len() && (#[trigger] s[j]).0 == x;
            let j: int = if sj < i {
                sj
            } else {
                sj - 1
            };
            assert(t[j].0 == x);
        }
    }
    assert forall|x: u64| x != k && has_key(s, x) implies #[trigger] val_of(t, x) == val_of(
        s,
        x,
    ) by {
        let sj = choose|j: int| 0 <= j < s.len() && (#[trigger] s[j]).0 == x;
        lemma_uniq_val(s, sj);
        let j: int = if sj < i {
            sj
        } else {
            sj - 1
        };
        assert(t[j].0 == x && t[j].1 == s[sj].1);
        lemma_uniq_val(t, j);
    }
}

/// Filtering a sequence extended by one element.
pub proof fn lemma_filter_push<A>(s: Seq<A>, x: A, pred: spec_fn(A) -> bool)
    ensures
        s.push(x).filter(pred) == if pred(x) {
            s.filter(pred).push(x)
        } else {
            s.filter(pred)
        },
{
    reveal_with_fuel(Seq::filter, 2);
    assert(s.push(x).drop_last() =~= s);
    assert(s.push(x).last() == x);
}

/// Two pointwise-equal predicates filter a sequence identically.
pub proof fn lemma_filter_congruent<A>(s: Seq<A>, p: spec_fn(A) -> bool, q: spec_fn(A) -> bool)
    requires
        forall|i: int| 0 <= i < s.len() ==> p(#[trigger] s[i]) == q(s[i]),
    ensures
        s.filter(p) == s.filter(q),
    decreases s.len(),
{
    reveal_with_fuel(Seq::filter, 2);
    if s.len() == 0 {
        assert(s.filter(p) =~= s.filter(q));
    } else {
        assert(forall|i: int|
            0 <= i < s.drop_last().len() ==> p(#[trigger] s.drop_last()[i]) == q(s.drop_last()[i]));
        lemma_filter_congruent(s.drop_last(), p, q);
        assert(p(s.last()) == q(s.last()));
    }
}

/// A predicate false on every element filters a sequence to nothing.
pub proof fn lemma_filter_none<A>(s: Seq<A>, p: spec_fn(A) -> bool)
    requires
        forall|i: int| 0 <= i < s.len() ==> !p(#[trigger] s[i]),
    ensures
        s.filter(p).len() == 0,
    decreases s.len(),
{
    reveal_with_fuel(Seq::filter, 2);
    if s.len() > 0 {
        assert(forall|i: int| 0 <= i < s.drop_last().len() ==> !p(#[trigger] s.drop_last()[i]));
        lemma_filter_none(s.drop_last(), p);
        assert(!p(s.last()));
    }
}

/// A predicate true on every element filters a sequence to itself.
pub proof fn lemma_filter_all<A>(s: Seq<A>, p: spec_fn(A) -> bool)
    requires
        forall|i: int| 0 <= i < s.len() ==> p(#[trigger] s[i]),
    ensures
        s.filter(p) == s,
    decreases s.len(),
{
    reveal_with_fuel(Seq::filter, 2);
    if s.len() == 0 {
        assert(s.filter(p) =~= s);
    } else {
        assert(forall|i: int| 0 <= i < s.drop_last().len() ==> p(#[trigger] s.drop_last()[i]));
        lemma_filter_all(s.drop_last(), p);
        assert(p(s.last()));
        assert(s.filter(p) =~= s.drop_last().push(s.last()));
        assert(s =~= s.drop_last().push(s.last()));
    }
}

/// Every element of a filtered sequence is an element of the original.
pub proof fn lemma_filter_subseq<A>(s: Seq<A>, p: spec_fn(A) -> bool)
    ensures
        forall|i: int| 0 <= i < s.filter(p).len() ==> s.contains(#[trigger] s.filter(p)[i]),
    decreases s.len(),
{
    reveal_with_fuel(Seq::filter, 2);
    if s.len() > 0 {
        lemma_filter_subseq(s.drop_last(), p);
        assert forall|i: int| 0 <= i < s.filter(p).len() implies s.contains(
            #[trigger] s.filter(p)[i],
        ) by {
            let f = s.filter(p);
            let fd = s.drop_last().filter(p);
            if p(s.last()) {
                assert(f == fd.push(s.last()));
            } else {
                assert(f == fd);
            }
            if i < fd.len() {
                assert(fd[i] == f[i]);
                assert(s.drop_last().contains(fd[i]));
                let w = choose|w: int|
                    0 <= w < s.drop_last().len() && s.drop_last()[w] == fd[i];
                assert(s[w] == fd[i]);
            } else {
                assert(f[i] == s.last());
                assert(s[s.len() - 1] == s.last());
            }
        }
    }
}

/// Mapping a sequence extended by one element.
pub proof fn lemma_map_values_push<A, B>(s: Seq<A>, x: A, f: spec_fn(A) -> B)
    ensures
        s.push(x).map_values(f) == s.map_values(f).push(f(x)),
{
    assert(s.push(x).map_values(f) =~= s.map_values(f).push(f(x)));
}

/// Finds the index of the entry with key `k`, scanning from the front.
pub fn find_index<T>(v: &Vec<(u64, T)>, k: u64) -> (r: Option<usize>)
    ensures
        match r {
            Some(i) => i < v@.len() && v@[i as int].0 == k,
            None => !has_key(v@, k),
        },
{
    let mut i: usize = 0;
    while i < v.len()
        invariant
            i <= v@.len(),
            forall|j: int| 0 <= j < i ==> (#[trigger] v@[j]).0 != k,
        decreases v@.len() - i,
    {
        if v[i].0 == k {
            return Some(i);
        }
        i += 1;
    }
    None
}

/// Whether the vector contains the key `k`.
pub fn contains_u64(v: &Vec<u64>, k: u64) -> (r: bool)
    ensures
        r == v@.contains(k),
{
    let mut i: usize = 0;
    while i < v.len()
        invariant
            i <= v@.len(),
            forall|j: int| 0 <= j < i ==> v@[j] != k,
        decreases v@.len() - i,
    {
        if v[i] == k {
            assert(v@[i as int] == k);
            return true;
        }
        i += 1;
    }
    false
}

/// Looks up the account record bound to `k`.
pub fn lookup_record(v: &Vec<(u64, AccountRecord)>, k: u64) -> (r: Option<AccountRecord>)
    requires
        uniq_keys(v@),
    ensures
        r == if has_key(v@, k) {
            Some(val_of(v@, k))
        } else {
            None::<AccountRecord>
        },
{
    match find_index(v, k) {
        Some(i) => {
            proof {
                lemma_uniq_val(v@, i as int);
            }
            Some(v[i].1)
        }
        None => None,
    }
}

} // verus!
