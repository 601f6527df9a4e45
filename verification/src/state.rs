//! The shared account state: a snapshot of accounts, a journal of
//! committed per-transaction state diffs, and the bundle that merged
//! journals accumulate into.
//!
//! Within one batch every worker reads the snapshot; the diffs they
//! produce are committed here in transaction-index order, whatever order
//! the workers finished in. With the state-clear rule active, a write that
//! leaves an account empty removes it.

use vstd::prelude::*;

verus! {

/// The part of an account the executor tracks.
#[derive(Clone, Copy, Debug, PartialEq, Eq, Structural)]
pub struct AccountState {
    /// Balance in wei.
    pub balance: u128,
    /// Transaction count.
    pub nonce: u64,
}

/// First value bound to `k` in an association list.
pub open spec fn assoc_lookup<K, V>(s: Seq<(K, V)>, k: K) -> Option<V>
    decreases s.len(),
{
    if s.len() == 0 {
        None
    } else if s[0].0 == k {
        Some(s[0].1)
    } else {
        assoc_lookup(s.drop_first(), k)
    }
}

/// No key occurs twice.
pub open spec fn assoc_distinct<K, V>(s: Seq<(K, V)>) -> bool {
    forall|i: int, j: int| 0 <= i < j < s.len() ==> s[i].0 != s[j].0
}

/// With distinct keys, looking a key up is exactly holding an entry.
pub proof fn lemma_assoc_lookup_contains<K, V>(s: Seq<(K, V)>, k: K, v: V)
    requires
        assoc_distinct(s),
    ensures
        assoc_lookup(s, k) == Some(v) <==> s.contains((k, v)),
    decreases s.len(),
{
    if s.len() > 0 {
        assert(assoc_distinct(s.drop_first())) by {
            assert(forall|i: int, j: int|
                0 <= i < j < s.drop_first().len() ==> s.drop_first()[i] == s[i + 1]
                    && s.drop_first()[j] == s[j + 1]);
        };
        lemma_assoc_lookup_contains(s.drop_first(), k, v);
        if s[0].0 == k {
            if s.contains((k, v)) && s[0].1 != v {
                let i = choose|i: int| 0 <= i < s.len() && s[i] == (k, v);
                assert(i > 0);
                assert(s[0].0 == s[i].0);
                assert(false);
            }
            if s[0].1 == v {
                assert(s.contains((k, v))) by {
                    assert(s[0] == (k, v));
                }
            }
        } else {
            if s.contains((k, v)) {
                let i = choose|i: int| 0 <= i < s.len() && s[i] == (k, v);
                assert(i > 0);
                assert(s.drop_first()[i - 1] == (k, v));
            }
            if s.drop_first().contains((k, v)) {
                let i = choose|i: int|
                    0 <= i < s.drop_first().len() && s.drop_first()[i] == (k, v);
                assert(s[i + 1] == (k, v));
            }
        }
    }
}

/// With distinct keys, lists that hold the same entries look up alike.
pub proof fn lemma_assoc_lookup_multiset<K, V>(d1: Seq<(K, V)>, d2: Seq<(K, V)>, k: K)
    requires
        assoc_distinct(d1),
        assoc_distinct(d2),
        d1.to_multiset() == d2.to_multiset(),
    ensures
        assoc_lookup(d1, k) == assoc_lookup(d2, k),
{
    broadcast use vstd::seq_lib::group_to_multiset_ensures;

    match assoc_lookup(d1, k) {
        Option::Some(v) => {
            lemma_assoc_lookup_contains(d1, k, v);
            lemma_assoc_lookup_contains(d2, k, v);
            assert(d1.contains((k, v)));
            assert(d1.to_multiset().count((k, v)) > 0);
            assert(d2.contains((k, v)));
        },
        Option::None => {
            match assoc_lookup(d2, k) {
                Option::Some(v) => {
                    lemma_assoc_lookup_contains(d2, k, v);
                    lemma_assoc_lookup_contains(d1, k, v);
                    assert(d2.contains((k, v)));
                    assert(d2.to_multiset().count((k, v)) > 0);
                    assert(d1.contains((k, v)));
                },
                Option::None => {},
            }
        },
    }
}

/// A key bound nowhere looks up to nothing.
pub proof fn lemma_assoc_absent<K, V>(s: Seq<(K, V)>, k: K)
    requires
        forall|j: int| 0 <= j < s.len() ==> s[j].0 != k,
    ensures
        assoc_lookup(s, k) is None,
    decreases s.len(),
{
    if s.len() > 0 {
        assert(forall|j: int| 0 <= j < s.drop_first().len() ==> s.drop_first()[j] == s[j + 1]);
        lemma_assoc_absent(s.drop_first(), k);
    }
}

/// An account is empty when it has no balance and no history.
pub open spec fn is_empty_account(st: AccountState) -> bool {
    st.balance == 0 && st.nonce == 0
}

/// What one write leaves at key `k`: the written state at the written
/// address, removed instead when the state-clear rule applies and the
/// written state is empty; any other key keeps what it had.
pub open spec fn write_one(
    pre: Option<AccountState>,
    a: u64,
    st: AccountState,
    k: u64,
    clear: bool,
) -> Option<AccountState> {
    if k == a {
        if clear && is_empty_account(st) {
            None
        } else {
            Some(st)
        }
    } else {
        pre
    }
}

/// What a diff's writes, in order, leave at key `k`.
pub open spec fn apply_writes(
    pre: Option<AccountState>,
    diff: Seq<(u64, AccountState)>,
    k: u64,
    clear: bool,
) -> Option<AccountState>
    decreases diff.len(),
{
    if diff.len() == 0 {
        pre
    } else {
        write_one(apply_writes(pre, diff.drop_last(), k, clear), diff.last().0, diff.last().1, k, clear)
    }
}

/// What a list of diffs, applied in order, leaves at key `k`.
pub open spec fn lookup_after_diffs(
    accounts0: Seq<(u64, AccountState)>,
    diffs: Seq<Seq<(u64, AccountState)>>,
    k: u64,
    clear: bool,
) -> Option<AccountState>
    decreases diffs.len(),
{
    if diffs.len() == 0 {
        assoc_lookup(accounts0, k)
    } else {
        apply_writes(lookup_after_diffs(accounts0, diffs.drop_last(), k, clear), diffs.last(), k, clear)
    }
}

/// The diffs of a journal as plain sequences.
pub open spec fn journal_view(ts: Seq<Vec<(u64, AccountState)>>) -> Seq<Seq<(u64, AccountState)>> {
    Seq::new(ts.len(), |i: int| ts[i]@)
}

/// The shared account state.
pub struct SharedState {
    /// Current accounts; addresses are unique.
    pub accounts: Vec<(u64, AccountState)>,
    /// Committed per-transaction diffs since the last merge, in commit
    /// order.
    pub transitions: Vec<Vec<(u64, AccountState)>>,
    /// Diffs merged into the bundle, in order.
    pub bundle: Vec<Vec<(u64, AccountState)>>,
    /// Revert information kept by merges that retain it.
    pub reverts: Vec<Vec<(u64, AccountState)>>,
    /// Whether the state-clear rule is active.
    pub state_clear: bool,
}

/// What a merge keeps besides the plain state.
#[derive(Clone, Copy, Debug, PartialEq, Eq, Structural)]
pub enum BundleRetention {
    /// Only the plain state.
    PlainState,
    /// The revert information too.
    Reverts,
}

impl SharedState {
    /// Unique addresses.
    pub open spec fn wf(&self) -> bool {
        assoc_distinct(self.accounts@)
    }

    /// A state over the given snapshot.
    pub fn new(db: Vec<(u64, AccountState)>) -> (r: Self)
        requires
            assoc_distinct(db@),
        ensures
            r.wf(),
            r.accounts == db,
            r.transitions@.len() == 0,
            r.bundle@.len() == 0,
            r.reverts@.len() == 0,
            !r.state_clear,
    {
        SharedState {
            accounts: db,
            transitions: Vec::new(),
            bundle: Vec::new(),
            reverts: Vec::new(),
            state_clear: false,
        }
    }

    /// Sets the state-clear rule.
    pub fn set_state_clear_flag(&mut self, flag: bool)
        ensures
            final(self).state_clear == flag,
            final(self).accounts == old(self).accounts,
            final(self).transitions == old(self).transitions,
            final(self).bundle == old(self).bundle,
            final(self).reverts == old(self).reverts,
    {
        self.state_clear = flag;
    }

    /// The balance at `a`; absent accounts hold nothing.
    pub fn balance_of(&self, a: u64) -> (r: u128)
        ensures
            r == (match assoc_lookup(self.accounts@, a) {
                Option::Some(st) => st.balance,
                Option::None => 0u128,
            }),
    {
        let n = self.accounts.len();
        let mut i: usize = 0;
        proof {
            assert(self.accounts@.skip(0) =~= self.accounts@);
        }
        while i < n
            invariant
                i <= n,
                n == self.accounts@.len(),
                assoc_lookup(self.accounts@, a) == assoc_lookup(self.accounts@.skip(i as int), a),
            decreases n - i,
        {
            proof {
                assert(self.accounts@.skip(i as int)[0] == self.accounts@[i as int]);
                assert(self.accounts@.skip(i as int).drop_first() =~= self.accounts@.skip(i + 1));
            }
            if self.accounts[i].0 == a {
                return self.accounts[i].1.balance;
            }
            i += 1;
        }
        proof {
            assert(self.accounts@.skip(n as int) =~= Seq::<(u64, AccountState)>::empty());
        }
        0
    }

    /// Performs one write: rebinds the address, or removes it when the
    /// state-clear rule applies to an empty written state.
    pub fn write_account(&mut self, a: u64, st: AccountState)
        requires
            old(self).wf(),
        ensures
            final(self).wf(),
            forall|k: u64|
                assoc_lookup(final(self).accounts@, k) == write_one(
                    assoc_lookup(old(self).accounts@, k),
                    a,
                    st,
                    k,
                    old(self).state_clear,
                ),
            final(self).transitions == old(self).transitions,
            final(self).bundle == old(self).bundle,
            final(self).reverts == old(self).reverts,
            final(self).state_clear == old(self).state_clear,
    {
        let remove_it = self.state_clear && st.balance == 0 && st.nonce == 0;
        let n = self.accounts.len();
        let mut i: usize = 0;
        while i < n
            invariant
                i <= n,
                n == self.accounts@.len(),
                self == old(self),
                old(self).wf(),
                remove_it == (old(self).state_clear && is_empty_account(st)),
                forall|j: int| 0 <= j < i ==> self.accounts@[j].0 != a,
            decreases n - i,
        {
            if self.accounts[i].0 == a {
                if remove_it {
                    let _ = self.accounts.remove(i);
                    proof {
                        lemma_assoc_remove(old(self).accounts@, self.accounts@, i as int, a);
                        assert forall|k: u64|
                            assoc_lookup(self.accounts@, k) == write_one(
                                assoc_lookup(old(self).accounts@, k),
                                a,
                                st,
                                k,
                                old(self).state_clear,
                            ) by {
                            if k == a {
                                assert(assoc_lookup(self.accounts@, a) is None);
                            }
                        }
                    }
                } else {
                    self.accounts.set(i, (a, st));
                    proof {
                        lemma_assoc_update(old(self).accounts@, self.accounts@, i as int, a, st);
                        assert forall|k: u64|
                            assoc_lookup(self.accounts@, k) == write_one(
                                assoc_lookup(old(self).accounts@, k),
                                a,
                                st,
                                k,
                                old(self).state_clear,
                            ) by {
                            if k == a {
                                assert(assoc_lookup(self.accounts@, a) == Option::Some(st));
                            }
                        }
                    }
                }
                return;
            }
            i += 1;
        }
        if remove_it {
            proof {
                lemma_assoc_absent(self.accounts@, a);
                assert forall|k: u64|
                    assoc_lookup(self.accounts@, k) == write_one(
                        assoc_lookup(old(self).accounts@, k),
                        a,
                        st,
                        k,
                        old(self).state_clear,
                    ) by {}
            }
        } else {
            self.accounts.push((a, st));
            proof {
                lemma_assoc_push(old(self).accounts@, a, st);
                assert forall|k: u64|
                    assoc_lookup(self.accounts@, k) == write_one(
                        assoc_lookup(old(self).accounts@, k),
                        a,
                        st,
                        k,
                        old(self).state_clear,
                    ) by {
                    if k == a {
                        assert(assoc_lookup(self.accounts@, a) == Option::Some(st));
                    }
                }
            }
        }
    }

    /// Applies one transaction's diff, write by write, and journals it.
    pub fn apply_diff(&mut self, diff: &Vec<(u64, AccountState)>)
        requires
            old(self).wf(),
        ensures
            final(self).wf(),
            forall|k: u64|
                assoc_lookup(final(self).accounts@, k) == apply_writes(
                    assoc_lookup(old(self).accounts@, k),
                    diff@,
                    k,
                    old(self).state_clear,
                ),
            journal_view(final(self).transitions@) == journal_view(old(self).transitions@).push(
                diff@,
            ),
            final(self).bundle == old(self).bundle,
            final(self).reverts == old(self).reverts,
            final(self).state_clear == old(self).state_clear,
    {
        let n = diff.len();
        let mut i: usize = 0;
        proof {
            assert(forall|k: u64|
                apply_writes(
                    assoc_lookup(old(self).accounts@, k),
                    diff@.subrange(0, 0),
                    k,
                    old(self).state_clear,
                ) == assoc_lookup(old(self).accounts@, k));
        }
        while i < n
            invariant
                i <= n,
                n == diff@.len(),
                self.wf(),
                forall|k: u64|
                    assoc_lookup(self.accounts@, k) == apply_writes(
                        assoc_lookup(old(self).accounts@, k),
                        diff@.subrange(0, i as int),
                        k,
                        old(self).state_clear,
                    ),
                self.transitions == old(self).transitions,
                self.bundle == old(self).bundle,
                self.reverts == old(self).reverts,
                self.state_clear == old(self).state_clear,
            decreases n - i,
        {
            let (a, st) = diff[i];
            let ghost pre = self.accounts@;
            self.write_account(a, st);
            proof {
                assert(diff@.subrange(0, i + 1).drop_last() =~= diff@.subrange(0, i as int));
                assert(diff@.subrange(0, i + 1).last() == diff@[i as int]);
            }
            i += 1;
        }
        proof {
            assert(diff@.subrange(0, n as int) =~= diff@);
        }
        self.transitions.push(copy_writes(diff));
        proof {
            assert(journal_view(self.transitions@) =~= journal_view(old(self).transitions@).push(
                diff@,
            ));
        }
    }
}

/// Copies a diff.
pub fn copy_writes(v: &Vec<(u64, AccountState)>) -> (r: Vec<(u64, AccountState)>)
    ensures
        r@ == v@,
{
    let mut out: Vec<(u64, AccountState)> = Vec::new();
    let n = v.len();
    let mut i: usize = 0;
    while i < n
        invariant
            i <= n,
            n == v@.len(),
            out@ == v@.subrange(0, i as int),
        decreases n - i,
    {
        out.push(v[i]);
        proof {
            assert(out@ =~= v@.subrange(0, i + 1));
        }
        i += 1;
    }
    proof {
        assert(out@ =~= v@);
    }
    out
}

/// The balance at `a` in an account list; absent accounts hold nothing.
pub open spec fn spec_balance(s: Seq<(u64, AccountState)>, a: u64) -> u128 {
    match assoc_lookup(s, a) {
        Option::Some(st) => st.balance,
        Option::None => 0u128,
    }
}

/// The indexed diffs as plain sequences.
pub open spec fn diffs_view(diffs: Seq<(u32, Vec<(u64, AccountState)>)>) -> Seq<
    (u32, Seq<(u64, AccountState)>),
> {
    Seq::new(diffs.len(), |i: int| (diffs[i].0, diffs[i].1@))
}

/// The diffs of a batch arranged in the batch's index order, whatever
/// order they were collected in.
pub open spec fn ordered_diffs(
    batch: Seq<u32>,
    dv: Seq<(u32, Seq<(u64, AccountState)>)>,
) -> Seq<Seq<(u64, AccountState)>> {
    Seq::new(
        batch.len(),
        |j: int|
            match assoc_lookup(dv, batch[j]) {
                Option::Some(d) => d,
                Option::None => Seq::empty(),
            },
    )
}

/// Committing depends only on which diff belongs to which transaction:
/// two collections of the same indexed diffs, however ordered by worker
/// completion, arrange into the same index-ordered diff list, so a commit
/// applies them to the state identically.
pub proof fn lemma_commit_order_independent(
    batch: Seq<u32>,
    d1: Seq<(u32, Seq<(u64, AccountState)>)>,
    d2: Seq<(u32, Seq<(u64, AccountState)>)>,
)
    requires
        assoc_distinct(d1),
        assoc_distinct(d2),
        d1.to_multiset() == d2.to_multiset(),
    ensures
        ordered_diffs(batch, d1) == ordered_diffs(batch, d2),
{
    assert forall|j: int|
        0 <= j < batch.len() implies ordered_diffs(batch, d1)[j] == ordered_diffs(batch, d2)[j] by {
        lemma_assoc_lookup_multiset(d1, d2, batch[j]);
    }
    assert(ordered_diffs(batch, d1) =~= ordered_diffs(batch, d2));
}

impl SharedState {
    /// The account at `a`, if one is held.
    pub fn account_of(&self, a: u64) -> (r: Option<AccountState>)
        ensures
            r == assoc_lookup(self.accounts@, a),
    {
        let n = self.accounts.len();
        let mut i: usize = 0;
        proof {
            assert(self.accounts@.skip(0) =~= self.accounts@);
        }
        while i < n
            invariant
                i <= n,
                n == self.accounts@.len(),
                assoc_lookup(self.accounts@, a) == assoc_lookup(self.accounts@.skip(i as int), a),
            decreases n - i,
        {
            proof {
                assert(self.accounts@.skip(i as int)[0] == self.accounts@[i as int]);
                assert(self.accounts@.skip(i as int).drop_first() =~= self.accounts@.skip(i + 1));
            }
            if self.accounts[i].0 == a {
                return Some(self.accounts[i].1);
            }
            i += 1;
        }
        proof {
            assert(self.accounts@.skip(n as int) =~= Seq::<(u64, AccountState)>::empty());
        }
        None
    }

    /// Commits a batch's diffs: whatever order the workers finished in,
    /// the diffs are applied to the state in the batch's transaction-index
    /// order, and journalled in that same order.
    pub fn commit(&mut self, batch: &crate::queue::TransactionBatch, diffs: &Vec<(u32, Vec<(u64, AccountState)>)>)
        requires
            old(self).wf(),
            assoc_distinct(diffs_view(diffs@)),
            forall|j: int|
                0 <= j < batch@.len() ==> assoc_lookup(diffs_view(diffs@), batch@[j]) is Some,
        ensures
            final(self).wf(),
            forall|k: u64|
                assoc_lookup(final(self).accounts@, k) == lookup_after_diffs(
                    old(self).accounts@,
                    ordered_diffs(batch@, diffs_view(diffs@)),
                    k,
                    old(self).state_clear,
                ),
            journal_view(final(self).transitions@) == journal_view(old(self).transitions@)
                + ordered_diffs(batch@, diffs_view(diffs@)),
            final(self).bundle == old(self).bundle,
            final(self).reverts == old(self).reverts,
            final(self).state_clear == old(self).state_clear,
    {
        let ghost ordered = ordered_diffs(batch@, diffs_view(diffs@));
        let n = batch.indices.len();
        let mut j: usize = 0;
        proof {
            assert(journal_view(self.transitions@) + ordered.subrange(0, 0) =~= journal_view(
                self.transitions@,
            ));
        }
        while j < n
            invariant
                j <= n,
                n == batch@.len(),
                ordered == ordered_diffs(batch@, diffs_view(diffs@)),
                assoc_distinct(diffs_view(diffs@)),
                forall|jj: int|
                    0 <= jj < batch@.len() ==> assoc_lookup(diffs_view(diffs@), batch@[jj]) is Some,
                self.wf(),
                forall|k: u64|
                    assoc_lookup(self.accounts@, k) == lookup_after_diffs(
                        old(self).accounts@,
                        ordered.subrange(0, j as int),
                        k,
                        old(self).state_clear,
                    ),
                journal_view(self.transitions@) == journal_view(old(self).transitions@)
                    + ordered.subrange(0, j as int),
                self.bundle == old(self).bundle,
                self.reverts == old(self).reverts,
                self.state_clear == old(self).state_clear,
            decreases n - j,
        {
            let idx = batch.indices[j];
            let diff = match diff_for(diffs, idx) {
                Option::Some(d) => d,
                Option::None => {
                    proof {
                        assert(false);
                    }
                    return;
                },
            };
            let ghost journal_before = journal_view(self.transitions@);
            self.apply_diff(diff);
            proof {
                assert(ordered[j as int] == diff@);
                assert(ordered.subrange(0, j + 1).drop_last() =~= ordered.subrange(0, j as int));
                assert(ordered.subrange(0, j + 1).last() == ordered[j as int]);
                assert(journal_view(self.transitions@) =~= journal_view(old(self).transitions@)
                    + ordered.subrange(0, j + 1));
            }
            j += 1;
        }
        proof {
            assert(ordered.subrange(0, n as int) =~= ordered);
        }
    }

    /// Sets the listed balances to nothing and returns what each held, in
    /// order. Accounts keep their history; the rest of the state is
    /// untouched.
    pub fn drain_balances(&mut self, addresses: &Vec<u64>) -> (r: Vec<u128>)
        requires
            old(self).wf(),
            assoc_distinct(Seq::new(addresses@.len(), |i: int| (addresses@[i], 0u8))),
        ensures
            final(self).wf(),
            r@.len() == addresses@.len(),
            forall|i: int|
                0 <= i < addresses@.len() ==> r@[i] == spec_balance(
                    old(self).accounts@,
                    addresses@[i],
                ),
            forall|i: int|
                0 <= i < addresses@.len() ==> assoc_lookup(final(self).accounts@, addresses@[i])
                    == (match assoc_lookup(old(self).accounts@, addresses@[i]) {
                    Option::Some(st) => if old(self).state_clear && st.nonce == 0 {
                        Option::<AccountState>::None
                    } else {
                        Option::Some(AccountState { balance: 0, nonce: st.nonce })
                    },
                    Option::None => Option::<AccountState>::None,
                }),
            forall|k: u64|
                !addresses@.contains(k) ==> assoc_lookup(final(self).accounts@, k) == assoc_lookup(
                    old(self).accounts@,
                    k,
                ),
            final(self).transitions == old(self).transitions,
            final(self).bundle == old(self).bundle,
            final(self).reverts == old(self).reverts,
            final(self).state_clear == old(self).state_clear,
    {
        let mut out: Vec<u128> = Vec::new();
        let n = addresses.len();
        let mut i: usize = 0;
        while i < n
            invariant
                i <= n,
                n == addresses@.len(),
                out@.len() == i,
                self.wf(),
                old(self).wf(),
                assoc_distinct(Seq::new(addresses@.len(), |ii: int| (addresses@[ii], 0u8))),
                forall|ii: int|
                    0 <= ii < i ==> out@[ii] == spec_balance(old(self).accounts@, addresses@[ii]),
                forall|ii: int|
                    0 <= ii < i ==> assoc_lookup(self.accounts@, addresses@[ii]) == (match
                    assoc_lookup(old(self).accounts@, addresses@[ii]) {
                        Option::Some(st) => if old(self).state_clear && st.nonce == 0 {
                            Option::<AccountState>::None
                        } else {
                            Option::Some(AccountState { balance: 0, nonce: st.nonce })
                        },
                        Option::None => Option::<AccountState>::None,
                    }),
                forall|k: u64|
                    (forall|ii: int| 0 <= ii < i ==> addresses@[ii] != k) ==> assoc_lookup(
                        self.accounts@,
                        k,
                    ) == assoc_lookup(old(self).accounts@, k),
                self.transitions == old(self).transitions,
                self.bundle == old(self).bundle,
                self.reverts == old(self).reverts,
                self.state_clear == old(self).state_clear,
            decreases n - i,
        {
            let a = addresses[i];
            proof {
                assert forall|ii: int| 0 <= ii < i implies addresses@[ii] != a by {
                    let keys = Seq::new(addresses@.len(), |x: int| (addresses@[x], 0u8));
                    assert(keys[ii].0 == addresses@[ii] && keys[i as int].0 == a);
                }
            }
            match self.account_of(a) {
                Option::Some(st) => {
                    out.push(st.balance);
                    self.write_account(a, AccountState { balance: 0, nonce: st.nonce });
                },
                Option::None => {
                    out.push(0);
                },
            }
            proof {
                assert forall|ii: int|
                    0 <= ii < i + 1 implies assoc_lookup(self.accounts@, addresses@[ii]) == (match
                    assoc_lookup(old(self).accounts@, addresses@[ii]) {
                        Option::Some(st) => if old(self).state_clear && st.nonce == 0 {
                            Option::<AccountState>::None
                        } else {
                            Option::Some(AccountState { balance: 0, nonce: st.nonce })
                        },
                        Option::None => Option::<AccountState>::None,
                    }) by {
                    if ii < i {
                        let keys = Seq::new(addresses@.len(), |x: int| (addresses@[x], 0u8));
                        assert(keys[ii].0 == addresses@[ii] && keys[i as int].0 == a);
                    }
                }
            }
            i += 1;
        }
        out
    }

    /// Adds each listed amount to its address, creating absent accounts;
    /// zero amounts change nothing. Nothing is changed unless every
    /// addition fits, and the call says which way it went: it succeeds
    /// exactly when every balance stays within range.
    pub fn increment_balances(&mut self, increments: &Vec<(u64, u128)>) -> (r: Result<(), ()>)
        requires
            old(self).wf(),
            assoc_distinct(increments@),
        ensures
            final(self).wf(),
            r is Ok <==> (forall|i: int|
                0 <= i < increments@.len() ==> spec_balance(old(self).accounts@, increments@[i].0)
                    + increments@[i].1 <= u128::MAX),
            r is Err ==> final(self).accounts == old(self).accounts,
            r is Ok ==> (forall|i: int|
                0 <= i < increments@.len() ==> assoc_lookup(
                    final(self).accounts@,
                    increments@[i].0,
                ) == (if increments@[i].1 == 0 {
                    assoc_lookup(old(self).accounts@, increments@[i].0)
                } else {
                    match assoc_lookup(old(self).accounts@, increments@[i].0) {
                        Option::Some(st) => Option::Some(
                            AccountState {
                                balance: (st.balance + increments@[i].1) as u128,
                                nonce: st.nonce,
                            },
                        ),
                        Option::None => Option::Some(
                            AccountState { balance: increments@[i].1, nonce: 0 },
                        ),
                    }
                })),
            r is Ok ==> (forall|k: u64|
                (forall|i: int| 0 <= i < increments@.len() ==> increments@[i].0 != k)
                    ==> assoc_lookup(final(self).accounts@, k) == assoc_lookup(
                    old(self).accounts@,
                    k,
                )),
            final(self).transitions == old(self).transitions,
            final(self).bundle == old(self).bundle,
            final(self).reverts == old(self).reverts,
            final(self).state_clear == old(self).state_clear,
    {
        let n = increments.len();
        let mut i: usize = 0;
        while i < n
            invariant
                i <= n,
                n == increments@.len(),
                self == old(self),
                old(self).wf(),
                forall|ii: int|
                    0 <= ii < i ==> spec_balance(old(self).accounts@, increments@[ii].0)
                        + increments@[ii].1 <= u128::MAX,
            decreases n - i,
        {
            let (a, inc) = increments[i];
            let bal = self.balance_of(a);
            if inc > u128::MAX - bal {
                proof {
                    assert(spec_balance(old(self).accounts@, increments@[i as int].0)
                        + increments@[i as int].1 > u128::MAX);
                }
                return Err(());
            }
            i += 1;
        }
        let mut p: usize = 0;
        while p < n
            invariant
                p <= n,
                n == increments@.len(),
                self.wf(),
                old(self).wf(),
                assoc_distinct(increments@),
                forall|ii: int|
                    0 <= ii < n ==> spec_balance(old(self).accounts@, increments@[ii].0)
                        + increments@[ii].1 <= u128::MAX,
                forall|ii: int|
                    0 <= ii < p ==> assoc_lookup(self.accounts@, increments@[ii].0) == (if
                    increments@[ii].1 == 0 {
                        assoc_lookup(old(self).accounts@, increments@[ii].0)
                    } else {
                        match assoc_lookup(old(self).accounts@, increments@[ii].0) {
                            Option::Some(st) => Option::Some(
                                AccountState {
                                    balance: (st.balance + increments@[ii].1) as u128,
                                    nonce: st.nonce,
                                },
                            ),
                            Option::None => Option::Some(
                                AccountState { balance: increments@[ii].1, nonce: 0 },
                            ),
                        }
                    }),
                forall|k: u64|
                    (forall|ii: int| 0 <= ii < p ==> increments@[ii].0 != k) ==> assoc_lookup(
                        self.accounts@,
                        k,
                    ) == assoc_lookup(old(self).accounts@, k),
                self.transitions == old(self).transitions,
                self.bundle == old(self).bundle,
                self.reverts == old(self).reverts,
                self.state_clear == old(self).state_clear,
            decreases n - p,
        {
            let (a, inc) = increments[p];
            proof {
                assert forall|ii: int| 0 <= ii < p implies increments@[ii].0 != a by {
                    assert(increments@[p as int].0 == a);
                }
            }
            if inc > 0 {
                let st = match self.account_of(a) {
                    Option::Some(st) => AccountState { balance: st.balance + inc, nonce: st.nonce },
                    Option::None => AccountState { balance: inc, nonce: 0 },
                };
                self.write_account(a, st);
            }
            proof {
                assert forall|ii: int|
                    0 <= ii < p + 1 implies assoc_lookup(self.accounts@, increments@[ii].0) == (if
                    increments@[ii].1 == 0 {
                        assoc_lookup(old(self).accounts@, increments@[ii].0)
                    } else {
                        match assoc_lookup(old(self).accounts@, increments@[ii].0) {
                            Option::Some(st) => Option::Some(
                                AccountState {
                                    balance: (st.balance + increments@[ii].1) as u128,
                                    nonce: st.nonce,
                                },
                            ),
                            Option::None => Option::Some(
                                AccountState { balance: increments@[ii].1, nonce: 0 },
                            ),
                        }
                    }) by {
                    if ii < p {
                        assert(increments@[ii].0 != a);
                    }
                }
            }
            p += 1;
        }
        Ok(())
    }

    /// Moves the journalled transitions into the bundle; revert
    /// information is kept only when the retention asks for it.
    pub fn merge_transitions(&mut self, retention: BundleRetention)
        ensures
            final(self).accounts == old(self).accounts,
            final(self).transitions@.len() == 0,
            journal_view(final(self).bundle@) == journal_view(old(self).bundle@) + journal_view(
                old(self).transitions@,
            ),
            retention is Reverts ==> journal_view(final(self).reverts@) == journal_view(
                old(self).reverts@,
            ) + journal_view(old(self).transitions@),
            retention is PlainState ==> final(self).reverts == old(self).reverts,
            final(self).state_clear == old(self).state_clear,
            final(self).wf() == old(self).wf(),
    {
        let mut moved: Vec<Vec<(u64, AccountState)>> = Vec::new();
        core::mem::swap(&mut moved, &mut self.transitions);
        match retention {
            BundleRetention::Reverts => {
                let copy = copy_journal(&moved);
                append_journal(&mut self.reverts, copy);
                append_journal(&mut self.bundle, moved);
            },
            BundleRetention::PlainState => {
                append_journal(&mut self.bundle, moved);
            },
        }
    }

    /// Hands the bundle and its revert information out, leaving both empty.
    pub fn take_bundle(&mut self) -> (r: (Vec<Vec<(u64, AccountState)>>, Vec<
        Vec<(u64, AccountState)>,
    >))
        ensures
            r.0 == old(self).bundle,
            r.1 == old(self).reverts,
            final(self).bundle@.len() == 0,
            final(self).reverts@.len() == 0,
            final(self).accounts == old(self).accounts,
            final(self).transitions == old(self).transitions,
            final(self).state_clear == old(self).state_clear,
    {
        let mut bundle: Vec<Vec<(u64, AccountState)>> = Vec::new();
        let mut reverts: Vec<Vec<(u64, AccountState)>> = Vec::new();
        core::mem::swap(&mut bundle, &mut self.bundle);
        core::mem::swap(&mut reverts, &mut self.reverts);
        (bundle, reverts)
    }

    /// How many diffs the bundle holds.
    pub fn bundle_size_hint(&self) -> (r: usize)
        ensures
            r == self.bundle@.len(),
    {
        self.bundle.len()
    }
}

/// Looks the diff of one transaction index up.
fn diff_for<'a>(diffs: &'a Vec<(u32, Vec<(u64, AccountState)>)>, idx: u32) -> (r: Option<&'a Vec<
    (u64, AccountState),
>>)
    ensures
        match r {
            Option::Some(d) => assoc_lookup(diffs_view(diffs@), idx) == Option::Some(d@),
            Option::None => assoc_lookup(diffs_view(diffs@), idx) is None,
        },
{
    let n = diffs.len();
    let mut i: usize = 0;
    proof {
        assert(diffs_view(diffs@).skip(0) =~= diffs_view(diffs@));
    }
    while i < n
        invariant
            i <= n,
            n == diffs@.len(),
            assoc_lookup(diffs_view(diffs@), idx) == assoc_lookup(
                diffs_view(diffs@).skip(i as int),
                idx,
            ),
        decreases n - i,
    {
        proof {
            assert(diffs_view(diffs@).skip(i as int)[0] == diffs_view(diffs@)[i as int]);
            assert(diffs_view(diffs@)[i as int] == (diffs@[i as int].0, diffs@[i as int].1@));
            assert(diffs_view(diffs@).skip(i as int).drop_first() =~= diffs_view(diffs@).skip(
                i + 1,
            ));
        }
        if diffs[i].0 == idx {
            return Some(&diffs[i].1);
        }
        i += 1;
    }
    proof {
        assert(diffs_view(diffs@).skip(n as int) =~= Seq::<(u32, Seq<(u64, AccountState)>)>::empty());
    }
    None
}

/// Copies a journal.
fn copy_journal(v: &Vec<Vec<(u64, AccountState)>>) -> (r: Vec<Vec<(u64, AccountState)>>)
    ensures
        journal_view(r@) == journal_view(v@),
{
    let mut out: Vec<Vec<(u64, AccountState)>> = Vec::new();
    let n = v.len();
    let mut i: usize = 0;
    while i < n
        invariant
            i <= n,
            n == v@.len(),
            out@.len() == i,
            journal_view(out@) == journal_view(v@).subrange(0, i as int),
        decreases n - i,
    {
        let ghost out0 = out@;
        let c = copy_writes(&v[i]);
        proof {
            assert(c@ == v@[i as int]@);
        }
        out.push(c);
        proof {
            assert forall|j: int|
                0 <= j < out@.len() implies journal_view(out@)[j] == journal_view(v@).subrange(
                0,
                i + 1,
            )[j] by {
                if j < i as int {
                    assert(out@[j] == out0[j]);
                    assert(journal_view(out0)[j] == out0[j]@);
                } else {
                    assert(out@[j] == c);
                }
            }
            assert(journal_view(out@) =~= journal_view(v@).subrange(0, i + 1));
        }
        i += 1;
    }
    proof {
        assert(journal_view(out@) =~= journal_view(v@));
    }
    out
}

/// Appends a journal to another, in order.
fn append_journal(dst: &mut Vec<Vec<(u64, AccountState)>>, src: Vec<Vec<(u64, AccountState)>>)
    ensures
        journal_view(final(dst)@) == journal_view(old(dst)@) + journal_view(src@),
{
    let ghost src0 = src@;
    let mut rest = src;
    let ghost mut done: int = 0;
    proof {
        assert(rest@ =~= src0.subrange(0, src0.len() as int));
        assert(journal_view(old(dst)@) + journal_view(src0).subrange(0, 0) =~= journal_view(
            old(dst)@,
        ));
    }
    while rest.len() > 0
        invariant
            0 <= done <= src0.len(),
            rest@ == src0.subrange(done, src0.len() as int),
            dst@.len() == old(dst)@.len() + done,
            journal_view(dst@) == journal_view(old(dst)@) + journal_view(src0).subrange(0, done),
        decreases rest.len(),
    {
        let d = rest.remove(0);
        proof {
            assert(d == src0[done]);
            assert(rest@ =~= src0.subrange(done + 1, src0.len() as int));
        }
        let ghost dst0 = dst@;
        dst.push(d);
        proof {
            done = done + 1;
            assert forall|j: int|
                0 <= j < dst@.len() implies journal_view(dst@)[j] == (journal_view(old(dst)@)
                + journal_view(src0).subrange(0, done))[j] by {
                if j < dst0.len() {
                    assert(dst@[j] == dst0[j]);
                    assert(journal_view(dst0)[j] == dst0[j]@);
                } else {
                    assert(dst@[j] == d);
                    assert(journal_view(src0)[j - old(dst)@.len()] == src0[j - old(dst)@.len()]@);
                }
            }
            assert(journal_view(dst@) =~= journal_view(old(dst)@) + journal_view(src0).subrange(
                0,
                done,
            ));
        }
    }
    proof {
        assert(done == src0.len());
        assert(journal_view(src0).subrange(0, done) =~= journal_view(src0));
    }
}

/// Rebinding the entry at the position holding `a` changes exactly `a`.
pub proof fn lemma_assoc_update<V>(
    olds: Seq<(u64, V)>,
    news: Seq<(u64, V)>,
    at: int,
    a: u64,
    st: V,
)
    requires
        0 <= at < olds.len(),
        news.len() == olds.len(),
        olds[at].0 == a,
        news[at] == (a, st),
        forall|j: int| 0 <= j < olds.len() && j != at ==> news[j] == olds[j],
        forall|j: int| 0 <= j < at ==> olds[j].0 != a,
        assoc_distinct(olds),
    ensures
        assoc_lookup(news, a) == Option::Some(st),
        forall|k: u64| k != a ==> assoc_lookup(news, k) == assoc_lookup(olds, k),
        assoc_distinct(news),
    decreases olds.len(),
{
    assert forall|j: int| 0 <= j < news.len() implies news[j].0 == olds[j].0 by {
        if j != at {
            assert(news[j] == olds[j]);
        }
    }
    if at == 0 {
        assert(news[0] == (a, st));
        assert forall|k: u64| k != a implies assoc_lookup(news, k) == assoc_lookup(olds, k) by {
            assert(news.drop_first() =~= olds.drop_first());
        }
    } else {
        assert(news.drop_first().len() == olds.drop_first().len());
        assert(olds.drop_first()[at - 1].0 == a);
        assert(news.drop_first()[at - 1] == (a, st));
        assert forall|j: int|
            0 <= j < olds.drop_first().len() && j != at - 1 implies news.drop_first()[j]
            == olds.drop_first()[j] by {
            assert(news[j + 1] == olds[j + 1]);
        }
        assert(assoc_distinct(olds.drop_first())) by {
            assert(forall|i: int, j: int|
                0 <= i < j < olds.drop_first().len() ==> olds.drop_first()[i] == olds[i + 1]
                    && olds.drop_first()[j] == olds[j + 1]);
        };
        lemma_assoc_update(olds.drop_first(), news.drop_first(), at - 1, a, st);
        assert(news[0] == olds[0]);
        assert(olds[0].0 != a);
        assert(assoc_lookup(news, a) == Option::Some(st));
        assert forall|k: u64| k != a implies assoc_lookup(news, k) == assoc_lookup(olds, k) by {
            assert(assoc_lookup(news, k) == if news[0].0 == k {
                Option::Some(news[0].1)
            } else {
                assoc_lookup(news.drop_first(), k)
            });
            assert(assoc_lookup(olds, k) == if olds[0].0 == k {
                Option::Some(olds[0].1)
            } else {
                assoc_lookup(olds.drop_first(), k)
            });
        }
    }
}

/// Appending a binding for an absent key binds exactly that key.
pub proof fn lemma_assoc_push<V>(olds: Seq<(u64, V)>, a: u64, st: V)
    requires
        forall|j: int| 0 <= j < olds.len() ==> olds[j].0 != a,
        assoc_distinct(olds),
    ensures
        assoc_lookup(olds.push((a, st)), a) == Option::Some(st),
        forall|k: u64| k != a ==> assoc_lookup(olds.push((a, st)), k) == assoc_lookup(olds, k),
        assoc_distinct(olds.push((a, st))),
    decreases olds.len(),
{
    let news = olds.push((a, st));
    assert forall|i: int, j: int| 0 <= i < j < news.len() implies news[i].0 != news[j].0 by {
        if j < olds.len() {
            assert(news[i] == olds[i] && news[j] == olds[j]);
        } else {
            assert(news[i] == olds[i] && news[j] == (a, st));
        }
    }
    if olds.len() == 0 {
        assert(news[0] == (a, st));
        assert forall|k: u64| k != a implies assoc_lookup(news, k) == assoc_lookup(olds, k) by {
            assert(news.drop_first() =~= Seq::<(u64, V)>::empty());
            assert(assoc_lookup(news, k) == assoc_lookup(news.drop_first(), k));
        }
    } else {
        assert(assoc_distinct(olds.drop_first())) by {
            assert(forall|i: int, j: int|
                0 <= i < j < olds.drop_first().len() ==> olds.drop_first()[i] == olds[i + 1]
                    && olds.drop_first()[j] == olds[j + 1]);
        };
        lemma_assoc_push(olds.drop_first(), a, st);
        assert(news.drop_first() =~= olds.drop_first().push((a, st)));
        assert(news[0] == olds[0]);
        assert(assoc_lookup(news, a) == assoc_lookup(news.drop_first(), a));
        assert forall|k: u64| k != a implies assoc_lookup(news, k) == assoc_lookup(olds, k) by {
            assert(assoc_lookup(news, k) == if news[0].0 == k {
                Option::Some(news[0].1)
            } else {
                assoc_lookup(news.drop_first(), k)
            });
            assert(assoc_lookup(olds, k) == if olds[0].0 == k {
                Option::Some(olds[0].1)
            } else {
                assoc_lookup(olds.drop_first(), k)
            });
        }
    }
}

/// Removing the entry at the position holding `a` unbinds exactly `a`.
pub proof fn lemma_assoc_remove<V>(
    olds: Seq<(u64, V)>,
    news: Seq<(u64, V)>,
    at: int,
    a: u64,
)
    requires
        0 <= at < olds.len(),
        news == olds.remove(at),
        olds[at].0 == a,
        forall|j: int| 0 <= j < at ==> olds[j].0 != a,
        assoc_distinct(olds),
    ensures
        assoc_lookup(news, a) is None,
        forall|k: u64| k != a ==> assoc_lookup(news, k) == assoc_lookup(olds, k),
        assoc_distinct(news),
    decreases olds.len(),
{
    assert forall|i: int, j: int| 0 <= i < j < news.len() implies news[i].0 != news[j].0 by {
        let oi = if i < at {
            i
        } else {
            i + 1
        };
        let oj = if j < at {
            j
        } else {
            j + 1
        };
        assert(news[i] == olds[oi] && news[j] == olds[oj]);
    }
    if at == 0 {
        assert(news =~= olds.drop_first());
        assert forall|k: u64| true implies assoc_lookup(news, k) == assoc_lookup(
            olds.drop_first(),
            k,
        ) by {}
        if assoc_lookup(olds.drop_first(), a) is Some {
            let v = assoc_lookup(olds.drop_first(), a).unwrap();
            assert(assoc_distinct(olds.drop_first())) by {
                assert(forall|i: int, j: int|
                    0 <= i < j < olds.drop_first().len() ==> olds.drop_first()[i] == olds[i + 1]
                        && olds.drop_first()[j] == olds[j + 1]);
            };
            lemma_assoc_lookup_contains(olds.drop_first(), a, v);
            let i = choose|i: int|
                0 <= i < olds.drop_first().len() && olds.drop_first()[i] == (a, v);
            assert(olds[i + 1].0 == a);
            assert(olds[0].0 == olds[i + 1].0);
            assert(false);
        }
    } else {
        assert(news[0] == olds[0]);
        assert(news.drop_first() =~= olds.drop_first().remove(at - 1));
        assert(olds.drop_first()[at - 1].0 == a);
        assert forall|j: int| 0 <= j < at - 1 implies olds.drop_first()[j].0 != a by {
            assert(olds.drop_first()[j] == olds[j + 1]);
        }
        assert(assoc_distinct(olds.drop_first())) by {
            assert(forall|i: int, j: int|
                0 <= i < j < olds.drop_first().len() ==> olds.drop_first()[i] == olds[i + 1]
                    && olds.drop_first()[j] == olds[j + 1]);
        };
        lemma_assoc_remove(olds.drop_first(), news.drop_first(), at - 1, a);
        assert(olds[0].0 != a);
        assert(assoc_lookup(news, a) == assoc_lookup(news.drop_first(), a));
        assert forall|k: u64| k != a implies assoc_lookup(news, k) == assoc_lookup(olds, k) by {
            assert(assoc_lookup(news, k) == if news[0].0 == k {
                Option::Some(news[0].1)
            } else {
                assoc_lookup(news.drop_first(), k)
            });
            assert(assoc_lookup(olds, k) == if olds[0].0 == k {
                Option::Some(olds[0].1)
            } else {
                assoc_lookup(olds.drop_first(), k)
            });
        }
    }
}

} // verus!
