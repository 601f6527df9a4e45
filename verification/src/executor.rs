//! The block executor: batches of a block's transactions run against the
//! shared state, their diffs commit in transaction-index order, receipts
//! and gas are accounted, and the post-block balance changes apply.
//!
//! Running one transaction is the virtual machine's work and arrives here
//! as its outcome: a success flag, the gas it used, its logs, and its
//! state diff. The executor owns everything around that: the schedule, the
//! commit order, the accounting, and the error rules.

use vstd::prelude::*;

use crate::queue::{flat_of, iota, stored_queue, BlockQueue, BlockQueueStore, TransactionBatch};
use crate::state::{
    assoc_distinct, assoc_lookup, diffs_view, journal_view, lookup_after_diffs, ordered_diffs,
    spec_balance, AccountState, BundleRetention, SharedState,
};

verus! {

/// A 256-bit identifier, such as a transaction hash or a digest.
#[derive(Clone, Copy, Debug, PartialEq, Eq, Structural)]
pub struct Hash256 {
    /// Upper half.
    pub hi: u128,
    /// Lower half.
    pub lo: u128,
}

/// A log record emitted by a transaction.
#[derive(Clone, Debug)]
pub struct Log {
    /// Emitting account.
    pub address: u64,
    /// Payload bytes.
    pub data: Vec<u8>,
}

/// Spec view of a log record.
pub struct LogView {
    /// Emitting account.
    pub address: u64,
    /// Payload bytes.
    pub data: Seq<u8>,
}

impl View for Log {
    type V = LogView;

    open spec fn view(&self) -> LogView {
        LogView { address: self.address, data: self.data@ }
    }
}

impl DeepView for Log {
    type V = LogView;

    open spec fn deep_view(&self) -> LogView {
        self.view()
    }
}

/// What the executor reads of a signed transaction.
#[derive(Clone, Copy, Debug, PartialEq, Eq, Structural)]
pub struct Transaction {
    /// Transaction type tag.
    pub tx_type: u8,
    /// Transaction hash, for error attribution.
    pub hash: Hash256,
}

/// What the executor reads of a block header.
#[derive(Clone, Copy, Debug, PartialEq, Eq, Structural)]
pub struct Header {
    /// Block number.
    pub number: u64,
    /// Total gas the block claims its body used.
    pub gas_used: u64,
    /// Block timestamp.
    pub timestamp: u64,
    /// Fee recipient.
    pub beneficiary: u64,
    /// Block difficulty.
    pub difficulty: u128,
    /// Parent beacon block root, when the block carries one.
    pub parent_beacon_block_root: Option<Hash256>,
    /// Root the receipts must hash to.
    pub receipts_root: Hash256,
    /// Bloom filter the logs must hash to.
    pub logs_bloom: Hash256,
}

/// An ommer the block rewards.
#[derive(Clone, Copy, Debug, PartialEq, Eq, Structural)]
pub struct Ommer {
    /// The ommer's fee recipient.
    pub beneficiary: u64,
    /// The ommer's block number.
    pub number: u64,
}

/// A withdrawal credited after the body.
#[derive(Clone, Copy, Debug, PartialEq, Eq, Structural)]
pub struct Withdrawal {
    /// Credited account.
    pub address: u64,
    /// Amount in gigawei.
    pub amount_gwei: u64,
}

/// A block as the executor reads it.
#[derive(Clone, Debug)]
pub struct Block {
    /// The header.
    pub header: Header,
    /// The transactions.
    pub body: Vec<Transaction>,
    /// The ommers the block rewards.
    pub ommers: Vec<Ommer>,
    /// The withdrawals, on blocks that carry them.
    pub withdrawals: Option<Vec<Withdrawal>>,
}

/// What running one transaction yielded.
#[derive(Clone, Debug)]
pub struct ExecOutcome {
    /// Whether the transaction succeeded.
    pub success: bool,
    /// Gas the transaction used.
    pub gas_used: u64,
    /// The accounts the transaction leaves changed.
    pub diff: Vec<(u64, AccountState)>,
    /// The logs the transaction emitted.
    pub logs: Vec<Log>,
}

/// A receipt of one transaction.
#[derive(Clone, Debug)]
pub struct Receipt {
    /// Transaction type tag.
    pub tx_type: u8,
    /// The success flag of the outcome.
    pub success: bool,
    /// Gas used by the body up to and including this transaction.
    pub cumulative_gas_used: u64,
    /// The transaction's logs.
    pub logs: Vec<Log>,
}

/// Why a block failed to execute.
#[derive(Clone, Debug)]
pub enum BlockExecutionError {
    /// The virtual machine failed on one transaction.
    Evm {
        /// Hash of the failing transaction.
        hash: Hash256,
        /// The machine's message.
        message: String,
    },
    /// The body's gas does not match the header.
    BlockGasUsed {
        /// Gas the body used.
        got: u128,
        /// Gas the header claims.
        expected: u64,
        /// Gas per transaction, for diagnosis.
        gas_spent_by_tx: Vec<(u64, u64)>,
    },
    /// The post-block balance changes could not be applied.
    IncrementBalanceFailed,
    /// The receipts do not hash to the header's root.
    ReceiptRootDiff {
        /// Computed root.
        got: Hash256,
        /// The header's root.
        expected: Hash256,
    },
    /// The logs do not hash to the header's bloom.
    BloomLogDiff {
        /// Computed bloom.
        got: Hash256,
        /// The header's bloom.
        expected: Hash256,
    },
}

/// Whether a fork with the given activation block is active at `n`.
pub open spec fn active_at(activation: Option<u64>, n: u64) -> bool {
    match activation {
        Option::Some(b) => n >= b,
        Option::None => false,
    }
}

/// Whether a fork with the given activation block transitions at `n`.
pub open spec fn transitions_at(activation: Option<u64>, n: u64) -> bool {
    activation == Some(n)
}

/// The base block reward at `n`: the last scheduled reward whose
/// activation is not after `n`; later entries override earlier ones.
pub open spec fn base_reward_at(rewards: Seq<(u64, u128)>, n: u64) -> Option<u128>
    decreases rewards.len(),
{
    if rewards.len() == 0 {
        None
    } else if rewards.last().0 <= n {
        Some(rewards.last().1)
    } else {
        base_reward_at(rewards.drop_last(), n)
    }
}

/// The rules of the chain the executor runs.
#[derive(Clone, Debug)]
pub struct ChainSpec {
    /// Activation of the irregular drain fork.
    pub dao_block: Option<u64>,
    /// Activation of receipt-root verification by success flag.
    pub byzantium_block: Option<u64>,
    /// Activation of the state-clear rule.
    pub state_clear_block: Option<u64>,
    /// Activation of withdrawal credits.
    pub shanghai_block: Option<u64>,
    /// Activation of the beacon-root system call.
    pub beacon_roots_block: Option<u64>,
    /// Reward schedule: activation block and base reward, later entries
    /// overriding earlier ones; empty once rewards end.
    pub rewards: Vec<(u64, u128)>,
    /// The accounts the drain fork empties.
    pub dao_accounts: Vec<u64>,
    /// The account the drained balances move to.
    pub dao_beneficiary: u64,
}

impl ChainSpec {
    /// The drain list holds no account twice and not the beneficiary.
    pub open spec fn wf(&self) -> bool {
        &&& assoc_distinct(Seq::new(self.dao_accounts@.len(), |i: int| (self.dao_accounts@[i], 0u8)))
        &&& forall|i: int|
            0 <= i < self.dao_accounts@.len() ==> self.dao_accounts@[i] != self.dao_beneficiary
    }

    /// The base block reward at `n`, if rewards are still paid.
    pub fn block_reward(&self, n: u64) -> (r: Option<u128>)
        ensures
            r == base_reward_at(self.rewards@, n),
    {
        let len = self.rewards.len();
        let mut i: usize = len;
        proof {
            assert(self.rewards@.subrange(0, len as int) =~= self.rewards@);
        }
        while i > 0
            invariant
                i <= len,
                len == self.rewards@.len(),
                base_reward_at(self.rewards@, n) == base_reward_at(
                    self.rewards@.subrange(0, i as int),
                    n,
                ),
            decreases i,
        {
            i -= 1;
            proof {
                assert(self.rewards@.subrange(0, i + 1).last() == self.rewards@[i as int]);
                assert(self.rewards@.subrange(0, i + 1).drop_last() =~= self.rewards@.subrange(
                    0,
                    i as int,
                ));
            }
            if self.rewards[i].0 <= n {
                return Some(self.rewards[i].1);
            }
        }
        proof {
            assert(self.rewards@.subrange(0, 0) =~= Seq::<(u64, u128)>::empty());
        }
        None
    }
}

/// Which receipts a pruning policy keeps. The storage backend's
/// tip-distance pruning rules live outside this crate; here they reduce
/// to whether saved receipts keep their contents.
#[derive(Clone, Copy, Debug, PartialEq, Eq, Structural)]
pub struct PruneModes {
    /// Drop receipt contents when saving, keeping only the count.
    pub drop_receipts: bool,
}

/// Counters the executor reports.
#[derive(Clone, Copy, Debug, PartialEq, Eq, Structural)]
pub struct BlockExecutorStats {
    /// Blocks executed so far.
    pub blocks_executed: u64,
}

/// Long-lived execution bookkeeping.
#[derive(Clone, Debug)]
pub struct ExecutionData {
    /// The chain's rules.
    pub chain_spec: ChainSpec,
    /// The chain tip the caller aims at.
    pub tip: Option<u64>,
    /// Which receipts to keep.
    pub prune_modes: PruneModes,
    /// Receipts of each executed block, oldest first.
    pub receipts: Vec<Vec<Option<Receipt>>>,
    /// Number of the first executed block; never moves once set.
    pub first_block: Option<u64>,
}

/// The state and receipts handed out after execution.
#[derive(Clone, Debug)]
pub struct BundleStateWithReceipts {
    /// The merged state diffs.
    pub bundle: Vec<Vec<(u64, AccountState)>>,
    /// The revert information the merges kept.
    pub reverts: Vec<Vec<(u64, AccountState)>>,
    /// Receipts of each executed block.
    pub receipts: Vec<Vec<Option<Receipt>>>,
    /// Number of the first executed block.
    pub first_block: u64,
}

/// Position of the first failed outcome, in the order they arrived.
pub open spec fn first_err_pos(outcomes: Seq<(u32, Result<ExecOutcome, String>)>) -> Option<int>
    decreases outcomes.len(),
{
    if outcomes.len() == 0 {
        None
    } else if outcomes[0].1 is Err {
        Some(0int)
    } else {
        match first_err_pos(outcomes.drop_first()) {
            Option::Some(p) => Option::Some(p + 1),
            Option::None => Option::None,
        }
    }
}

/// The indexed diffs of successful outcomes.
pub open spec fn outcome_diffs(outcomes: Seq<(u32, Result<ExecOutcome, String>)>) -> Seq<
    (u32, Seq<(u64, AccountState)>),
> {
    Seq::new(outcomes.len(), |i: int| (outcomes[i].0, outcomes[i].1->Ok_0.diff@))
}

/// The executor: schedule store, bookkeeping, and the shared state.
pub struct ParallelExecutor {
    /// Pre-computed schedules.
    pub store: BlockQueueStore,
    /// Execution bookkeeping.
    pub data: ExecutionData,
    /// The shared account state.
    pub state: SharedState,
}

impl ParallelExecutor {
    /// The state is consistent and the chain rules are usable.
    pub open spec fn wf(&self) -> bool {
        &&& self.state.wf()
        &&& self.data.chain_spec.wf()
    }

    /// An executor over the given rules, schedules and state snapshot.
    pub fn new(chain_spec: ChainSpec, store: BlockQueueStore, db: Vec<(u64, AccountState)>) -> (r:
        Self)
        requires
            chain_spec.wf(),
            assoc_distinct(db@),
        ensures
            r.wf(),
            r.store == store,
            r.data.chain_spec == chain_spec,
            r.data.tip is None,
            r.data.receipts@.len() == 0,
            r.data.first_block is None,
            r.state.accounts == db,
            r.state.transitions@.len() == 0,
            r.state.bundle@.len() == 0,
    {
        ParallelExecutor {
            store,
            data: ExecutionData {
                chain_spec,
                tip: None,
                prune_modes: PruneModes { drop_receipts: false },
                receipts: Vec::new(),
                first_block: None,
            },
            state: SharedState::new(db),
        }
    }

    /// A read handle on the shared state.
    pub fn state(&self) -> (r: &SharedState)
        ensures
            r == &self.state,
    {
        &self.state
    }

    /// Runs one batch from the outcomes its workers delivered, in whatever
    /// order they finished: on the first failed outcome the block is
    /// abandoned and nothing commits; otherwise every diff commits, in the
    /// batch's transaction-index order, and the per-transaction results
    /// come back in arrival order.
    pub fn execute_batch(
        &mut self,
        batch: &TransactionBatch,
        transactions: &Vec<Transaction>,
        outcomes: Vec<(u32, Result<ExecOutcome, String>)>,
    ) -> (r: Result<Vec<(u32, ExecOutcome)>, BlockExecutionError>)
        requires
            old(self).wf(),
            assoc_distinct(outcome_diffs(outcomes@)),
            forall|j: int|
                0 <= j < batch@.len() ==> assoc_lookup(outcome_diffs(outcomes@), batch@[j]) is Some
                    || first_err_pos(outcomes@) is Some,
            forall|i: int| 0 <= i < outcomes@.len() ==> outcomes@[i].0 < transactions@.len(),
        ensures
            final(self).wf(),
            final(self).store == old(self).store,
            final(self).data == old(self).data,
            final(self).state.state_clear == old(self).state.state_clear,
            match first_err_pos(outcomes@) {
                Option::Some(p) => {
                    &&& r matches Err(e)
                    &&& (e matches BlockExecutionError::Evm { hash, message } && hash
                        == transactions@[outcomes@[p].0 as int].hash && message
                        == outcomes@[p].1->Err_0)
                    &&& final(self).state == old(self).state
                },
                Option::None => {
                    &&& r matches Ok(results)
                    &&& results@.len() == outcomes@.len()
                    &&& forall|i: int|
                        0 <= i < results@.len() ==> results@[i].0 == outcomes@[i].0
                            && results@[i].1 == outcomes@[i].1->Ok_0
                    &&& forall|k: u64|
                        assoc_lookup(final(self).state.accounts@, k) == lookup_after_diffs(
                            old(self).state.accounts@,
                            ordered_diffs(batch@, outcome_diffs(outcomes@)),
                            k,
                            old(self).state.state_clear,
                        )
                    &&& journal_view(final(self).state.transitions@) == journal_view(
                        old(self).state.transitions@,
                    ) + ordered_diffs(batch@, outcome_diffs(outcomes@))
                    &&& final(self).state.bundle == old(self).state.bundle
                    &&& final(self).state.reverts == old(self).state.reverts
                },
            },
    {
        let ghost outs = outcomes@;
        let mut results: Vec<(u32, ExecOutcome)> = Vec::new();
        let mut diffs: Vec<(u32, Vec<(u64, AccountState)>)> = Vec::new();
        let mut rest = outcomes;
        let ghost mut done: int = 0;
        proof {
            assert(rest@ =~= outs.subrange(0, outs.len() as int));
        }
        while rest.len() > 0
            invariant
                outs == outcomes@,
                0 <= done <= outs.len(),
                rest@ == outs.subrange(done, outs.len() as int),
                results@.len() == done,
                diffs@.len() == done,
                forall|i: int| 0 <= i < done ==> outs[i].1 is Ok,
                forall|i: int|
                    0 <= i < done ==> results@[i].0 == outs[i].0 && results@[i].1 == outs[i].1->Ok_0,
                forall|i: int|
                    0 <= i < done ==> diffs@[i].0 == outs[i].0 && diffs@[i].1@ == outs[i].1->Ok_0.diff@,
                forall|i: int| 0 <= i < outs.len() ==> outs[i].0 < transactions@.len(),
                self == old(self),
                old(self).wf(),
            decreases rest.len(),
        {
            let ghost rest0 = rest@;
            let (idx, outcome) = rest.remove(0);
            proof {
                assert((idx, outcome) == outs[done]);
                assert(rest@ =~= outs.subrange(done + 1, outs.len() as int));
            }
            match outcome {
                Result::Ok(out) => {
                    let diff_copy = crate::state::copy_writes(&out.diff);
                    diffs.push((idx, diff_copy));
                    results.push((idx, out));
                    proof {
                        done = done + 1;
                    }
                },
                Result::Err(message) => {
                    proof {
                        assert(0 <= done < outs.len());
                        assert(outs[done].1 is Err);
                        lemma_first_err_from_scan(outs, done);
                        assert(first_err_pos(outs) == Some(done));
                        assert(outs[done].0 == idx);
                    }
                    return Err(
                        BlockExecutionError::Evm {
                            hash: transactions[idx as usize].hash,
                            message,
                        },
                    );
                },
            }
        }
        proof {
            assert(done == outs.len());
            lemma_first_err_none(outs, done);
            assert forall|i: int|
                0 <= i < diffs_view(diffs@).len() implies diffs_view(diffs@)[i] == outcome_diffs(
                outs,
            )[i] by {
                assert(diffs_view(diffs@)[i] == (diffs@[i].0, diffs@[i].1@));
            }
            assert(diffs_view(diffs@) =~= outcome_diffs(outs));
        }
        self.state.commit(batch, &diffs);
        Ok(results)
    }
}

/// A withdrawal's amount in wei.
pub open spec fn withdrawal_wei(w: Withdrawal) -> int {
    w.amount_gwei * 1_000_000_000
}

/// An ommer's reward: the base reward scaled down by its distance.
pub open spec fn ommer_amount(base: u128, n: u64, o: Ommer) -> int {
    (8 - (n - o.number)) * base / 8
}

/// The reward contributions of a block, in canonical order: the
/// beneficiary's reward with its per-ommer bonus, one reward per ommer,
/// then one credit per withdrawal once withdrawals are active.
pub open spec fn reward_contribs(cs: ChainSpec, block: Block) -> Seq<(u64, int)> {
    let n = block.header.number;
    (match base_reward_at(cs.rewards@, n) {
        Option::Some(base) => seq![
            (
                block.header.beneficiary,
                base + (base / 32) * block.ommers@.len(),
            ),
        ] + Seq::new(
            block.ommers@.len(),
            |i: int| (block.ommers@[i].beneficiary, ommer_amount(base, n, block.ommers@[i])),
        ),
        Option::None => Seq::empty(),
    }) + (if active_at(cs.shanghai_block, n) && block.withdrawals is Some {
        Seq::new(
            block.withdrawals.unwrap()@.len(),
            |i: int|
                (
                    block.withdrawals.unwrap()@[i].address,
                    withdrawal_wei(block.withdrawals.unwrap()@[i]),
                ),
        )
    } else {
        Seq::empty()
    })
}

/// The balances the drain fork empties, in list order.
pub open spec fn drained_balances_of(accounts: Seq<(u64, AccountState)>, dao: Seq<u64>) -> Seq<
    int,
> {
    Seq::new(dao.len(), |i: int| spec_balance(accounts, dao[i]) as int)
}

/// Sum of a sequence of numbers.
pub open spec fn sum_of(s: Seq<int>) -> int
    decreases s.len(),
{
    if s.len() == 0 {
        0
    } else {
        sum_of(s.drop_last()) + s.last()
    }
}

/// Every contribution of a block: the rewards, and at the drain
/// transition one credit of the whole drained sum to the fork beneficiary.
pub open spec fn full_contribs(
    accounts: Seq<(u64, AccountState)>,
    cs: ChainSpec,
    block: Block,
) -> Seq<(u64, int)> {
    reward_contribs(cs, block) + (if transitions_at(cs.dao_block, block.header.number) {
        seq![
            (cs.dao_beneficiary, sum_of(drained_balances_of(accounts, cs.dao_accounts@))),
        ]
    } else {
        Seq::empty()
    })
}

/// The total amount a contribution list credits to `k`.
pub open spec fn agg_of(contribs: Seq<(u64, int)>, k: u64) -> int
    decreases contribs.len(),
{
    if contribs.len() == 0 {
        0
    } else {
        agg_of(contribs.drop_last(), k) + (if contribs.last().0 == k {
            contribs.last().1
        } else {
            0
        })
    }
}

/// The balance of `k` once the drain fork has taken its accounts.
pub open spec fn drained_bal(
    accounts: Seq<(u64, AccountState)>,
    cs: ChainSpec,
    block: Block,
    k: u64,
) -> int {
    if transitions_at(cs.dao_block, block.header.number) && cs.dao_accounts@.contains(k) {
        0
    } else {
        spec_balance(accounts, k) as int
    }
}

/// What the drain leaves of a prior account value: a drained account
/// keeps its history with an emptied balance, and disappears under the
/// state-clear rule when it had no history.
pub open spec fn post_drain_lookup(
    pre: Option<AccountState>,
    drained: bool,
    clear: bool,
) -> Option<AccountState> {
    if drained {
        match pre {
            Option::Some(st) => if clear && st.nonce == 0 {
                Option::None
            } else {
                Option::Some(AccountState { balance: 0, nonce: st.nonce })
            },
            Option::None => Option::None,
        }
    } else {
        pre
    }
}

/// What the whole post-block change leaves at `k`: the post-drain value,
/// plus everything credited to `k`; a credited absent account is created
/// with no history, and an uncredited one is left exactly as the drain
/// left it.
pub open spec fn post_change_lookup(
    accounts: Seq<(u64, AccountState)>,
    cs: ChainSpec,
    block: Block,
    clear: bool,
    k: u64,
) -> Option<AccountState> {
    let d = post_drain_lookup(
        assoc_lookup(accounts, k),
        transitions_at(cs.dao_block, block.header.number) && cs.dao_accounts@.contains(k),
        clear,
    );
    let v = agg_of(full_contribs(accounts, cs, block), k);
    if v == 0 {
        d
    } else {
        match d {
            Option::Some(st) => Option::Some(
                AccountState { balance: (st.balance + v) as u128, nonce: st.nonce },
            ),
            Option::None => Option::Some(AccountState { balance: v as u128, nonce: 0 }),
        }
    }
}

/// The reward arithmetic stays within range.
pub open spec fn amounts_fit(cs: ChainSpec, block: Block) -> bool {
    match base_reward_at(cs.rewards@, block.header.number) {
        Option::Some(base) => {
            &&& (base / 32) * block.ommers@.len() <= u128::MAX
            &&& base + (base / 32) * block.ommers@.len() <= u128::MAX
            &&& forall|i: int|
                0 <= i < block.ommers@.len() ==> (8 - (block.header.number
                    - block.ommers@[i].number)) * base <= u128::MAX
        },
        Option::None => true,
    }
}

/// The post-block change goes through exactly when the reward arithmetic
/// and every final balance stay within range.
pub open spec fn post_change_ok(
    accounts: Seq<(u64, AccountState)>,
    cs: ChainSpec,
    block: Block,
) -> bool {
    &&& amounts_fit(cs, block)
    &&& forall|k: u64|
        drained_bal(accounts, cs, block, k) + agg_of(full_contribs(accounts, cs, block), k)
            <= u128::MAX
}

/// The ommers a reward-paying block may carry: within eight blocks back.
/// Consensus validity implies this wherever rewards are paid; the reward
/// formula scales by that distance, so the executor asks for it outright.
pub open spec fn ommers_placed(cs: ChainSpec, block: Block) -> bool {
    base_reward_at(cs.rewards@, block.header.number) is Some ==> forall|i: int|
        0 <= i < block.ommers@.len() ==> block.ommers@[i].number < block.header.number
            && block.header.number - block.ommers@[i].number <= 8
}

/// A contribution list credits each key with the sum of its parts.
pub proof fn lemma_agg_concat(a: Seq<(u64, int)>, b: Seq<(u64, int)>, k: u64)
    ensures
        agg_of(a + b, k) == agg_of(a, k) + agg_of(b, k),
    decreases b.len(),
{
    if b.len() == 0 {
        assert(a + b =~= a);
    } else {
        lemma_agg_concat(a, b.drop_last(), k);
        assert((a + b).drop_last() =~= a + b.drop_last());
        assert((a + b).last() == b.last());
    }
}

/// At the drain transition, what the computed contributions credit to the
/// fork beneficiary beyond its rewards is exactly the sum of the drained
/// balances.
pub proof fn lemma_dao_drain_conservation(
    accounts: Seq<(u64, AccountState)>,
    cs: ChainSpec,
    block: Block,
)
    requires
        transitions_at(cs.dao_block, block.header.number),
    ensures
        agg_of(full_contribs(accounts, cs, block), cs.dao_beneficiary) == agg_of(
            reward_contribs(cs, block),
            cs.dao_beneficiary,
        ) + sum_of(drained_balances_of(accounts, cs.dao_accounts@)),
{
    let dao_part = seq![
        (cs.dao_beneficiary, sum_of(drained_balances_of(accounts, cs.dao_accounts@))),
    ];
    lemma_agg_concat(reward_contribs(cs, block), dao_part, cs.dao_beneficiary);
    assert(dao_part.drop_last() =~= Seq::<(u64, int)>::empty());
    assert(agg_of(Seq::<(u64, int)>::empty(), cs.dao_beneficiary) == 0);
    assert(agg_of(dao_part, cs.dao_beneficiary) == sum_of(
        drained_balances_of(accounts, cs.dao_accounts@),
    ));
}

/// Membership in a plain key list.
fn u64_list_contains(v: &Vec<u64>, x: u64) -> (r: bool)
    ensures
        r == v@.contains(x),
{
    let n = v.len();
    let mut i: usize = 0;
    while i < n
        invariant
            i <= n,
            n == v@.len(),
            forall|j: int| 0 <= j < i ==> v@[j] != x,
        decreases n - i,
    {
        if v[i] == x {
            return true;
        }
        i += 1;
    }
    false
}

/// Aggregates contributions into one credit per address; fails exactly
/// when some address's total leaves range.
fn aggregate_contribs(contribs: &Vec<(u64, u128)>) -> (r: Option<Vec<(u64, u128)>>)
    ensures
        ({
            let cv = Seq::new(contribs@.len(), |i: int| (contribs@[i].0, contribs@[i].1 as int));
            match r {
                Option::Some(incs) => {
                    &&& assoc_distinct(incs@)
                    &&& forall|k: u64|
                        (match assoc_lookup(incs@, k) {
                            Option::Some(v) => v as int,
                            Option::None => 0int,
                        }) == agg_of(cv, k)
                },
                Option::None => exists|k: u64| agg_of(cv, k) > u128::MAX,
            }
        }),
{
    let ghost cv = Seq::new(contribs@.len(), |i: int| (contribs@[i].0, contribs@[i].1 as int));
    let mut incs: Vec<(u64, u128)> = Vec::new();
    let n = contribs.len();
    let mut i: usize = 0;
    proof {
        assert forall|k: u64| agg_of(cv.subrange(0, 0), k) == 0int by {
            assert(cv.subrange(0, 0) =~= Seq::<(u64, int)>::empty());
        }
    }
    while i < n
        invariant
            i <= n,
            n == contribs@.len(),
            cv == Seq::new(contribs@.len(), |x: int| (contribs@[x].0, contribs@[x].1 as int)),
            assoc_distinct(incs@),
            forall|k: u64|
                (match assoc_lookup(incs@, k) {
                    Option::Some(v) => v as int,
                    Option::None => 0int,
                }) == agg_of(cv.subrange(0, i as int), k),
        decreases n - i,
    {
        let (a, amount) = contribs[i];
        proof {
            assert(cv.subrange(0, i + 1).drop_last() =~= cv.subrange(0, i as int));
            assert(cv.subrange(0, i + 1).last() == cv[i as int]);
            assert(cv[i as int] == (a, amount as int));
        }
        let pos = find_key(&incs, a);
        if let Option::Some(j) = pos {
            let cur = incs[j].1;
            if amount > u128::MAX - cur {
                proof {
                    assert(assoc_lookup(incs@, a) == Option::Some(cur)) by {
                        crate::state::lemma_assoc_lookup_contains(incs@, a, cur);
                        assert(incs@[j as int] == (a, cur));
                        assert(incs@.contains((a, cur)));
                    };
                    assert(agg_of(cv.subrange(0, i as int), a) == cur as int);
                    assert(agg_of(cv.subrange(0, i + 1), a) == cur as int + amount as int);
                    assert(agg_of(cv.subrange(0, i + 1), a) > u128::MAX);
                    lemma_agg_prefix_mono(cv, i + 1, a);
                }
                return None;
            }
            let ghost olds = incs@;
            incs.set(j, (a, cur + amount));
            proof {
                assert(assoc_lookup(olds, a) == Option::Some(cur)) by {
                    crate::state::lemma_assoc_lookup_contains(olds, a, cur);
                    assert(olds[j as int] == (a, cur));
                    assert(olds.contains((a, cur)));
                };
                assert(olds[j as int].0 == a);
                assert forall|jj: int| 0 <= jj < j implies olds[jj].0 != a by {}
                crate::state::lemma_assoc_update(olds, incs@, j as int, a, (cur + amount) as u128);
                assert forall|k: u64| #![trigger assoc_lookup(incs@, k)]
                    (match assoc_lookup(incs@, k) {
                        Option::Some(v) => v as int,
                        Option::None => 0int,
                    }) == agg_of(cv.subrange(0, i + 1), k) by {
                    if k == a {
                        assert(assoc_lookup(olds, a) == Option::Some(cur));
                        assert(agg_of(cv.subrange(0, i as int), a) == cur as int);
                        assert(assoc_lookup(incs@, a) == Option::Some((cur + amount) as u128));
                    } else {
                        assert(assoc_lookup(incs@, k) == assoc_lookup(olds, k));
                        assert(cv.subrange(0, i + 1).last().0 != k);
                        assert(agg_of(cv.subrange(0, i + 1), k) == agg_of(
                            cv.subrange(0, i as int),
                            k,
                        ));
                    }
                }
            }
        } else {
            proof {
                assert(forall|jj: int| 0 <= jj < incs@.len() ==> incs@[jj].0 != a);
            }
            let ghost olds = incs@;
            incs.push((a, amount));
            proof {
                crate::state::lemma_assoc_push(olds, a, amount);
                assert(incs@ =~= olds.push((a, amount)));
                assert forall|k: u64| #![trigger assoc_lookup(incs@, k)]
                    (match assoc_lookup(incs@, k) {
                        Option::Some(v) => v as int,
                        Option::None => 0int,
                    }) == agg_of(cv.subrange(0, i + 1), k) by {
                    if k == a {
                        crate::state::lemma_assoc_absent(olds, a);
                        assert(agg_of(cv.subrange(0, i as int), a) == 0);
                        assert(assoc_lookup(incs@, a) == Option::Some(amount));
                    } else {
                        assert(assoc_lookup(incs@, k) == assoc_lookup(olds, k));
                        assert(cv.subrange(0, i + 1).last().0 != k);
                        assert(agg_of(cv.subrange(0, i + 1), k) == agg_of(
                            cv.subrange(0, i as int),
                            k,
                        ));
                    }
                }
            }
        }
        i += 1;
    }
    proof {
        assert(cv.subrange(0, n as int) =~= cv);
    }
    Some(incs)
}

/// Position of the entry keyed `a`, with everything before it unkeyed.
fn find_key(incs: &Vec<(u64, u128)>, a: u64) -> (r: Option<usize>)
    ensures
        match r {
            Option::Some(j) => j < incs@.len() && incs@[j as int].0 == a && forall|jj: int|
                0 <= jj < j ==> incs@[jj].0 != a,
            Option::None => forall|jj: int| 0 <= jj < incs@.len() ==> incs@[jj].0 != a,
        },
{
    let m = incs.len();
    let mut j: usize = 0;
    while j < m
        invariant
            j <= m,
            m == incs@.len(),
            forall|jj: int| 0 <= jj < j ==> incs@[jj].0 != a,
        decreases m - j,
    {
        if incs[j].0 == a {
            return Some(j);
        }
        j += 1;
    }
    None
}

/// A key's total over a prefix never exceeds its total over the whole,
/// with non-negative amounts.
proof fn lemma_agg_prefix_mono(cv: Seq<(u64, int)>, p: int, k: u64)
    requires
        0 <= p <= cv.len(),
        forall|i: int| 0 <= i < cv.len() ==> cv[i].1 >= 0,
    ensures
        agg_of(cv.subrange(0, p), k) <= agg_of(cv, k),
    decreases cv.len() - p,
{
    if p < cv.len() {
        assert(cv.subrange(0, p + 1).drop_last() =~= cv.subrange(0, p));
        assert(cv.subrange(0, p + 1).last() == cv[p]);
        lemma_agg_prefix_mono(cv, p + 1, k);
    } else {
        assert(cv.subrange(0, p) =~= cv);
    }
}

/// A prefix of a non-negative sum never exceeds the whole.
proof fn lemma_sum_prefix_mono(s: Seq<int>, p: int)
    requires
        0 <= p <= s.len(),
        forall|i: int| 0 <= i < s.len() ==> s[i] >= 0,
    ensures
        sum_of(s.subrange(0, p)) <= sum_of(s),
    decreases s.len() - p,
{
    if p < s.len() {
        assert(s.subrange(0, p + 1).drop_last() =~= s.subrange(0, p));
        assert(s.subrange(0, p + 1).last() == s[p]);
        lemma_sum_prefix_mono(s, p + 1);
    } else {
        assert(s.subrange(0, p) =~= s);
    }
}

/// A total over non-negative contributions is non-negative.
proof fn lemma_agg_nonneg(cv: Seq<(u64, int)>, k: u64)
    requires
        forall|i: int| 0 <= i < cv.len() ==> cv[i].1 >= 0,
    ensures
        agg_of(cv, k) >= 0,
    decreases cv.len(),
{
    if cv.len() > 0 {
        assert(forall|i: int| 0 <= i < cv.drop_last().len() ==> cv.drop_last()[i] == cv[i]);
        lemma_agg_nonneg(cv.drop_last(), k);
    }
}

/// Copies a plain key list.
fn copy_u64s(v: &Vec<u64>) -> (r: Vec<u64>)
    ensures
        r@ == v@,
{
    let mut out: Vec<u64> = Vec::new();
    let n = v.len();
    let mut i: usize = 0;
    while i < n
        invariant
            i <= n,
            n == v@.len(),
            out@ == v@.subrange(0, i as int),
        decreases n - i,
    {
        out.push(v[i]);
        proof {
            assert(out@ =~= v@.subrange(0, i + 1));
        }
        i += 1;
    }
    proof {
        assert(out@ =~= v@);
    }
    out
}

/// The contributions as address/amount pairs with mathematical amounts.
pub open spec fn contribs_as_int(s: Seq<(u64, u128)>) -> Seq<(u64, int)> {
    Seq::new(s.len(), |i: int| (s[i].0, s[i].1 as int))
}

/// Builds the reward contributions of a block; fails exactly when the
/// reward arithmetic leaves range.
fn build_reward_contribs(cs: &ChainSpec, block: &Block) -> (r: Option<Vec<(u64, u128)>>)
    requires
        ommers_placed(*cs, *block),
    ensures
        match r {
            Option::Some(v) => amounts_fit(*cs, *block) && contribs_as_int(v@) == reward_contribs(
                *cs,
                *block,
            ),
            Option::None => !amounts_fit(*cs, *block),
        },
{
    let n = block.header.number;
    let mut contribs: Vec<(u64, u128)> = Vec::new();
    let base_opt = cs.block_reward(n);
    match base_opt {
        Option::Some(base) => {
            let cnt = block.ommers.len() as u128;
            let per = base / 32;
            if cnt > 0 && per > u128::MAX / cnt {
                proof {
                    assert(per * cnt > u128::MAX) by (nonlinear_arith)
                        requires
                            cnt > 0,
                            per > u128::MAX / cnt,
                    ;
                }
                return None;
            }
            let neph = if cnt == 0 {
                0u128
            } else {
                proof {
                    assert(per * cnt <= u128::MAX) by (nonlinear_arith)
                        requires
                            cnt > 0,
                            per <= u128::MAX / cnt,
                    ;
                }
                per * cnt
            };
            if base > u128::MAX - neph {
                return None;
            }
            contribs.push((block.header.beneficiary, base + neph));
            let m = block.ommers.len();
            let mut i: usize = 0;
            while i < m
                invariant
                    i <= m,
                    m == block.ommers@.len(),
                    ommers_placed(*cs, *block),
                    base_reward_at(cs.rewards@, block.header.number) == Some(base),
                    n == block.header.number,
                    contribs@.len() == i + 1,
                    contribs@[0].0 == block.header.beneficiary,
                    contribs@[0].1 as int == base + (base / 32) * block.ommers@.len(),
                    (base / 32) * block.ommers@.len() <= u128::MAX,
                    base + (base / 32) * block.ommers@.len() <= u128::MAX,
                    forall|j: int|
                        0 <= j < i ==> contribs@[j + 1].0 == block.ommers@[j].beneficiary
                            && contribs@[j + 1].1 as int == ommer_amount(
                            base,
                            block.header.number,
                            block.ommers@[j],
                        ),
                    forall|j: int|
                        0 <= j < i ==> (8 - (block.header.number - block.ommers@[j].number)) * base
                            <= u128::MAX,
                decreases m - i,
            {
                let o = block.ommers[i];
                let factor = (8 - (n - o.number)) as u128;
                if factor > 0 && base > u128::MAX / factor {
                    proof {
                        assert(factor * base > u128::MAX) by (nonlinear_arith)
                            requires
                                factor > 0,
                                base > u128::MAX / factor,
                        ;
                        assert(!amounts_fit(*cs, *block));
                    }
                    return None;
                }
                let amt = if factor == 0 {
                    0u128
                } else {
                    proof {
                        assert(factor * base <= u128::MAX) by (nonlinear_arith)
                            requires
                                factor > 0,
                                base <= u128::MAX / factor,
                        ;
                    }
                    factor * base / 8
                };
                proof {
                    assert(amt as int == ommer_amount(base, block.header.number, o));
                }
                contribs.push((o.beneficiary, amt));
                i += 1;
            }
        },
        Option::None => {},
    }
    match &block.withdrawals {
        Option::Some(wd) => {
            if active_at_exec(cs.shanghai_block, n) {
                let ghost head = contribs@;
                let wn = wd.len();
                let mut i: usize = 0;
                while i < wn
                    invariant
                        i <= wn,
                        wn == wd@.len(),
                        contribs@.len() == head.len() + i,
                        forall|j: int| 0 <= j < head.len() ==> contribs@[j] == head[j],
                        forall|j: int|
                            0 <= j < i ==> contribs@[head.len() + j].0 == wd@[j].address
                                && contribs@[head.len() + j].1 as int == withdrawal_wei(wd@[j]),
                    decreases wn - i,
                {
                    let w = wd[i];
                    proof {
                        assert(w.amount_gwei as int * 1_000_000_000 <= u128::MAX)
                            by (nonlinear_arith)
                            requires
                                w.amount_gwei <= u64::MAX,
                        ;
                    }
                    let amt = (w.amount_gwei as u128) * 1_000_000_000;
                    contribs.push((w.address, amt));
                    i += 1;
                }
            }
        },
        Option::None => {},
    }
    proof {
        assert(contribs_as_int(contribs@) =~= reward_contribs(*cs, *block));
    }
    Some(contribs)
}

/// Sums the balances the drain fork is about to take; fails exactly when
/// the sum leaves range.
fn drained_sum(state: &SharedState, dao: &Vec<u64>) -> (r: Option<u128>)
    ensures
        match r {
            Option::Some(s) => s as int == sum_of(drained_balances_of(state.accounts@, dao@)),
            Option::None => sum_of(drained_balances_of(state.accounts@, dao@)) > u128::MAX,
        },
{
    let ghost ds = drained_balances_of(state.accounts@, dao@);
    let mut sum: u128 = 0;
    let n = dao.len();
    let mut i: usize = 0;
    proof {
        assert(ds.subrange(0, 0) =~= Seq::<int>::empty());
    }
    while i < n
        invariant
            i <= n,
            n == dao@.len(),
            ds == drained_balances_of(state.accounts@, dao@),
            sum as int == sum_of(ds.subrange(0, i as int)),
        decreases n - i,
    {
        let b = state.balance_of(dao[i]);
        proof {
            assert(ds[i as int] == spec_balance(state.accounts@, dao@[i as int]) as int);
            assert(ds.subrange(0, i + 1).drop_last() =~= ds.subrange(0, i as int));
            assert(ds.subrange(0, i + 1).last() == ds[i as int]);
        }
        if b > u128::MAX - sum {
            proof {
                assert(sum_of(ds.subrange(0, i + 1)) > u128::MAX);
                assert forall|j: int| 0 <= j < ds.len() implies ds[j] >= 0 by {
                    assert(ds[j] == spec_balance(state.accounts@, dao@[j]) as int);
                }
                lemma_sum_prefix_mono(ds, i + 1);
            }
            return None;
        }
        sum = sum + b;
        i += 1;
    }
    proof {
        assert(ds.subrange(0, n as int) =~= ds);
    }
    Some(sum)
}

/// Whether a fork transitions at `n`, executably.
fn transitions_at_exec(activation: Option<u64>, n: u64) -> (r: bool)
    ensures
        r == transitions_at(activation, n),
{
    match activation {
        Option::Some(b) => n == b,
        Option::None => false,
    }
}

impl ParallelExecutor {
    /// Applies the post-block state change: the block and ommer rewards,
    /// the withdrawal credits, and at the drain transition the move of
    /// every drained balance to the fork beneficiary. Nothing changes
    /// unless the whole change fits, and afterwards every balance equals
    /// its post-drain value plus everything credited to it.
    pub fn apply_post_execution_state_change(&mut self, block: &Block, _total_difficulty: u128) -> (r:
        Result<(), BlockExecutionError>)
        requires
            old(self).wf(),
            ommers_placed(old(self).data.chain_spec, *block),
        ensures
            final(self).wf(),
            final(self).store == old(self).store,
            final(self).data == old(self).data,
            final(self).state.transitions == old(self).state.transitions,
            final(self).state.bundle == old(self).state.bundle,
            final(self).state.reverts == old(self).state.reverts,
            final(self).state.state_clear == old(self).state.state_clear,
            r is Ok <==> post_change_ok(
                old(self).state.accounts@,
                old(self).data.chain_spec,
                *block,
            ),
            r is Err ==> final(self).state == old(self).state && r matches Err(
                BlockExecutionError::IncrementBalanceFailed,
            ),
            r is Ok ==> (forall|k: u64|
                spec_balance(final(self).state.accounts@, k) as int == drained_bal(
                    old(self).state.accounts@,
                    old(self).data.chain_spec,
                    *block,
                    k,
                ) + agg_of(
                    full_contribs(old(self).state.accounts@, old(self).data.chain_spec, *block),
                    k,
                )),
            r is Ok ==> (forall|k: u64|
                assoc_lookup(final(self).state.accounts@, k) == post_change_lookup(
                    old(self).state.accounts@,
                    old(self).data.chain_spec,
                    *block,
                    old(self).state.state_clear,
                    k,
                )),
    {
        let ghost cs = self.data.chain_spec;
        let ghost accounts0 = self.state.accounts@;
        let ghost full = full_contribs(accounts0, cs, *block);
        let n = block.header.number;

        let mut contribs = match build_reward_contribs(&self.data.chain_spec, block) {
            Option::Some(v) => v,
            Option::None => {
                return Err(BlockExecutionError::IncrementBalanceFailed);
            },
        };
        let transition = transitions_at_exec(self.data.chain_spec.dao_block, n);
        let dao_list = copy_u64s(&self.data.chain_spec.dao_accounts);
        if transition {
            let sum = match drained_sum(&self.state, &dao_list) {
                Option::Some(s) => s,
                Option::None => {
                    proof {
                        lemma_dao_drain_conservation(accounts0, cs, *block);
                        lemma_reward_nonneg(cs, *block);
                        lemma_agg_nonneg(reward_contribs(cs, *block), cs.dao_beneficiary);
                        assert(agg_of(full, cs.dao_beneficiary) > u128::MAX);
                        assert(drained_bal(accounts0, cs, *block, cs.dao_beneficiary) >= 0);
                        assert(!post_change_ok(accounts0, cs, *block));
                    }
                    return Err(BlockExecutionError::IncrementBalanceFailed);
                },
            };
            contribs.push((self.data.chain_spec.dao_beneficiary, sum));
        }
        proof {
            assert(contribs_as_int(contribs@) =~= full);
        }
        let incs = match aggregate_contribs(&contribs) {
            Option::Some(v) => v,
            Option::None => {
                proof {
                    let bad = choose|k: u64| agg_of(contribs_as_int(contribs@), k) > u128::MAX;
                    assert(drained_bal(accounts0, cs, *block, bad) >= 0);
                    assert(!post_change_ok(accounts0, cs, *block));
                }
                return Err(BlockExecutionError::IncrementBalanceFailed);
            },
        };
        // Every final balance must fit before anything is mutated.
        let fn_count = incs.len();
        let mut fi: usize = 0;
        while fi < fn_count
            invariant
                fi <= fn_count,
                fn_count == incs@.len(),
                self == old(self),
                old(self).wf(),
                accounts0 == self.state.accounts@,
                cs == self.data.chain_spec,
                full == full_contribs(accounts0, cs, *block),
                transition == transitions_at(cs.dao_block, block.header.number),
                n == block.header.number,
                dao_list@ == cs.dao_accounts@,
                assoc_distinct(incs@),
                forall|k: u64|
                    #![trigger assoc_lookup(incs@, k)]
                    (match assoc_lookup(incs@, k) {
                        Option::Some(v) => v as int,
                        Option::None => 0int,
                    }) == agg_of(full, k),
                forall|j: int|
                    0 <= j < fi ==> drained_bal(accounts0, cs, *block, incs@[j].0) + incs@[j].1
                        <= u128::MAX,
            decreases fn_count - fi,
        {
            let (k, v) = incs[fi];
            let bal = if transition && u64_list_contains(&dao_list, k) {
                0u128
            } else {
                self.state.balance_of(k)
            };
            proof {
                assert(bal as int == drained_bal(accounts0, cs, *block, k));
            }
            if v > u128::MAX - bal {
                proof {
                    crate::state::lemma_assoc_lookup_contains(incs@, k, v);
                    assert(incs@.contains((k, v))) by {
                        assert(incs@[fi as int] == (k, v));
                    };
                    assert(agg_of(full, k) == v as int);
                    assert(!post_change_ok(accounts0, cs, *block));
                }
                return Err(BlockExecutionError::IncrementBalanceFailed);
            }
            fi += 1;
        }
        proof {
            assert forall|k: u64|
                drained_bal(accounts0, cs, *block, k) + agg_of(full, k)
                    <= u128::MAX by {
                match assoc_lookup(incs@, k) {
                    Option::Some(v) => {
                        crate::state::lemma_assoc_lookup_contains(incs@, k, v);
                        let j = choose|j: int| 0 <= j < incs@.len() && incs@[j] == (k, v);
                        assert(incs@[j].0 == k && incs@[j].1 == v);
                    },
                    Option::None => {
                        assert(agg_of(full, k) == 0);
                        assert(drained_bal(accounts0, cs, *block, k) <= u128::MAX);
                    },
                }
            }
            assert(post_change_ok(accounts0, cs, *block));
        }
        if transition {
            let _drained = self.state.drain_balances(&dao_list);
        }
        let ghost s1 = self.state.accounts@;
        let ghost clear0 = self.state.state_clear;
        proof {
            assert forall|k: u64|
                spec_balance(s1, k) as int == drained_bal(accounts0, cs, *block, k) by {
                if transition && cs.dao_accounts@.contains(k) {
                    let j = choose|j: int| 0 <= j < dao_list@.len() && dao_list@[j] == k;
                    assert(dao_list@[j] == k);
                } else {
                    if transition {
                        assert(!dao_list@.contains(k));
                    }
                }
            }
            assert forall|k: u64|
                assoc_lookup(s1, k) == post_drain_lookup(
                    assoc_lookup(accounts0, k),
                    transition && cs.dao_accounts@.contains(k),
                    clear0,
                ) by {
                if transition && cs.dao_accounts@.contains(k) {
                    let j = choose|j: int| 0 <= j < dao_list@.len() && dao_list@[j] == k;
                    assert(dao_list@[j] == k);
                } else {
                    if transition {
                        assert(!dao_list@.contains(k));
                    }
                }
            }
        }
        match self.state.increment_balances(&incs) {
            Result::Ok(()) => {},
            Result::Err(()) => {
                proof {
                    assert forall|i: int|
                        0 <= i < incs@.len() implies spec_balance(s1, incs@[i].0) + incs@[i].1
                        <= u128::MAX by {
                        crate::state::lemma_assoc_lookup_contains(incs@, incs@[i].0, incs@[i].1);
                        assert(incs@.contains((incs@[i].0, incs@[i].1))) by {
                            assert(incs@[i] == (incs@[i].0, incs@[i].1));
                        };
                        assert(agg_of(full, incs@[i].0) == incs@[i].1 as int);
                    }
                    assert(false);
                }
                return Err(BlockExecutionError::IncrementBalanceFailed);
            },
        }
        proof {
            assert forall|k: u64|
                spec_balance(self.state.accounts@, k) as int == drained_bal(
                    accounts0,
                    cs,
                    *block,
                    k,
                ) + agg_of(full, k) by {
                match assoc_lookup(incs@, k) {
                    Option::Some(v) => {
                        crate::state::lemma_assoc_lookup_contains(incs@, k, v);
                        let j = choose|j: int| 0 <= j < incs@.len() && incs@[j] == (k, v);
                        assert(incs@[j].0 == k && incs@[j].1 == v);
                        if v == 0 {
                            assert(assoc_lookup(self.state.accounts@, k) == assoc_lookup(s1, k));
                        }
                    },
                    Option::None => {
                        assert(agg_of(full, k) == 0);
                        assert forall|i: int|
                            0 <= i < incs@.len() implies incs@[i].0 != k by {
                            if incs@[i].0 == k {
                                crate::state::lemma_assoc_lookup_contains(
                                    incs@,
                                    k,
                                    incs@[i].1,
                                );
                                assert(incs@.contains((k, incs@[i].1))) by {
                                    assert(incs@[i] == (k, incs@[i].1));
                                };
                            }
                        }
                        assert(assoc_lookup(self.state.accounts@, k) == assoc_lookup(s1, k));
                    },
                }
            }
            assert forall|k: u64|
                assoc_lookup(self.state.accounts@, k) == post_change_lookup(
                    accounts0,
                    cs,
                    *block,
                    clear0,
                    k,
                ) by {
                let d = post_drain_lookup(
                    assoc_lookup(accounts0, k),
                    transition && cs.dao_accounts@.contains(k),
                    clear0,
                );
                assert(assoc_lookup(s1, k) == d);
                match assoc_lookup(incs@, k) {
                    Option::Some(v) => {
                        crate::state::lemma_assoc_lookup_contains(incs@, k, v);
                        let j = choose|j: int| 0 <= j < incs@.len() && incs@[j] == (k, v);
                        assert(incs@[j].0 == k && incs@[j].1 == v);
                        assert(agg_of(full, k) == v as int);
                        if v == 0 {
                            assert(assoc_lookup(self.state.accounts@, k) == assoc_lookup(s1, k));
                        }
                    },
                    Option::None => {
                        assert(agg_of(full, k) == 0);
                        assert forall|i: int|
                            0 <= i < incs@.len() implies incs@[i].0 != k by {
                            if incs@[i].0 == k {
                                crate::state::lemma_assoc_lookup_contains(
                                    incs@,
                                    k,
                                    incs@[i].1,
                                );
                                assert(incs@.contains((k, incs@[i].1))) by {
                                    assert(incs@[i] == (k, incs@[i].1));
                                };
                            }
                        }
                        assert(assoc_lookup(self.state.accounts@, k) == assoc_lookup(s1, k));
                    },
                }
            }
        }
        Ok(())
    }
}

/// Every reward contribution is non-negative.
proof fn lemma_reward_nonneg(cs: ChainSpec, block: Block)
    requires
        ommers_placed(cs, block),
    ensures
        forall|i: int|
            0 <= i < reward_contribs(cs, block).len() ==> #[trigger] reward_contribs(
                cs,
                block,
            )[i].1 >= 0,
{
    let rc = reward_contribs(cs, block);
    assert forall|i: int| 0 <= i < rc.len() implies rc[i].1 >= 0 by {
        match base_reward_at(cs.rewards@, block.header.number) {
            Option::Some(base) => {
                if i == 0 {
                    assert((base / 32) * block.ommers@.len() >= 0) by (nonlinear_arith)
                        requires
                            base >= 0,
                            block.ommers@.len() >= 0,
                    ;
                } else if i <= block.ommers@.len() {
                    let o = block.ommers@[i - 1];
                    assert((8 - (block.header.number - o.number)) * base >= 0)
                        by (nonlinear_arith)
                        requires
                            8 - (block.header.number - o.number) >= 0,
                            base >= 0,
                    ;
                }
            },
            Option::None => {},
        }
    }
}

/// Whether a fork activation has been reached, executably.
fn active_at_exec(activation: Option<u64>, n: u64) -> (r: bool)
    ensures
        r == active_at(activation, n),
{
    match activation {
        Option::Some(b) => n >= b,
        Option::None => false,
    }
}

/// What a diff list leaves at `k`, starting from a prior value.
pub open spec fn apply_diffs_val(
    pre: Option<AccountState>,
    diffs: Seq<Seq<(u64, AccountState)>>,
    k: u64,
    clear: bool,
) -> Option<AccountState>
    decreases diffs.len(),
{
    if diffs.len() == 0 {
        pre
    } else {
        crate::state::apply_writes(apply_diffs_val(pre, diffs.drop_last(), k, clear), diffs.last(), k, clear)
    }
}

/// Looking up after diffs is folding their writes over the prior value.
pub proof fn lemma_lookup_is_fold(
    accounts0: Seq<(u64, AccountState)>,
    diffs: Seq<Seq<(u64, AccountState)>>,
    k: u64,
    clear: bool,
)
    ensures
        lookup_after_diffs(accounts0, diffs, k, clear) == apply_diffs_val(
            assoc_lookup(accounts0, k),
            diffs,
            k,
            clear,
        ),
    decreases diffs.len(),
{
    if diffs.len() > 0 {
        lemma_lookup_is_fold(accounts0, diffs.drop_last(), k, clear);
    }
}

/// Applying concatenated diff lists is applying them in turn.
pub proof fn lemma_apply_diffs_concat(
    pre: Option<AccountState>,
    d1: Seq<Seq<(u64, AccountState)>>,
    d2: Seq<Seq<(u64, AccountState)>>,
    k: u64,
    clear: bool,
)
    ensures
        apply_diffs_val(pre, d1 + d2, k, clear) == apply_diffs_val(
            apply_diffs_val(pre, d1, k, clear),
            d2,
            k,
            clear,
        ),
    decreases d2.len(),
{
    if d2.len() == 0 {
        assert(d1 + d2 =~= d1);
    } else {
        lemma_apply_diffs_concat(pre, d1, d2.drop_last(), k, clear);
        assert((d1 + d2).drop_last() =~= d1 + d2.drop_last());
        assert((d1 + d2).last() == d2.last());
    }
}

/// Every transaction ran without a machine failure.
pub open spec fn all_ok(outcomes: Seq<Result<ExecOutcome, String>>) -> bool {
    forall|i: int| 0 <= i < outcomes.len() ==> outcomes[i] is Ok
}

/// The least transaction index whose run failed.
pub open spec fn first_tx_err(outcomes: Seq<Result<ExecOutcome, String>>) -> Option<int>
    decreases outcomes.len(),
{
    if outcomes.len() == 0 {
        None
    } else if outcomes[0] is Err {
        Some(0int)
    } else {
        match first_tx_err(outcomes.drop_first()) {
            Option::Some(p) => Option::Some(p + 1),
            Option::None => Option::None,
        }
    }
}

/// A failure with only successes before it is the first failure.
pub proof fn lemma_first_tx_err_at(outcomes: Seq<Result<ExecOutcome, String>>, p: int)
    requires
        0 <= p < outcomes.len(),
        outcomes[p] is Err,
        forall|i: int| 0 <= i < p ==> outcomes[i] is Ok,
    ensures
        first_tx_err(outcomes) == Some(p),
    decreases outcomes.len(),
{
    if p > 0 {
        assert(forall|j: int|
            0 <= j < outcomes.drop_first().len() ==> outcomes.drop_first()[j] == outcomes[j + 1]);
        lemma_first_tx_err_at(outcomes.drop_first(), p - 1);
    }
}

/// Only successes means no first failure.
pub proof fn lemma_first_tx_err_none(outcomes: Seq<Result<ExecOutcome, String>>)
    requires
        all_ok(outcomes),
    ensures
        first_tx_err(outcomes) is None,
    decreases outcomes.len(),
{
    if outcomes.len() > 0 {
        assert(forall|j: int|
            0 <= j < outcomes.drop_first().len() ==> outcomes.drop_first()[j] == outcomes[j + 1]);
        lemma_first_tx_err_none(outcomes.drop_first());
    }
}

/// The per-transaction diffs of a block's outcomes, in index order.
pub open spec fn body_diffs(outcomes: Seq<Result<ExecOutcome, String>>) -> Seq<
    Seq<(u64, AccountState)>,
> {
    Seq::new(outcomes.len(), |i: int| outcomes[i]->Ok_0.diff@)
}

/// The diffs a schedule commits, batch after batch.
pub open spec fn scheduled_diffs(
    queue: Seq<Seq<u32>>,
    outcomes: Seq<Result<ExecOutcome, String>>,
) -> Seq<Seq<(u64, AccountState)>>
    decreases queue.len(),
{
    if queue.len() == 0 {
        Seq::empty()
    } else {
        scheduled_diffs(queue.drop_last(), outcomes) + Seq::new(
            queue.last().len(),
            |l: int| outcomes[queue.last()[l] as int]->Ok_0.diff@,
        )
    }
}

/// Concatenating batch lists concatenates what they flatten to.
pub proof fn lemma_flat_concat(a: Seq<Seq<u32>>, b: Seq<Seq<u32>>)
    ensures
        flat_of(a + b) == flat_of(a) + flat_of(b),
    decreases b.len(),
{
    if b.len() == 0 {
        assert(a + b =~= a);
        assert(flat_of(a) + flat_of(b) =~= flat_of(a));
    } else {
        lemma_flat_concat(a, b.drop_last());
        assert((a + b).drop_last() =~= a + b.drop_last());
        assert((a + b).last() == b.last());
        assert(flat_of(a) + flat_of(b.drop_last()) + b.last() =~= flat_of(a) + (flat_of(
            b.drop_last(),
        ) + b.last()));
    }
}

/// Any schedule whose batches flatten to the block order commits exactly
/// the per-transaction diffs in index order: executing with a schedule and
/// executing sequentially apply the same diffs in the same order.
pub proof fn lemma_sequential_fallback_equivalence(
    queue: Seq<Seq<u32>>,
    outcomes: Seq<Result<ExecOutcome, String>>,
)
    requires
        flat_of(queue) == iota(outcomes.len() as int),
        outcomes.len() <= u32::MAX,
    ensures
        scheduled_diffs(queue, outcomes) == body_diffs(outcomes),
    decreases queue.len(),
{
    let n = outcomes.len() as int;
    if queue.len() == 0 {
        assert(flat_of(queue) =~= Seq::<u32>::empty());
        assert(iota(n).len() == 0);
        assert(scheduled_diffs(queue, outcomes) =~= body_diffs(outcomes));
    } else {
        let head = queue.drop_last();
        let last = queue.last();
        assert(queue =~= head.push(last));
        assert(head.push(last) =~= head + seq![last]);
        lemma_flat_concat(head, seq![last]);
        assert(flat_of(seq![last]) =~= last) by {
            assert(seq![last].drop_last() =~= Seq::<Seq<u32>>::empty());
            assert(flat_of(Seq::<Seq<u32>>::empty()) =~= Seq::<u32>::empty());
            assert(flat_of(seq![last]) == flat_of(seq![last].drop_last()) + seq![last].last());
        };
        assert(flat_of(queue) == flat_of(head) + last);
        let m = flat_of(head).len() as int;
        assert(iota(n).len() == n);
        assert(flat_of(queue).len() == m + last.len());
        assert(m + last.len() == n);
        assert forall|j: int| 0 <= j < m implies flat_of(head)[j] == iota(n)[j] by {
            assert(flat_of(queue)[j] == (flat_of(head) + last)[j]);
        }
        assert(flat_of(head) =~= iota(m)) by {
            assert forall|j: int| 0 <= j < m implies flat_of(head)[j] == j as u32 by {
                assert(flat_of(head)[j] == iota(n)[j]);
            }
        };
        let truncated = outcomes.subrange(0, m);
        lemma_sequential_fallback_equivalence(head, truncated);
        assert(scheduled_diffs(head, truncated) == body_diffs(truncated));
        assert forall|j: int, l: int|
            0 <= j < head.len() && 0 <= l < head[j].len() implies 0 <= #[trigger] head[j][l]
            < truncated.len() by {
            lemma_flat_entry(head, j, l);
            let p = choose|p: int|
                0 <= p < flat_of(head).len() && flat_of(head)[p] == head[j][l];
            assert(flat_of(head)[p] == iota(m)[p]);
            assert(iota(m)[p] == p as u32);
        }
        lemma_scheduled_diffs_stable(head, truncated, outcomes);
        assert forall|p: int|
            0 <= p < n implies (body_diffs(truncated) + Seq::new(
            last.len(),
            |l: int| outcomes[last[l] as int]->Ok_0.diff@,
        ))[p] == body_diffs(outcomes)[p] by {
            if p < m {
                assert(body_diffs(truncated)[p] == truncated[p]->Ok_0.diff@);
                assert(truncated[p] == outcomes[p]);
            } else {
                assert(last[p - m] == flat_of(queue)[p]);
                assert(flat_of(queue)[p] == p as u32);
            }
        }
        assert(scheduled_diffs(queue, outcomes) =~= body_diffs(outcomes));
    }
}

/// Every entry of a batch occurs in the flattened schedule.
proof fn lemma_flat_entry(batches: Seq<Seq<u32>>, j: int, l: int)
    requires
        0 <= j < batches.len(),
        0 <= l < batches[j].len(),
    ensures
        exists|p: int|
            0 <= p < flat_of(batches).len() && flat_of(batches)[p] == batches[j][l],
    decreases batches.len(),
{
    if j == batches.len() - 1 {
        let p = flat_of(batches.drop_last()).len() as int + l;
        assert(flat_of(batches)[p] == batches[j][l]);
    } else {
        assert(batches.drop_last()[j] == batches[j]);
        lemma_flat_entry(batches.drop_last(), j, l);
        let p = choose|p: int|
            0 <= p < flat_of(batches.drop_last()).len() && flat_of(batches.drop_last())[p]
                == batches[j][l];
        assert(flat_of(batches)[p] == batches[j][l]);
    }
}

/// A schedule that only names transactions below a cut commits the same
/// diffs whether outcomes beyond the cut are present or not.
proof fn lemma_scheduled_diffs_stable(
    queue: Seq<Seq<u32>>,
    shorter: Seq<Result<ExecOutcome, String>>,
    longer: Seq<Result<ExecOutcome, String>>,
)
    requires
        forall|j: int, l: int|
            0 <= j < queue.len() && 0 <= l < queue[j].len() ==> 0 <= #[trigger] queue[j][l]
                < shorter.len(),
        forall|i: int| 0 <= i < shorter.len() ==> shorter[i] == longer[i],
        shorter.len() <= longer.len(),
    ensures
        scheduled_diffs(queue, shorter) == scheduled_diffs(queue, longer),
    decreases queue.len(),
{
    if queue.len() > 0 {
        assert(forall|j: int|
            0 <= j < queue.drop_last().len() ==> queue.drop_last()[j] == queue[j]);
        lemma_scheduled_diffs_stable(queue.drop_last(), shorter, longer);
        assert(Seq::new(queue.last().len(), |l: int| shorter[queue.last()[l] as int]->Ok_0.diff@)
            =~= Seq::new(queue.last().len(), |l: int| longer[queue.last()[l] as int]->Ok_0.diff@));
        assert(scheduled_diffs(queue, shorter) =~= scheduled_diffs(queue, longer));
    }
}

/// Copies a log list.
fn copy_logs(v: &Vec<Log>) -> (r: Vec<Log>)
    ensures
        r.deep_view() == v.deep_view(),
{
    let mut out: Vec<Log> = Vec::new();
    let n = v.len();
    let mut i: usize = 0;
    while i < n
        invariant
            i <= n,
            n == v@.len(),
            out@.len() == i,
            forall|j: int| 0 <= j < i ==> out@[j]@ == v@[j]@,
        decreases n - i,
    {
        let entry = Log { address: v[i].address, data: crate::bytes_util::bytes_to_vec(v[i].data.as_slice()) };
        out.push(entry);
        i += 1;
    }
    proof {
        assert(out.deep_view() =~~= v.deep_view());
    }
    out
}

/// Copies one outcome.
fn copy_outcome(o: &ExecOutcome) -> (r: ExecOutcome)
    ensures
        r.success == o.success,
        r.gas_used == o.gas_used,
        r.diff@ == o.diff@,
        r.logs.deep_view() == o.logs.deep_view(),
{
    ExecOutcome {
        success: o.success,
        gas_used: o.gas_used,
        diff: crate::state::copy_writes(&o.diff),
        logs: copy_logs(&o.logs),
    }
}

/// The gas the first `upto` outcomes used.
pub open spec fn spec_gas(outs: Seq<Result<ExecOutcome, String>>, upto: int) -> int
    decreases upto,
{
    if upto <= 0 {
        0
    } else {
        spec_gas(outs, upto - 1) + outs[upto - 1]->Ok_0.gas_used
    }
}

/// Gas totals grow with the prefix.
pub proof fn lemma_spec_gas_mono(outs: Seq<Result<ExecOutcome, String>>, a: int, b: int)
    requires
        0 <= a <= b,
    ensures
        spec_gas(outs, a) <= spec_gas(outs, b),
    decreases b - a,
{
    if a < b {
        lemma_spec_gas_mono(outs, a, b - 1);
    }
}

/// A gas total over `upto` outcomes stays below `upto` full tanks.
pub proof fn lemma_spec_gas_bound(outs: Seq<Result<ExecOutcome, String>>, upto: int)
    requires
        upto >= 0,
    ensures
        0 <= spec_gas(outs, upto) <= upto * (u64::MAX as int),
    decreases upto,
{
    if upto > 0 {
        lemma_spec_gas_bound(outs, upto - 1);
    }
}

/// The state diffs the pre-block system call contributes: the given diff,
/// when the fork is active and the block carries a parent beacon root.
pub open spec fn beacon_seq(
    cs: ChainSpec,
    block: Block,
    bd: Option<Vec<(u64, AccountState)>>,
) -> Seq<Seq<(u64, AccountState)>> {
    if active_at(cs.beacon_roots_block, block.header.number)
        && block.header.parent_beacon_block_root is Some {
        match bd {
            Option::Some(d) => seq![d@],
            Option::None => Seq::empty(),
        }
    } else {
        Seq::empty()
    }
}

/// What the account at `k` holds after the pre-block call and the whole
/// body, applied in transaction-index order.
pub open spec fn chain_lookup(
    accounts0: Seq<(u64, AccountState)>,
    cs: ChainSpec,
    block: Block,
    bd: Option<Vec<(u64, AccountState)>>,
    outs: Seq<Result<ExecOutcome, String>>,
    k: u64,
) -> Option<AccountState> {
    let clear = active_at(cs.state_clear_block, block.header.number);
    apply_diffs_val(
        apply_diffs_val(assoc_lookup(accounts0, k), beacon_seq(cs, block, bd), k, clear),
        body_diffs(outs),
        k,
        clear,
    )
}

/// The balance at `k` after the body.
pub open spec fn chain_balance(
    accounts0: Seq<(u64, AccountState)>,
    cs: ChainSpec,
    block: Block,
    bd: Option<Vec<(u64, AccountState)>>,
    outs: Seq<Result<ExecOutcome, String>>,
    k: u64,
) -> int {
    match chain_lookup(accounts0, cs, block, bd, outs, k) {
        Option::Some(st) => st.balance as int,
        Option::None => 0,
    }
}

/// The sum the drain fork takes, measured after the body.
pub open spec fn chain_dao_sum(
    accounts0: Seq<(u64, AccountState)>,
    cs: ChainSpec,
    block: Block,
    bd: Option<Vec<(u64, AccountState)>>,
    outs: Seq<Result<ExecOutcome, String>>,
) -> int {
    sum_of(
        Seq::new(
            cs.dao_accounts@.len(),
            |i: int| chain_balance(accounts0, cs, block, bd, outs, cs.dao_accounts@[i]),
        ),
    )
}

/// Every post-block contribution, measured after the body.
pub open spec fn chain_full_contribs(
    accounts0: Seq<(u64, AccountState)>,
    cs: ChainSpec,
    block: Block,
    bd: Option<Vec<(u64, AccountState)>>,
    outs: Seq<Result<ExecOutcome, String>>,
) -> Seq<(u64, int)> {
    reward_contribs(cs, block) + (if transitions_at(cs.dao_block, block.header.number) {
        seq![(cs.dao_beneficiary, chain_dao_sum(accounts0, cs, block, bd, outs))]
    } else {
        Seq::empty()
    })
}

/// The post-drain balance at `k`, measured after the body.
pub open spec fn chain_drained(
    accounts0: Seq<(u64, AccountState)>,
    cs: ChainSpec,
    block: Block,
    bd: Option<Vec<(u64, AccountState)>>,
    outs: Seq<Result<ExecOutcome, String>>,
    k: u64,
) -> int {
    if transitions_at(cs.dao_block, block.header.number) && cs.dao_accounts@.contains(k) {
        0
    } else {
        chain_balance(accounts0, cs, block, bd, outs, k)
    }
}

/// Whether the post-block change fits, measured after the body.
pub open spec fn chain_post_ok(
    accounts0: Seq<(u64, AccountState)>,
    cs: ChainSpec,
    block: Block,
    bd: Option<Vec<(u64, AccountState)>>,
    outs: Seq<Result<ExecOutcome, String>>,
) -> bool {
    &&& amounts_fit(cs, block)
    &&& forall|k: u64|
        chain_drained(accounts0, cs, block, bd, outs, k) + agg_of(
            chain_full_contribs(accounts0, cs, block, bd, outs),
            k,
        ) <= u128::MAX
}

/// What the account at `k` holds once the whole block is done: the
/// pre-call and body diffs, the drain, and the credits, in order.
pub open spec fn chain_final_lookup(
    accounts0: Seq<(u64, AccountState)>,
    cs: ChainSpec,
    block: Block,
    bd: Option<Vec<(u64, AccountState)>>,
    outs: Seq<Result<ExecOutcome, String>>,
    k: u64,
) -> Option<AccountState> {
    let clear = active_at(cs.state_clear_block, block.header.number);
    let d = post_drain_lookup(
        chain_lookup(accounts0, cs, block, bd, outs, k),
        transitions_at(cs.dao_block, block.header.number) && cs.dao_accounts@.contains(k),
        clear,
    );
    let v = agg_of(chain_full_contribs(accounts0, cs, block, bd, outs), k);
    if v == 0 {
        d
    } else {
        match d {
            Option::Some(st) => Option::Some(
                AccountState { balance: (st.balance + v) as u128, nonce: st.nonce },
            ),
            Option::None => Option::Some(AccountState { balance: v as u128, nonce: 0 }),
        }
    }
}

/// A state whose accounts look up along the chain measures the post-block
/// change the same way the chain does.
proof fn lemma_chain_bridge(
    inter: Seq<(u64, AccountState)>,
    accounts0: Seq<(u64, AccountState)>,
    cs: ChainSpec,
    block: Block,
    bd: Option<Vec<(u64, AccountState)>>,
    outs: Seq<Result<ExecOutcome, String>>,
)
    requires
        forall|k: u64|
            assoc_lookup(inter, k) == chain_lookup(accounts0, cs, block, bd, outs, k),
    ensures
        forall|k: u64|
            spec_balance(inter, k) as int == chain_balance(accounts0, cs, block, bd, outs, k),
        full_contribs(inter, cs, block) == chain_full_contribs(accounts0, cs, block, bd, outs),
        forall|k: u64|
            drained_bal(inter, cs, block, k) == chain_drained(accounts0, cs, block, bd, outs, k),
        post_change_ok(inter, cs, block) == chain_post_ok(accounts0, cs, block, bd, outs),
        forall|k: u64|
            post_change_lookup(
                inter,
                cs,
                block,
                active_at(cs.state_clear_block, block.header.number),
                k,
            ) == chain_final_lookup(accounts0, cs, block, bd, outs, k),
{
    assert forall|k: u64|
        spec_balance(inter, k) as int == chain_balance(accounts0, cs, block, bd, outs, k) by {
        assert(assoc_lookup(inter, k) == chain_lookup(accounts0, cs, block, bd, outs, k));
    }
    assert(drained_balances_of(inter, cs.dao_accounts@) =~= Seq::new(
        cs.dao_accounts@.len(),
        |i: int| chain_balance(accounts0, cs, block, bd, outs, cs.dao_accounts@[i]),
    ));
    assert(full_contribs(inter, cs, block) =~= chain_full_contribs(
        accounts0,
        cs,
        block,
        bd,
        outs,
    ));
    assert forall|k: u64|
        drained_bal(inter, cs, block, k) == chain_drained(
        accounts0,
        cs,
        block,
        bd,
        outs,
        k,
    ) by {
        assert(spec_balance(inter, k) as int == chain_balance(accounts0, cs, block, bd, outs, k));
    }
    if post_change_ok(inter, cs, block) {
        assert forall|k: u64|
            chain_drained(accounts0, cs, block, bd, outs, k) + agg_of(
                chain_full_contribs(accounts0, cs, block, bd, outs),
                k,
            ) <= u128::MAX by {
            assert(drained_bal(inter, cs, block, k) + agg_of(full_contribs(inter, cs, block), k)
                <= u128::MAX);
        }
        assert(chain_post_ok(accounts0, cs, block, bd, outs));
    }
    if chain_post_ok(accounts0, cs, block, bd, outs) {
        assert forall|k: u64|
            drained_bal(inter, cs, block, k) + agg_of(full_contribs(inter, cs, block), k)
                <= u128::MAX by {
            assert(chain_drained(accounts0, cs, block, bd, outs, k) + agg_of(
                chain_full_contribs(accounts0, cs, block, bd, outs),
                k,
            ) <= u128::MAX);
        }
        assert(post_change_ok(inter, cs, block));
    }
    assert forall|k: u64|
        post_change_lookup(
            inter,
            cs,
            block,
            active_at(cs.state_clear_block, block.header.number),
            k,
        ) == chain_final_lookup(accounts0, cs, block, bd, outs, k) by {
        assert(assoc_lookup(inter, k) == chain_lookup(accounts0, cs, block, bd, outs, k));
    }
}

/// Copies a plain index list.
fn copy_u32s(v: &Vec<u32>) -> (r: Vec<u32>)
    ensures
        r@ == v@,
{
    let mut out: Vec<u32> = Vec::new();
    let n = v.len();
    let mut i: usize = 0;
    while i < n
        invariant
            i <= n,
            n == v@.len(),
            out@ == v@.subrange(0, i as int),
        decreases n - i,
    {
        out.push(v[i]);
        proof {
            assert(out@ =~= v@.subrange(0, i + 1));
        }
        i += 1;
    }
    proof {
        assert(out@ =~= v@);
    }
    out
}

/// Copies a schedule.
fn copy_queue(q: &BlockQueue) -> (r: BlockQueue)
    ensures
        r@ == q@,
        r.batches@.len() == q.batches@.len(),
        forall|j: int| 0 <= j < q.batches@.len() ==> r.batches@[j]@ == q.batches@[j]@,
{
    let mut batches: Vec<TransactionBatch> = Vec::new();
    let n = q.batches.len();
    let mut i: usize = 0;
    while i < n
        invariant
            i <= n,
            n == q.batches@.len(),
            batches@.len() == i,
            forall|j: int| 0 <= j < i ==> batches@[j]@ == q.batches@[j]@,
        decreases n - i,
    {
        let b = TransactionBatch { indices: copy_u32s(&q.batches[i].indices) };
        batches.push(b);
        i += 1;
    }
    let r = BlockQueue { batches };
    proof {
        assert(r@ =~~= q@);
    }
    r
}

/// Copies one transaction's delivered result.
fn copy_result(o: &Result<ExecOutcome, String>) -> (r: Result<ExecOutcome, String>)
    ensures
        o is Ok <==> r is Ok,
        o matches Result::Ok(v) ==> (r matches Result::Ok(w) && w.success == v.success
            && w.gas_used == v.gas_used && w.diff@ == v.diff@ && w.logs.deep_view()
            == v.logs.deep_view()),
{
    match o {
        Result::Ok(v) => Ok(copy_outcome(v)),
        Result::Err(m) => Err(m.clone()),
    }
}

/// What `first_err_pos` found: a failure with only successes before it.
proof fn lemma_first_err_char(outs: Seq<(u32, Result<ExecOutcome, String>)>)
    ensures
        match first_err_pos(outs) {
            Option::Some(p) => 0 <= p < outs.len() && outs[p].1 is Err && forall|i: int|
                0 <= i < p ==> outs[i].1 is Ok,
            Option::None => forall|i: int| 0 <= i < outs.len() ==> outs[i].1 is Ok,
        },
    decreases outs.len(),
{
    if outs.len() > 0 && outs[0].1 is Ok {
        lemma_first_err_char(outs.drop_first());
        assert(forall|j: int|
            0 <= j < outs.drop_first().len() ==> outs.drop_first()[j] == outs[j + 1]);
        match first_err_pos(outs.drop_first()) {
            Option::Some(p) => {
                assert(outs[p + 1].1 is Err);
                assert forall|i: int| 0 <= i < p + 1 implies outs[i].1 is Ok by {
                    if i > 0 {
                        assert(outs.drop_first()[i - 1].1 is Ok);
                    }
                }
            },
            Option::None => {
                assert forall|i: int| 0 <= i < outs.len() implies outs[i].1 is Ok by {
                    if i > 0 {
                        assert(outs.drop_first()[i - 1].1 is Ok);
                    }
                }
            },
        }
    }
}

impl ParallelExecutor {
    /// Runs one block from the outcomes its transactions produced: sets
    /// the state-clear rule, commits the pre-block system call's diff,
    /// takes the empty-body fast path, commits every batch of the schedule
    /// (or of the sequential fallback) in transaction-index order, builds
    /// the receipts, checks the gas against the header, applies the
    /// post-block change, merges the journal, and records the first
    /// executed block.
    pub fn execute_inner(
        &mut self,
        block: &Block,
        total_difficulty: u128,
        outcomes: &Vec<Result<ExecOutcome, String>>,
        beacon_diff: Option<Vec<(u64, AccountState)>>,
    ) -> (r: Result<Vec<Receipt>, BlockExecutionError>)
        requires
            old(self).wf(),
            outcomes@.len() == block.body@.len(),
            block.body@.len() <= u32::MAX,
            ommers_placed(old(self).data.chain_spec, *block),
            match stored_queue(old(self).store.queues@, block.header.number) {
                Option::Some(q) => q.wf(block.body@.len() as int),
                Option::None => true,
            },
        ensures
            final(self).wf(),
            final(self).store == old(self).store,
            final(self).data.chain_spec == old(self).data.chain_spec,
            final(self).data.tip == old(self).data.tip,
            final(self).data.prune_modes == old(self).data.prune_modes,
            final(self).data.receipts == old(self).data.receipts,
            final(self).state.state_clear == active_at(
                old(self).data.chain_spec.state_clear_block,
                block.header.number,
            ),
            r is Err ==> final(self).state.bundle == old(self).state.bundle
                && final(self).state.reverts == old(self).state.reverts
                && final(self).data.first_block == old(self).data.first_block,
            block.body@.len() == 0 ==> (r matches Ok(rc) && rc@.len() == 0
                && final(self).data.first_block == old(self).data.first_block
                && final(self).state.bundle == old(self).state.bundle
                && final(self).state.reverts == old(self).state.reverts
                && journal_view(final(self).state.transitions@) == journal_view(
                old(self).state.transitions@,
            ) + beacon_seq(old(self).data.chain_spec, *block, beacon_diff) && (forall|k: u64|
                assoc_lookup(final(self).state.accounts@, k) == chain_lookup(
                    old(self).state.accounts@,
                    old(self).data.chain_spec,
                    *block,
                    beacon_diff,
                    Seq::empty(),
                    k,
                ))),
            first_tx_err(outcomes@) matches Some(e) ==> (r matches Err(err) && err matches
                BlockExecutionError::Evm { hash, .. } && hash == block.body@[e].hash),
            block.body@.len() > 0 && all_ok(outcomes@) && spec_gas(
                outcomes@,
                outcomes@.len() as int,
            ) != block.header.gas_used ==> (r matches Err(err) && err matches
                BlockExecutionError::BlockGasUsed { got, expected, gas_spent_by_tx } && got
                == spec_gas(outcomes@, outcomes@.len() as int) && expected
                == block.header.gas_used && gas_spent_by_tx@.len() == outcomes@.len() && (forall|
                i: int,
            |
                0 <= i < outcomes@.len() ==> gas_spent_by_tx@[i] == (
                    i as u64,
                    outcomes@[i]->Ok_0.gas_used,
                )) && (forall|k: u64|
                assoc_lookup(final(self).state.accounts@, k) == chain_lookup(
                    old(self).state.accounts@,
                    old(self).data.chain_spec,
                    *block,
                    beacon_diff,
                    outcomes@,
                    k,
                ))),
            block.body@.len() > 0 && all_ok(outcomes@) && spec_gas(
                outcomes@,
                outcomes@.len() as int,
            ) == block.header.gas_used ==> (r matches Err(
                BlockExecutionError::IncrementBalanceFailed,
            ) <==> !chain_post_ok(
                old(self).state.accounts@,
                old(self).data.chain_spec,
                *block,
                beacon_diff,
                outcomes@,
            )),
            block.body@.len() > 0 && all_ok(outcomes@) && spec_gas(
                outcomes@,
                outcomes@.len() as int,
            ) == block.header.gas_used && !chain_post_ok(
                old(self).state.accounts@,
                old(self).data.chain_spec,
                *block,
                beacon_diff,
                outcomes@,
            ) ==> (forall|k: u64|
                assoc_lookup(final(self).state.accounts@, k) == chain_lookup(
                    old(self).state.accounts@,
                    old(self).data.chain_spec,
                    *block,
                    beacon_diff,
                    outcomes@,
                    k,
                )),
            block.body@.len() > 0 && all_ok(outcomes@) && spec_gas(
                outcomes@,
                outcomes@.len() as int,
            ) == block.header.gas_used && chain_post_ok(
                old(self).state.accounts@,
                old(self).data.chain_spec,
                *block,
                beacon_diff,
                outcomes@,
            ) ==> (r matches Ok(rc) && {
                let outs = outcomes@;
                let n = outs.len() as int;
                let cs = old(self).data.chain_spec;
                let accounts0 = old(self).state.accounts@;
                &&& rc@.len() == n
                &&& forall|i: int|
                    0 <= i < n ==> rc@[i].tx_type == block.body@[i].tx_type && rc@[i].success
                        == outs[i]->Ok_0.success && rc@[i].cumulative_gas_used == spec_gas(
                        outs,
                        i + 1,
                    ) && rc@[i].logs.deep_view() == outs[i]->Ok_0.logs.deep_view()
                &&& forall|k: u64|
                    spec_balance(final(self).state.accounts@, k) as int == chain_drained(
                        accounts0,
                        cs,
                        *block,
                        beacon_diff,
                        outs,
                        k,
                    ) + agg_of(chain_full_contribs(accounts0, cs, *block, beacon_diff, outs), k)
                &&& forall|k: u64|
                    assoc_lookup(final(self).state.accounts@, k) == chain_final_lookup(
                        accounts0,
                        cs,
                        *block,
                        beacon_diff,
                        outs,
                        k,
                    )
                &&& final(self).state.transitions@.len() == 0
                &&& journal_view(final(self).state.bundle@) == journal_view(
                    old(self).state.bundle@,
                ) + journal_view(old(self).state.transitions@) + beacon_seq(
                    cs,
                    *block,
                    beacon_diff,
                ) + body_diffs(outs)
                &&& final(self).data.first_block == (if old(self).data.first_block is Some {
                    old(self).data.first_block
                } else {
                    Some(block.header.number)
                })
            }),
    {
        let ghost cs = self.data.chain_spec;
        let ghost accounts0 = self.state.accounts@;
        let ghost outs = outcomes@;
        let num = block.header.number;
        let n_body = block.body.len();

        // The state-clear rule of the block's height.
        let clear = active_at_exec(self.data.chain_spec.state_clear_block, num);
        self.state.set_state_clear_flag(clear);

        // Pre-block system call.
        let beacon_applies = active_at_exec(self.data.chain_spec.beacon_roots_block, num)
            && matches!(block.header.parent_beacon_block_root, Option::Some(_));
        let ghost bseq = beacon_seq(cs, *block, beacon_diff);
        match &beacon_diff {
            Option::Some(d) => {
                if beacon_applies {
                    self.state.apply_diff(d);
                    proof {
                        assert(bseq =~= seq![d@]);
                        assert(journal_view(self.state.transitions@) =~= journal_view(
                            old(self).state.transitions@,
                        ) + bseq);
                        assert forall|k: u64|
                            assoc_lookup(self.state.accounts@, k) == apply_diffs_val(
                                assoc_lookup(accounts0, k),
                                bseq,
                                k,
                                clear,
                            ) by {
                            let pre = assoc_lookup(accounts0, k);
                            assert(bseq.drop_last() =~= Seq::<Seq<(u64, AccountState)>>::empty());
                            assert(apply_diffs_val(pre, bseq.drop_last(), k, clear) == pre);
                            assert(bseq.last() == d@);
                            assert(apply_diffs_val(pre, bseq, k, clear)
                                == crate::state::apply_writes(pre, d@, k, clear));
                            assert(assoc_lookup(self.state.accounts@, k)
                                == crate::state::apply_writes(pre, d@, k, clear));
                        }
                    }
                }
            },
            Option::None => {},
        }
        proof {
            assert forall|k: u64|
                assoc_lookup(self.state.accounts@, k) == apply_diffs_val(
                    assoc_lookup(accounts0, k),
                    bseq,
                    k,
                    clear,
                ) by {
                if bseq.len() == 0 {
                }
            }
            assert(journal_view(self.state.transitions@) =~= journal_view(
                old(self).state.transitions@,
            ) + bseq);
        }

        // Empty bodies produce nothing and touch nothing further.
        if n_body == 0 {
            proof {
                assert forall|k: u64|
                    assoc_lookup(self.state.accounts@, k) == chain_lookup(
                        accounts0,
                        cs,
                        *block,
                        beacon_diff,
                        Seq::empty(),
                        k,
                    ) by {
                    assert(body_diffs(Seq::empty()) =~= Seq::<Seq<(u64, AccountState)>>::empty());
                }
            }
            return Ok(Vec::new());
        }

        // The schedule, or the sequential fallback.
        let queue = match self.store.get_queue(num) {
            Option::Some(q) => copy_queue(q),
            Option::None => crate::queue::sequential_queue(n_body),
        };
        proof {
            assert(flat_of(queue@) == iota(n_body as int));
            assert forall|j: int| 0 <= j < queue@.len() implies queue.batches@[j].wf() by {
                match stored_queue(old(self).store.queues@, num) {
                    Option::Some(q0) => {
                        assert(queue.batches@[j]@ == q0.batches@[j]@);
                        assert(q0.batches@[j].wf());
                    },
                    Option::None => {},
                }
            }
        }

        // Run the batches in order; each commits in index order.
        let nq = queue.batches.len();
        let mut bj: usize = 0;
        let ghost mut cum: int = 0;
        proof {
            assert(queue@.subrange(0, 0) =~= Seq::<Seq<u32>>::empty());
            assert(flat_of(queue@.subrange(0, 0)) =~= Seq::<u32>::empty());
            assert(body_diffs(outs).subrange(0, 0) =~= Seq::<Seq<(u64, AccountState)>>::empty());
        }
        while bj < nq
            invariant
                bj <= nq,
                nq == queue@.len(),
                0 <= cum <= outs.len(),
                outs == outcomes@,
                outs.len() == block.body@.len(),
                block.body@.len() <= u32::MAX,
                n_body == block.body@.len(),
                n_body > 0,
                num == block.header.number,
                clear == active_at(cs.state_clear_block, num),
                cs == self.data.chain_spec,
                flat_of(queue@) == iota(n_body as int),
                forall|j: int| 0 <= j < queue@.len() ==> #[trigger] queue.batches@[j].wf(),
                flat_of(queue@.subrange(0, bj as int)) == iota(cum),
                forall|i: int| 0 <= i < cum ==> outs[i] is Ok,
                self.wf(),
                self.store == old(self).store,
                self.data == old(self).data,
                self.state.state_clear == clear,
                self.state.bundle == old(self).state.bundle,
                self.state.reverts == old(self).state.reverts,
                accounts0 == old(self).state.accounts@,
                forall|k: u64|
                    assoc_lookup(self.state.accounts@, k) == apply_diffs_val(
                        apply_diffs_val(assoc_lookup(accounts0, k), bseq, k, clear),
                        body_diffs(outs).subrange(0, cum),
                        k,
                        clear,
                    ),
                journal_view(self.state.transitions@) == journal_view(
                    old(self).state.transitions@,
                ) + bseq + body_diffs(outs).subrange(0, cum),
                bseq == beacon_seq(cs, *block, beacon_diff),
            decreases nq - bj,
        {
            let ghost batch_v = queue.batches@[bj as int]@;
            proof {
                // This batch is the next consecutive run of indices.
                assert(queue@.subrange(0, bj + 1).drop_last() =~= queue@.subrange(0, bj as int));
                assert(queue@.subrange(0, bj + 1).last() == queue@[bj as int]);
                assert(queue@ =~= queue@.subrange(0, bj + 1) + queue@.subrange(
                    bj + 1,
                    queue@.len() as int,
                ));
                lemma_flat_concat(
                    queue@.subrange(0, bj + 1),
                    queue@.subrange(bj + 1, queue@.len() as int),
                );
                assert(flat_of(queue@.subrange(0, bj + 1)) == iota(cum) + batch_v);
                assert(flat_of(queue@).len() == iota(n_body as int).len());
                assert(iota(n_body as int).len() == n_body);
                assert(flat_of(queue@.subrange(0, bj + 1)).len() + flat_of(
                    queue@.subrange(bj + 1, queue@.len() as int),
                ).len() == n_body);
                assert(cum + batch_v.len() <= n_body);
                assert forall|l: int| 0 <= l < batch_v.len() implies batch_v[l] == (cum
                    + l) as u32 by {
                    assert(flat_of(queue@)[cum + l] == (iota(cum) + batch_v)[cum + l]);
                    assert(flat_of(queue@)[cum + l] == iota(n_body as int)[cum + l]);
                }
            }
            // Collect this batch's outcomes, in batch order.
            let mut pairs: Vec<(u32, Result<ExecOutcome, String>)> = Vec::new();
            let blen = queue.batches[bj].indices.len();
            let mut l: usize = 0;
            while l < blen
                invariant
                    l <= blen,
                    bj < queue.batches@.len(),
                    blen == batch_v.len(),
                    batch_v == queue.batches@[bj as int]@,
                    outs == outcomes@,
                    outs.len() == block.body@.len(),
                    outs.len() <= u32::MAX,
                    forall|x: int| 0 <= x < batch_v.len() ==> batch_v[x] == (cum + x) as u32,
                    0 <= cum,
                    cum + batch_v.len() <= outs.len(),
                    pairs@.len() == l,
                    forall|x: int| 0 <= x < l ==> (#[trigger] pairs@[x].0) == batch_v[x],
                    forall|x: int|
                        0 <= x < l ==> ((#[trigger] pairs@[x].1) is Ok <==> outs[cum + x] is Ok),
                    forall|x: int|
                        0 <= x < l && outs[cum + x] is Ok ==> (#[trigger] pairs@[x].1)->Ok_0.diff@
                            == outs[cum + x]->Ok_0.diff@,
                decreases blen - l,
            {
                let idx = queue.batches[bj].indices[l];
                proof {
                    assert(batch_v[l as int] == (cum + l) as u32);
                    assert(idx < outs.len());
                }
                proof {
                    assert(idx as int == cum + l);
                }
                let one = copy_result(&outcomes[idx as usize]);
                pairs.push((idx, one));
                l += 1;
            }
            let ghost pv = pairs@;
            proof {
                assert(assoc_distinct(outcome_diffs(pv))) by {
                    assert forall|x: int, y: int|
                        0 <= x < y < outcome_diffs(pv).len() implies outcome_diffs(pv)[x].0
                        != outcome_diffs(pv)[y].0 by {
                        assert(outcome_diffs(pv)[x].0 == pv[x].0);
                        assert(outcome_diffs(pv)[y].0 == pv[y].0);
                        assert(pv[x].0 == (cum + x) as u32);
                        assert(pv[y].0 == (cum + y) as u32);
                    }
                };
                lemma_first_err_char(pv);
                if first_err_pos(pv) is None {
                    assert forall|j: int|
                        0 <= j < batch_v.len() implies assoc_lookup(
                        outcome_diffs(pv),
                        batch_v[j],
                    ) is Some by {
                        crate::state::lemma_assoc_lookup_contains(
                            outcome_diffs(pv),
                            pv[j].0,
                            outcome_diffs(pv)[j].1,
                        );
                        assert(outcome_diffs(pv)[j] == (pv[j].0, outcome_diffs(pv)[j].1));
                        assert(outcome_diffs(pv).contains((pv[j].0, outcome_diffs(pv)[j].1)));
                        assert(pv[j].0 == batch_v[j]);
                    }
                }
                assert forall|i: int| 0 <= i < pv.len() implies pv[i].0 < block.body@.len() by {
                    assert(pv[i].0 == (cum + i) as u32);
                }
            }
            let ghost state_before = self.state;
            let batch_result = self.execute_batch(&queue.batches[bj], &block.body, pairs);
            match batch_result {
                Result::Err(e) => {
                    proof {
                        let p = first_err_pos(pv).unwrap();
                        assert(pv[p].1 is Err);
                        assert(outs[cum + p] is Err);
                        assert forall|i: int| 0 <= i < cum + p implies outs[i] is Ok by {
                            if i >= cum {
                                assert(pv[i - cum].1 is Ok);
                            }
                        }
                        lemma_first_tx_err_at(outs, cum + p);
                        assert(pv[p].0 == (cum + p) as u32);
                    }
                    return Err(e);
                },
                Result::Ok(_results) => {
                    proof {
                        assert(first_err_pos(pv) is None);
                        assert forall|i: int| 0 <= i < cum + batch_v.len() implies outs[i]
                            is Ok by {
                            if i >= cum {
                                assert(pv[i - cum].1 is Ok);
                            }
                        }
                        // The committed diffs are the next consecutive segment.
                        assert(ordered_diffs(batch_v, outcome_diffs(pv)) =~= body_diffs(
                            outs,
                        ).subrange(cum, cum + batch_v.len() as int)) by {
                            assert forall|j: int|
                                0 <= j < batch_v.len() implies ordered_diffs(
                                batch_v,
                                outcome_diffs(pv),
                            )[j] == body_diffs(outs).subrange(
                                cum,
                                cum + batch_v.len() as int,
                            )[j] by {
                                crate::state::lemma_assoc_lookup_contains(
                                    outcome_diffs(pv),
                                    pv[j].0,
                                    outcome_diffs(pv)[j].1,
                                );
                                assert(outcome_diffs(pv)[j] == (
                                    pv[j].0,
                                    outcome_diffs(pv)[j].1,
                                ));
                                assert(outcome_diffs(pv).contains((
                                    pv[j].0,
                                    outcome_diffs(pv)[j].1,
                                )));
                                assert(assoc_lookup(outcome_diffs(pv), batch_v[j])
                                    == Option::Some(outcome_diffs(pv)[j].1));
                                assert(outcome_diffs(pv)[j].1 == pv[j].1->Ok_0.diff@);
                                assert(pv[j].1->Ok_0.diff@ == outs[cum + j]->Ok_0.diff@);
                                assert(body_diffs(outs)[cum + j] == outs[cum + j]->Ok_0.diff@);
                            }
                        };
                        // Compose with what was already committed.
                        assert forall|k: u64|
                            assoc_lookup(self.state.accounts@, k) == apply_diffs_val(
                                apply_diffs_val(assoc_lookup(accounts0, k), bseq, k, clear),
                                body_diffs(outs).subrange(0, cum + batch_v.len() as int),
                                k,
                                clear,
                            ) by {
                            let pre = apply_diffs_val(
                                assoc_lookup(accounts0, k),
                                bseq,
                                k,
                                clear,
                            );
                            crate::state::lemma_assoc_absent(
                                Seq::<(u64, AccountState)>::empty(),
                                k,
                            );
                            lemma_lookup_is_fold(
                                state_before.accounts@,
                                ordered_diffs(batch_v, outcome_diffs(pv)),
                                k,
                                clear,
                            );
                            lemma_apply_diffs_concat(
                                pre,
                                body_diffs(outs).subrange(0, cum),
                                body_diffs(outs).subrange(cum, cum + batch_v.len() as int),
                                k,
                                clear,
                            );
                            assert(body_diffs(outs).subrange(0, cum) + body_diffs(outs).subrange(
                                cum,
                                cum + batch_v.len() as int,
                            ) =~= body_diffs(outs).subrange(0, cum + batch_v.len() as int));
                        }
                        assert(journal_view(self.state.transitions@) =~= journal_view(
                            old(self).state.transitions@,
                        ) + bseq + body_diffs(outs).subrange(0, cum + batch_v.len() as int));
                        cum = cum + batch_v.len() as int;
                        assert(flat_of(queue@.subrange(0, bj + 1)) =~= iota(cum));
                    }
                    bj += 1;
                },
            }
        }
        proof {
            assert(queue@.subrange(0, nq as int) =~= queue@);
            assert(iota(cum).len() == cum);
            assert(cum == n_body);
            assert(body_diffs(outs).subrange(0, cum) =~= body_diffs(outs));
            assert(journal_view(self.state.transitions@) =~= journal_view(
                old(self).state.transitions@,
            ) + bseq + body_diffs(outs));
            lemma_first_tx_err_none(outs);
            assert forall|k: u64|
                assoc_lookup(self.state.accounts@, k) == chain_lookup(
                    accounts0,
                    cs,
                    *block,
                    beacon_diff,
                    outs,
                    k,
                ) by {}
        }

        // The body's gas, against the header.
        let mut total: u128 = 0;
        let mut gi: usize = 0;
        while gi < n_body
            invariant
                gi <= n_body,
                n_body == outs.len(),
                n_body == block.body@.len(),
                outs == outcomes@,
                block.body@.len() <= u32::MAX,
                all_ok(outs),
                total as int == spec_gas(outs, gi as int),
            decreases n_body - gi,
        {
            proof {
                lemma_spec_gas_bound(outs, gi as int);
                assert((gi as int) * (u64::MAX as int) + (u64::MAX as int) <= (u32::MAX as int)
                    * (u64::MAX as int) + (u64::MAX as int)) by (nonlinear_arith)
                    requires
                        0 <= gi as int <= u32::MAX as int,
                ;
                assert((u32::MAX as int) * (u64::MAX as int) + (u64::MAX as int)
                    <= u128::MAX as int) by (nonlinear_arith);
            }
            match &outcomes[gi] {
                Result::Ok(o) => {
                    total = total + o.gas_used as u128;
                },
                Result::Err(_) => {
                    proof {
                        assert(false);
                    }
                },
            }
            gi += 1;
        }
        if total != block.header.gas_used as u128 {
            let mut spent: Vec<(u64, u64)> = Vec::new();
            let mut si: usize = 0;
            while si < n_body
                invariant
                    si <= n_body,
                    n_body == outs.len(),
                    outs == outcomes@,
                    all_ok(outs),
                    spent@.len() == si,
                    forall|i: int|
                        0 <= i < si ==> spent@[i] == (i as u64, outs[i]->Ok_0.gas_used),
                decreases n_body - si,
            {
                match &outcomes[si] {
                    Result::Ok(o) => {
                        spent.push((si as u64, o.gas_used));
                    },
                    Result::Err(_) => {
                        proof {
                            assert(false);
                        }
                    },
                }
                si += 1;
            }
            return Err(
                BlockExecutionError::BlockGasUsed {
                    got: total,
                    expected: block.header.gas_used,
                    gas_spent_by_tx: spent,
                },
            );
        }

        // Receipts, in index order.
        let mut receipts: Vec<Receipt> = Vec::new();
        let mut ri: usize = 0;
        let mut cum_gas: u64 = 0;
        while ri < n_body
            invariant
                ri <= n_body,
                n_body == outs.len(),
                n_body == block.body@.len(),
                outs == outcomes@,
                all_ok(outs),
                spec_gas(outs, outs.len() as int) == block.header.gas_used,
                cum_gas as int == spec_gas(outs, ri as int),
                receipts@.len() == ri,
                forall|i: int|
                    0 <= i < ri ==> (#[trigger] receipts@[i]).tx_type == block.body@[i].tx_type
                        && receipts@[i].success == outs[i]->Ok_0.success
                        && receipts@[i].cumulative_gas_used == spec_gas(outs, i + 1)
                        && receipts@[i].logs.deep_view() == outs[i]->Ok_0.logs.deep_view(),
            decreases n_body - ri,
        {
            proof {
                lemma_spec_gas_mono(outs, ri + 1, outs.len() as int);
            }
            match &outcomes[ri] {
                Result::Ok(o) => {
                    cum_gas = cum_gas + o.gas_used;
                    let receipt = Receipt {
                        tx_type: block.body[ri].tx_type,
                        success: o.success,
                        cumulative_gas_used: cum_gas,
                        logs: copy_logs(&o.logs),
                    };
                    receipts.push(receipt);
                },
                Result::Err(_) => {
                    proof {
                        assert(false);
                    }
                },
            }
            ri += 1;
        }

        // Post-block rewards, withdrawals, and the drain transition.
        let ghost inter = self.state.accounts@;
        proof {
            lemma_chain_bridge(inter, accounts0, cs, *block, beacon_diff, outs);
        }
        match self.apply_post_execution_state_change(block, total_difficulty) {
            Result::Ok(()) => {},
            Result::Err(_) => {
                return Err(BlockExecutionError::IncrementBalanceFailed);
            },
        }

        // Merge the journal, keeping reverts near the tip.
        let retention = match self.data.tip {
            Option::Some(t) => if num >= t {
                BundleRetention::Reverts
            } else {
                BundleRetention::PlainState
            },
            Option::None => BundleRetention::Reverts,
        };
        self.state.merge_transitions(retention);

        if matches!(self.data.first_block, Option::None) {
            self.data.first_block = Some(num);
        }
        Ok(receipts)
    }
}

impl ParallelExecutor {
    /// Saves a block's receipts: one entry per transaction, emptied when
    /// the pruning policy drops receipt contents.
    pub fn save_receipts(&mut self, receipts: Vec<Receipt>) -> (r: Result<
        (),
        BlockExecutionError,
    >)
        ensures
            r is Ok,
            final(self).data.receipts@.len() == old(self).data.receipts@.len() + 1,
            forall|j: int|
                0 <= j < old(self).data.receipts@.len() ==> final(self).data.receipts@[j] == old(
                    self,
                ).data.receipts@[j],
            final(self).data.receipts@.last()@.len() == receipts@.len(),
            !old(self).data.prune_modes.drop_receipts ==> (forall|i: int|
                0 <= i < receipts@.len() ==> final(self).data.receipts@.last()@[i]
                    == Option::Some(receipts@[i])),
            old(self).data.prune_modes.drop_receipts ==> (forall|i: int|
                0 <= i < receipts@.len() ==> final(self).data.receipts@.last()@[i]
                    is None),
            final(self).data.chain_spec == old(self).data.chain_spec,
            final(self).data.tip == old(self).data.tip,
            final(self).data.prune_modes == old(self).data.prune_modes,
            final(self).data.first_block == old(self).data.first_block,
            final(self).state == old(self).state,
            final(self).store == old(self).store,
    {
        let mut entry: Vec<Option<Receipt>> = Vec::new();
        let drop_them = self.data.prune_modes.drop_receipts;
        let mut rest = receipts;
        let ghost orig = rest@;
        let ghost mut done: int = 0;
        proof {
            assert(rest@ =~= orig.subrange(0, orig.len() as int));
        }
        while rest.len() > 0
            invariant
                0 <= done <= orig.len(),
                rest@ == orig.subrange(done, orig.len() as int),
                entry@.len() == done,
                drop_them == old(self).data.prune_modes.drop_receipts,
                !drop_them ==> (forall|i: int|
                    0 <= i < done ==> entry@[i] == Option::Some(orig[i])),
                drop_them ==> (forall|i: int| 0 <= i < done ==> entry@[i] is None),
                self == old(self),
            decreases rest.len(),
        {
            let one = rest.remove(0);
            proof {
                assert(one == orig[done]);
                assert(rest@ =~= orig.subrange(done + 1, orig.len() as int));
            }
            if drop_them {
                entry.push(None);
            } else {
                entry.push(Some(one));
            }
            proof {
                done = done + 1;
            }
        }
        self.data.receipts.push(entry);
        Ok(())
    }

    /// Runs one block and saves its receipts.
    pub fn execute(
        &mut self,
        block: &Block,
        total_difficulty: u128,
        outcomes: &Vec<Result<ExecOutcome, String>>,
        beacon_diff: Option<Vec<(u64, AccountState)>>,
    ) -> (r: Result<(), BlockExecutionError>)
        requires
            old(self).wf(),
            outcomes@.len() == block.body@.len(),
            block.body@.len() <= u32::MAX,
            ommers_placed(old(self).data.chain_spec, *block),
            match stored_queue(old(self).store.queues@, block.header.number) {
                Option::Some(q) => q.wf(block.body@.len() as int),
                Option::None => true,
            },
        ensures
            final(self).wf(),
            final(self).store == old(self).store,
            final(self).data.chain_spec == old(self).data.chain_spec,
            r is Ok ==> final(self).data.receipts@.len() == old(self).data.receipts@.len() + 1,
            r is Err ==> final(self).data.receipts == old(self).data.receipts,
            first_tx_err(outcomes@) matches Some(e) ==> (r matches Err(err) && err matches
                BlockExecutionError::Evm { hash, .. } && hash == block.body@[e].hash),
            block.body@.len() > 0 && all_ok(outcomes@) && spec_gas(
                outcomes@,
                outcomes@.len() as int,
            ) != block.header.gas_used ==> (r matches Err(err) && err matches
                BlockExecutionError::BlockGasUsed { got, expected, .. } && got == spec_gas(
                outcomes@,
                outcomes@.len() as int,
            ) && expected == block.header.gas_used),
            block.body@.len() > 0 && all_ok(outcomes@) && spec_gas(
                outcomes@,
                outcomes@.len() as int,
            ) == block.header.gas_used && chain_post_ok(
                old(self).state.accounts@,
                old(self).data.chain_spec,
                *block,
                beacon_diff,
                outcomes@,
            ) ==> r is Ok,
            block.body@.len() == 0 ==> r is Ok,
    {
        let receipts = match self.execute_inner(block, total_difficulty, outcomes, beacon_diff) {
            Result::Ok(v) => v,
            Result::Err(e) => {
                return Err(e);
            },
        };
        self.save_receipts(receipts)
    }

    /// Runs one block, then holds the provider-computed receipts root and
    /// logs bloom against the header once the success-flag fork is active,
    /// and saves the receipts only when they match.
    pub fn execute_and_verify_receipt(
        &mut self,
        block: &Block,
        total_difficulty: u128,
        outcomes: &Vec<Result<ExecOutcome, String>>,
        beacon_diff: Option<Vec<(u64, AccountState)>>,
        computed_root: Hash256,
        computed_bloom: Hash256,
    ) -> (r: Result<(), BlockExecutionError>)
        requires
            old(self).wf(),
            outcomes@.len() == block.body@.len(),
            block.body@.len() <= u32::MAX,
            ommers_placed(old(self).data.chain_spec, *block),
            match stored_queue(old(self).store.queues@, block.header.number) {
                Option::Some(q) => q.wf(block.body@.len() as int),
                Option::None => true,
            },
        ensures
            final(self).wf(),
            final(self).store == old(self).store,
            final(self).data.chain_spec == old(self).data.chain_spec,
            ({
                let inner_ok = (first_tx_err(outcomes@) is None) && (block.body@.len() == 0
                    || spec_gas(outcomes@, outcomes@.len() as int) == block.header.gas_used
                        && chain_post_ok(
                        old(self).state.accounts@,
                        old(self).data.chain_spec,
                        *block,
                        beacon_diff,
                        outcomes@,
                    ));
                let checked = active_at(
                    old(self).data.chain_spec.byzantium_block,
                    block.header.number,
                );
                &&& (inner_ok && checked && computed_root != block.header.receipts_root ==> (r
                    matches Err(err) && err matches BlockExecutionError::ReceiptRootDiff {
                    got,
                    expected,
                } && got == computed_root && expected == block.header.receipts_root))
                &&& (inner_ok && checked && computed_root == block.header.receipts_root
                    && computed_bloom != block.header.logs_bloom ==> (r matches Err(err)
                    && err matches BlockExecutionError::BloomLogDiff { got, expected } && got
                    == computed_bloom && expected == block.header.logs_bloom))
                &&& (inner_ok && (!checked || (computed_root == block.header.receipts_root
                    && computed_bloom == block.header.logs_bloom)) ==> r is Ok)
            }),
            r is Ok ==> final(self).data.receipts@.len() == old(self).data.receipts@.len() + 1,
            r is Err ==> final(self).data.receipts == old(self).data.receipts,
    {
        proof {
            if first_tx_err(outcomes@) is None {
                lemma_first_err_all_ok(outcomes@);
            }
        }
        let receipts = match self.execute_inner(block, total_difficulty, outcomes, beacon_diff) {
            Result::Ok(v) => v,
            Result::Err(e) => {
                return Err(e);
            },
        };
        if active_at_exec(self.data.chain_spec.byzantium_block, block.header.number) {
            if !(computed_root.hi == block.header.receipts_root.hi && computed_root.lo
                == block.header.receipts_root.lo) {
                return Err(
                    BlockExecutionError::ReceiptRootDiff {
                        got: computed_root,
                        expected: block.header.receipts_root,
                    },
                );
            }
            if !(computed_bloom.hi == block.header.logs_bloom.hi && computed_bloom.lo
                == block.header.logs_bloom.lo) {
                return Err(
                    BlockExecutionError::BloomLogDiff {
                        got: computed_bloom,
                        expected: block.header.logs_bloom,
                    },
                );
            }
        }
        self.save_receipts(receipts)
    }

    /// Hands the merged state and all saved receipts out, leaving the
    /// executor empty of both.
    pub fn take_output_state(&mut self) -> (r: BundleStateWithReceipts)
        ensures
            r.bundle == old(self).state.bundle,
            r.reverts == old(self).state.reverts,
            r.receipts == old(self).data.receipts,
            r.first_block == (match old(self).data.first_block {
                Option::Some(b) => b,
                Option::None => 0u64,
            }),
            final(self).state.bundle@.len() == 0,
            final(self).state.reverts@.len() == 0,
            final(self).data.receipts@.len() == 0,
            final(self).state.accounts == old(self).state.accounts,
            final(self).data.first_block == old(self).data.first_block,
    {
        let (bundle, reverts) = self.state.take_bundle();
        let mut receipts: Vec<Vec<Option<Receipt>>> = Vec::new();
        core::mem::swap(&mut receipts, &mut self.data.receipts);
        let first_block = match self.data.first_block {
            Option::Some(b) => b,
            Option::None => 0,
        };
        BundleStateWithReceipts { bundle, reverts, receipts, first_block }
    }

    /// The executor's counters; nothing is tracked yet.
    pub fn stats(&self) -> (r: BlockExecutorStats)
        ensures
            r == (BlockExecutorStats { blocks_executed: 0u64 }),
    {
        BlockExecutorStats { blocks_executed: 0 }
    }

    /// How many diffs the bundle holds.
    pub fn size_hint(&self) -> (r: Option<usize>)
        ensures
            r == Some(self.state.bundle@.len() as usize),
    {
        Some(self.state.bundle_size_hint())
    }

    /// Aims the executor at a chain tip.
    pub fn set_tip(&mut self, tip: u64)
        ensures
            final(self).data.tip == Some(tip),
            final(self).data.chain_spec == old(self).data.chain_spec,
            final(self).data.receipts == old(self).data.receipts,
            final(self).data.first_block == old(self).data.first_block,
            final(self).data.prune_modes == old(self).data.prune_modes,
            final(self).state == old(self).state,
            final(self).store == old(self).store,
    {
        self.data.tip = Some(tip);
    }

    /// Sets the pruning policy.
    pub fn set_prune_modes(&mut self, prune_modes: PruneModes)
        ensures
            final(self).data.prune_modes == prune_modes,
            final(self).data.chain_spec == old(self).data.chain_spec,
            final(self).data.receipts == old(self).data.receipts,
            final(self).data.first_block == old(self).data.first_block,
            final(self).data.tip == old(self).data.tip,
            final(self).state == old(self).state,
            final(self).store == old(self).store,
    {
        self.data.prune_modes = prune_modes;
    }
}

/// No first failure means every outcome succeeded.
pub proof fn lemma_first_err_all_ok(outs: Seq<Result<ExecOutcome, String>>)
    requires
        first_tx_err(outs) is None,
    ensures
        all_ok(outs),
    decreases outs.len(),
{
    if outs.len() > 0 {
        assert(forall|j: int|
            0 <= j < outs.drop_first().len() ==> outs.drop_first()[j] == outs[j + 1]);
        lemma_first_err_all_ok(outs.drop_first());
        assert forall|i: int| 0 <= i < outs.len() implies outs[i] is Ok by {
            if i > 0 {
                assert(outs.drop_first()[i - 1] is Ok);
            }
        }
    }
}

/// A scan that met only successes up to a failure finds the first failure.
proof fn lemma_first_err_from_scan(outs: Seq<(u32, Result<ExecOutcome, String>)>, p: int)
    requires
        0 <= p < outs.len(),
        outs[p].1 is Err,
        forall|i: int| 0 <= i < p ==> outs[i].1 is Ok,
    ensures
        first_err_pos(outs) == Some(p),
    decreases outs.len(),
{
    if p > 0 {
        assert(forall|j: int| 0 <= j < outs.drop_first().len() ==> outs.drop_first()[j] == outs[j
            + 1]);
        lemma_first_err_from_scan(outs.drop_first(), p - 1);
    }
}

/// A scan that met only successes finds no failure.
proof fn lemma_first_err_none(outs: Seq<(u32, Result<ExecOutcome, String>)>, p: int)
    requires
        p == outs.len(),
        forall|i: int| 0 <= i < p ==> outs[i].1 is Ok,
    ensures
        first_err_pos(outs) is None,
    decreases outs.len(),
{
    if outs.len() > 0 {
        assert(forall|j: int| 0 <= j < outs.drop_first().len() ==> outs.drop_first()[j] == outs[j
            + 1]);
        lemma_first_err_none(outs.drop_first(), p - 1);
    }
}

} // verus!
