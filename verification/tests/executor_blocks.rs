//! Block execution: batch equivalence, gas accounting, the drain
//! transition, and the empty-body fast path.

use discv5_parallel::executor::{
    Block, BlockExecutionError, BlockExecutorStats, ChainSpec, ExecOutcome, Hash256, Header, Log,
    Ommer, ParallelExecutor, Transaction, Withdrawal,
};
use discv5_parallel::queue::{BlockQueue, BlockQueueStore, TransactionBatch};
use discv5_parallel::state::AccountState;

fn spec() -> ChainSpec {
    ChainSpec {
        dao_block: None,
        byzantium_block: Some(0),
        state_clear_block: Some(0),
        shanghai_block: None,
        beacon_roots_block: None,
        rewards: Vec::new(),
        dao_accounts: Vec::new(),
        dao_beneficiary: 99,
    }
}

fn hash(n: u8) -> Hash256 {
    Hash256 { hi: n as u128, lo: 0 }
}

fn tx(n: u8) -> Transaction {
    Transaction { tx_type: 2, hash: hash(n) }
}

fn header(number: u64, gas_used: u64) -> Header {
    Header {
        number,
        gas_used,
        timestamp: 0,
        beneficiary: 50,
        difficulty: 0,
        parent_beacon_block_root: None,
        receipts_root: hash(0),
        logs_bloom: hash(0),
    }
}

fn transfer(from: u64, to: u64, amount: u128, balances: &[(u64, u128)]) -> Vec<(u64, AccountState)> {
    let bal = |a: u64| balances.iter().find(|(k, _)| *k == a).map(|(_, v)| *v).unwrap_or(0);
    vec![
        (from, AccountState { balance: bal(from) - amount, nonce: 1 }),
        (to, AccountState { balance: bal(to) + amount, nonce: 0 }),
    ]
}

fn ok(gas: u64, diff: Vec<(u64, AccountState)>) -> Result<ExecOutcome, String> {
    Ok(ExecOutcome { success: true, gas_used: gas, diff, logs: Vec::new() })
}

fn db() -> Vec<(u64, AccountState)> {
    vec![
        (1, AccountState { balance: 1000, nonce: 0 }),
        (2, AccountState { balance: 1000, nonce: 0 }),
        (3, AccountState { balance: 1000, nonce: 0 }),
        (4, AccountState { balance: 1000, nonce: 0 }),
    ]
}

fn four_tx_block(gas_used: u64) -> Block {
    Block {
        header: header(7, gas_used),
        body: vec![tx(1), tx(2), tx(3), tx(4)],
        ommers: Vec::new(),
        withdrawals: None,
    }
}

fn four_outcomes() -> Vec<Result<ExecOutcome, String>> {
    vec![
        ok(21000, transfer(1, 10, 5, &[(1, 1000)])),
        ok(21000, transfer(2, 11, 6, &[(2, 1000)])),
        ok(21000, transfer(3, 12, 7, &[(3, 1000)])),
        ok(21000, transfer(4, 13, 8, &[(4, 1000)])),
    ]
}

fn batched_store() -> BlockQueueStore {
    let queue = BlockQueue {
        batches: vec![
            TransactionBatch { indices: vec![0, 1] },
            TransactionBatch { indices: vec![2, 3] },
        ],
    };
    BlockQueueStore::new(vec![(7, queue)])
}

#[test]
fn parallel_batches_match_sequential_fallback() {
    let block = four_tx_block(84000);
    let outcomes = four_outcomes();

    let mut with_schedule = ParallelExecutor::new(spec(), batched_store(), db());
    let receipts_a = with_schedule
        .execute_inner(&block, 0, &outcomes, None)
        .expect("parallel run succeeds");

    let mut sequential = ParallelExecutor::new(spec(), BlockQueueStore::new(Vec::new()), db());
    let receipts_b = sequential
        .execute_inner(&block, 0, &outcomes, None)
        .expect("sequential run succeeds");

    assert_eq!(receipts_a.len(), receipts_b.len());
    for (a, b) in receipts_a.iter().zip(receipts_b.iter()) {
        assert_eq!(a.tx_type, b.tx_type);
        assert_eq!(a.success, b.success);
        assert_eq!(a.cumulative_gas_used, b.cumulative_gas_used);
    }
    for account in [1u64, 2, 3, 4, 10, 11, 12, 13] {
        assert_eq!(
            with_schedule.state.account_of(account),
            sequential.state.account_of(account)
        );
    }
    assert_eq!(receipts_a[3].cumulative_gas_used, 84000);
}

#[test]
fn gas_mismatch_fails_with_the_true_sum() {
    let block = four_tx_block(84001);
    let outcomes = four_outcomes();
    let mut exec = ParallelExecutor::new(spec(), batched_store(), db());
    match exec.execute_inner(&block, 0, &outcomes, None) {
        Err(BlockExecutionError::BlockGasUsed { got, expected, gas_spent_by_tx }) => {
            assert_eq!(got, 84000);
            assert_eq!(expected, 84001);
            assert_eq!(gas_spent_by_tx.len(), 4);
            assert_eq!(gas_spent_by_tx[2], (2, 21000));
        },
        other => panic!("expected a gas mismatch, got {other:?}"),
    }
}

#[test]
fn machine_failure_names_the_transaction() {
    let block = four_tx_block(84000);
    let mut outcomes = four_outcomes();
    outcomes[2] = Err("out of stack".to_string());
    let mut exec = ParallelExecutor::new(spec(), batched_store(), db());
    match exec.execute_inner(&block, 0, &outcomes, None) {
        Err(BlockExecutionError::Evm { hash: h, message }) => {
            assert_eq!(h, hash(3));
            assert_eq!(message, "out of stack");
        },
        other => panic!("expected a machine failure, got {other:?}"),
    }
}

#[test]
fn empty_body_produces_no_receipts_and_touches_nothing() {
    let block = Block {
        header: header(7, 0),
        body: Vec::new(),
        ommers: Vec::new(),
        withdrawals: None,
    };
    let mut exec = ParallelExecutor::new(spec(), BlockQueueStore::new(Vec::new()), db());
    let receipts = exec.execute_inner(&block, 0, &Vec::new(), None).expect("fast path");
    assert!(receipts.is_empty());
    assert_eq!(exec.state.account_of(1), Some(AccountState { balance: 1000, nonce: 0 }));
    assert!(exec.data.first_block.is_none());
    assert_eq!(exec.state.bundle_size_hint(), 0);
}

#[test]
fn empty_body_still_commits_the_beacon_call() {
    let mut cs = spec();
    cs.beacon_roots_block = Some(0);
    let mut block = Block {
        header: header(7, 0),
        body: Vec::new(),
        ommers: Vec::new(),
        withdrawals: None,
    };
    block.header.parent_beacon_block_root = Some(hash(9));
    let beacon_diff = vec![(200u64, AccountState { balance: 0, nonce: 7 })];
    let mut exec = ParallelExecutor::new(cs, BlockQueueStore::new(Vec::new()), db());
    let receipts = exec.execute_inner(&block, 0, &Vec::new(), Some(beacon_diff)).expect("runs");
    assert!(receipts.is_empty());
    assert_eq!(exec.state.account_of(200), Some(AccountState { balance: 0, nonce: 7 }));
}

#[test]
fn dao_transition_moves_every_drained_wei() {
    let mut cs = spec();
    cs.dao_block = Some(7);
    cs.dao_accounts = vec![1, 2, 3];
    cs.dao_beneficiary = 99;
    let block = Block {
        header: header(7, 21000),
        body: vec![tx(1)],
        ommers: Vec::new(),
        withdrawals: None,
    };
    // The one transaction moves nothing, so the drained sum is the three
    // original balances.
    let outcomes = vec![ok(21000, Vec::new())];
    let mut exec = ParallelExecutor::new(cs, BlockQueueStore::new(Vec::new()), db());
    exec.execute_inner(&block, 0, &outcomes, None).expect("runs");
    for drained in [1u64, 2, 3] {
        assert_eq!(exec.state.balance_of(drained), 0);
    }
    assert_eq!(exec.state.balance_of(99), 3000);
    assert_eq!(exec.state.balance_of(4), 1000);
}

#[test]
fn rewards_and_withdrawals_credit_the_right_accounts() {
    let mut cs = spec();
    cs.rewards = vec![(0, 3200)];
    cs.shanghai_block = Some(0);
    let block = Block {
        header: header(7, 21000),
        body: vec![tx(1)],
        ommers: vec![Ommer { beneficiary: 60, number: 5 }],
        withdrawals: Some(vec![Withdrawal { address: 70, amount_gwei: 2 }]),
    };
    let outcomes = vec![ok(21000, Vec::new())];
    let mut exec = ParallelExecutor::new(cs, BlockQueueStore::new(Vec::new()), db());
    exec.execute_inner(&block, 0, &outcomes, None).expect("runs");
    // Beneficiary: base plus one thirty-second per ommer.
    assert_eq!(exec.state.balance_of(50), 3200 + 100);
    // Ommer two blocks back: three quarters of the base.
    assert_eq!(exec.state.balance_of(60), 3200 * 6 / 8);
    // Withdrawal in wei.
    assert_eq!(exec.state.balance_of(70), 2_000_000_000);
}

#[test]
fn increment_overflow_aborts_the_block() {
    let mut cs = spec();
    cs.rewards = vec![(0, 10)];
    let block = Block {
        header: header(7, 21000),
        body: vec![tx(1)],
        ommers: Vec::new(),
        withdrawals: None,
    };
    let outcomes = vec![ok(
        21000,
        vec![(50u64, AccountState { balance: u128::MAX, nonce: 0 })],
    )];
    let mut exec = ParallelExecutor::new(cs, BlockQueueStore::new(Vec::new()), db());
    match exec.execute_inner(&block, 0, &outcomes, None) {
        Err(BlockExecutionError::IncrementBalanceFailed) => {},
        other => panic!("expected an increment failure, got {other:?}"),
    }
}

#[test]
fn receipts_flow_into_the_output_state() {
    let block = four_tx_block(84000);
    let outcomes = four_outcomes();
    let mut exec = ParallelExecutor::new(spec(), batched_store(), db());
    exec.execute(&block, 0, &outcomes, None).expect("executes");
    assert_eq!(exec.data.first_block, Some(7));
    assert_eq!(exec.stats(), BlockExecutorStats { blocks_executed: 0 });
    assert!(exec.size_hint().unwrap() > 0);
    let out = exec.take_output_state();
    assert_eq!(out.first_block, 7);
    assert_eq!(out.receipts.len(), 1);
    assert_eq!(out.receipts[0].len(), 4);
    assert!(out.receipts[0][0].is_some());
    assert_eq!(exec.size_hint(), Some(0));
}

#[test]
fn receipt_verification_compares_against_the_header() {
    let block = four_tx_block(84000);
    let outcomes = four_outcomes();
    let mut exec = ParallelExecutor::new(spec(), batched_store(), db());
    match exec.execute_and_verify_receipt(&block, 0, &outcomes, None, hash(5), hash(0)) {
        Err(BlockExecutionError::ReceiptRootDiff { got, expected }) => {
            assert_eq!(got, hash(5));
            assert_eq!(expected, hash(0));
        },
        other => panic!("expected a root mismatch, got {other:?}"),
    }
    let mut exec2 = ParallelExecutor::new(spec(), batched_store(), db());
    match exec2.execute_and_verify_receipt(&block, 0, &outcomes, None, hash(0), hash(6)) {
        Err(BlockExecutionError::BloomLogDiff { got, expected }) => {
            assert_eq!(got, hash(6));
            assert_eq!(expected, hash(0));
        },
        other => panic!("expected a bloom mismatch, got {other:?}"),
    }
    let mut exec3 = ParallelExecutor::new(spec(), batched_store(), db());
    exec3
        .execute_and_verify_receipt(&block, 0, &outcomes, None, hash(0), hash(0))
        .expect("roots and bloom match");
}

#[test]
fn commit_order_is_independent_of_worker_completion() {
    // The same four outcomes, collected in two different completion
    // orders, leave the same state.
    let batch = TransactionBatch { indices: vec![0, 1, 2, 3] };
    let transactions = vec![tx(1), tx(2), tx(3), tx(4)];
    let outcome = |i: u64| ExecOutcome {
        success: true,
        gas_used: 21000,
        diff: vec![(i, AccountState { balance: 5 * (i as u128 + 1), nonce: 1 })],
        logs: Vec::new(),
    };
    let in_order: Vec<(u32, Result<ExecOutcome, String>)> =
        (0u32..4).map(|i| (i, Ok(outcome(i as u64)))).collect();
    let reversed: Vec<(u32, Result<ExecOutcome, String>)> =
        (0u32..4).rev().map(|i| (i, Ok(outcome(i as u64)))).collect();

    let mut a = ParallelExecutor::new(spec(), BlockQueueStore::new(Vec::new()), db());
    let mut b = ParallelExecutor::new(spec(), BlockQueueStore::new(Vec::new()), db());
    a.execute_batch(&batch, &transactions, in_order).expect("commits");
    b.execute_batch(&batch, &transactions, reversed).expect("commits");
    for account in 0u64..4 {
        assert_eq!(a.state.account_of(account), b.state.account_of(account));
    }
}

#[test]
fn logs_survive_into_receipts() {
    let block = Block {
        header: header(7, 21000),
        body: vec![tx(1)],
        ommers: Vec::new(),
        withdrawals: None,
    };
    let outcomes = vec![Ok(ExecOutcome {
        success: false,
        gas_used: 21000,
        diff: Vec::new(),
        logs: vec![Log { address: 8, data: vec![1, 2, 3] }],
    })];
    let mut exec = ParallelExecutor::new(spec(), BlockQueueStore::new(Vec::new()), db());
    let receipts = exec.execute_inner(&block, 0, &outcomes, None).expect("runs");
    assert!(!receipts[0].success);
    assert_eq!(receipts[0].logs.len(), 1);
    assert_eq!(receipts[0].logs[0].address, 8);
    assert_eq!(receipts[0].logs[0].data, vec![1, 2, 3]);
}

#[test]
fn post_block_change_preserves_histories() {
    // The post-block credits change balances only: histories survive, and
    // untouched accounts keep their whole value.
    let mut cs = spec();
    cs.rewards = vec![(0, 3200)];
    let block = Block {
        header: header(7, 21000),
        body: vec![tx(1)],
        ommers: Vec::new(),
        withdrawals: None,
    };
    let outcomes = vec![ok(
        21000,
        vec![(50u64, AccountState { balance: 10, nonce: 9 })],
    )];
    let mut exec = ParallelExecutor::new(cs, BlockQueueStore::new(Vec::new()), db());
    exec.execute_inner(&block, 0, &outcomes, None).expect("runs");
    // The beneficiary keeps its nonce from the body and gains the reward.
    assert_eq!(exec.state.account_of(50), Some(AccountState { balance: 10 + 3200, nonce: 9 }));
    assert_eq!(exec.state.account_of(2), Some(AccountState { balance: 1000, nonce: 0 }));
}
