use executor::outer_call::OuterCall;
use executor::runtime::{RuntimeDispatchSuccess, RuntimeState, SequentialRuntime};
use executor::state_generator::InitialStateGenerate;
use executor::primitives::{StateKey, StateValue};
use executor::balances::{AccountBalance, BalanceOf};
use executor::testing;
use executor::types::{ExecutionStatus, MessagePayload, Transaction, TransactionStatus};
use executor::worker::{ExecutionOutcome, UnexpectedMessage, ValidationAction, Worker, WorkerAction, WorkerPhase};
use executor::master::authored_block;
use executor::pool::{TransactionPool, VecPool};

fn tx(id: u32) -> Transaction {
    Transaction::new_transfer(testing::alice(), id)
}

#[test]
fn worker_starts_in_initial_phase() {
    let w = Worker::new(3, 1);
    assert_eq!(w.id, 3);
    assert_eq!(w.master_id, 1);
    assert_eq!(w.phase, WorkerPhase::Initial(0, 0));
    assert!(w.others.is_empty());
}

#[test]
fn worker_finalize_setup_takes_ids_only() {
    let mut w = Worker::new(3, 1);
    w.wait_finalize_setup(MessagePayload::FinalizeSetup(vec![3, 4, 5]));
    assert_eq!(w.others, vec![3, 4, 5]);
    assert!(w.knows(4));
    assert!(!w.knows(6));
}

#[test]
fn worker_authoring_round_reports_counts() {
    let mut w = Worker::new(3, 1);
    // two transactions from the master.
    for id in 0..2 {
        match w.on_master(MessagePayload::Transaction(tx(id))) {
            Ok(WorkerAction::Execute(t)) => assert_eq!(t.id, id),
            _ => panic!("a transaction must be executed"),
        }
    }
    w.record(ExecutionOutcome::Executed(RuntimeDispatchSuccess::Success));
    w.record(ExecutionOutcome::Forwarded(4));
    assert_eq!(w.phase, WorkerPhase::Initial(1, 1));

    // the end of the distribution is reported.
    assert!(matches!(w.on_master(MessagePayload::InitialPhaseDone), Ok(WorkerAction::Report(1, 1))));
    assert_eq!(w.phase, WorkerPhase::Forwarding);

    // afterwards, only forwarded transactions and the end are expected.
    assert!(matches!(w.on_master(MessagePayload::Transaction(tx(5))), Err(UnexpectedMessage::FromMaster)));
    match w.on_worker(MessagePayload::Transaction(tx(6))) {
        Ok(WorkerAction::Execute(t)) => assert_eq!(t.exec_status, ExecutionStatus::Forwarded),
        _ => panic!("a forwarded transaction must be executed"),
    }
    assert!(matches!(w.on_worker(MessagePayload::Terminate), Err(UnexpectedMessage::FromWorker)));
    // outcomes after the initial phase are not counted.
    w.record(ExecutionOutcome::ForwardedToMaster);
    assert_eq!(w.phase, WorkerPhase::Forwarding);
    assert!(matches!(w.on_master(MessagePayload::Terminate), Ok(WorkerAction::Stop)));
    assert_eq!(w.phase, WorkerPhase::Terminated);
}

#[test]
fn payload_eq_compares_data_carrying_payloads_only() {
    assert!(MessagePayload::Transaction(tx(1)).eq(&MessagePayload::Transaction(tx(1))));
    assert!(!MessagePayload::Transaction(tx(1)).eq(&MessagePayload::Transaction(tx(2))));
    assert!(MessagePayload::Test(vec![1, 2]).eq(&MessagePayload::Test(vec![1, 2])));
    assert!(!MessagePayload::Test(vec![1, 2]).eq(&MessagePayload::Test(vec![2, 1])));
    // a setup is equal to any setup that holds all of its ids.
    assert!(MessagePayload::FinalizeSetup(vec![1, 2]).eq(&MessagePayload::FinalizeSetup(vec![2, 1, 3])));
    assert!(!MessagePayload::FinalizeSetup(vec![1, 4]).eq(&MessagePayload::FinalizeSetup(vec![1, 2])));
    // payloads without data are never equal.
    assert!(!MessagePayload::Terminate.eq(&MessagePayload::Terminate));
    assert!(!MessagePayload::InitialPhaseDone.eq(&MessagePayload::Terminate));
}

#[test]
fn transactions_compare_all_fields() {
    let a = tx(1);
    let mut b = tx(1);
    assert!(a.is_same(&b));
    b.status = TransactionStatus::Orphan;
    assert!(!a.is_same(&b));
    let c = Transaction::new_transfer(testing::bob(), 1);
    assert!(!a.is_same(&c));
    assert!(OuterCall::Balances(executor::balances::Call::Transfer(testing::bob().public(), 1))
        .is_same(&OuterCall::Balances(executor::balances::Call::Transfer(testing::bob().public(), 1))));
}

#[test]
fn authored_block_is_pool_then_orphans() {
    let mut pool = VecPool::new();
    pool.push_back(tx(1));
    pool.push_back(tx(2));
    let mut orphan = tx(3);
    orphan.status = TransactionStatus::Orphan;
    let block = authored_block(&pool, &vec![orphan]);
    assert_eq!(block.transactions.iter().map(|t| t.id).collect::<Vec<_>>(), vec![1, 2, 3]);
    assert_eq!(block.transactions[2].status, TransactionStatus::Orphan);
}

#[test]
fn initial_state_generate_builds_inserted_values() {
    let key = StateKey(vec![1, 2]);
    let state = InitialStateGenerate::new()
        .insert(key.clone(), StateValue(vec![7]))
        .with_runtime(|mut rt: SequentialRuntime| {
            BalanceOf::write(&mut rt, testing::alice().public(), AccountBalance::from(5)).unwrap();
            rt
        })
        .build();
    assert_eq!(state.get(&key).unwrap().data().0, vec![7u8]);
    assert_eq!(state.get(&key).unwrap().taint(), None);
    let mut rt = SequentialRuntime::new(RuntimeState::new(), 0);
    let alice_key = BalanceOf::<SequentialRuntime>::key_for(testing::alice().public());
    assert!(state.get(&alice_key).is_some());
    assert_eq!(BalanceOf::read(&mut rt, testing::alice().public()).unwrap().free(), 0);
}

#[test]
fn worker_validation_applies_then_reports() {
    let w = Worker::new(1, 0);
    let tx = Transaction::new_transfer(testing::alice(), 4);
    match w.on_validation(MessagePayload::Transaction(tx.clone())) {
        Ok(ValidationAction::Apply(t)) => assert_eq!(t.id, 4),
        _ => panic!("a transaction of the block is applied"),
    }
    assert!(matches!(w.on_validation(MessagePayload::InitialPhaseDone), Ok(ValidationAction::Report)));
    assert!(matches!(w.on_validation(MessagePayload::Terminate), Err(UnexpectedMessage::FromMaster)));
}
