use executor::balances::{self, AccountBalance, BalanceOf};
use executor::codec::Codec;
use executor::components::{label_components, traverse, TxKeyGraph};
use executor::executor::{author_and_validate, Executor, SequentialExecutor};
use executor::master::{initial_assignments, orphan_phase, Collection, CollectionError};
use executor::outer_call::OuterCall;
use executor::pool::{TransactionPool, VecPool};
use executor::primitives::{AccountId, Balance, Public, ThreadId, TransactionId};
use executor::runtime::{
    ConcurrentRuntime, RuntimeDispatchSuccess, RuntimeState, SequentialRuntime,
};
use executor::state::StateEntry;
use executor::state_generator::InitialStateGenerate;
use executor::testing;
use executor::tx_distribution::{
    ConnectedComponentsDistributer, Distributer, RoundRobin, SimpleStorageAwareDistributer,
};
use executor::types::{ExecutionStatus, MessagePayload, Transaction, TransactionStatus};
use executor::worker::{execute_or_forward, ExecutionOutcome};

fn endow_account(who: AccountId, rt: &mut SequentialRuntime, amount: Balance) {
    BalanceOf::write(rt, who, AccountBalance::from(amount)).unwrap();
}

fn transfer(origin: &executor::crypto::Pair, dest: AccountId, value: Balance, id: TransactionId) -> Transaction {
    let call = OuterCall::Balances(balances::Call::Transfer(dest, value));
    let signed = origin.sign(&call.encode());
    Transaction::new(id, call, origin.public(), signed)
}

/// Alice sends 10 to bob and 10 to dave.
fn simple_alice_bob_dave() -> Vec<Transaction> {
    let alice = testing::alice();
    vec![
        transfer(&alice, testing::bob().public(), 10, 1),
        transfer(&alice, testing::dave().public(), 10, 2),
    ]
}

fn new_sequential_runtime() -> SequentialRuntime {
    SequentialRuntime::new(RuntimeState::new(), 0)
}

#[test]
fn public_is_codec() {
    let public = testing::alice().public();
    let encoded = public.encode();
    assert_eq!(encoded, public.0.to_vec());
    assert_eq!(Public::decode(&encoded).unwrap().0, public);
}

#[test]
fn can_author_block() {
    let mut executor = SequentialExecutor::new(0);
    let transactions = simple_alice_bob_dave();

    endow_account(testing::alice().public(), &mut executor.runtime, 100);

    let (state, block) = executor.author_block(transactions);
    assert_eq!(block.transactions.len(), 2);
    assert_eq!(
        state.get(&BalanceOf::<SequentialRuntime>::key_for(testing::alice().public())).unwrap().data().0,
        AccountBalance::from(80).encode(),
    );
    assert_eq!(
        state.get(&BalanceOf::<SequentialRuntime>::key_for(testing::bob().public())).unwrap().data().0,
        AccountBalance::from(10).encode(),
    );
    assert_eq!(
        state.get(&BalanceOf::<SequentialRuntime>::key_for(testing::dave().public())).unwrap().data().0,
        AccountBalance::from(10).encode(),
    );
}

#[test]
fn mod_can_validate_block() {
    let mut executor = SequentialExecutor::new(0);
    let transactions = simple_alice_bob_dave();
    endow_account(testing::alice().public(), &mut executor.runtime, 100);

    let (_, block) = executor.author_block(transactions);
    executor.clean();

    endow_account(testing::alice().public(), &mut executor.runtime, 100);
    let validation_state = executor.validate_block(block);
    assert_eq!(
        validation_state
            .get(&BalanceOf::<SequentialRuntime>::key_for(testing::alice().public()))
            .unwrap()
            .data()
            .0,
        AccountBalance::from(80).encode(),
    );
    assert_eq!(
        validation_state.get(&BalanceOf::<SequentialRuntime>::key_for(testing::bob().public())).unwrap().data().0,
        AccountBalance::from(10).encode(),
    );
    assert_eq!(
        validation_state.get(&BalanceOf::<SequentialRuntime>::key_for(testing::dave().public())).unwrap().data().0,
        AccountBalance::from(10).encode(),
    );
}

#[test]
fn can_author_and_validate_block() {
    let mut executor = SequentialExecutor::new(0);
    let transactions = simple_alice_bob_dave();

    let initial_state = InitialStateGenerate::new()
        .with_runtime(|mut rt| {
            endow_account(testing::alice().public(), &mut rt, 100);
            rt
        })
        .build();

    assert!(author_and_validate(&mut executor, transactions, Some(initial_state)));
}

// The worker.

const OTHER_WORKER: ThreadId = 69;
const WORKER_ID: ThreadId = 7;

#[test]
fn worker_can_execute_tx() {
    let alice = testing::alice();
    let tx = Transaction::new_transfer(alice, 1);
    let mut rt = ConcurrentRuntime::new(RuntimeState::new(), WORKER_ID);

    // because alice has no funds yet.
    assert_eq!(
        execute_or_forward(&mut rt, tx.clone()),
        (ExecutionOutcome::Executed(RuntimeDispatchSuccess::LogicError("Does not have enough funds.")), false)
    );

    // give alice some funds.
    let mut srt = SequentialRuntime::new(rt.into_state(), 0);
    BalanceOf::write(&mut srt, alice.public(), 999.into()).unwrap();
    let mut rt = ConcurrentRuntime::new(srt.state, WORKER_ID);

    // now alice has some funds, and nothing goes to the master.
    assert_eq!(execute_or_forward(&mut rt, tx), (ExecutionOutcome::Executed(RuntimeDispatchSuccess::Success), false));

    // this thread is now the owner of both alice and bob keys.
    assert_eq!(
        rt.state().unsafe_read_taint(&BalanceOf::<ConcurrentRuntime>::key_for(testing::alice().public())).unwrap(),
        WORKER_ID
    );
    assert_eq!(
        rt.state().unsafe_read_taint(&BalanceOf::<ConcurrentRuntime>::key_for(testing::bob().public())).unwrap(),
        WORKER_ID
    );
}

#[test]
fn worker_will_forward_tx_if_tainted() {
    let alice = testing::alice();
    let tx = Transaction::new_transfer(alice, 1);

    // manually taint the storage item of alice to some other thread.
    let mut state = RuntimeState::new();
    let alice_key = BalanceOf::<ConcurrentRuntime>::key_for(alice.public());
    state.unsafe_insert(&alice_key, StateEntry::new_taint(OTHER_WORKER));
    let mut rt = ConcurrentRuntime::new(state, WORKER_ID);

    assert_eq!(execute_or_forward(&mut rt, tx), (ExecutionOutcome::Forwarded(OTHER_WORKER), false));
}

#[test]
fn worker_will_forward_to_master_if_already_forwarded() {
    let alice = testing::alice();
    let mut tx = Transaction::new_transfer(alice, 1);
    tx.exec_status = ExecutionStatus::Forwarded;

    let mut state = RuntimeState::new();
    let alice_key = BalanceOf::<ConcurrentRuntime>::key_for(alice.public());
    state.unsafe_insert(&alice_key, StateEntry::new_taint(OTHER_WORKER));
    let mut rt = ConcurrentRuntime::new(state, WORKER_ID);

    assert_eq!(execute_or_forward(&mut rt, tx), (ExecutionOutcome::ForwardedToMaster, false));
}

#[test]
fn will_report_to_master_if_forwarded_and_executed() {
    let alice = testing::alice();
    let mut tx = Transaction::new_transfer(alice, 1);

    // make it forwarded for whatever reason.
    tx.exec_status = ExecutionStatus::Forwarded;
    let mut rt = ConcurrentRuntime::new(RuntimeState::new(), WORKER_ID);

    // because alice has no funds yet; the master must be told.
    assert_eq!(
        execute_or_forward(&mut rt, tx),
        (ExecutionOutcome::Executed(RuntimeDispatchSuccess::LogicError("Does not have enough funds.")), true)
    );
}

#[test]
fn worker_can_validate_block() {
    let mut rt = new_sequential_runtime();
    endow_account(testing::alice().public(), &mut rt, 100);
    for tx in simple_alice_bob_dave() {
        assert!(rt.dispatch(tx.function, tx.signature.0).is_ok());
    }
    assert_eq!(BalanceOf::read(&mut rt, testing::alice().public()).unwrap().free(), 80);
    assert_eq!(BalanceOf::read(&mut rt, testing::bob().public()).unwrap().free(), 10);
    assert_eq!(BalanceOf::read(&mut rt, testing::dave().public()).unwrap().free(), 10);
}

// Distribution.

#[test]
fn traverse_works() {
    //  t1         t2
    //  |           |
    //  |--- k1 ----|
    //  |--- k2 ----|
    let tx_ids: Vec<TransactionId> = vec![1, 2];
    let g = TxKeyGraph { tx_keys: vec![vec![0, 1], vec![0, 1]], key_txs: vec![vec![0, 1], vec![0, 1]] };
    let mut tx_labels = vec![None, None];
    let mut key_labels = vec![None, None];

    let members = traverse(&g, &mut tx_labels, &mut key_labels, (false, 0), 1);

    assert_eq!(key_labels[0], Some(1));
    assert_eq!(key_labels[1], Some(1));

    assert_eq!(tx_labels[0], Some(1));
    assert_eq!(tx_labels[1], Some(1));

    assert_eq!(members.len(), 2);
    assert_eq!(members.iter().map(|t| tx_ids[*t]).collect::<Vec<_>>(), vec![1, 2]);
}

#[test]
fn components_are_the_connected_groups() {
    // t0 -- k0 -- t2      t1 -- k1      t3 (no key)
    let g = TxKeyGraph {
        tx_keys: vec![vec![0], vec![1], vec![0], vec![]],
        key_txs: vec![vec![0, 2], vec![1]],
    };
    let comps = label_components(&g);
    assert_eq!(comps.labels, vec![0, 1, 3]);
    assert_eq!(comps.members, vec![vec![0, 2], vec![1], vec![3]]);
    assert_eq!(comps.tx_labels, vec![Some(0), Some(1), Some(0), Some(3)]);
    assert_eq!(comps.key_labels, vec![Some(0), Some(1)]);
}

#[test]
fn tx_distribution_round_robin_works() {
    let mut pool = <VecPool<Transaction>>::new();

    pool.push_back(Transaction::new_transfer(testing::alice(), 1));
    pool.push_back(Transaction::new_transfer(testing::bob(), 2));
    pool.push_back(Transaction::new_transfer(testing::dave(), 3));

    let ids: Vec<ThreadId> = vec![1, 2];

    RoundRobin::distribute(&new_sequential_runtime(), ids.as_ref(), &mut pool);

    assert_eq!(
        pool.get(|t| t.signature.0 == testing::alice().public()).unwrap().1.status,
        TransactionStatus::Done(1)
    );
    assert_eq!(pool.get(|t| t.signature.0 == testing::bob().public()).unwrap().1.status, TransactionStatus::Done(2));
    assert_eq!(
        pool.get(|t| t.signature.0 == testing::dave().public()).unwrap().1.status,
        TransactionStatus::Done(1)
    );
}

#[test]
fn connected_components_keep_conflicting_txs_together() {
    let alice = testing::alice();
    let charlie = testing::charlie();
    let mut pool = <VecPool<Transaction>>::new();
    // alice -> bob and charlie -> bob share bob's balance; eve -> dave stands alone.
    pool.push_back(transfer(&alice, testing::bob().public(), 1, 1));
    pool.push_back(transfer(&testing::eve(), testing::dave().public(), 1, 2));
    pool.push_back(transfer(&charlie, testing::bob().public(), 1, 3));

    let ids: Vec<ThreadId> = vec![10, 11];
    ConnectedComponentsDistributer::distribute(&new_sequential_runtime(), ids.as_ref(), &mut pool);

    let txs = pool.destruct();
    // the larger component goes first, to the first worker; the other to the second.
    assert_eq!(txs[0].status, TransactionStatus::Done(10));
    assert_eq!(txs[1].status, TransactionStatus::Done(11));
    assert_eq!(txs[2].status, TransactionStatus::Done(10));
}

#[test]
fn greedy_choice_takes_last_largest_to_first_least_loaded() {
    // sizes 1, 3, 3, 2 over two workers: component 2 (last of the largest) to worker 0,
    // component 1 to worker 1, then component 3 to worker 0 (loads tie, the first wins),
    // then component 0 to worker 1.
    assert_eq!(executor::greedy::greedy_choice(&vec![1, 3, 3, 2], 2), vec![1, 1, 0, 0]);
    assert_eq!(executor::greedy::greedy_choice(&vec![5], 3), vec![0]);
    assert_eq!(executor::greedy::greedy_choice(&vec![], 3), Vec::<usize>::new());
}

#[test]
fn simple_storage_aware_leaves_nothing_unassigned() {
    let mut pool = <VecPool<Transaction>>::new();
    pool.push_back(transfer(&testing::alice(), testing::bob().public(), 1, 1));
    pool.push_back(transfer(&testing::charlie(), testing::bob().public(), 1, 2));
    pool.push_back(transfer(&testing::eve(), testing::dave().public(), 1, 3));

    let ids: Vec<ThreadId> = vec![10, 11, 12];
    SimpleStorageAwareDistributer::distribute(&new_sequential_runtime(), ids.as_ref(), &mut pool);

    // bob's balance is declared twice: both transfers to bob go to the first worker; then the
    // last transfer to the second; nothing is left for the third.
    let txs = pool.destruct();
    assert_eq!(txs[0].status, TransactionStatus::Done(10));
    assert_eq!(txs[1].status, TransactionStatus::Done(10));
    assert_eq!(txs[2].status, TransactionStatus::Done(11));
}

#[test]
fn simple_storage_aware_breaks_ties_by_ids() {
    // every key is declared once: the key of the transfer with the greater id comes first.
    let mut pool = <VecPool<Transaction>>::new();
    pool.push_back(transfer(&testing::alice(), testing::bob().public(), 1, 2));
    pool.push_back(transfer(&testing::charlie(), testing::dave().public(), 1, 1));
    let ids: Vec<ThreadId> = vec![10, 11];
    SimpleStorageAwareDistributer::distribute(&new_sequential_runtime(), ids.as_ref(), &mut pool);
    let txs = pool.destruct();
    assert_eq!(txs[0].status, TransactionStatus::Done(10));
    assert_eq!(txs[1].status, TransactionStatus::Done(11));

    // the same, the other way round.
    let mut pool = <VecPool<Transaction>>::new();
    pool.push_back(transfer(&testing::alice(), testing::bob().public(), 1, 1));
    pool.push_back(transfer(&testing::charlie(), testing::dave().public(), 1, 2));
    SimpleStorageAwareDistributer::distribute(&new_sequential_runtime(), ids.as_ref(), &mut pool);
    let txs = pool.destruct();
    assert_eq!(txs[0].status, TransactionStatus::Done(11));
    assert_eq!(txs[1].status, TransactionStatus::Done(10));
}

#[test]
fn simple_storage_aware_stops_where_no_key_is_declared() {
    let dave = testing::dave();
    let call = OuterCall::Staking(executor::staking::Call::TxValidate());
    let validate = Transaction::new(2, call.clone(), dave.public(), dave.sign(&call.encode()));

    // three workers: the transfer goes to the first, and a call that declares no key stays
    // where it is.
    let mut pool = <VecPool<Transaction>>::new();
    pool.push_back(transfer(&testing::alice(), testing::bob().public(), 1, 1));
    pool.push_back(validate.clone());
    let ids: Vec<ThreadId> = vec![10, 11, 12];
    SimpleStorageAwareDistributer::distribute(&new_sequential_runtime(), ids.as_ref(), &mut pool);
    let txs = pool.destruct();
    assert_eq!(txs[0].status, TransactionStatus::Done(10));
    assert_eq!(txs[1].status, TransactionStatus::NotExecuted);

    // two workers: the last one gets the rest.
    let mut pool = <VecPool<Transaction>>::new();
    pool.push_back(transfer(&testing::alice(), testing::bob().public(), 1, 1));
    pool.push_back(validate);
    let ids: Vec<ThreadId> = vec![10, 11];
    SimpleStorageAwareDistributer::distribute(&new_sequential_runtime(), ids.as_ref(), &mut pool);
    let txs = pool.destruct();
    assert_eq!(txs[0].status, TransactionStatus::Done(10));
    assert_eq!(txs[1].status, TransactionStatus::Done(11));
}

// The master.

const MASTER_WORKER_ID: ThreadId = 9;
const NUM_TX: usize = 3;

fn test_pool() -> VecPool<Transaction> {
    let mut pool = VecPool::new();
    let origins = vec![testing::alice(), testing::dave(), testing::eve()];
    assert_eq!(origins.len(), NUM_TX);
    for (i, o) in origins.into_iter().enumerate() {
        pool.push_back(Transaction::new_transfer(o, i as TransactionId));
    }
    pool
}

#[test]
fn master_initial_phase_works() {
    let mut pool = test_pool();
    let ids: Vec<ThreadId> = vec![MASTER_WORKER_ID];
    RoundRobin::distribute(&new_sequential_runtime(), ids.as_ref(), &mut pool);

    // all transactions go to the single worker, in order.
    let assignments = initial_assignments(&pool).unwrap();
    assert_eq!(assignments.len(), NUM_TX);
    for (i, (w, tx)) in assignments.iter().enumerate() {
        assert_eq!(*w, MASTER_WORKER_ID);
        assert_eq!(tx.id, i as TransactionId);
    }
}

#[test]
fn initial_phase_works_with_many_workers() {
    let workers: Vec<ThreadId> = vec![10, 11, 12];
    let mut pool = VecPool::new();
    for i in 0..45u32 {
        pool.push_back(Transaction::new_transfer(testing::random(), i));
    }
    RoundRobin::distribute(&new_sequential_runtime(), workers.as_ref(), &mut pool);
    let assignments = initial_assignments(&pool).unwrap();
    for w in workers.iter() {
        assert_eq!(assignments.iter().filter(|(x, _)| x == w).count(), 45 / 3);
    }
}

#[test]
fn initial_assignments_refuse_unassigned() {
    let pool = test_pool();
    assert_eq!(initial_assignments(&pool).err(), Some(0));
}

#[test]
fn collection_phase_works() {
    let mut pool = test_pool();
    let mut orphans = Vec::new();
    let mut collection = Collection::new(pool.len(), 1);
    assert!(!collection.done(orphans.len()));
    assert_eq!(
        collection.step(&mut pool, &mut orphans, MASTER_WORKER_ID, MessagePayload::InitialPhaseReport(NUM_TX, 0)),
        Ok(())
    );
    assert!(collection.done(orphans.len()));
}

#[test]
fn collection_phase_works_basic() {
    let workers: Vec<ThreadId> = vec![10, 11, 12];
    let mut pool = VecPool::new();
    for i in 0..45u32 {
        pool.push_back(Transaction::new_transfer(testing::random(), i));
    }
    RoundRobin::distribute(&new_sequential_runtime(), workers.as_ref(), &mut pool);
    let mut orphans = Vec::new();
    let mut collection = Collection::new(pool.len(), workers.len());
    for w in workers.iter() {
        assert!(!collection.done(orphans.len()));
        assert!(collection.step(&mut pool, &mut orphans, *w, MessagePayload::InitialPhaseReport(45 / 3, 0)).is_ok());
    }
    assert!(collection.done(orphans.len()));
}

#[test]
fn collection_phase_works_with_forwarded() {
    let workers: Vec<ThreadId> = vec![10, 11, 12];
    let mut pool = VecPool::new();
    for i in 0..45u32 {
        pool.push_back(Transaction::new_transfer(testing::random(), i));
    }
    RoundRobin::distribute(&new_sequential_runtime(), workers.as_ref(), &mut pool);
    let mut orphans = Vec::new();
    let mut collection = Collection::new(pool.len(), workers.len());
    for w in workers.iter() {
        assert!(collection.step(&mut pool, &mut orphans, *w, MessagePayload::InitialPhaseReport(45 / 3 - 1, 1)).is_ok());
    }
    // all reported, but the forwarded ones are not accounted for yet.
    assert!(!collection.done(orphans.len()));
    for i in 0..workers.len() {
        assert!(collection.step(&mut pool, &mut orphans, 99, MessagePayload::WorkerExecuted(i as TransactionId)).is_ok());
    }
    assert!(collection.done(orphans.len()));
    assert_eq!(pool.get(|t| t.id == 0).unwrap().1.status, TransactionStatus::Done(99));
}

#[test]
fn collection_phase_collects_orphans() {
    let mut pool = test_pool();
    let ids: Vec<ThreadId> = vec![MASTER_WORKER_ID];
    RoundRobin::distribute(&new_sequential_runtime(), ids.as_ref(), &mut pool);
    let mut orphans = Vec::new();
    let mut collection = Collection::new(pool.len(), 1);
    assert!(collection.step(&mut pool, &mut orphans, MASTER_WORKER_ID, MessagePayload::InitialPhaseReport(2, 1)).is_ok());
    assert!(!collection.done(orphans.len()));
    assert!(collection.step(&mut pool, &mut orphans, 5, MessagePayload::WorkerOrphan(1)).is_ok());
    assert!(collection.done(orphans.len()));
    assert_eq!(orphans.len(), 1);
    assert_eq!(orphans[0].id, 1);
    assert_eq!(orphans[0].status, TransactionStatus::Orphan);
    assert_eq!(pool.len(), 2);
}

#[test]
fn collection_phase_errors() {
    let mut pool = test_pool();
    let ids: Vec<ThreadId> = vec![MASTER_WORKER_ID];
    RoundRobin::distribute(&new_sequential_runtime(), ids.as_ref(), &mut pool);
    let mut orphans = Vec::new();
    let mut collection = Collection::new(pool.len(), 1);
    assert_eq!(
        collection.step(&mut pool, &mut orphans, 5, MessagePayload::WorkerOrphan(77)),
        Err(CollectionError::UnknownTransaction(77))
    );
    assert_eq!(
        collection.step(&mut pool, &mut orphans, MASTER_WORKER_ID, MessagePayload::WorkerExecuted(0)),
        Err(CollectionError::SameWorker(0))
    );
    assert_eq!(collection.step(&mut pool, &mut orphans, 5, MessagePayload::Terminate), Err(CollectionError::UnexpectedMessage));

    let mut fresh = test_pool();
    assert_eq!(
        collection.step(&mut fresh, &mut orphans, 5, MessagePayload::WorkerExecuted(0)),
        Err(CollectionError::NotAssigned(0))
    );
}

#[test]
fn orphan_phase_executes_orphans_in_order() {
    let mut rt = new_sequential_runtime();
    endow_account(testing::alice().public(), &mut rt, 100);
    let mut orphans = simple_alice_bob_dave();
    for o in orphans.iter_mut() {
        o.status = TransactionStatus::Orphan;
    }
    orphan_phase(&mut rt, &orphans);
    assert_eq!(BalanceOf::read(&mut rt, testing::alice().public()).unwrap().free(), 80);
    assert_eq!(BalanceOf::read(&mut rt, testing::dave().public()).unwrap().free(), 10);
}

#[test]
fn balance_from_parts() {
    let b = AccountBalance::from((333u128, 666u128));
    assert_eq!(b.free(), 333);
    assert_eq!(b.reserved(), 666);
    assert!(b.can_spend(333));
    assert!(!b.can_spend(334));
    let f = AccountBalance::from(5u128);
    assert_eq!(f, AccountBalance::new_free(5));
    assert_eq!(f, AccountBalance::new(5, 0));
}

#[test]
fn connected_components_leave_an_empty_pool() {
    let mut pool = <VecPool<Transaction>>::new();
    let ids: Vec<ThreadId> = vec![1];
    ConnectedComponentsDistributer::distribute(&new_sequential_runtime(), ids.as_ref(), &mut pool);
    assert_eq!(pool.len(), 0);
}
