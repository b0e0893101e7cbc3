use executor::primitives::{StateKey, StateValue};
use executor::runtime::{ConcurrentRuntime, ModuleRuntime, RuntimeState, SequentialRuntime};
use executor::state::{GenericState, StateEntry};
use executor::balances::{BalanceOf, Call};
use executor::outer_call::OuterCall;
use executor::runtime::{RuntimeDispatchError, RuntimeDispatchSuccess};
use executor::testing;
use executor::safety::dispatch_is_safe;
use executor::executor::{all_safe_now, apply_transactions_checked};
use executor::types::Transaction;

fn push_99(val: StateValue) -> StateValue {
    let mut v = val.0;
    v.push(99);
    StateValue(v)
}

#[test]
fn basic_concurrent_runtime_works() {
    let state = RuntimeState::new();
    let k1: StateKey = vec![1u8].into();
    let mut rt = ConcurrentRuntime::new(state, 1);

    let r: Vec<u8> = rt.read(&k1).unwrap().0;
    assert_eq!(r, Vec::<u8>::new());

    assert!(rt.write(&k1, vec![1, 2, 3].into()).is_ok());
    assert_eq!(rt.read(&k1).unwrap().0, vec![1u8, 2, 3]);

    assert!(rt.mutate(&k1, push_99).is_ok());
    assert_eq!(rt.read(&k1).unwrap().0, vec![1u8, 2, 3, 99]);
}

#[test]
fn concurrent_runtime_fails_if_tainted() {
    let mut state = RuntimeState::new();
    let k1: StateKey = vec![1u8].into();

    // the runtime will be 1, taint with 2.
    state.unsafe_insert(&k1, StateEntry::new_taint(2));
    let mut rt = ConcurrentRuntime::new(state, 1);

    assert!(rt.read(&k1).is_err());
    assert!(rt.write(&k1, vec![1, 2, 3].into()).is_err());
    assert!(rt.mutate(&k1, push_99).is_err());
}

#[test]
fn concurrent_runtime_caching_works() {
    let state = RuntimeState::new();
    let k1: StateKey = vec![1u8].into();
    let k2: StateKey = vec![2u8].into();
    let mut rt = ConcurrentRuntime::new(state, 1);

    assert!(rt.read(&k1).is_ok());
    assert!(rt.read(&k2).is_ok());

    // nothing is cached.
    assert_eq!(rt.cached_len(), 0);

    assert!(rt.write(&k1, vec![1].into()).is_ok());

    // something is cached.
    assert_eq!(rt.cached_len(), 1);

    // it is not written to state
    assert_eq!(rt.state().unsafe_read_value(&k1).unwrap().0, Vec::<u8>::new());

    // but reading through runtime works fine.
    assert_eq!(rt.read(&k1).unwrap().0, vec![1u8]);

    // commit
    rt.commit_cache();

    // now it is also in state
    let mut state = rt.into_state();
    assert_eq!(state.read(&k1, 1).unwrap().0, vec![1u8]);
}

#[test]
fn basic_sequential_runtime_works() {
    let state = RuntimeState::new();
    let k1: StateKey = vec![1u8].into();
    let mut rt = SequentialRuntime::new(state, 1);

    let r: Vec<u8> = rt.read(&k1).unwrap().0;
    assert_eq!(r, Vec::<u8>::new());

    assert!(rt.write(&k1, vec![1, 2, 3].into()).is_ok());
    assert_eq!(rt.read(&k1).unwrap().0, vec![1u8, 2, 3]);

    assert!(rt.mutate(&k1, push_99).is_ok());
    assert_eq!(rt.read(&k1).unwrap().0, vec![1u8, 2, 3, 99]);
}

#[test]
fn sequential_runtime_works_regardless_of_taint() {
    let mut state = RuntimeState::new();
    let k1: StateKey = vec![1u8].into();

    // the runtime will be 1, taint with 2.
    state.unsafe_insert(&k1, StateEntry::new_taint(2));
    let mut rt = SequentialRuntime::new(state, 1);

    assert!(rt.read(&k1).is_ok());
    assert!(rt.write(&k1, vec![1, 2, 3].into()).is_ok());
    assert!(rt.mutate(&k1, push_99).is_ok());
}

// Own tests.

#[test]
fn concurrent_runtime_taints_keys_it_reads() {
    let state = RuntimeState::new();
    let k1: StateKey = vec![7u8].into();
    let mut rt = ConcurrentRuntime::new(state, 5);
    assert!(rt.read(&k1).is_ok());
    assert_eq!(rt.state().unsafe_read_taint(&k1), Some(5));
}

#[test]
fn concurrent_runtime_reports_owner_of_tainted_key() {
    let mut state = RuntimeState::new();
    let k1: StateKey = vec![1u8].into();
    state.unsafe_insert(&k1, StateEntry::new(StateValue(vec![4]), 3));
    let mut rt = ConcurrentRuntime::new(state, 1);
    assert_eq!(rt.read(&k1).unwrap_err(), 3);
    assert_eq!(rt.write(&k1, vec![9].into()).unwrap_err(), 3);
    // a refused write leaves nothing in the cache.
    assert_eq!(rt.cached_len(), 0);
}

#[test]
fn clear_cache_drops_writes() {
    let state = RuntimeState::new();
    let k1: StateKey = vec![1u8].into();
    let mut rt = ConcurrentRuntime::new(state, 1);
    assert!(rt.write(&k1, vec![1].into()).is_ok());
    assert_eq!(rt.cached_len(), 1);
    rt.clear_cache();
    assert_eq!(rt.cached_len(), 0);
    rt.commit_cache();
    assert_eq!(rt.state().unsafe_read_value(&k1).map(|v| v.0), Some(Vec::<u8>::new()));
}

#[test]
fn sequential_write_is_owned_by_no_one() {
    let mut state = RuntimeState::new();
    let k1: StateKey = vec![1u8].into();
    state.unsafe_insert(&k1, StateEntry::new_taint(2));
    let mut rt = SequentialRuntime::new(state, 1);
    assert!(rt.write(&k1, vec![3].into()).is_ok());
    assert_eq!(rt.state.unsafe_read_taint(&k1), None);
    assert_eq!(rt.state.unsafe_read_value(&k1).unwrap().0, vec![3u8]);
}

#[test]
fn failed_dispatch_writes_nothing() {

    let alice = testing::alice().public();
    let bob = testing::bob().public();
    let mut seed = SequentialRuntime::new(RuntimeState::new(), 0);
    BalanceOf::write(&mut seed, alice, 50.into()).unwrap();
    let mut state = seed.state;
    // bob's balance is owned by another thread: the transfer reaches it after debiting alice.
    state.unsafe_insert(&BalanceOf::<ConcurrentRuntime>::key_for(bob), StateEntry::new_taint(9));
    let mut rt = ConcurrentRuntime::new(state, 1);

    // not enough funds: a logic error, nothing written.
    let r = rt.dispatch(OuterCall::Balances(Call::Transfer(bob, 80)), alice);
    assert_eq!(r, Ok(RuntimeDispatchSuccess::LogicError("Does not have enough funds.")));
    assert_eq!(rt.cached_len(), 0);

    // the destination is owned by thread 9: an orphan, and alice keeps her 50.
    let r = rt.dispatch(OuterCall::Balances(Call::Transfer(bob, 10)), alice);
    assert_eq!(r, Err(RuntimeDispatchError::Tainted(9, true)));
    let mut check = SequentialRuntime::new(rt.into_state(), 0);
    assert_eq!(BalanceOf::read(&mut check, alice).unwrap().free(), 50);
}

#[test]
fn successful_dispatch_commits_its_writes() {

    let alice = testing::alice().public();
    let bob = testing::bob().public();
    let mut seed = SequentialRuntime::new(RuntimeState::new(), 0);
    BalanceOf::write(&mut seed, alice, 50.into()).unwrap();
    let mut rt = ConcurrentRuntime::new(seed.state, 1);
    let r = rt.dispatch(OuterCall::Balances(Call::Transfer(bob, 20)), alice);
    assert_eq!(r, Ok(RuntimeDispatchSuccess::Success));
    assert_eq!(rt.cached_len(), 0);
    assert_eq!(rt.state().unsafe_read_taint(&BalanceOf::<ConcurrentRuntime>::key_for(bob)), Some(1));
    let mut check = SequentialRuntime::new(rt.into_state(), 0);
    assert_eq!(BalanceOf::read(&mut check, alice).unwrap().free(), 30);
    assert_eq!(BalanceOf::read(&mut check, bob).unwrap().free(), 20);
}

#[test]
fn sequential_dispatch_ignores_owners_and_owns_nothing() {
    let alice = testing::alice().public();
    let bob = testing::bob().public();
    let mut seed = SequentialRuntime::new(RuntimeState::new(), 0);
    BalanceOf::write(&mut seed, alice, 50.into()).unwrap();
    let mut state = seed.state;
    // both balances are owned by other threads.
    state.unsafe_insert(&BalanceOf::<SequentialRuntime>::key_for(bob), StateEntry::new_taint(9));
    let mut rt = SequentialRuntime::new(state, 1);
    let r = rt.dispatch(OuterCall::Balances(Call::Transfer(bob, 20)), alice);
    assert_eq!(r, Ok(RuntimeDispatchSuccess::Success));
    assert_eq!(rt.state.unsafe_read_taint(&BalanceOf::<SequentialRuntime>::key_for(bob)), None);
    assert_eq!(rt.state.unsafe_read_taint(&BalanceOf::<SequentialRuntime>::key_for(alice)), None);
    assert_eq!(BalanceOf::read(&mut rt, bob).unwrap().free(), 20);
}

#[test]
fn unsafe_transfers_are_found_before_dispatch() {
    let alice = testing::alice().public();
    let bob = testing::bob().public();
    let mut rt = SequentialRuntime::new(RuntimeState::new(), 0);
    BalanceOf::write(&mut rt, alice, 50.into()).unwrap();
    BalanceOf::write(&mut rt, bob, u128::MAX.into()).unwrap();
    // crediting bob would overflow his free balance.
    assert!(!dispatch_is_safe(&rt, &OuterCall::Balances(Call::Transfer(bob, 10)), alice));
    // not enough funds: a logic error, no overflow.
    assert!(dispatch_is_safe(&rt, &OuterCall::Balances(Call::Transfer(bob, 80)), alice));
    // a transfer to oneself never overflows.
    assert!(dispatch_is_safe(&rt, &OuterCall::Balances(Call::Transfer(alice, 10)), alice));
    assert!(dispatch_is_safe(&rt, &OuterCall::Balances(Call::Transfer(alice, 10)), bob));
}

#[test]
fn checked_application_stops_at_the_first_unsafe_transaction() {
    let alice = testing::alice();
    let bob = testing::bob();
    let mut rt = SequentialRuntime::new(RuntimeState::new(), 0);
    BalanceOf::write(&mut rt, alice.public(), 50.into()).unwrap();
    BalanceOf::write(&mut rt, bob.public(), (u128::MAX - 5).into()).unwrap();
    let txs = vec![
        Transaction::new_transfer_with_id(alice, bob.public(), 1),
        Transaction::new_transfer_with_id(bob, alice.public(), 2),
    ];
    // a transfer of 999 from alice fails for want of funds; bob's to alice goes through.
    assert!(all_safe_now(&rt, &txs));
    assert_eq!(apply_transactions_checked(&mut rt, &txs), Ok(()));
    let overflow = vec![Transaction::new_transfer_with_id(alice, bob.public(), 3)];
    BalanceOf::write(&mut rt, alice.public(), 1000.into()).unwrap();
    BalanceOf::write(&mut rt, bob.public(), u128::MAX.into()).unwrap();
    assert!(!all_safe_now(&rt, &overflow));
    assert_eq!(apply_transactions_checked(&mut rt, &overflow), Err(0));
}
