use executor::balances::BalanceOf;
use executor::runtime::{ConcurrentRuntime, DispatchError, ModuleRuntime, RuntimeState, SequentialRuntime};
use executor::staking::{
    tx_bond, tx_bond_extra, tx_chill, tx_nominate, tx_set_controller, tx_unbond, tx_validate, Bonded, Ledger,
    Nominations, StakingRole,
};
use executor::testing::{alice, bob, dave};

fn sequential() -> SequentialRuntime {
    SequentialRuntime::new(RuntimeState::new(), 0)
}

fn concurrent() -> ConcurrentRuntime {
    ConcurrentRuntime::new(RuntimeState::new(), 0)
}

fn bonding_works<R: ModuleRuntime>(mut rt: R) {
    let alice = alice().public();
    BalanceOf::write(&mut rt, alice, 999.into()).unwrap();
    tx_bond(&mut rt, alice, 333, bob().public()).unwrap();

    // must have reserved
    assert_eq!(BalanceOf::read(&mut rt, alice).unwrap().free(), 666);
    assert_eq!(BalanceOf::read(&mut rt, alice).unwrap().reserved(), 333);

    // must have Bonded and StakingLedger
    assert_eq!(Bonded::read(&mut rt, bob().public()).unwrap(), alice);
    assert_eq!(Ledger::read(&mut rt, alice).unwrap().value, 333);
    assert_eq!(Ledger::read(&mut rt, alice).unwrap().role, StakingRole::Chilled);
    assert_eq!(Ledger::read(&mut rt, alice).unwrap().controller, bob().public());
}

fn bonding_fails_if_already_bonded<R: ModuleRuntime>(mut rt: R) {
    let alice = alice().public();
    BalanceOf::write(&mut rt, alice, 999.into()).unwrap();
    tx_bond(&mut rt, alice, 333, bob().public()).unwrap();
    assert_eq!(tx_bond(&mut rt, alice, 333, bob().public()).unwrap_err(), DispatchError::LogicError("Already bonded."));
}

fn bonding_fails_if_not_enough_balance<R: ModuleRuntime>(mut rt: R) {
    let alice = alice().public();
    BalanceOf::write(&mut rt, alice, 999.into()).unwrap();
    assert_eq!(tx_bond(&mut rt, alice, 1333, bob().public()).unwrap_err(), DispatchError::LogicError("Not enough funds."));
}

fn bond_extra_works<R: ModuleRuntime>(mut rt: R) {
    let alice = alice().public();
    BalanceOf::write(&mut rt, alice, 999.into()).unwrap();
    tx_bond(&mut rt, alice, 333, bob().public()).unwrap();
    tx_bond_extra(&mut rt, alice, 222).unwrap();
    assert_eq!(BalanceOf::read(&mut rt, alice).unwrap().free(), 444);
    assert_eq!(BalanceOf::read(&mut rt, alice).unwrap().reserved(), 555);
    assert_eq!(Ledger::read(&mut rt, alice).unwrap().value, 555);
}

fn bond_extra_fails_if_not_bonded<R: ModuleRuntime>(mut rt: R) {
    let alice = alice().public();
    BalanceOf::write(&mut rt, alice, 999.into()).unwrap();
    assert_eq!(tx_bond_extra(&mut rt, alice, 222).unwrap_err(), DispatchError::LogicError("Not bonded."));
    assert_eq!(BalanceOf::read(&mut rt, alice).unwrap().free(), 999);
    assert_eq!(BalanceOf::read(&mut rt, alice).unwrap().reserved(), 0);
}

fn bond_extra_fails_if_not_enough_balance<R: ModuleRuntime>(mut rt: R) {
    let alice = alice().public();
    BalanceOf::write(&mut rt, alice, 666.into()).unwrap();
    tx_bond(&mut rt, alice, 333, bob().public()).unwrap();
    assert_eq!(tx_bond_extra(&mut rt, alice, 444).unwrap_err(), DispatchError::LogicError("Not enough funds."));
    assert_eq!(BalanceOf::read(&mut rt, alice).unwrap().free(), 333);
    assert_eq!(BalanceOf::read(&mut rt, alice).unwrap().reserved(), 333);
}

fn unbond_works<R: ModuleRuntime>(mut rt: R) {
    let alice = alice().public();
    BalanceOf::write(&mut rt, alice, 999.into()).unwrap();
    tx_bond(&mut rt, alice, 333, bob().public()).unwrap();
    assert_eq!(Bonded::read(&mut rt, bob().public()).unwrap(), alice);
    assert_eq!(Ledger::read(&mut rt, alice).unwrap().value, 333);
    tx_unbond(&mut rt, alice, 111).unwrap();
    assert_eq!(Bonded::read(&mut rt, bob().public()).unwrap(), alice);
    assert_eq!(Ledger::read(&mut rt, alice).unwrap().value, 222);
}

fn unbond_fails_if_not_enough_bonded<R: ModuleRuntime>(mut rt: R) {
    let alice = alice().public();
    BalanceOf::write(&mut rt, alice, 999.into()).unwrap();
    tx_bond(&mut rt, alice, 333, bob().public()).unwrap();
    assert_eq!(tx_unbond(&mut rt, alice, 444).unwrap_err(), DispatchError::LogicError("Too much unbonding."));
}

fn unbond_fails_if_not_bonded<R: ModuleRuntime>(mut rt: R) {
    let alice = alice().public();
    BalanceOf::write(&mut rt, alice, 999.into()).unwrap();
    assert_eq!(tx_unbond(&mut rt, alice, 444).unwrap_err(), DispatchError::LogicError("Not bonded."));
}

fn set_controller_works<R: ModuleRuntime>(mut rt: R) {
    let (alice, bob, dave) = (alice().public(), bob().public(), dave().public());
    BalanceOf::write(&mut rt, alice, 999.into()).unwrap();
    tx_bond(&mut rt, alice, 333, bob).unwrap();
    assert_eq!(Ledger::read(&mut rt, alice).unwrap().controller, bob);
    tx_set_controller(&mut rt, alice, dave).unwrap();
    assert_eq!(Ledger::read(&mut rt, alice).unwrap().controller, dave);
    assert_eq!(Bonded::read(&mut rt, dave).unwrap(), alice);
}

fn set_controller_is_noop_if_same_controller<R: ModuleRuntime>(mut rt: R) {
    let (alice, bob) = (alice().public(), bob().public());
    BalanceOf::write(&mut rt, alice, 999.into()).unwrap();
    tx_bond(&mut rt, alice, 333, bob).unwrap();
    tx_set_controller(&mut rt, alice, bob).unwrap();
    assert_eq!(Ledger::read(&mut rt, alice).unwrap().controller, bob);
}

fn validate_works<R: ModuleRuntime>(mut rt: R) {
    let (alice, bob) = (alice().public(), bob().public());
    BalanceOf::write(&mut rt, alice, 999.into()).unwrap();
    tx_bond(&mut rt, alice, 333, bob).unwrap();
    assert_eq!(Ledger::read(&mut rt, alice).unwrap().role, StakingRole::Chilled);
    tx_validate(&mut rt, bob).unwrap();
    assert_eq!(Ledger::read(&mut rt, alice).unwrap().role, StakingRole::Validator);
}

fn validate_fails_if_not_bonded<R: ModuleRuntime>(mut rt: R) {
    assert_eq!(tx_validate(&mut rt, alice().public()).unwrap_err(), DispatchError::LogicError("Not bonded."));
}

fn nominate_works<R: ModuleRuntime>(mut rt: R) {
    let (alice, bob) = (alice().public(), bob().public());
    BalanceOf::write(&mut rt, alice, 999.into()).unwrap();
    tx_bond(&mut rt, alice, 333, bob).unwrap();
    tx_nominate(&mut rt, bob, vec![dave().public()]).unwrap();
    assert_eq!(Ledger::read(&mut rt, alice).unwrap().role, StakingRole::Nominator);
    assert_eq!(Nominations::read(&mut rt, alice).unwrap(), vec![dave().public()]);
}

fn nominate_fails_if_not_bonded<R: ModuleRuntime>(mut rt: R) {
    assert_eq!(tx_nominate(&mut rt, alice().public(), vec![]).unwrap_err(), DispatchError::LogicError("Not bonded."));
}

fn chill_works_after_nominate<R: ModuleRuntime>(mut rt: R) {
    let (alice, bob) = (alice().public(), bob().public());
    BalanceOf::write(&mut rt, alice, 999.into()).unwrap();
    tx_bond(&mut rt, alice, 333, bob).unwrap();
    tx_validate(&mut rt, bob).unwrap();
    tx_chill(&mut rt, bob).unwrap();
    assert_eq!(Ledger::read(&mut rt, alice).unwrap().role, StakingRole::Chilled);
    tx_nominate(&mut rt, bob, vec![dave().public()]).unwrap();
    tx_chill(&mut rt, bob).unwrap();
    assert_eq!(Ledger::read(&mut rt, alice).unwrap().role, StakingRole::Chilled);
    assert_eq!(Nominations::read(&mut rt, alice).unwrap(), vec![]);
}

#[test]
fn staking_on_sequential_runtime() {
    bonding_works(sequential());
    bonding_fails_if_already_bonded(sequential());
    bonding_fails_if_not_enough_balance(sequential());
    bond_extra_works(sequential());
    bond_extra_fails_if_not_bonded(sequential());
    bond_extra_fails_if_not_enough_balance(sequential());
    unbond_works(sequential());
    unbond_fails_if_not_enough_bonded(sequential());
    unbond_fails_if_not_bonded(sequential());
    set_controller_works(sequential());
    set_controller_is_noop_if_same_controller(sequential());
    validate_works(sequential());
    validate_fails_if_not_bonded(sequential());
    nominate_works(sequential());
    nominate_fails_if_not_bonded(sequential());
    chill_works_after_nominate(sequential());
}

#[test]
fn staking_on_concurrent_runtime() {
    bonding_works(concurrent());
    bonding_fails_if_already_bonded(concurrent());
    bonding_fails_if_not_enough_balance(concurrent());
    bond_extra_works(concurrent());
    bond_extra_fails_if_not_bonded(concurrent());
    bond_extra_fails_if_not_enough_balance(concurrent());
    unbond_works(concurrent());
    unbond_fails_if_not_enough_bonded(concurrent());
    unbond_fails_if_not_bonded(concurrent());
    set_controller_works(concurrent());
    set_controller_is_noop_if_same_controller(concurrent());
    validate_works(concurrent());
    validate_fails_if_not_bonded(concurrent());
    nominate_works(concurrent());
    nominate_fails_if_not_bonded(concurrent());
    chill_works_after_nominate(concurrent());
}
