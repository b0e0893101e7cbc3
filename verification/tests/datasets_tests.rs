use executor::balances::{BalanceOf, Call};
use executor::datasets::{
    bank, endow_account, middle_class_playground, millionaires_playground, world_of_stakers, MILLIONAIRE_AMOUNT,
    STAKER_AMOUNT, STAKER_BOND,
};
use executor::staking;
use executor::executor::{author_and_validate, SequentialExecutor};
use executor::outer_call::OuterCall;
use executor::runtime::{RuntimeState, SequentialRuntime};
use executor::testing;
use executor::types::VerifiableTransaction;

fn new_runtime() -> SequentialRuntime {
    SequentialRuntime::new(RuntimeState::new(), 0)
}

#[test]
fn endow_account_sets_free_balance() {
    let mut rt = new_runtime();
    endow_account(testing::alice().public(), &mut rt, 42);
    let b = BalanceOf::read(&mut rt, testing::alice().public()).unwrap();
    assert_eq!(b.free(), 42);
    assert_eq!(b.reserved(), 0);
}

#[test]
fn bank_makes_signed_transfers_among_members() {
    let (txs, accounts) = bank(4, 10, 7);
    assert_eq!(accounts.len(), 4);
    assert_eq!(txs.len(), 10);
    for (i, tx) in txs.iter().enumerate() {
        assert_eq!(tx.id, i as u32);
        assert!(tx.verify());
        assert!(accounts.contains(&tx.signature.0));
        match tx.function {
            OuterCall::Balances(Call::Transfer(dest, amount)) => {
                assert!(accounts.contains(&dest));
                assert_eq!(amount, 7);
            }
            _ => panic!("a bank only transfers"),
        }
    }
}

#[test]
fn millionaires_are_endowed() {
    let mut rt = new_runtime();
    let txs = millionaires_playground(&mut rt, 3, 5);
    assert_eq!(txs.len(), 5);
    for tx in txs.iter() {
        assert_eq!(BalanceOf::read(&mut rt, tx.signature.0).unwrap().free(), MILLIONAIRE_AMOUNT);
    }
}

#[test]
fn middle_class_is_rich_or_poor() {
    let mut rt = new_runtime();
    let txs = middle_class_playground(&mut rt, 4, 8, 100, 1);
    assert_eq!(txs.len(), 8);
    for tx in txs.iter() {
        let free = BalanceOf::read(&mut rt, tx.signature.0).unwrap().free();
        assert!(free == 100 * 1_000_000 || free == 50);
    }
}

#[test]
fn millionaires_block_validates() {
    let mut executor = SequentialExecutor::new(0);
    let txs = millionaires_playground(&mut executor.runtime, 5, 20);
    let initial_state = executor.runtime.state.dump();
    assert!(author_and_validate(&mut executor, txs, Some(initial_state)));
}

#[test]
fn world_of_stakers_bonds_validates_and_nominates() {
    let mut rt = new_runtime();
    let txs = world_of_stakers(&mut rt, 3, 2, 10);
    assert_eq!(txs.len(), 2 * (3 + 2) + 10);
    let mut validators = Vec::new();
    for i in 0..5 {
        let bond = &txs[2 * i];
        let second = &txs[2 * i + 1];
        assert!(bond.verify());
        assert!(second.verify());
        match &bond.function {
            OuterCall::Staking(staking::Call::TxBond(amount, ctrl)) => {
                assert_eq!(*amount, STAKER_BOND);
                assert_eq!(*ctrl, second.signature.0);
            }
            _ => panic!("each staker bonds first"),
        }
        assert_eq!(BalanceOf::read(&mut rt, bond.signature.0).unwrap().free(), STAKER_AMOUNT);
        assert_eq!(BalanceOf::read(&mut rt, second.signature.0).unwrap().free(), STAKER_AMOUNT);
        if i < 3 {
            assert!(matches!(second.function, OuterCall::Staking(staking::Call::TxValidate())));
            validators.push(bond.signature.0);
        } else {
            match &second.function {
                OuterCall::Staking(staking::Call::TxNominate(votes)) => {
                    assert_eq!(votes.len(), 3);
                    for v in votes.iter() {
                        assert!(validators.contains(v));
                    }
                    assert!(votes[0] != votes[1] && votes[1] != votes[2] && votes[0] != votes[2]);
                }
                _ => panic!("a nominator nominates"),
            }
        }
    }
    for tx in txs[10..].iter() {
        assert!(tx.verify());
        assert!(matches!(
            tx.function,
            OuterCall::Staking(staking::Call::TxUnbond(_))
                | OuterCall::Staking(staking::Call::TxChill())
                | OuterCall::Staking(staking::Call::TxBondExtra(_))
                | OuterCall::Staking(staking::Call::TxSetController(_))
        ));
    }
}

#[test]
fn world_of_stakers_without_random_actions() {
    let mut rt = new_runtime();
    let txs = world_of_stakers(&mut rt, 0, 0, 0);
    assert!(txs.is_empty());
}
