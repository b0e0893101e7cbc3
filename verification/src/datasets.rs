//! Data sets of transactions for benchmarks: a bank of random accounts that transfer among
//! themselves, with the accounts endowed in the state beforehand.

use vstd::prelude::*;
use crate::balances::{AccountBalance, BalanceOf};
use crate::codec::Codec;
use crate::crypto::Pair;
use crate::outer_call::OuterCall;
use crate::primitives::{AccountId, Balance, TransactionId};
use crate::runtime::{ModuleRuntime, SequentialModel, SequentialRuntime};
use crate::storage::map_write;
use crate::testing;
use crate::types::{Transaction, TransactionStatus, ExecutionStatus, VerifiableTransaction};
use crate::balances;
use crate::staking;
use rand::seq::SliceRandom;

verus! {

/// The balance of each account of the millionaires' playground.
pub const MILLIONAIRE_AMOUNT: Balance = 100_000_000_000;

/// The amount of each transfer of the millionaires' playground.
pub const MILLIONAIRE_TRANSFER: Balance = 1000;

/// `rand::random` of the rand crate: a random number.
#[verifier::external_body]
fn random_u64() -> (r: u64) {
    rand::random::<u64>()
}

/// The state after `who` is given a free balance of `amount` and nothing reserved.
pub open spec fn endowed(m: SequentialModel, who: AccountId, amount: Balance) -> SequentialModel {
    map_write::<SequentialRuntime, BalanceOf<SequentialRuntime>>(m, who.0@, (amount, 0u128)).1
}

/// The state after each account is endowed in turn with the amount that `amount_of` gives
/// its position.
pub open spec fn endowed_all(m: SequentialModel, accounts: Seq<AccountId>, amount_of: spec_fn(int) -> Balance) -> SequentialModel
    decreases accounts.len(),
{
    if accounts.len() == 0 {
        m
    } else {
        endowed(
            endowed_all(m, accounts.drop_last(), amount_of),
            accounts.last(),
            amount_of(accounts.len() - 1),
        )
    }
}

/// Give `who` a free balance of `amount` and nothing reserved.
pub fn endow_account(who: AccountId, rt: &mut SequentialRuntime, amount: Balance)
    ensures
        final(rt).rt_model() == endowed(old(rt).rt_model(), who, amount),
{
    let _ = BalanceOf::write(rt, who, AccountBalance::new_free(amount));
}

/// A transaction with id `id` that makes `call`, signed by `origin`.
pub fn signed_call(origin: &Pair, call: OuterCall, id: TransactionId) -> (t: Transaction)
    requires
        call.encodable(),
    ensures
        t.id == id,
        t.function == call,
        t.status == TransactionStatus::NotExecuted,
        t.exec_status == ExecutionStatus::Initial,
        t.signature.0 == origin.spec_public(),
        origin.consistent() ==> t.valid(),
{
    let payload = call.encode();
    let signed = origin.sign(payload.as_slice());
    Transaction::new(id, call, origin.public(), signed)
}

/// A transfer of `amount` from `origin` to `dest` with id `id`, signed by `origin`.
pub fn signed_transfer(origin: &Pair, dest: AccountId, amount: Balance, id: TransactionId) -> (t: Transaction)
    ensures
        t.id == id,
        t.function == OuterCall::Balances(balances::Call::Transfer(dest, amount)),
        t.status == TransactionStatus::NotExecuted,
        t.exec_status == ExecutionStatus::Initial,
        t.signature.0 == origin.spec_public(),
        origin.consistent() ==> t.valid(),
{
    signed_call(origin, OuterCall::Balances(balances::Call::Transfer(dest, amount)), id)
}

/// A random position below `n`.
fn random_below(n: usize) -> (i: usize)
    requires
        n > 0,
    ensures
        i < n,
{
    (random_u64() % (n as u64)) as usize
}

/// The transfers of a bank among `accounts`: the transfer at position `i` has id `i`, is
/// signed by one of the accounts and moves `amount` to one of them.
pub open spec fn bank_of(txs: Seq<Transaction>, accounts: Seq<AccountId>, amount: Balance) -> bool {
    forall|i: int|
        0 <= i < txs.len() ==> {
            &&& (#[trigger] txs[i]).id == i
            &&& txs[i].status == TransactionStatus::NotExecuted
            &&& txs[i].exec_status == ExecutionStatus::Initial
            &&& txs[i].valid()
            &&& accounts.contains(txs[i].signature.0)
            &&& exists|dest: AccountId|
                accounts.contains(dest) && txs[i].function == OuterCall::Balances(balances::Call::Transfer(dest, amount))
        }
}

/// A bank of `members` fresh random accounts and `transfers` transfers of `amount` among
/// them: the transfer at position `i` has id `i` and goes from a random member to a random
/// member, signed by the sender.
pub fn bank(members: usize, transfers: usize, amount: Balance) -> (r: (Vec<Transaction>, Vec<AccountId>))
    requires
        members > 0 || transfers == 0,
        transfers <= u32::MAX + 1,
    ensures
        r.1@.len() == members,
        r.0@.len() == transfers,
        bank_of(r.0@, r.1@, amount),
{
    let mut pairs: Vec<Pair> = Vec::new();
    let mut accounts: Vec<AccountId> = Vec::new();
    let mut m: usize = 0;
    while m < members
        invariant
            m <= members,
            pairs@.len() == m,
            accounts@.len() == m,
            forall|j: int| 0 <= j < m ==> (#[trigger] pairs@[j]).consistent() && accounts@[j] == pairs@[j].spec_public(),
        decreases members - m,
    {
        let p = testing::random();
        pairs.push(p);
        accounts.push(p.public());
        m = m + 1;
    }
    let mut transactions: Vec<Transaction> = Vec::new();
    let mut t: usize = 0;
    while t < transfers
        invariant
            members > 0 || transfers == 0,
            transfers <= u32::MAX + 1,
            t <= transfers,
            pairs@.len() == members,
            accounts@.len() == members,
            forall|j: int| 0 <= j < members ==> (#[trigger] pairs@[j]).consistent() && accounts@[j] == pairs@[j].spec_public(),
            transactions@.len() == t,
            bank_of(transactions@, accounts@, amount),
        decreases transfers - t,
    {
        let from = random_below(members);
        let to = random_below(members);
        let tx = signed_transfer(&pairs[from], accounts[to], amount, t as TransactionId);
        proof {
            assert(pairs@[from as int].consistent());
            assert(accounts@[from as int] == tx.signature.0);
            assert(accounts@.contains(accounts@[to as int]));
        }
        transactions.push(tx);
        t = t + 1;
    }
    (transactions, accounts)
}

/// Endow each account with `amount` in turn.
pub fn endow_all(rt: &mut SequentialRuntime, accounts: &Vec<AccountId>, amount: Balance)
    ensures
        final(rt).rt_model() == endowed_all(old(rt).rt_model(), accounts@, |i: int| amount),
{
    let ghost m0 = rt.rt_model();
    let ghost f = |i: int| amount;
    let mut i: usize = 0;
    while i < accounts.len()
        invariant
            f == (|i: int| amount),
            i <= accounts@.len(),
            rt.rt_model() == endowed_all(m0, accounts@.take(i as int), f),
        decreases accounts@.len() - i,
    {
        endow_account(accounts[i], rt, amount);
        proof {
            let t = accounts@.take(i as int + 1);
            assert(t.drop_last() =~= accounts@.take(i as int));
            assert(t.last() == accounts@[i as int]);
            assert(f(i as int) == amount);
        }
        i = i + 1;
    }
    assert(accounts@.take(accounts@.len() as int) =~= accounts@);
}

/// A bank of `members` accounts, each endowed with `MILLIONAIRE_AMOUNT`, and `transfers`
/// transfers of `MILLIONAIRE_TRANSFER` among them; the transfers are returned.
pub fn millionaires_playground(rt: &mut SequentialRuntime, members: usize, transfers: usize) -> (r: Vec<
    Transaction,
>)
    requires
        members > 0 || transfers == 0,
        transfers <= u32::MAX + 1,
    ensures
        r@.len() == transfers,
        exists|accounts: Seq<AccountId>|
            {
                &&& accounts.len() == members
                &&& final(rt).rt_model() == endowed_all(old(rt).rt_model(), accounts, |i: int| MILLIONAIRE_AMOUNT)
                &&& #[trigger] bank_of(r@, accounts, MILLIONAIRE_TRANSFER)
            },
{
    let (transactions, accounts) = bank(members, transfers, MILLIONAIRE_TRANSFER);
    endow_all(rt, &accounts, MILLIONAIRE_AMOUNT);
    proof {
        assert(bank_of(transactions@, accounts@, MILLIONAIRE_TRANSFER));
    }
    transactions
}

/// The balance of the member at position `i` of the middle class playground: the first
/// `lucky` members have a million transfers' worth, the others half of one transfer.
pub open spec fn middle_class_amount(i: int, lucky: usize, transfer_amount: Balance) -> Balance {
    if i < lucky {
        (transfer_amount * 1_000_000) as u128
    } else {
        (transfer_amount / 2) as u128
    }
}

/// A bank of `members` accounts and `transfers` transfers of `transfer_amount` among them,
/// where the first `lucky_members` accounts are rich and the others can hardly pay; the
/// transfers are returned.
pub fn middle_class_playground(
    rt: &mut SequentialRuntime,
    members: usize,
    transfers: usize,
    transfer_amount: Balance,
    lucky_members: usize,
) -> (r: Vec<Transaction>)
    requires
        lucky_members <= members,
        members > 0 || transfers == 0,
        transfers <= u32::MAX + 1,
        transfer_amount * 1_000_000 <= u128::MAX,
    ensures
        r@.len() == transfers,
        exists|accounts: Seq<AccountId>|
            {
                &&& accounts.len() == members
                &&& final(rt).rt_model() == endowed_all(
                    old(rt).rt_model(),
                    accounts,
                    |i: int| middle_class_amount(i, lucky_members, transfer_amount),
                )
                &&& #[trigger] bank_of(r@, accounts, transfer_amount)
            },
{
    let (transactions, accounts) = bank(members, transfers, transfer_amount);
    let ghost m0 = rt.rt_model();
    let ghost f = |i: int| middle_class_amount(i, lucky_members, transfer_amount);
    let mut i: usize = 0;
    while i < accounts.len()
        invariant
            accounts@.len() == members,
            lucky_members <= members,
            transfer_amount * 1_000_000 <= u128::MAX,
            f == (|i: int| middle_class_amount(i, lucky_members, transfer_amount)),
            i <= accounts@.len(),
            rt.rt_model() == endowed_all(m0, accounts@.take(i as int), f),
        decreases accounts@.len() - i,
    {
        let amount = if i < lucky_members {
            // will have a lot.
            transfer_amount * 1_000_000
        } else {
            // will have half.
            transfer_amount / 2
        };
        endow_account(accounts[i], rt, amount);
        proof {
            let t = accounts@.take(i as int + 1);
            assert(t.drop_last() =~= accounts@.take(i as int));
            assert(t.last() == accounts@[i as int]);
            assert(f(i as int) == amount);
        }
        i = i + 1;
    }
    assert(accounts@.take(accounts@.len() as int) =~= accounts@);
    assert(bank_of(transactions@, accounts@, transfer_amount));
    transactions
}

/// The balance of each stash and each controller of the world of stakers.
pub const STAKER_AMOUNT: Balance = 100_000_000_000;

/// What each staker of the world of stakers bonds.
pub const STAKER_BOND: Balance = 1_000_000;

/// How many validators each nominator of the world of stakers nominates, at most.
pub const STAKER_VOTES: usize = 4;

/// `SliceRandom::choose` of the rand crate: an element of a non-empty slice, picked at random.
#[verifier::external_body]
fn choose_one<T: Copy>(items: &[T]) -> (r: T)
    requires
        items@.len() > 0,
    ensures
        items@.contains(r),
{
    *items.choose(&mut rand::thread_rng()).unwrap()
}

/// `picked` is made of elements of `items` taken at distinct positions.
pub open spec fn drawn_from<T>(picked: Seq<T>, items: Seq<T>) -> bool {
    exists|positions: Seq<int>|
        {
            &&& positions.len() == picked.len()
            &&& positions.no_duplicates()
            &&& forall|k: int|
                0 <= k < positions.len() ==> 0 <= #[trigger] positions[k] < items.len() && picked[k] == items[positions[k]]
        }
}

/// `SliceRandom::choose_multiple` of the rand crate: `amount` elements of the slice, or all of
/// them where it holds fewer, taken at distinct positions picked at random, in random order.
#[verifier::external_body]
fn choose_several<T: Copy>(items: &[T], amount: usize) -> (r: Vec<T>)
    ensures
        r@.len() == (if amount < items@.len() { amount as int } else { items@.len() as int }),
        drawn_from(r@, items@),
{
    items.choose_multiple(&mut rand::thread_rng(), amount).copied().collect()
}

/// A random transaction id.
fn random_id() -> TransactionId {
    (random_u64() % 0x1_0000_0000) as TransactionId
}

/// `t` is a fresh transaction with a valid signature by `who`.
pub open spec fn fresh_signed(t: Transaction, who: AccountId) -> bool {
    &&& t.signature.0 == who
    &&& t.valid()
    &&& t.status == TransactionStatus::NotExecuted
    &&& t.exec_status == ExecutionStatus::Initial
}

/// The stash and controller accounts of key pairs.
pub open spec fn accounts_of(keys: Seq<(Pair, Pair)>) -> Seq<(AccountId, AccountId)> {
    keys.map_values(|k: (Pair, Pair)| (k.0.spec_public(), k.1.spec_public()))
}

/// The stashes of stakers.
pub open spec fn stashes_of(stakers: Seq<(AccountId, AccountId)>) -> Seq<AccountId> {
    stakers.map_values(|s: (AccountId, AccountId)| s.0)
}

/// Each staker's stash, then its controller.
pub open spec fn pairs_flat(stakers: Seq<(AccountId, AccountId)>) -> Seq<AccountId>
    decreases stakers.len(),
{
    if stakers.len() == 0 {
        Seq::empty()
    } else {
        pairs_flat(stakers.drop_last()).push(stakers.last().0).push(stakers.last().1)
    }
}

/// The staker at position `i` bonds `STAKER_BOND` from its stash under its controller; the
/// transaction at position `2 * i` does it.
pub open spec fn bonds_at(txs: Seq<Transaction>, stakers: Seq<(AccountId, AccountId)>, i: int) -> bool {
    &&& fresh_signed(txs[2 * i], stakers[i].0)
    &&& txs[2 * i].function == OuterCall::Staking(staking::Call::TxBond(STAKER_BOND, stakers[i].1))
}

/// The validator at position `i` bonds, then declares itself a validator from its controller.
pub open spec fn validator_at(txs: Seq<Transaction>, stakers: Seq<(AccountId, AccountId)>, i: int) -> bool {
    &&& bonds_at(txs, stakers, i)
    &&& fresh_signed(txs[2 * i + 1], stakers[i].1)
    &&& txs[2 * i + 1].function == OuterCall::Staking(staking::Call::TxValidate())
}

/// The nominator at position `i` bonds, then nominates from its controller `STAKER_VOTES`
/// distinct ones of the first `validators` stashes, or all of them where there are fewer.
pub open spec fn nominator_at(
    txs: Seq<Transaction>,
    stakers: Seq<(AccountId, AccountId)>,
    validators: int,
    i: int,
) -> bool {
    &&& bonds_at(txs, stakers, i)
    &&& fresh_signed(txs[2 * i + 1], stakers[i].1)
    &&& txs[2 * i + 1].function matches OuterCall::Staking(staking::Call::TxNominate(votes))
        && votes@.len() == (if STAKER_VOTES < validators { STAKER_VOTES as int } else { validators })
        && drawn_from(votes@, stashes_of(stakers.take(validators)))
}

/// `t` is one of the random actions of a staker: its stash unbonds half a bond, its controller
/// chills, its stash bonds one bond more, or its stash sets a new controller.
pub open spec fn random_action(t: Transaction, staker: (AccountId, AccountId)) -> bool {
    ||| fresh_signed(t, staker.0) && t.function == OuterCall::Staking(staking::Call::TxUnbond(STAKER_BOND / 2))
    ||| fresh_signed(t, staker.1) && t.function == OuterCall::Staking(staking::Call::TxChill())
    ||| fresh_signed(t, staker.0) && t.function == OuterCall::Staking(staking::Call::TxBondExtra(STAKER_BOND))
    ||| fresh_signed(t, staker.0) && t.function matches OuterCall::Staking(staking::Call::TxSetController(_))
}

/// The transaction at position `start + k` is a random action of one of the stakers.
pub open spec fn random_action_at(txs: Seq<Transaction>, stakers: Seq<(AccountId, AccountId)>, start: int, k: int) -> bool {
    exists|i: int| 0 <= i < stakers.len() && random_action(txs[start + k], #[trigger] stakers[i])
}

/// The transactions of the world of stakers: the first `validators` stakers bond and validate,
/// the next `nominators` bond and nominate, two transactions each, and then come `random`
/// random actions of any of them.
pub open spec fn stakers_world(
    txs: Seq<Transaction>,
    stakers: Seq<(AccountId, AccountId)>,
    validators: int,
    nominators: int,
    random: int,
) -> bool {
    &&& stakers.len() == validators + nominators
    &&& txs.len() == 2 * (validators + nominators) + random
    &&& forall|i: int| 0 <= i < validators ==> #[trigger] validator_at(txs, stakers, i)
    &&& forall|i: int| validators <= i < validators + nominators ==> #[trigger] nominator_at(txs, stakers, validators, i)
    &&& forall|k: int| 0 <= k < random ==> #[trigger] random_action_at(txs, stakers, 2 * (validators + nominators), k)
}

/// `count` fresh random stash and controller key pairs.
fn staker_keys(count: usize) -> (keys: Vec<(Pair, Pair)>)
    ensures
        keys@.len() == count,
        forall|j: int| 0 <= j < count ==> (#[trigger] keys@[j]).0.consistent() && keys@[j].1.consistent(),
{
    let mut keys: Vec<(Pair, Pair)> = Vec::new();
    let mut i: usize = 0;
    while i < count
        invariant
            i <= count,
            keys@.len() == i,
            forall|j: int| 0 <= j < i ==> (#[trigger] keys@[j]).0.consistent() && keys@[j].1.consistent(),
        decreases count - i,
    {
        let stash = testing::random();
        let ctrl = testing::random();
        keys.push((stash, ctrl));
        i = i + 1;
    }
    keys
}

/// Each stash account of `keys`, then its controller account.
fn flat_accounts(keys: &Vec<(Pair, Pair)>) -> (flat: Vec<AccountId>)
    ensures
        flat@ == pairs_flat(accounts_of(keys@)),
{
    let mut flat: Vec<AccountId> = Vec::new();
    let mut i: usize = 0;
    while i < keys.len()
        invariant
            i <= keys@.len(),
            flat@ == pairs_flat(accounts_of(keys@.take(i as int))),
        decreases keys@.len() - i,
    {
        let (stash, ctrl) = keys[i];
        flat.push(stash.public());
        flat.push(ctrl.public());
        proof {
            let before = accounts_of(keys@.take(i as int));
            let after = accounts_of(keys@.take(i as int + 1));
            assert(after.drop_last() =~= before);
            assert(after.last() == (stash.spec_public(), ctrl.spec_public()));
        }
        i = i + 1;
    }
    assert(keys@.take(keys@.len() as int) =~= keys@);
    flat
}

/// The stash accounts of the first `count` key pairs.
fn first_stashes(keys: &Vec<(Pair, Pair)>, count: usize) -> (stashes: Vec<AccountId>)
    requires
        count <= keys@.len(),
    ensures
        stashes@ == stashes_of(accounts_of(keys@).take(count as int)),
{
    let mut stashes: Vec<AccountId> = Vec::new();
    let mut i: usize = 0;
    while i < count
        invariant
            i <= count <= keys@.len(),
            stashes@.len() == i,
            forall|j: int| 0 <= j < i ==> #[trigger] stashes@[j] == keys@[j].0.spec_public(),
        decreases count - i,
    {
        stashes.push(keys[i].0.public());
        i = i + 1;
    }
    assert(stashes@ =~= stashes_of(accounts_of(keys@).take(count as int)));
    stashes
}

/// The world of stakers: `validators + nominators` stakers with fresh random stash and
/// controller accounts, each endowed with `STAKER_AMOUNT`; the first `validators` bond and
/// validate, the others bond and nominate validators, and then `random` random staking actions
/// follow. The transactions are returned.
pub fn world_of_stakers(rt: &mut SequentialRuntime, validators: usize, nominators: usize, random: usize) -> (r: Vec<
    Transaction,
>)
    requires
        random > 0 ==> validators + nominators > 0,
        2 * (validators + nominators) + random <= usize::MAX,
    ensures
        exists|stakers: Seq<(AccountId, AccountId)>|
            {
                &&& final(rt).rt_model() == endowed_all(old(rt).rt_model(), pairs_flat(stakers), |i: int| STAKER_AMOUNT)
                &&& #[trigger] stakers_world(r@, stakers, validators as int, nominators as int, random as int)
            },
{
    let total = validators + nominators;
    let keys = staker_keys(total);
    let flat = flat_accounts(&keys);
    endow_all(rt, &flat, STAKER_AMOUNT);
    let ghost stakers = accounts_of(keys@);
    let stashes = first_stashes(&keys, validators);

    let mut transactions: Vec<Transaction> = Vec::new();
    let mut i: usize = 0;
    while i < total
        invariant
            total == validators + nominators,
            2 * total + random <= usize::MAX,
            i <= total,
            keys@.len() == total,
            stakers == accounts_of(keys@),
            forall|j: int| 0 <= j < total ==> (#[trigger] keys@[j]).0.consistent() && keys@[j].1.consistent(),
            stashes@ == stashes_of(stakers.take(validators as int)),
            transactions@.len() == 2 * i,
            forall|j: int| 0 <= j < i && j < validators ==> #[trigger] validator_at(transactions@, stakers, j),
            forall|j: int| validators <= j < i ==> #[trigger] nominator_at(transactions@, stakers, validators as int, j),
        decreases total - i,
    {
        let (stash, ctrl) = keys[i];
        let bond = signed_call(&stash, OuterCall::Staking(staking::Call::TxBond(STAKER_BOND, ctrl.public())), random_id());
        let second = if i < validators {
            // sign and submit a validate.
            signed_call(&ctrl, OuterCall::Staking(staking::Call::TxValidate()), random_id())
        } else {
            // sign and submit a nominate.
            let votes = choose_several(stashes.as_slice(), STAKER_VOTES);
            signed_call(&ctrl, OuterCall::Staking(staking::Call::TxNominate(votes)), random_id())
        };
        let ghost before = transactions@;
        transactions.push(bond);
        transactions.push(second);
        proof {
            assert(stakers[i as int] == (stash.spec_public(), ctrl.spec_public()));
            assert(keys@[i as int].0.consistent() && keys@[i as int].1.consistent());
            assert forall|j: int| 0 <= j < i + 1 && j < validators implies #[trigger] validator_at(transactions@, stakers, j) by {
                if j < i {
                    assert(validator_at(before, stakers, j));
                }
            }
            assert forall|j: int| validators <= j < i + 1 implies #[trigger] nominator_at(transactions@, stakers, validators as int, j) by {
                if j < i {
                    assert(nominator_at(before, stakers, validators as int, j));
                }
            }
        }
        i = i + 1;
    }

    let mut k: usize = 0;
    while k < random
        invariant
            total == validators + nominators,
            2 * total + random <= usize::MAX,
            random > 0 ==> total > 0,
            k <= random,
            keys@.len() == total,
            stakers == accounts_of(keys@),
            forall|j: int| 0 <= j < total ==> (#[trigger] keys@[j]).0.consistent() && keys@[j].1.consistent(),
            transactions@.len() == 2 * total + k,
            forall|j: int| 0 <= j < validators ==> #[trigger] validator_at(transactions@, stakers, j),
            forall|j: int| validators <= j < total ==> #[trigger] nominator_at(transactions@, stakers, validators as int, j),
            forall|kk: int| 0 <= kk < k ==> #[trigger] random_action_at(transactions@, stakers, 2 * total, kk),
        decreases random - k,
    {
        let kind = random_below(4);
        let (stash, ctrl) = choose_one(keys.as_slice());
        let tx = if kind == 0 {
            // a random account unbonds.
            signed_call(&stash, OuterCall::Staking(staking::Call::TxUnbond(STAKER_BOND / 2)), random_id())
        } else if kind == 1 {
            // a random account chills.
            signed_call(&ctrl, OuterCall::Staking(staking::Call::TxChill()), random_id())
        } else if kind == 2 {
            // a random account bonds extra.
            signed_call(&stash, OuterCall::Staking(staking::Call::TxBondExtra(STAKER_BOND)), random_id())
        } else {
            // a random account sets a new controller.
            let new_ctrl = testing::random();
            signed_call(&stash, OuterCall::Staking(staking::Call::TxSetController(new_ctrl.public())), random_id())
        };
        let ghost before = transactions@;
        proof {
            let idx = choose|idx: int| 0 <= idx < keys@.len() && keys@[idx] == (stash, ctrl);
            assert(keys@[idx].0.consistent() && keys@[idx].1.consistent());
            assert(stakers[idx] == (stash.spec_public(), ctrl.spec_public()));
            assert(random_action(tx, stakers[idx]));
        }
        transactions.push(tx);
        proof {
            let idx = choose|idx: int| 0 <= idx < keys@.len() && keys@[idx] == (stash, ctrl);
            assert(transactions@[2 * total + k] == tx);
            assert(random_action_at(transactions@, stakers, 2 * total, k as int));
            assert forall|j: int| 0 <= j < validators implies #[trigger] validator_at(transactions@, stakers, j) by {
                assert(validator_at(before, stakers, j));
            }
            assert forall|j: int| validators <= j < total implies #[trigger] nominator_at(transactions@, stakers, validators as int, j) by {
                assert(nominator_at(before, stakers, validators as int, j));
            }
            assert forall|kk: int| 0 <= kk < k + 1 implies #[trigger] random_action_at(transactions@, stakers, 2 * total, kk) by {
                if kk < k {
                    assert(random_action_at(before, stakers, 2 * total, kk));
                    let w = choose|w: int| 0 <= w < stakers.len() && random_action(before[2 * total + kk], #[trigger] stakers[w]);
                    assert(transactions@[2 * total + kk] == before[2 * total + kk]);
                    assert(random_action(transactions@[2 * total + kk], stakers[w]));
                }
            }
        }
        k = k + 1;
    }
    assert(stakers_world(transactions@, stakers, validators as int, nominators as int, random as int));
    transactions
}

} // verus!
