//! Executable checks of the conditions under which a call can be dispatched without a panic
//! (an arithmetic overflow, or a ledger missing where its controller says it is bonded), so
//! that a caller can refuse a call before dispatching it.

use vstd::prelude::*;
use crate::balances::{self, AccountBalance, BalanceOf};
use crate::codec::Codec;
use crate::primitives::{bytes_equal, AccountId, Balance, ThreadId};
use crate::runtime::ModuleRuntime;
use crate::staking::{self, Bonded, Ledger};
use crate::storage::{decode_or_default, map_key, map_key_for, map_read, map_write, StorageDefault, StorageMap};

verus! {

/// The value of `key` in map `M` as a transaction sees it (decoded, or the default where it
/// does not decode), and the thread that holds it against this one, if any, without accessing
/// it.
pub fn peek_map<R: ModuleRuntime, M: StorageMap<R>>(rt: &R, key: M::KeyType) -> (r: (M::ValueType, Option<ThreadId>))
    requires
        M::KeyType::model_encodable(key.value_model()),
    ensures
        r.0.value_model() == decode_or_default::<M::ValueType>(R::value_of(rt.rt_model(), map_key::<R, M>(key.value_model()))),
        r.1 == R::blocked_by(rt.rt_model(), map_key::<R, M>(key.value_model())),
{
    let k = map_key_for::<R, M>(key);
    let (v, blocked) = rt.peek(&k);
    match M::ValueType::decode(v.0.as_slice()) {
        Some((d, _)) => (d, blocked),
        None => (M::ValueType::default_value(), blocked),
    }
}

/// A typed read: what it returns, and that it keeps every value and every holder.
pub(crate) proof fn lemma_map_read<R: ModuleRuntime, M: StorageMap<R>>(m: R::Model, key: <M::KeyType as Codec>::Model)
    ensures
        map_read::<R, M>(m, key).0 == (match R::blocked_by(m, map_key::<R, M>(key)) {
            Some(t) => Err(t),
            None => Ok(decode_or_default::<M::ValueType>(R::value_of(m, map_key::<R, M>(key)))),
        }),
        forall|k2: Seq<u8>| #[trigger] R::value_of(map_read::<R, M>(m, key).1, k2) == R::value_of(m, k2),
        forall|k2: Seq<u8>| #[trigger] R::blocked_by(map_read::<R, M>(m, key).1, k2) == R::blocked_by(m, k2),
{
    R::lemma_read_step(m, map_key::<R, M>(key));
}

/// A typed write of an unblocked key: it sets that key, keeps the other values, and keeps every
/// holder.
pub(crate) proof fn lemma_map_write<R: ModuleRuntime, M: StorageMap<R>>(
    m: R::Model,
    key: <M::KeyType as Codec>::Model,
    v: <M::ValueType as Codec>::Model,
)
    requires
        R::blocked_by(m, map_key::<R, M>(key)) is None,
    ensures
        forall|k2: Seq<u8>| #[trigger] R::value_of(map_write::<R, M>(m, key, v).1, k2) == if k2 == map_key::<R, M>(key) {
            M::ValueType::encoding(v)
        } else {
            R::value_of(m, k2)
        },
        forall|k2: Seq<u8>| #[trigger] R::blocked_by(map_write::<R, M>(m, key, v).1, k2) == R::blocked_by(m, k2),
{
    R::lemma_write_step(m, map_key::<R, M>(key), M::ValueType::encoding(v));
}

/// Whether a transfer of `value` from `origin` to `dest` can be dispatched without a panic.
pub fn transfer_is_safe<R: ModuleRuntime>(rt: &R, origin: AccountId, dest: AccountId, value: Balance) -> (b: bool)
    ensures
        b == balances::transfer_safe::<R>(rt.rt_model(), origin.0@, dest.0@, value),
{
    let ghost m = rt.rt_model();
    let (ob, oblk) = peek_map::<R, BalanceOf<R>>(rt, origin);
    proof {
        lemma_map_read::<R, BalanceOf<R>>(m, origin.0@);
    }
    if oblk.is_some() {
        return true;
    }
    if ob.free() < value {
        return true;
    }
    let ghost b = ob.value_model();
    let ghost m1 = map_read::<R, BalanceOf<R>>(m, origin.0@).1;
    let ghost nb: (u128, u128) = ((b.0 - value) as u128, b.1);
    let ghost m2 = map_write::<R, BalanceOf<R>>(m1, origin.0@, nb).1;
    proof {
        lemma_map_write::<R, BalanceOf<R>>(m1, origin.0@, nb);
    }
    let ko = map_key_for::<R, BalanceOf<R>>(origin);
    let kd = map_key_for::<R, BalanceOf<R>>(dest);
    if bytes_equal(&ko.0, &kd.0) {
        proof {
            AccountBalance::lemma_roundtrip(nb, Seq::empty());
            assert(AccountBalance::encoding(nb) + Seq::<u8>::empty() =~= AccountBalance::encoding(nb));
            assert(balances::balance_in::<R>(m2, dest.0@) == nb);
        }
        return true;
    }
    let (db, dblk) = peek_map::<R, BalanceOf<R>>(rt, dest);
    dblk.is_some() || db.free() <= u128::MAX - value
}

/// Whether bonding `amount` of `stash` can be dispatched without a panic.
pub fn bond_is_safe<R: ModuleRuntime>(rt: &R, stash: AccountId, amount: Balance) -> (b: bool)
    ensures
        b == staking::bond_safe::<R>(rt.rt_model(), stash.0@, amount),
{
    proof {
        lemma_map_read::<R, Ledger<R>>(rt.rt_model(), stash.0@);
    }
    let (sb, _) = peek_map::<R, BalanceOf<R>>(rt, stash);
    sb.free() < amount || sb.reserved() <= u128::MAX - amount
}

/// Whether bonding `amount` more of `stash` can be dispatched without a panic.
pub fn bond_extra_is_safe<R: ModuleRuntime>(rt: &R, stash: AccountId, amount: Balance) -> (b: bool)
    ensures
        b == staking::bond_extra_safe::<R>(rt.rt_model(), stash.0@, amount),
{
    let ghost m = rt.rt_model();
    proof {
        lemma_map_read::<R, Ledger<R>>(m, stash.0@);
        lemma_map_read::<R, BalanceOf<R>>(map_read::<R, Ledger<R>>(m, stash.0@).1, stash.0@);
    }
    let (l, lblk) = peek_map::<R, Ledger<R>>(rt, stash);
    let (sb, bblk) = peek_map::<R, BalanceOf<R>>(rt, stash);
    if lblk.is_some() || bblk.is_some() {
        return true;
    }
    l.is_default() || sb.free() < amount || (sb.reserved() <= u128::MAX - amount && l.value <= u128::MAX - amount)
}

/// The storage keys of balances and of ledgers are apart.
pub(crate) proof fn lemma_balance_ledger_keys_differ<R: ModuleRuntime>(a: Seq<u8>, b: Seq<u8>)
    ensures
        map_key::<R, BalanceOf<R>>(a) != map_key::<R, Ledger<R>>(b),
{
    reveal_strlit("balances:balance_of");
    reveal_strlit("staking:ledger_of");
    assert(map_key::<R, BalanceOf<R>>(a)[0] != map_key::<R, Ledger<R>>(b)[0]);
}

/// Whether unbonding `amount` of `stash` can be dispatched without a panic.
pub fn unbond_is_safe<R: ModuleRuntime>(rt: &R, stash: AccountId, amount: Balance) -> (b: bool)
    ensures
        b == staking::unbond_safe::<R>(rt.rt_model(), stash.0@, amount),
{
    let ghost m = rt.rt_model();
    proof {
        lemma_map_read::<R, Ledger<R>>(m, stash.0@);
    }
    let (l, lblk) = peek_map::<R, Ledger<R>>(rt, stash);
    if lblk.is_some() {
        return true;
    }
    if l.is_default() || l.value < amount {
        return true;
    }
    let ghost lm = l.value_model();
    let ghost m1 = map_read::<R, Ledger<R>>(m, stash.0@).1;
    let ghost nl = ((lm.0 - amount) as u128, lm.1, lm.2);
    proof {
        lemma_map_write::<R, Ledger<R>>(m1, stash.0@, nl);
        lemma_balance_ledger_keys_differ::<R>(stash.0@, stash.0@);
    }
    let (sb, bblk) = peek_map::<R, BalanceOf<R>>(rt, stash);
    bblk.is_some() || (sb.reserved() > amount && sb.free() <= u128::MAX - amount)
}

/// Whether the controller `ctrl` is consistent: where it reads as bonded to a stash, and the
/// ledger of that stash can be read, the ledger is there.
pub fn controller_is_consistent<R: ModuleRuntime>(rt: &R, ctrl: AccountId) -> (b: bool)
    ensures
        b == staking::controller_consistent::<R>(rt.rt_model(), ctrl.0@),
{
    let ghost m = rt.rt_model();
    proof {
        lemma_map_read::<R, Bonded<R>>(m, ctrl.0@);
    }
    let (stash, sblk) = peek_map::<R, Bonded<R>>(rt, ctrl);
    if sblk.is_some() || stash.is_zero() {
        return true;
    }
    proof {
        lemma_map_read::<R, Ledger<R>>(map_read::<R, Bonded<R>>(m, ctrl.0@).1, stash.0@);
    }
    let (l, lblk) = peek_map::<R, Ledger<R>>(rt, stash);
    lblk.is_some() || !l.is_default()
}

/// Whether a call can be dispatched by `origin` without a panic.
pub fn dispatch_is_safe<R: ModuleRuntime>(rt: &R, c: &crate::outer_call::OuterCall, origin: AccountId) -> (b: bool)
    ensures
        b == crate::outer_call::outer_safe::<R>(c, rt.rt_model(), origin.0@),
{
    match c {
        crate::outer_call::OuterCall::Balances(balances::Call::Transfer(to, value)) => transfer_is_safe(
            rt,
            origin,
            *to,
            *value,
        ),
        crate::outer_call::OuterCall::Staking(sc) => match sc {
            staking::Call::TxBond(amount, _) => bond_is_safe(rt, origin, *amount),
            staking::Call::TxBondExtra(amount) => bond_extra_is_safe(rt, origin, *amount),
            staking::Call::TxUnbond(amount) => unbond_is_safe(rt, origin, *amount),
            staking::Call::TxSetController(_) => true,
            staking::Call::TxValidate() => controller_is_consistent(rt, origin),
            staking::Call::TxNominate(targets) => controller_is_consistent(rt, origin) && (targets.len() as u64)
                <= 0xffff_ffffu64,
            staking::Call::TxChill() => controller_is_consistent(rt, origin),
        },
    }
}

} // verus!
