//! The staking module: a stash account bonds part of its balance under a controller account,
//! and the controller declares the stash a validator, a nominator of other accounts, or chilled.

use vstd::prelude::*;
use core::marker::PhantomData;
use crate::balances::{balance_in, BalanceOf};
use crate::codec::{lemma_le_bytes_len, Codec};
use crate::primitives::{zero_bytes, AccountId, Balance, Key, Public};
use crate::runtime::{
    key_models, DispatchError, DispatchPermission, DispatchResult, Dispatchable, ModuleRuntime, UnwrapStorageOp,
    ValidationResult,
};
use crate::storage::{
    ascii_bytes, ascii_of, decode_or_default, map_clear_value, map_contains_value, map_key, map_key_for,
    map_mutate_value, map_read, map_read_value, map_write, map_write_value, typed_result, StorageDefault,
    StorageMap,
};

verus! {

/// A staker's role in the staking system.
#[derive(Debug, Clone, Copy, Eq, PartialEq, Structural)]
pub enum StakingRole {
    Validator,
    Nominator,
    Chilled,
}

/// The byte that encodes a role: the index of its variant.
pub open spec fn role_byte(r: StakingRole) -> u8 {
    match r {
        StakingRole::Validator => 0,
        StakingRole::Nominator => 1,
        StakingRole::Chilled => 2,
    }
}

/// The role a byte encodes, if any.
pub open spec fn role_of_byte(b: u8) -> Option<StakingRole> {
    if b == 0 {
        Some(StakingRole::Validator)
    } else if b == 1 {
        Some(StakingRole::Nominator)
    } else if b == 2 {
        Some(StakingRole::Chilled)
    } else {
        None
    }
}

impl Default for StakingRole {
    fn default() -> (r: Self)
        ensures
            r == StakingRole::Chilled,
    {
        StakingRole::Chilled
    }
}

impl Codec for StakingRole {
    type Model = StakingRole;

    open spec fn value_model(&self) -> StakingRole {
        *self
    }

    open spec fn encoding(m: StakingRole) -> Seq<u8> {
        seq![role_byte(m)]
    }

    open spec fn decoding(b: Seq<u8>) -> Option<StakingRole> {
        if b.len() >= 1 {
            role_of_byte(b[0])
        } else {
            None
        }
    }

    open spec fn model_encodable(m: StakingRole) -> bool {
        true
    }

    proof fn lemma_roundtrip(m: StakingRole, rest: Seq<u8>) {
    }

    proof fn lemma_canonical(b: Seq<u8>) {
        if b.len() >= 1 {
            assert(b.take(1) =~= seq![b[0]]);
        }
    }

    fn encode(&self) -> (r: Vec<u8>) {
        let b: u8 = match self {
            StakingRole::Validator => 0,
            StakingRole::Nominator => 1,
            StakingRole::Chilled => 2,
        };
        b.encode()
    }

    fn decode(b: &[u8]) -> (r: Option<(StakingRole, usize)>) {
        match u8::decode(b) {
            Some((0, n)) => Some((StakingRole::Validator, n)),
            Some((1, n)) => Some((StakingRole::Nominator, n)),
            Some((2, n)) => Some((StakingRole::Chilled, n)),
            _ => None,
        }
    }
}

/// The ledger of a staker.
#[derive(Debug, Clone, Copy, Eq, PartialEq)]
pub struct StakingLedger {
    pub value: Balance,
    pub controller: AccountId,
    pub role: StakingRole,
}

/// The model of a ledger: the bonded value, the bytes of the controller, and the role.
pub type LedgerModel = (u128, Seq<u8>, StakingRole);

/// The default ledger: nothing bonded, the all-zero controller, chilled.
pub open spec fn default_ledger() -> LedgerModel {
    (0u128, zero_bytes(), StakingRole::Chilled)
}

impl Codec for StakingLedger {
    type Model = LedgerModel;

    open spec fn value_model(&self) -> LedgerModel {
        (self.value, self.controller.0@, self.role)
    }

    open spec fn encoding(m: LedgerModel) -> Seq<u8> {
        u128::encoding(m.0) + m.1 + StakingRole::encoding(m.2)
    }

    open spec fn decoding(b: Seq<u8>) -> Option<LedgerModel> {
        match u128::decoding(b) {
            Some(v) => match Public::decoding(b.skip(16)) {
                Some(c) => match StakingRole::decoding(b.skip(48)) {
                    Some(r) => Some((v, c, r)),
                    None => None,
                },
                None => None,
            },
            None => None,
        }
    }

    open spec fn model_encodable(m: LedgerModel) -> bool {
        m.1.len() == 32
    }

    proof fn lemma_roundtrip(m: LedgerModel, rest: Seq<u8>) {
        let e0 = u128::encoding(m.0);
        let e2 = StakingRole::encoding(m.2);
        lemma_le_bytes_len(m.0 as nat, 16);
        let b = e0 + m.1 + e2 + rest;
        assert(b =~= e0 + (m.1 + e2 + rest));
        u128::lemma_roundtrip(m.0, m.1 + e2 + rest);
        assert(b.skip(16) =~= m.1 + (e2 + rest));
        Public::lemma_roundtrip(m.1, e2 + rest);
        assert(b.skip(48) =~= e2 + rest);
        StakingRole::lemma_roundtrip(m.2, rest);
    }

    proof fn lemma_canonical(b: Seq<u8>) {
        u128::lemma_canonical(b);
        if let Some((v, c, r)) = Self::decoding(b) {
            lemma_le_bytes_len(v as nat, 16);
            assert(b.take(49) =~= b.take(16) + b.skip(16).take(32) + b.skip(48).take(1));
            assert(b.skip(48).take(1) =~= seq![role_byte(r)]);
        }
    }

    fn encode(&self) -> (r: Vec<u8>) {
        let mut r = self.value.encode();
        let mut c = self.controller.encode();
        let mut o = self.role.encode();
        r.append(&mut c);
        r.append(&mut o);
        r
    }

    fn decode(b: &[u8]) -> (r: Option<(StakingLedger, usize)>) {
        let (value, _) = match u128::decode(b) {
            Some(x) => x,
            None => {
                return None;
            },
        };
        proof {
            lemma_le_bytes_len(value as nat, 16);
        }
        let rest = vstd::slice::slice_subrange(b, 16, b.len());
        assert(rest@ =~= b@.skip(16));
        let (controller, _) = match Public::decode(rest) {
            Some(x) => x,
            None => {
                return None;
            },
        };
        let rest2 = vstd::slice::slice_subrange(rest, 32, rest.len());
        assert(rest2@ =~= b@.skip(48));
        match StakingRole::decode(rest2) {
            Some((role, _)) => Some((StakingLedger { value, controller, role }, 49)),
            None => None,
        }
    }
}

impl StorageDefault for StakingLedger {
    open spec fn default_model() -> LedgerModel {
        default_ledger()
    }

    fn default_value() -> (v: StakingLedger) {
        StakingLedger { value: 0, controller: Public::zero(), role: StakingRole::Chilled }
    }

    fn is_default(&self) -> (b: bool) {
        let z = self.controller.is_zero();
        proof {
            if self.value_model() == default_ledger() {
                assert(self.controller.0@ =~= zero_bytes());
            }
        }
        self.value == 0 && z && self.role == StakingRole::Chilled
    }
}

impl StorageDefault for Public {
    open spec fn default_model() -> Seq<u8> {
        zero_bytes()
    }

    fn default_value() -> (v: Public) {
        Public::zero()
    }

    fn is_default(&self) -> (b: bool) {
        self.is_zero()
    }
}

/// A mapping from stash accounts to ledgers.
pub struct Ledger<R>(PhantomData<R>);

/// A mapping from controller accounts to stash.
pub struct Bonded<R>(PhantomData<R>);

/// A mapping from stash to nominations.
pub struct Nominations<R>(PhantomData<R>);

impl<R: ModuleRuntime> StorageMap<R> for Ledger<R> {
    type KeyType = AccountId;

    type ValueType = StakingLedger;

    open spec fn spec_prefix() -> Seq<u8> {
        ascii_of("staking:ledger_of"@)
    }

    fn prefix() -> (p: Vec<u8>) {
        proof {
            reveal_strlit("staking:ledger_of");
        }
        ascii_bytes("staking:ledger_of")
    }
}

impl<R: ModuleRuntime> StorageMap<R> for Bonded<R> {
    type KeyType = AccountId;

    type ValueType = AccountId;

    open spec fn spec_prefix() -> Seq<u8> {
        ascii_of("staking:bonded"@)
    }

    fn prefix() -> (p: Vec<u8>) {
        proof {
            reveal_strlit("staking:bonded");
        }
        ascii_bytes("staking:bonded")
    }
}

impl<R: ModuleRuntime> StorageMap<R> for Nominations<R> {
    type KeyType = AccountId;

    type ValueType = Vec<AccountId>;

    open spec fn spec_prefix() -> Seq<u8> {
        ascii_of("staking:nominations"@)
    }

    fn prefix() -> (p: Vec<u8>) {
        proof {
            reveal_strlit("staking:nominations");
        }
        ascii_bytes("staking:nominations")
    }
}

impl<R: ModuleRuntime> Ledger<R> {
    /// The storage key of the ledger of `key`.
    pub fn key_for(key: AccountId) -> (k: Key)
        ensures
            k.0@ == map_key::<R, Self>(key.0@),
    {
        proof {
            key.lemma_len();
        }
        map_key_for::<R, Self>(key)
    }

    /// Read the ledger of `key`.
    pub fn read(runtime: &mut R, key: AccountId) -> (r: Result<StakingLedger, u64>)
        ensures
            (typed_result(r), final(runtime).rt_model()) == map_read::<R, Self>(old(runtime).rt_model(), key.0@),
    {
        proof {
            key.lemma_len();
        }
        map_read_value::<R, Self>(runtime, key)
    }

    /// Write the ledger of `key`.
    pub fn write(runtime: &mut R, key: AccountId, val: StakingLedger) -> (r: Result<(), u64>)
        ensures
            (r, final(runtime).rt_model()) == map_write::<R, Self>(old(runtime).rt_model(), key.0@, val.value_model()),
    {
        proof {
            key.lemma_len();
            val.controller.lemma_len();
        }
        map_write_value::<R, Self>(runtime, key, val)
    }

    /// Write the default ledger of `key`.
    pub fn clear(runtime: &mut R, key: AccountId) -> (r: Result<(), u64>)
        ensures
            (r, final(runtime).rt_model()) == map_write::<R, Self>(old(runtime).rt_model(), key.0@, default_ledger()),
    {
        proof {
            key.lemma_len();
        }
        map_clear_value::<R, Self>(runtime, key)
    }

    /// Whether the ledger of `key` differs from the default.
    pub fn exists_at(runtime: &mut R, key: AccountId) -> (r: Result<bool, u64>)
        ensures
            final(runtime).rt_model() == map_read::<R, Self>(old(runtime).rt_model(), key.0@).1,
            match map_read::<R, Self>(old(runtime).rt_model(), key.0@).0 {
                Ok(v) => r == Ok::<bool, u64>(v != default_ledger()),
                Err(t) => r == Err::<bool, u64>(t),
            },
    {
        proof {
            key.lemma_len();
        }
        map_contains_value::<R, Self>(runtime, key)
    }
}

impl<R: ModuleRuntime> Bonded<R> {
    /// The storage key of the stash of controller `key`.
    pub fn key_for(key: AccountId) -> (k: Key)
        ensures
            k.0@ == map_key::<R, Self>(key.0@),
    {
        proof {
            key.lemma_len();
        }
        map_key_for::<R, Self>(key)
    }

    /// Read the stash of controller `key`.
    pub fn read(runtime: &mut R, key: AccountId) -> (r: Result<AccountId, u64>)
        ensures
            (typed_result(r), final(runtime).rt_model()) == map_read::<R, Self>(old(runtime).rt_model(), key.0@),
    {
        proof {
            key.lemma_len();
        }
        map_read_value::<R, Self>(runtime, key)
    }

    /// Write the stash of controller `key`.
    pub fn write(runtime: &mut R, key: AccountId, val: AccountId) -> (r: Result<(), u64>)
        ensures
            (r, final(runtime).rt_model()) == map_write::<R, Self>(old(runtime).rt_model(), key.0@, val.0@),
    {
        proof {
            key.lemma_len();
            val.lemma_len();
        }
        map_write_value::<R, Self>(runtime, key, val)
    }

    /// Write the default (all-zero) stash of controller `key`.
    pub fn clear(runtime: &mut R, key: AccountId) -> (r: Result<(), u64>)
        ensures
            (r, final(runtime).rt_model()) == map_write::<R, Self>(
                old(runtime).rt_model(),
                key.0@,
                zero_bytes(),
            ),
    {
        proof {
            key.lemma_len();
        }
        map_clear_value::<R, Self>(runtime, key)
    }

    /// Whether controller `key` has a stash other than the default.
    pub fn exists_at(runtime: &mut R, key: AccountId) -> (r: Result<bool, u64>)
        ensures
            final(runtime).rt_model() == map_read::<R, Self>(old(runtime).rt_model(), key.0@).1,
            match map_read::<R, Self>(old(runtime).rt_model(), key.0@).0 {
                Ok(v) => r == Ok::<bool, u64>(v != zero_bytes()),
                Err(t) => r == Err::<bool, u64>(t),
            },
    {
        proof {
            key.lemma_len();
        }
        map_contains_value::<R, Self>(runtime, key)
    }
}

/// The byte strings of a list of accounts.
pub open spec fn accounts_model(v: Seq<AccountId>) -> Seq<Seq<u8>> {
    v.map_values(|a: AccountId| a.0@)
}

proof fn lemma_accounts_encodable(v: Seq<AccountId>)
    requires
        v.len() <= u32::MAX,
    ensures
        <Vec<AccountId> as Codec>::model_encodable(accounts_model(v)),
{
    assert forall|i: int| 0 <= i < v.len() implies Public::model_encodable(#[trigger] accounts_model(v)[i]) by {
        v[i].lemma_len();
    }
}

impl<R: ModuleRuntime> Nominations<R> {
    /// The storage key of the nominations of `key`.
    pub fn key_for(key: AccountId) -> (k: Key)
        ensures
            k.0@ == map_key::<R, Self>(key.0@),
    {
        proof {
            key.lemma_len();
        }
        map_key_for::<R, Self>(key)
    }

    /// Read the nominations of `key`.
    pub fn read(runtime: &mut R, key: AccountId) -> (r: Result<Vec<AccountId>, u64>)
        ensures
            (typed_result(r), final(runtime).rt_model()) == map_read::<R, Self>(old(runtime).rt_model(), key.0@),
    {
        proof {
            key.lemma_len();
        }
        map_read_value::<R, Self>(runtime, key)
    }

    /// Write the nominations of `key`.
    pub fn write(runtime: &mut R, key: AccountId, val: Vec<AccountId>) -> (r: Result<(), u64>)
        requires
            val.len() <= u32::MAX,
        ensures
            (r, final(runtime).rt_model()) == map_write::<R, Self>(old(runtime).rt_model(), key.0@, accounts_model(val@)),
    {
        proof {
            key.lemma_len();
            lemma_accounts_encodable(val@);
            assert(val.value_model() =~= accounts_model(val@));
        }
        map_write_value::<R, Self>(runtime, key, val)
    }

    /// Write the default (empty) nominations of `key`.
    pub fn clear(runtime: &mut R, key: AccountId) -> (r: Result<(), u64>)
        ensures
            (r, final(runtime).rt_model()) == map_write::<R, Self>(old(runtime).rt_model(), key.0@, Seq::empty()),
    {
        proof {
            key.lemma_len();
        }
        map_clear_value::<R, Self>(runtime, key)
    }

    /// Whether `key` has nominations.
    pub fn exists_at(runtime: &mut R, key: AccountId) -> (r: Result<bool, u64>)
        ensures
            final(runtime).rt_model() == map_read::<R, Self>(old(runtime).rt_model(), key.0@).1,
            match map_read::<R, Self>(old(runtime).rt_model(), key.0@).0 {
                Ok(v) => r == Ok::<bool, u64>(v != Seq::<Seq<u8>>::empty()),
                Err(t) => r == Err::<bool, u64>(t),
            },
    {
        proof {
            key.lemma_len();
        }
        map_contains_value::<R, Self>(runtime, key)
    }
}

/// The logic error of a transaction whose stash is already bonded.
pub const ALREADY_BONDED: &'static str = "Already bonded.";

/// The logic error of a transaction whose stash or controller is not bonded.
pub const NOT_BONDED: &'static str = "Not bonded.";

/// The logic error of an unbonding of more than is bonded.
pub const TOO_MUCH_UNBONDING: &'static str = "Too much unbonding.";

/// The outcome of bonding `amount` of `stash` under `ctrl`: the ledger of the stash is read
/// (refused: the transaction goes to the owner); an existing ledger is a logic error; the
/// balance of the stash is read (refused: orphan) and `amount` of it is reserved (too little
/// free balance is a logic error); the controller is bonded to the stash (refused: orphan); and
/// a chilled ledger of `amount` under `ctrl` is written.
pub open spec fn bond_spec<R: ModuleRuntime>(m: R::Model, stash: Seq<u8>, amount: u128, ctrl: Seq<u8>) -> (
    DispatchResult,
    R::Model,
) {
    let (r1, m1) = map_read::<R, Ledger<R>>(m, stash);
    match r1 {
        Err(t) => (Err(DispatchError::Tainted(t, false)), m1),
        Ok(l) => if l != default_ledger() {
            (Err(DispatchError::LogicError(ALREADY_BONDED)), m1)
        } else {
            let (r2, m2) = map_read::<R, BalanceOf<R>>(m1, stash);
            match r2 {
                Err(t) => (Err(DispatchError::Tainted(t, true)), m2),
                Ok(b) => if b.0 < amount {
                    (Err(DispatchError::LogicError("Not enough funds.")), m2)
                } else {
                    let m3 = map_write::<R, BalanceOf<R>>(m2, stash, ((b.0 - amount) as u128, (b.1 + amount) as u128)).1;
                    let (r4, m4) = map_write::<R, Bonded<R>>(m3, ctrl, stash);
                    match r4 {
                        Err(t) => (Err(DispatchError::Tainted(t, true)), m4),
                        Ok(_) => (Ok(()), map_write::<R, Ledger<R>>(m4, stash, (amount, ctrl, StakingRole::Chilled)).1),
                    }
                },
            }
        },
    }
}

/// Bonding does not overflow the reserved balance of the stash.
pub open spec fn bond_safe<R: ModuleRuntime>(m: R::Model, stash: Seq<u8>, amount: u128) -> bool {
    let m1 = map_read::<R, Ledger<R>>(m, stash).1;
    balance_in::<R>(m1, stash).0 >= amount ==> balance_in::<R>(m1, stash).1 + amount <= u128::MAX
}

/// Bond `amount` of the balance of `stash` under the controller `controller`.
pub fn tx_bond<R: ModuleRuntime>(runtime: &mut R, stash: AccountId, amount: Balance, controller: AccountId) -> (r: DispatchResult)
    requires
        bond_safe::<R>(old(runtime).rt_model(), stash.0@, amount),
    ensures
        (r, final(runtime).rt_model()) == bond_spec::<R>(old(runtime).rt_model(), stash.0@, amount, controller.0@),
{
    let ghost m0 = runtime.rt_model();
    let ghost lk = map_key::<R, Ledger<R>>(stash.0@);
    let ghost bk = map_key::<R, BalanceOf<R>>(stash.0@);
    // check already bonded.
    if Ledger::exists_at(runtime, stash).or_forward()? {
        return Err(DispatchError::LogicError(ALREADY_BONDED));
    }
    proof {
        R::lemma_read_step(m0, lk);
    }
    let ghost m1 = runtime.rt_model();
    // check enough balance and write balance.
    let mut stash_balance = BalanceOf::read(runtime, stash).or_orphan()?;
    proof {
        R::lemma_read_step(m1, bk);
    }
    let ghost m2 = runtime.rt_model();
    match stash_balance.reserve(amount) {
        Ok(()) => {},
        Err(e) => {
            return Err(DispatchError::LogicError(e));
        },
    }
    proof {
        R::lemma_write_step(m2, bk, crate::balances::AccountBalance::encoding(stash_balance.value_model()));
    }
    BalanceOf::write(runtime, stash, stash_balance).expect("Must be owned.");
    let ghost m3 = runtime.rt_model();
    // write bonded
    Bonded::write(runtime, controller, stash).or_orphan()?;
    let ghost m4 = runtime.rt_model();
    proof {
        R::lemma_write_step(m3, map_key::<R, Bonded<R>>(controller.0@), controller.0@);
        R::lemma_write_step(m3, map_key::<R, Bonded<R>>(controller.0@), stash.0@);
    }
    // write ledger.
    let ledger = StakingLedger { controller, value: amount, role: StakingRole::Chilled };
    proof {
        R::lemma_write_step(m4, lk, StakingLedger::encoding(ledger.value_model()));
    }
    Ledger::write(runtime, stash, ledger).expect("Must be owned.");
    Ok(())
}

/// The outcome of bonding `amount` more of a bonded `stash`: the ledger is read (refused: the
/// transaction goes to the owner); an unbonded stash is a logic error; the balance is read
/// (refused: orphan) and `amount` of it reserved (too little free balance is a logic error);
/// the ledger's value grows by `amount`.
pub open spec fn bond_extra_spec<R: ModuleRuntime>(m: R::Model, stash: Seq<u8>, amount: u128) -> (DispatchResult, R::Model) {
    let (r1, m1) = map_read::<R, Ledger<R>>(m, stash);
    match r1 {
        Err(t) => (Err(DispatchError::Tainted(t, false)), m1),
        Ok(l) => if l == default_ledger() {
            (Err(DispatchError::LogicError(NOT_BONDED)), m1)
        } else {
            let (r2, m2) = map_read::<R, BalanceOf<R>>(m1, stash);
            match r2 {
                Err(t) => (Err(DispatchError::Tainted(t, true)), m2),
                Ok(b) => if b.0 < amount {
                    (Err(DispatchError::LogicError("Not enough funds.")), m2)
                } else {
                    let m3 = map_write::<R, BalanceOf<R>>(m2, stash, ((b.0 - amount) as u128, (b.1 + amount) as u128)).1;
                    (Ok(()), map_write::<R, Ledger<R>>(m3, stash, ((l.0 + amount) as u128, l.1, l.2)).1)
                },
            }
        },
    }
}

/// Bonding more overflows neither the reserved balance nor the bonded value.
pub open spec fn bond_extra_safe<R: ModuleRuntime>(m: R::Model, stash: Seq<u8>, amount: u128) -> bool {
    let (r1, m1) = map_read::<R, Ledger<R>>(m, stash);
    let (r2, m2) = map_read::<R, BalanceOf<R>>(m1, stash);
    match (r1, r2) {
        (Ok(l), Ok(b)) => l != default_ledger() && b.0 >= amount ==> b.1 + amount <= u128::MAX && l.0 + amount
            <= u128::MAX,
        _ => true,
    }
}

/// Bond `amount` more of the balance of the bonded `stash`.
pub fn tx_bond_extra<R: ModuleRuntime>(runtime: &mut R, stash: AccountId, amount: Balance) -> (r: DispatchResult)
    requires
        bond_extra_safe::<R>(old(runtime).rt_model(), stash.0@, amount),
    ensures
        (r, final(runtime).rt_model()) == bond_extra_spec::<R>(old(runtime).rt_model(), stash.0@, amount),
{
    let ghost m0 = runtime.rt_model();
    let ghost lk = map_key::<R, Ledger<R>>(stash.0@);
    let ghost bk = map_key::<R, BalanceOf<R>>(stash.0@);
    let mut ledger = Ledger::read(runtime, stash).or_forward()?;
    if ledger.is_default() {
        return Err(DispatchError::LogicError(NOT_BONDED));
    }
    proof {
        R::lemma_read_step(m0, lk);
    }
    let ghost m1 = runtime.rt_model();
    // note the second argument, first read can fail, second will cause orphan.
    let mut balance = BalanceOf::read(runtime, stash).or_orphan()?;
    proof {
        R::lemma_read_step(m1, bk);
    }
    let ghost m2 = runtime.rt_model();
    match balance.reserve(amount) {
        Ok(()) => {},
        Err(e) => {
            return Err(DispatchError::LogicError(e));
        },
    }
    proof {
        R::lemma_write_step(m2, bk, crate::balances::AccountBalance::encoding(balance.value_model()));
    }
    BalanceOf::write(runtime, stash, balance).expect("Must be owned.");
    let ghost m3 = runtime.rt_model();
    ledger.value = ledger.value + amount;
    proof {
        R::lemma_write_step(m3, lk, StakingLedger::encoding(ledger.value_model()));
    }
    Ledger::write(runtime, stash, ledger).expect("Must be owned.");
    Ok(())
}

/// The outcome of unbonding `amount` of a bonded `stash`: the ledger is read (refused: the
/// transaction goes to the owner); an unbonded stash, or less than `amount` bonded, is a logic
/// error; the ledger's value shrinks by `amount`, and `amount` of the reserved balance becomes
/// free again (refused: orphan).
pub open spec fn unbond_spec<R: ModuleRuntime>(m: R::Model, stash: Seq<u8>, amount: u128) -> (DispatchResult, R::Model) {
    let (r1, m1) = map_read::<R, Ledger<R>>(m, stash);
    match r1 {
        Err(t) => (Err(DispatchError::Tainted(t, false)), m1),
        Ok(l) => if l == default_ledger() {
            (Err(DispatchError::LogicError(NOT_BONDED)), m1)
        } else if l.0 < amount {
            (Err(DispatchError::LogicError(TOO_MUCH_UNBONDING)), m1)
        } else {
            let m2 = map_write::<R, Ledger<R>>(m1, stash, ((l.0 - amount) as u128, l.1, l.2)).1;
            let (r3, m3) = map_read::<R, BalanceOf<R>>(m2, stash);
            match r3 {
                Err(t) => (Err(DispatchError::Tainted(t, true)), m3),
                Ok(b) => (Ok(()), map_write::<R, BalanceOf<R>>(m3, stash, ((b.0 + amount) as u128, (b.1 - amount) as u128)).1),
            }
        },
    }
}

/// Where unbonding gets as far as the balance, strictly more than `amount` is reserved and the
/// free balance does not overflow.
pub open spec fn unbond_safe<R: ModuleRuntime>(m: R::Model, stash: Seq<u8>, amount: u128) -> bool {
    let (r1, m1) = map_read::<R, Ledger<R>>(m, stash);
    match r1 {
        Ok(l) => {
            let m2 = map_write::<R, Ledger<R>>(m1, stash, ((l.0 - amount) as u128, l.1, l.2)).1;
            l != default_ledger() && l.0 >= amount && R::blocked_by(m2, map_key::<R, BalanceOf<R>>(stash)) is None ==> {
                &&& balance_in::<R>(m2, stash).1 > amount
                &&& balance_in::<R>(m2, stash).0 + amount <= u128::MAX
            }
        },
        Err(_) => true,
    }
}

/// Unbond `amount` of the bonded `stash`.
pub fn tx_unbond<R: ModuleRuntime>(runtime: &mut R, stash: AccountId, amount: Balance) -> (r: DispatchResult)
    requires
        unbond_safe::<R>(old(runtime).rt_model(), stash.0@, amount),
    ensures
        (r, final(runtime).rt_model()) == unbond_spec::<R>(old(runtime).rt_model(), stash.0@, amount),
{
    let ghost m0 = runtime.rt_model();
    let ghost lk = map_key::<R, Ledger<R>>(stash.0@);
    let mut ledger = Ledger::read(runtime, stash).or_forward()?;
    if ledger.is_default() {
        return Err(DispatchError::LogicError(NOT_BONDED));
    }
    if ledger.value < amount {
        return Err(DispatchError::LogicError(TOO_MUCH_UNBONDING));
    }
    proof {
        R::lemma_read_step(m0, lk);
    }
    let ghost m1 = runtime.rt_model();
    ledger.value = ledger.value - amount;
    proof {
        R::lemma_write_step(m1, lk, StakingLedger::encoding(ledger.value_model()));
    }
    // update the ledger.
    Ledger::write(runtime, stash, ledger).expect("Must be owned.");
    // update the balance.
    let release = |old: crate::balances::AccountBalance| -> (new: crate::balances::AccountBalance)
        requires
            old.value_model().1 > amount,
            old.value_model().0 + amount <= u128::MAX,
        ensures
            new.value_model() == ((old.value_model().0 + amount) as u128, (old.value_model().1 - amount) as u128),
        {
            let mut b = old;
            let r = b.unreserve(amount);
            b
        };
    proof {
        stash.lemma_len();
    }
    map_mutate_value::<R, BalanceOf<R>, _>(runtime, stash, release).or_orphan()?;
    Ok(())
}

/// The outcome of moving the bonding of a bonded `stash` to the controller `ctrl`: the ledger
/// is read (refused: the transaction goes to the owner); an unbonded stash is a logic error;
/// the same controller again changes nothing; else the previous controller is unbonded
/// (refused: the transaction goes to the owner), `ctrl` is bonded to the stash (refused:
/// orphan), and the ledger names `ctrl`.
pub open spec fn set_controller_spec<R: ModuleRuntime>(m: R::Model, stash: Seq<u8>, ctrl: Seq<u8>) -> (
    DispatchResult,
    R::Model,
) {
    let (r1, m1) = map_read::<R, Ledger<R>>(m, stash);
    match r1 {
        Err(t) => (Err(DispatchError::Tainted(t, false)), m1),
        Ok(l) => if l == default_ledger() {
            (Err(DispatchError::LogicError(NOT_BONDED)), m1)
        } else if l.1 == ctrl {
            (Ok(()), m1)
        } else {
            let (r2, m2) = map_write::<R, Bonded<R>>(m1, l.1, zero_bytes());
            match r2 {
                Err(t) => (Err(DispatchError::Tainted(t, false)), m2),
                Ok(_) => {
                    let (r3, m3) = map_write::<R, Bonded<R>>(m2, ctrl, stash);
                    match r3 {
                        Err(t) => (Err(DispatchError::Tainted(t, true)), m3),
                        Ok(_) => (Ok(()), map_write::<R, Ledger<R>>(m3, stash, (l.0, ctrl, l.2)).1),
                    }
                },
            }
        },
    }
}

/// Move the bonding of the bonded `stash` to the controller `ctrl`.
pub fn tx_set_controller<R: ModuleRuntime>(runtime: &mut R, stash: AccountId, ctrl: AccountId) -> (r: DispatchResult)
    ensures
        (r, final(runtime).rt_model()) == set_controller_spec::<R>(old(runtime).rt_model(), stash.0@, ctrl.0@),
{
    let ghost m0 = runtime.rt_model();
    let ghost lk = map_key::<R, Ledger<R>>(stash.0@);
    let mut ledger = Ledger::read(runtime, stash).or_forward()?;
    if ledger.is_default() {
        return Err(DispatchError::LogicError(NOT_BONDED));
    }
    proof {
        R::lemma_read_step(m0, lk);
    }
    let ghost m1 = runtime.rt_model();
    let prev_ctrl = ledger.controller;
    if prev_ctrl.same(&ctrl) {
        return Ok(());
    } else {
        ledger.controller = ctrl;
    }
    // remove previous binding.
    Bonded::clear(runtime, prev_ctrl).or_forward()?;
    proof {
        R::lemma_write_step(m1, map_key::<R, Bonded<R>>(prev_ctrl.0@), Public::encoding(zero_bytes()));
    }
    let ghost m2 = runtime.rt_model();
    // insert new bonding.
    Bonded::write(runtime, ctrl, stash).or_orphan()?;
    proof {
        R::lemma_write_step(m2, map_key::<R, Bonded<R>>(ctrl.0@), stash.0@);
    }
    let ghost m3 = runtime.rt_model();
    proof {
        R::lemma_write_step(m3, lk, StakingLedger::encoding(ledger.value_model()));
    }
    // update ledger.
    Ledger::write(runtime, stash, ledger).expect("Must be owned.");
    Ok(())
}

/// The all-zero account, which is what an unbonded controller reads as its stash.
pub open spec fn zero_account() -> Seq<u8> {
    zero_bytes()
}

/// A bonded controller has a ledger: where the controller `ctrl` reads as bonded to a stash
/// and the ledger of that stash is read, it is not the default ledger.
pub open spec fn controller_consistent<R: ModuleRuntime>(m: R::Model, ctrl: Seq<u8>) -> bool {
    let (r1, m1) = map_read::<R, Bonded<R>>(m, ctrl);
    match r1 {
        Ok(s) => s != zero_account() ==> match map_read::<R, Ledger<R>>(m1, s).0 {
            Ok(l) => l != default_ledger(),
            Err(_) => true,
        },
        Err(_) => true,
    }
}

/// The outcome of a step of the controller `ctrl` on the ledger of its stash: the stash is
/// read (refused: the transaction goes to the owner); an unbonded controller is a logic error;
/// the ledger of the stash is read (refused: orphan); then `step` finishes on the stash, its
/// ledger and the model.
pub open spec fn controller_spec<R: ModuleRuntime>(
    m: R::Model,
    ctrl: Seq<u8>,
    step: spec_fn(Seq<u8>, LedgerModel, R::Model) -> (DispatchResult, R::Model),
) -> (DispatchResult, R::Model) {
    let (r1, m1) = map_read::<R, Bonded<R>>(m, ctrl);
    match r1 {
        Err(t) => (Err(DispatchError::Tainted(t, false)), m1),
        Ok(s) => if s == zero_account() {
            (Err(DispatchError::LogicError(NOT_BONDED)), m1)
        } else {
            let (r2, m2) = map_read::<R, Ledger<R>>(m1, s);
            match r2 {
                Err(t) => (Err(DispatchError::Tainted(t, true)), m2),
                Ok(l) => step(s, l, m2),
            }
        },
    }
}

/// The outcome of declaring the stash of `ctrl` a validator.
pub open spec fn validate_spec<R: ModuleRuntime>(m: R::Model, ctrl: Seq<u8>) -> (DispatchResult, R::Model) {
    controller_spec::<R>(
        m,
        ctrl,
        |s: Seq<u8>, l: LedgerModel, m2: R::Model|
            (Ok(()), map_write::<R, Ledger<R>>(m2, s, (l.0, l.1, StakingRole::Validator)).1),
    )
}

/// The outcome of declaring the stash of `ctrl` a nominator of `targets`: the nominations are
/// written (refused: orphan), then the ledger.
pub open spec fn nominate_spec<R: ModuleRuntime>(m: R::Model, ctrl: Seq<u8>, targets: Seq<Seq<u8>>) -> (
    DispatchResult,
    R::Model,
) {
    controller_spec::<R>(
        m,
        ctrl,
        |s: Seq<u8>, l: LedgerModel, m2: R::Model|
            {
                let (r3, m3) = map_write::<R, Nominations<R>>(m2, s, targets);
                match r3 {
                    Err(t) => (Err(DispatchError::Tainted(t, true)), m3),
                    Ok(_) => (Ok(()), map_write::<R, Ledger<R>>(m3, s, (l.0, l.1, StakingRole::Nominator)).1),
                }
            },
    )
}

/// The outcome of chilling the stash of `ctrl`: a nominator's nominations are cleared
/// (refused: orphan), then the ledger is chilled.
pub open spec fn chill_spec<R: ModuleRuntime>(m: R::Model, ctrl: Seq<u8>) -> (DispatchResult, R::Model) {
    controller_spec::<R>(
        m,
        ctrl,
        |s: Seq<u8>, l: LedgerModel, m2: R::Model|
            {
                let (r3, m3) = if l.2 == StakingRole::Nominator {
                    map_write::<R, Nominations<R>>(m2, s, Seq::empty())
                } else {
                    (Ok(()), m2)
                };
                match r3 {
                    Err(t) => (Err(DispatchError::Tainted(t, true)), m3),
                    Ok(_) => (Ok(()), map_write::<R, Ledger<R>>(m3, s, (l.0, l.1, StakingRole::Chilled)).1),
                }
            },
    )
}

/// Read the stash of the controller `ctrl` and its ledger, as the steps of `controller_spec`.
fn bonded_ledger<R: ModuleRuntime>(runtime: &mut R, ctrl: AccountId) -> (r: Result<(AccountId, StakingLedger), DispatchError>)
    ensures
        ({
            let (r1, m1) = map_read::<R, Bonded<R>>(old(runtime).rt_model(), ctrl.0@);
            match r1 {
                Err(t) => r == Err::<(AccountId, StakingLedger), DispatchError>(DispatchError::Tainted(t, false))
                    && final(runtime).rt_model() == m1,
                Ok(s) => if s == zero_account() {
                    r == Err::<(AccountId, StakingLedger), DispatchError>(DispatchError::LogicError(NOT_BONDED))
                        && final(runtime).rt_model() == m1
                } else {
                    let (r2, m2) = map_read::<R, Ledger<R>>(m1, s);
                    final(runtime).rt_model() == m2 && match r2 {
                        Err(t) => r == Err::<(AccountId, StakingLedger), DispatchError>(DispatchError::Tainted(t, true)),
                        Ok(l) => r matches Ok((sa, la)) && sa.0@ == s && la.value_model() == l
                            && R::blocked_by(m2, map_key::<R, Ledger<R>>(s)) is None,
                    }
                },
            }
        }),
{
    let ghost m0 = runtime.rt_model();
    let stash = Bonded::read(runtime, ctrl).or_forward()?;
    if stash.is_zero() {
        return Err(DispatchError::LogicError(NOT_BONDED));
    }
    let ghost m1 = runtime.rt_model();
    let ledger = Ledger::read(runtime, stash).or_orphan()?;
    proof {
        R::lemma_read_step(m1, map_key::<R, Ledger<R>>(stash.0@));
    }
    Ok((stash, ledger))
}

/// Declare the stash of the controller `ctrl` a validator.
pub fn tx_validate<R: ModuleRuntime>(runtime: &mut R, ctrl: AccountId) -> (r: DispatchResult)
    requires
        controller_consistent::<R>(old(runtime).rt_model(), ctrl.0@),
    ensures
        (r, final(runtime).rt_model()) == validate_spec::<R>(old(runtime).rt_model(), ctrl.0@),
{
    // a bonded controller always has a ledger (`controller_consistent`).
    let (stash, mut ledger) = bonded_ledger(runtime, ctrl)?;
    let ghost m2 = runtime.rt_model();
    // update ledger.
    ledger.role = StakingRole::Validator;
    proof {
        R::lemma_write_step(m2, map_key::<R, Ledger<R>>(stash.0@), StakingLedger::encoding(ledger.value_model()));
    }
    Ledger::write(runtime, stash, ledger).expect("Must be owned.");
    Ok(())
}

/// Declare the stash of the controller `ctrl` a nominator of `targets`.
pub fn tx_nominate<R: ModuleRuntime>(runtime: &mut R, ctrl: AccountId, targets: Vec<AccountId>) -> (r: DispatchResult)
    requires
        controller_consistent::<R>(old(runtime).rt_model(), ctrl.0@),
        targets.len() <= u32::MAX,
    ensures
        (r, final(runtime).rt_model()) == nominate_spec::<R>(old(runtime).rt_model(), ctrl.0@, accounts_model(targets@)),
{
    let (stash, mut ledger) = bonded_ledger(runtime, ctrl)?;
    let ghost m2 = runtime.rt_model();
    // write targets.
    Nominations::write(runtime, stash, targets).or_orphan()?;
    let ghost m3 = runtime.rt_model();
    proof {
        R::lemma_write_step(m2, map_key::<R, Nominations<R>>(stash.0@), <Vec<AccountId> as Codec>::encoding(accounts_model(targets@)));
    }
    // update ledger.
    ledger.role = StakingRole::Nominator;
    proof {
        R::lemma_write_step(m3, map_key::<R, Ledger<R>>(stash.0@), StakingLedger::encoding(ledger.value_model()));
    }
    Ledger::write(runtime, stash, ledger).expect("Must be owned.");
    Ok(())
}

/// Chill the stash of the controller `ctrl`, clearing any nominations.
pub fn tx_chill<R: ModuleRuntime>(runtime: &mut R, ctrl: AccountId) -> (r: DispatchResult)
    requires
        controller_consistent::<R>(old(runtime).rt_model(), ctrl.0@),
    ensures
        (r, final(runtime).rt_model()) == chill_spec::<R>(old(runtime).rt_model(), ctrl.0@),
{
    let (stash, mut ledger) = bonded_ledger(runtime, ctrl)?;
    let ghost m2 = runtime.rt_model();
    // clear potentially the nominations.
    if ledger.role == StakingRole::Nominator {
        Nominations::clear(runtime, stash).or_orphan()?;
        proof {
            R::lemma_write_step(m2, map_key::<R, Nominations<R>>(stash.0@), <Vec<AccountId> as Codec>::encoding(Seq::empty()));
        }
    }
    let ghost m3 = runtime.rt_model();
    // update ledger.
    ledger.role = StakingRole::Chilled;
    proof {
        R::lemma_write_step(m3, map_key::<R, Ledger<R>>(stash.0@), StakingLedger::encoding(ledger.value_model()));
    }
    Ledger::write(runtime, stash, ledger).expect("Must be owned.");
    Ok(())
}

/// True when both lists hold the same accounts in the same order.
pub fn accounts_equal(a: &Vec<AccountId>, b: &Vec<AccountId>) -> (r: bool)
    ensures
        r == (a@ == b@),
{
    if a.len() != b.len() {
        return false;
    }
    let mut i: usize = 0;
    while i < a.len()
        invariant
            a@.len() == b@.len(),
            i <= a@.len(),
            forall|j: int| 0 <= j < i ==> a@[j] == b@[j],
        decreases a@.len() - i,
    {
        if !a[i].same(&b[i]) {
            return false;
        }
        i = i + 1;
    }
    assert(a@ =~= b@);
    true
}

/// The call of the staking module.
#[derive(Debug, Eq, PartialEq)]
pub enum Call {
    TxBond(Balance, AccountId),
    TxBondExtra(Balance),
    TxUnbond(Balance),
    TxSetController(AccountId),
    TxValidate(),
    TxNominate(Vec<AccountId>),
    TxChill(),
}

impl Call {
    /// Two calls are the same: the same variant with the same fields, a list of targets by its
    /// items.
    pub open spec fn same(&self, other: &Call) -> bool {
        match (self, other) {
            (Call::TxNominate(a), Call::TxNominate(b)) => a@ == b@,
            _ => *self == *other,
        }
    }

    /// The SCALE encoding of the call: the index of the variant, then its fields.
    pub open spec fn call_encoding(&self) -> Seq<u8> {
        match self {
            Call::TxBond(amount, ctrl) => seq![0u8] + u128::encoding(*amount) + ctrl.0@,
            Call::TxBondExtra(amount) => seq![1u8] + u128::encoding(*amount),
            Call::TxUnbond(amount) => seq![2u8] + u128::encoding(*amount),
            Call::TxSetController(ctrl) => seq![3u8] + ctrl.0@,
            Call::TxValidate() => seq![4u8],
            Call::TxNominate(targets) => seq![5u8] + <Vec<AccountId> as Codec>::encoding(accounts_model(targets@)),
            Call::TxChill() => seq![6u8],
        }
    }

    /// Whether the call can be encoded (a list of targets longer than a compact length cannot).
    pub open spec fn encodable(&self) -> bool {
        match self {
            Call::TxNominate(targets) => targets.len() <= u32::MAX,
            _ => true,
        }
    }

    /// True when both calls are the same.
    pub fn is_same(&self, other: &Call) -> (r: bool)
        ensures
            r == self.same(other),
    {
        match (self, other) {
            (Call::TxBond(a, c), Call::TxBond(b, d)) => *a == *b && c.same(d),
            (Call::TxBondExtra(a), Call::TxBondExtra(b)) => *a == *b,
            (Call::TxUnbond(a), Call::TxUnbond(b)) => *a == *b,
            (Call::TxSetController(c), Call::TxSetController(d)) => c.same(d),
            (Call::TxValidate(), Call::TxValidate()) => true,
            (Call::TxNominate(x), Call::TxNominate(y)) => accounts_equal(x, y),
            (Call::TxChill(), Call::TxChill()) => true,
            _ => false,
        }
    }

    /// Encode the call.
    pub fn encode(&self) -> (r: Vec<u8>)
        requires
            self.encodable(),
        ensures
            r@ == self.call_encoding(),
    {
        let (index, mut fields): (u8, Vec<u8>) = match self {
            Call::TxBond(amount, ctrl) => {
                let mut f = amount.encode();
                proof {
                    ctrl.lemma_len();
                }
                let mut c = ctrl.encode();
                f.append(&mut c);
                (0, f)
            },
            Call::TxBondExtra(amount) => (1, amount.encode()),
            Call::TxUnbond(amount) => (2, amount.encode()),
            Call::TxSetController(ctrl) => {
                proof {
                    ctrl.lemma_len();
                }
                (3, ctrl.encode())
            },
            Call::TxValidate() => (4, Vec::new()),
            Call::TxNominate(targets) => {
                proof {
                    lemma_accounts_encodable(targets@);
                    assert(targets.value_model() =~= accounts_model(targets@));
                }
                (5, targets.encode())
            },
            Call::TxChill() => (6, Vec::new()),
        };
        let mut r = index.encode();
        r.append(&mut fields);
        proof {
            assert(r@ =~= self.call_encoding());
        }
        r
    }
}

/// The outcome of a call on the model of a runtime.
pub open spec fn call_spec<R: ModuleRuntime>(c: &Call, m: R::Model, origin: Seq<u8>) -> (DispatchResult, R::Model) {
    match c {
        Call::TxBond(amount, ctrl) => bond_spec::<R>(m, origin, *amount, ctrl.0@),
        Call::TxBondExtra(amount) => bond_extra_spec::<R>(m, origin, *amount),
        Call::TxUnbond(amount) => unbond_spec::<R>(m, origin, *amount),
        Call::TxSetController(ctrl) => set_controller_spec::<R>(m, origin, ctrl.0@),
        Call::TxValidate() => validate_spec::<R>(m, origin),
        Call::TxNominate(targets) => nominate_spec::<R>(m, origin, accounts_model(targets@)),
        Call::TxChill() => chill_spec::<R>(m, origin),
    }
}

/// The models on which a call does not panic.
pub open spec fn call_safe<R: ModuleRuntime>(c: &Call, m: R::Model, origin: Seq<u8>) -> bool {
    match c {
        Call::TxBond(amount, _) => bond_safe::<R>(m, origin, *amount),
        Call::TxBondExtra(amount) => bond_extra_safe::<R>(m, origin, *amount),
        Call::TxUnbond(amount) => unbond_safe::<R>(m, origin, *amount),
        Call::TxSetController(_) => true,
        Call::TxValidate() => controller_consistent::<R>(m, origin),
        Call::TxNominate(targets) => controller_consistent::<R>(m, origin) && targets.len() <= u32::MAX,
        Call::TxChill() => controller_consistent::<R>(m, origin),
    }
}

/// Dispatch a call of the staking module.
pub fn dispatch_call<R: ModuleRuntime>(c: Call, runtime: &mut R, origin: AccountId) -> (r: DispatchResult)
    requires
        call_safe::<R>(&c, old(runtime).rt_model(), origin.0@),
    ensures
        (r, final(runtime).rt_model()) == call_spec::<R>(&c, old(runtime).rt_model(), origin.0@),
{
    match c {
        Call::TxBond(amount, ctrl) => tx_bond(runtime, origin, amount, ctrl),
        Call::TxBondExtra(amount) => tx_bond_extra(runtime, origin, amount),
        Call::TxUnbond(amount) => tx_unbond(runtime, origin, amount),
        Call::TxSetController(ctrl) => tx_set_controller(runtime, origin, ctrl),
        Call::TxValidate() => tx_validate(runtime, origin),
        Call::TxNominate(targets) => tx_nominate(runtime, origin, targets),
        Call::TxChill() => tx_chill(runtime, origin),
    }
}

impl Clone for Call {
    fn clone(&self) -> (c: Self)
        ensures
            c.same(self),
    {
        match self {
            Call::TxBond(amount, ctrl) => Call::TxBond(*amount, *ctrl),
            Call::TxBondExtra(amount) => Call::TxBondExtra(*amount),
            Call::TxUnbond(amount) => Call::TxUnbond(*amount),
            Call::TxSetController(ctrl) => Call::TxSetController(*ctrl),
            Call::TxValidate() => Call::TxValidate(),
            Call::TxNominate(targets) => {
                let mut copy: Vec<AccountId> = Vec::new();
                let mut i: usize = 0;
                while i < targets.len()
                    invariant
                        i <= targets.len(),
                        copy@ == targets@.take(i as int),
                    decreases targets.len() - i,
                {
                    copy.push(targets[i]);
                    i = i + 1;
                    assert(copy@ =~= targets@.take(i as int));
                }
                assert(targets@.take(targets.len() as int) =~= targets@);
                Call::TxNominate(copy)
            },
            Call::TxChill() => Call::TxChill(),
        }
    }
}

impl<R: ModuleRuntime> Dispatchable<R> for Call {
    open spec fn dispatch_spec(&self, m: R::Model, origin: Seq<u8>) -> (DispatchResult, R::Model) {
        call_spec::<R>(self, m, origin)
    }

    open spec fn dispatch_safe(&self, m: R::Model, origin: Seq<u8>) -> bool {
        call_safe::<R>(self, m, origin)
    }

    /// Staking calls declare no storage keys ahead of time.
    open spec fn validate_spec(&self, origin: Seq<u8>) -> Seq<Seq<u8>> {
        Seq::empty()
    }

    fn dispatch<T: DispatchPermission>(self, runtime: &mut R, origin: AccountId) -> (r: DispatchResult) {
        dispatch_call(self, runtime, origin)
    }

    fn validate(&self, runtime: &R, origin: AccountId) -> (keys: ValidationResult) {
        let keys: ValidationResult = Vec::new();
        assert(key_models(keys@) =~= <Call as Dispatchable<R>>::validate_spec(self, origin.0@));
        keys
    }
}

} // verus!
