//! The balances module: accounts hold a free and a reserved balance, and can transfer free
//! balance to each other.

use vstd::prelude::*;
use core::marker::PhantomData;
use crate::codec::{lemma_le_bytes_len, starts_with, Codec};
use crate::primitives::{AccountId, Balance, Key};
use crate::runtime::{
    key_models, tainted_as, DispatchError, DispatchPermission, DispatchResult, Dispatchable, ModuleRuntime,
    UnwrapStorageOp, ValidationResult,
};
use crate::storage::{
    ascii_bytes, ascii_of, decode_or_default, map_clear_value, map_contains_value, map_key, map_key_for,
    map_mutate_value, map_read, map_read_value, map_write, map_write_value, typed_result, StorageDefault,
    StorageMap,
};

verus! {

/// The message of a transfer from an account without enough free balance.
pub const NOT_ENOUGH_FUNDS: &'static str = "Does not have enough funds.";

/// The balance of an account.
#[derive(Debug, Clone, Copy, Default, Eq, PartialEq)]
pub struct AccountBalance {
    free: Balance,
    reserved: Balance,
}

impl Codec for AccountBalance {
    type Model = (u128, u128);

    closed spec fn value_model(&self) -> (u128, u128) {
        (self.free, self.reserved)
    }

    open spec fn encoding(m: (u128, u128)) -> Seq<u8> {
        u128::encoding(m.0) + u128::encoding(m.1)
    }

    open spec fn decoding(b: Seq<u8>) -> Option<(u128, u128)> {
        match u128::decoding(b) {
            Some(f) => match u128::decoding(b.skip(16)) {
                Some(r) => Some((f, r)),
                None => None,
            },
            None => None,
        }
    }

    open spec fn model_encodable(m: (u128, u128)) -> bool {
        true
    }

    proof fn lemma_roundtrip(m: (u128, u128), rest: Seq<u8>) {
        let e0 = u128::encoding(m.0);
        let e1 = u128::encoding(m.1);
        lemma_le_bytes_len(m.0 as nat, 16);
        assert(e0 + e1 + rest =~= e0 + (e1 + rest));
        u128::lemma_roundtrip(m.0, e1 + rest);
        assert((e0 + e1 + rest).skip(16) =~= e1 + rest);
        u128::lemma_roundtrip(m.1, rest);
    }

    proof fn lemma_canonical(b: Seq<u8>) {
        u128::lemma_canonical(b);
        u128::lemma_canonical(b.skip(16));
        if let Some((f, r)) = Self::decoding(b) {
            lemma_le_bytes_len(f as nat, 16);
            lemma_le_bytes_len(r as nat, 16);
            assert(b.take(32) =~= b.take(16) + b.skip(16).take(16));
        }
    }

    fn encode(&self) -> (r: Vec<u8>) {
        let mut r = self.free.encode();
        let mut e = self.reserved.encode();
        r.append(&mut e);
        r
    }

    fn decode(b: &[u8]) -> (r: Option<(AccountBalance, usize)>) {
        let (free, n) = match u128::decode(b) {
            Some(x) => x,
            None => {
                return None;
            },
        };
        proof {
            lemma_le_bytes_len(free as nat, 16);
        }
        let rest = vstd::slice::slice_subrange(b, n, b.len());
        assert(rest@ =~= b@.skip(16));
        match u128::decode(rest) {
            Some((reserved, _)) => {
                proof {
                    lemma_le_bytes_len(reserved as nat, 16);
                }
                Some((AccountBalance { free, reserved }, 32))
            },
            None => None,
        }
    }
}

impl StorageDefault for AccountBalance {
    open spec fn default_model() -> (u128, u128) {
        (0, 0)
    }

    fn default_value() -> (v: AccountBalance) {
        AccountBalance { free: 0, reserved: 0 }
    }

    fn is_default(&self) -> (b: bool) {
        self.free == 0 && self.reserved == 0
    }
}

impl From<Balance> for AccountBalance {
    /// A balance of `free`, nothing reserved.
    fn from(free: Balance) -> (b: AccountBalance)
        ensures
            b.value_model() == (free, 0u128),
    {
        Self { free, reserved: 0 }
    }
}

impl vstd::std_specs::convert::FromSpecImpl<Balance> for AccountBalance {
    open spec fn obeys_from_spec() -> bool {
        true
    }

    closed spec fn from_spec(free: Balance) -> AccountBalance {
        AccountBalance { free, reserved: 0 }
    }
}

impl From<(Balance, Balance)> for AccountBalance {
    /// A balance of `t.0` free and `t.1` reserved.
    fn from(t: (Balance, Balance)) -> (b: AccountBalance)
        ensures
            b.value_model() == t,
    {
        Self { free: t.0, reserved: t.1 }
    }
}

impl vstd::std_specs::convert::FromSpecImpl<(Balance, Balance)> for AccountBalance {
    open spec fn obeys_from_spec() -> bool {
        true
    }

    closed spec fn from_spec(t: (Balance, Balance)) -> AccountBalance {
        AccountBalance { free: t.0, reserved: t.1 }
    }
}

impl AccountBalance {
    /// What `From` makes of a free balance, and of a pair of free and reserved balances.
    pub proof fn lemma_from_parts(free: Balance, t: (Balance, Balance))
        ensures
            <AccountBalance as vstd::std_specs::convert::FromSpec<Balance>>::from_spec(free).value_model() == (
                free,
                0u128,
            ),
            <AccountBalance as vstd::std_specs::convert::FromSpec<(Balance, Balance)>>::from_spec(t).value_model()
                == t,
    {
    }

    /// A balance is given by its free and reserved parts.
    pub proof fn lemma_by_parts(a: AccountBalance, b: AccountBalance)
        ensures
            a.value_model() == b.value_model() <==> a == b,
    {
    }

    pub fn new(free: Balance, reserved: Balance) -> (b: Self)
        ensures
            b.value_model() == (free, reserved),
    {
        Self { free, reserved }
    }

    pub fn new_free(free: Balance) -> (b: Self)
        ensures
            b.value_model() == (free, 0u128),
    {
        Self { free, reserved: 0 }
    }

    /// Total balance of an account.
    pub fn total(&self) -> (t: Balance)
        requires
            self.value_model().0 + self.value_model().1 <= u128::MAX,
        ensures
            t == self.value_model().0 + self.value_model().1,
    {
        self.free + self.reserved
    }

    /// Free balance of the account.
    pub fn free(&self) -> (f: Balance)
        ensures
            f == self.value_model().0,
    {
        self.free
    }

    /// Reserved balance of the account.
    pub fn reserved(&self) -> (r: Balance)
        ensures
            r == self.value_model().1,
    {
        self.reserved
    }

    /// Move `amount` from free to reserved, if there is enough free balance.
    pub fn reserve(&mut self, amount: Balance) -> (r: Result<(), &'static str>)
        requires
            old(self).value_model().0 >= amount ==> old(self).value_model().1 + amount <= u128::MAX,
        ensures
            old(self).value_model().0 >= amount ==> r is Ok && final(self).value_model() == (
                (old(self).value_model().0 - amount) as u128,
                (old(self).value_model().1 + amount) as u128,
            ),
            old(self).value_model().0 < amount ==> r == Err::<(), &'static str>("Not enough funds.")
                && final(self).value_model() == old(self).value_model(),
    {
        if self.can_spend(amount) {
            self.free = self.free - amount;
            self.reserved = self.reserved + amount;
            Ok(())
        } else {
            Err("Not enough funds.")
        }
    }

    /// Move `amount` from reserved to free, if strictly more than `amount` is reserved.
    pub fn unreserve(&mut self, amount: Balance) -> (r: Result<(), &'static str>)
        requires
            old(self).value_model().1 > amount ==> old(self).value_model().0 + amount <= u128::MAX,
        ensures
            old(self).value_model().1 > amount ==> r is Ok && final(self).value_model() == (
                (old(self).value_model().0 + amount) as u128,
                (old(self).value_model().1 - amount) as u128,
            ),
            old(self).value_model().1 <= amount ==> r == Err::<(), &'static str>("Not enough reserved.")
                && final(self).value_model() == old(self).value_model(),
    {
        if self.reserved > amount {
            self.reserved = self.reserved - amount;
            self.free = self.free + amount;
            Ok(())
        } else {
            Err("Not enough reserved.")
        }
    }

    /// True if the account has `amount` to spend or bond.
    pub fn can_spend(&self, amount: Balance) -> (b: bool)
        ensures
            b == (self.value_model().0 >= amount),
    {
        self.free >= amount
    }

    /// The balance with `value` more free balance.
    pub fn credited(self, value: Balance) -> (b: Self)
        requires
            self.value_model().0 + value <= u128::MAX,
        ensures
            b.value_model() == ((self.value_model().0 + value) as u128, self.value_model().1),
    {
        AccountBalance { free: self.free + value, reserved: self.reserved }
    }
}

/// The map from accounts to their balance.
pub struct BalanceOf<R>(PhantomData<R>);

impl<R: ModuleRuntime> StorageMap<R> for BalanceOf<R> {
    type KeyType = AccountId;

    type ValueType = AccountBalance;

    open spec fn spec_prefix() -> Seq<u8> {
        ascii_of("balances:balance_of"@)
    }

    fn prefix() -> (p: Vec<u8>) {
        proof {
            reveal_strlit("balances:balance_of");
        }
        ascii_bytes("balances:balance_of")
    }
}

impl<R: ModuleRuntime> BalanceOf<R> {
    /// The storage key of the balance of `key`.
    pub fn key_for(key: AccountId) -> (k: Key)
        ensures
            k.0@ == map_key::<R, Self>(key.0@),
    {
        proof {
            key.lemma_len();
        }
        map_key_for::<R, Self>(key)
    }

    /// Read the balance of `key`.
    pub fn read(runtime: &mut R, key: AccountId) -> (r: Result<AccountBalance, u64>)
        ensures
            (typed_result(r), final(runtime).rt_model()) == map_read::<R, Self>(old(runtime).rt_model(), key.0@),
    {
        proof {
            key.lemma_len();
        }
        map_read_value::<R, Self>(runtime, key)
    }

    /// Write the balance of `key`.
    pub fn write(runtime: &mut R, key: AccountId, val: AccountBalance) -> (r: Result<(), u64>)
        ensures
            (r, final(runtime).rt_model()) == map_write::<R, Self>(old(runtime).rt_model(), key.0@, val.value_model()),
    {
        proof {
            key.lemma_len();
        }
        map_write_value::<R, Self>(runtime, key, val)
    }

    /// Write the default balance of `key`.
    pub fn clear(runtime: &mut R, key: AccountId) -> (r: Result<(), u64>)
        ensures
            (r, final(runtime).rt_model()) == map_write::<R, Self>(old(runtime).rt_model(), key.0@, (0u128, 0u128)),
    {
        proof {
            key.lemma_len();
        }
        map_clear_value::<R, Self>(runtime, key)
    }

    /// Whether the balance of `key` differs from the default.
    pub fn exists_at(runtime: &mut R, key: AccountId) -> (r: Result<bool, u64>)
        ensures
            final(runtime).rt_model() == map_read::<R, Self>(old(runtime).rt_model(), key.0@).1,
            match map_read::<R, Self>(old(runtime).rt_model(), key.0@).0 {
                Ok(v) => r == Ok::<bool, u64>(v != (0u128, 0u128)),
                Err(t) => r == Err::<bool, u64>(t),
            },
    {
        proof {
            key.lemma_len();
        }
        map_contains_value::<R, Self>(runtime, key)
    }
}

/// The balance of `who` in the model of a runtime.
pub open spec fn balance_in<R: ModuleRuntime>(m: R::Model, who: Seq<u8>) -> (u128, u128) {
    decode_or_default::<AccountBalance>(R::value_of(m, map_key::<R, BalanceOf<R>>(who)))
}

/// The outcome of a transfer of `value` from `origin` to `dest`: the balance of `origin` is
/// read (refused: the transaction goes to the owner); with less than `value` free it fails
/// with a logic error; else `value` is taken from its free balance and added to the free
/// balance of `dest` (refused: the transaction goes to the master as an orphan).
pub open spec fn transfer_spec<R: ModuleRuntime>(m: R::Model, origin: Seq<u8>, dest: Seq<u8>, value: u128) -> (
    DispatchResult,
    R::Model,
) {
    let (r1, m1) = map_read::<R, BalanceOf<R>>(m, origin);
    match r1 {
        Err(t) => (Err(DispatchError::Tainted(t, false)), m1),
        Ok(b) => if b.0 < value {
            (Err(DispatchError::LogicError(NOT_ENOUGH_FUNDS)), m1)
        } else {
            let m2 = map_write::<R, BalanceOf<R>>(m1, origin, ((b.0 - value) as u128, b.1)).1;
            let (r3, m3) = map_read::<R, BalanceOf<R>>(m2, dest);
            match r3 {
                Err(t) => (Err(DispatchError::Tainted(t, true)), m3),
                Ok(d) => (Ok(()), map_write::<R, BalanceOf<R>>(m3, dest, ((d.0 + value) as u128, d.1)).1),
            }
        },
    }
}

/// A transfer does not overflow the free balance of `dest` (checked where the transfer gets as
/// far as crediting an accessible `dest`).
pub open spec fn transfer_safe<R: ModuleRuntime>(m: R::Model, origin: Seq<u8>, dest: Seq<u8>, value: u128) -> bool {
    let (r1, m1) = map_read::<R, BalanceOf<R>>(m, origin);
    match r1 {
        Ok(b) => {
            let m2 = map_write::<R, BalanceOf<R>>(m1, origin, ((b.0 - value) as u128, b.1)).1;
            b.0 >= value && R::blocked_by(m2, map_key::<R, BalanceOf<R>>(dest)) is None ==> balance_in::<R>(m2, dest).0
                + value <= u128::MAX
        },
        Err(_) => true,
    }
}

/// Transfer `value` from the free balance of `origin` to that of `dest`.
pub fn tx_transfer<R: ModuleRuntime>(runtime: &mut R, origin: AccountId, dest: AccountId, value: Balance) -> (r: DispatchResult)
    requires
        transfer_safe::<R>(old(runtime).rt_model(), origin.0@, dest.0@, value),
    ensures
        (r, final(runtime).rt_model()) == transfer_spec::<R>(old(runtime).rt_model(), origin.0@, dest.0@, value),
{
    let ghost m0 = runtime.rt_model();
    // If we fail at this step, it is fine. We have not written anything yet.
    let mut old_balance = BalanceOf::read(runtime, origin).or_forward()?;
    if let Some(remaining) = old_balance.free.checked_sub(value) {
        proof {
            R::lemma_read_step(m0, map_key::<R, BalanceOf<R>>(origin.0@));
        }
        let ghost m1 = runtime.rt_model();
        old_balance.free = remaining;
        proof {
            R::lemma_write_step(m1, map_key::<R, BalanceOf<R>>(origin.0@), AccountBalance::encoding(old_balance.value_model()));
        }
        BalanceOf::write(runtime, origin, old_balance).expect("Origin's balance key must be owned by the current thread.");
        let ghost m2 = runtime.rt_model();
        let credit = |old: AccountBalance| -> (new: AccountBalance)
            requires
                old.value_model().0 + value <= u128::MAX,
            ensures
                new.value_model() == ((old.value_model().0 + value) as u128, old.value_model().1),
            { old.credited(value) };
        proof {
            key_len_of(dest);
        }
        map_mutate_value::<R, BalanceOf<R>, _>(runtime, dest, credit).or_orphan()?;
        Ok(())
    } else {
        Err(DispatchError::LogicError(NOT_ENOUGH_FUNDS))
    }
}

proof fn key_len_of(a: AccountId)
    ensures
        AccountId::model_encodable(a.value_model()),
{
    a.lemma_len();
}

/// The call of the balances module.
#[derive(Debug, Clone, Copy, Eq, PartialEq)]
pub enum Call {
    Transfer(AccountId, Balance),
}

impl Call {
    /// The SCALE encoding of the call: the index of the variant, then its fields.
    pub open spec fn call_encoding(&self) -> Seq<u8> {
        match self {
            Call::Transfer(to, value) => seq![0u8] + to.0@ + u128::encoding(*value),
        }
    }

    /// True when both calls are the same.
    pub fn is_same(&self, other: &Call) -> (r: bool)
        ensures
            r == (*self == *other),
    {
        match (self, other) {
            (Call::Transfer(a, x), Call::Transfer(b, y)) => a.same(b) && *x == *y,
        }
    }

    /// Encode the call.
    pub fn encode(&self) -> (r: Vec<u8>)
        ensures
            r@ == self.call_encoding(),
    {
        match self {
            Call::Transfer(to, value) => {
                let mut r = 0u8.encode();
                proof {
                    to.lemma_len();
                }
                let mut t = to.encode();
                let mut v = value.encode();
                r.append(&mut t);
                r.append(&mut v);
                proof {
                    assert(r@ =~= self.call_encoding());
                }
                r
            },
        }
    }
}

/// The outcome of a call on the model of a runtime.
pub open spec fn call_spec<R: ModuleRuntime>(c: Call, m: R::Model, origin: Seq<u8>) -> (DispatchResult, R::Model) {
    match c {
        Call::Transfer(to, value) => transfer_spec::<R>(m, origin, to.0@, value),
    }
}

/// The models on which a call does not panic.
pub open spec fn call_safe<R: ModuleRuntime>(c: Call, m: R::Model, origin: Seq<u8>) -> bool {
    match c {
        Call::Transfer(to, value) => transfer_safe::<R>(m, origin, to.0@, value),
    }
}

/// The storage keys that a call declares it will access: those of the balances of the origin
/// and of the destination.
pub open spec fn call_keys<R: ModuleRuntime>(c: Call, origin: Seq<u8>) -> Seq<Seq<u8>> {
    match c {
        Call::Transfer(to, _) => seq![map_key::<R, BalanceOf<R>>(origin), map_key::<R, BalanceOf<R>>(to.0@)],
    }
}

/// Dispatch a call of the balances module.
pub fn dispatch_call<R: ModuleRuntime>(c: Call, runtime: &mut R, origin: AccountId) -> (r: DispatchResult)
    requires
        call_safe::<R>(c, old(runtime).rt_model(), origin.0@),
    ensures
        (r, final(runtime).rt_model()) == call_spec::<R>(c, old(runtime).rt_model(), origin.0@),
{
    match c {
        Call::Transfer(to, value) => tx_transfer(runtime, origin, to, value),
    }
}

/// The storage keys that a call of the balances module declares.
pub fn validate_call<R: ModuleRuntime>(c: &Call, origin: AccountId) -> (keys: ValidationResult)
    ensures
        key_models(keys@) == call_keys::<R>(*c, origin.0@),
{
    match *c {
        Call::Transfer(to, _) => {
            let keys = vec![BalanceOf::<R>::key_for(origin), BalanceOf::<R>::key_for(to)];
            assert(key_models(keys@) =~= call_keys::<R>(*c, origin.0@));
            keys
        },
    }
}

impl<R: ModuleRuntime> Dispatchable<R> for Call {
    open spec fn dispatch_spec(&self, m: R::Model, origin: Seq<u8>) -> (DispatchResult, R::Model) {
        call_spec::<R>(*self, m, origin)
    }

    open spec fn dispatch_safe(&self, m: R::Model, origin: Seq<u8>) -> bool {
        call_safe::<R>(*self, m, origin)
    }

    open spec fn validate_spec(&self, origin: Seq<u8>) -> Seq<Seq<u8>> {
        call_keys::<R>(*self, origin)
    }

    fn dispatch<T: DispatchPermission>(self, runtime: &mut R, origin: AccountId) -> (r: DispatchResult) {
        dispatch_call(self, runtime, origin)
    }

    fn validate(&self, runtime: &R, origin: AccountId) -> (keys: ValidationResult) {
        validate_call::<R>(self, origin)
    }
}

} // verus!
