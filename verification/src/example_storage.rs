//! Storage items of an example module "test", declared the way a runtime module declares its
//! own: a map from bytes to a wrapped number, a map between accounts, and a list value.

use vstd::prelude::*;
use core::marker::PhantomData;
use crate::codec::Codec;
use crate::primitives::{AccountId, Key, StateKey, ThreadId};
use crate::runtime::ModuleRuntime;
use crate::storage::{
    ascii_bytes, ascii_of, decode_or_default, map_clear_value, map_contains_value, map_key, map_key_for,
    map_mutate_value, map_read, map_read_value, map_write, map_write_value, typed_result, value_clear,
    value_mutate, value_read, value_write, StorageDefault, StorageMap, StorageValue,
};

verus! {

/// A number kept in storage by its SCALE encoding; it reads as zero where nothing decodes.
#[derive(Debug, Clone, Copy, Default, Eq, PartialEq, Structural)]
pub struct Something(pub u32);

impl Codec for Something {
    type Model = u32;

    open spec fn value_model(&self) -> u32 {
        self.0
    }

    open spec fn encoding(m: u32) -> Seq<u8> {
        u32::encoding(m)
    }

    open spec fn decoding(b: Seq<u8>) -> Option<u32> {
        u32::decoding(b)
    }

    open spec fn model_encodable(m: u32) -> bool {
        true
    }

    proof fn lemma_roundtrip(m: u32, rest: Seq<u8>) {
        u32::lemma_roundtrip(m, rest);
    }

    proof fn lemma_canonical(b: Seq<u8>) {
        u32::lemma_canonical(b);
    }

    fn encode(&self) -> (r: Vec<u8>) {
        self.0.encode()
    }

    fn decode(b: &[u8]) -> (r: Option<(Something, usize)>) {
        match u32::decode(b) {
            Some((v, n)) => Some((Something(v), n)),
            None => None,
        }
    }
}

impl StorageDefault for Something {
    open spec fn default_model() -> u32 {
        0
    }

    fn default_value() -> (v: Something) {
        Something(0)
    }

    fn is_default(&self) -> (b: bool) {
        self.0 == 0
    }
}

/// The map "test:map" from bytes to `Something`.
pub struct TestMap<R>(PhantomData<R>);

impl<R: ModuleRuntime> StorageMap<R> for TestMap<R> {
    type KeyType = u8;

    type ValueType = Something;

    open spec fn spec_prefix() -> Seq<u8> {
        ascii_of("test:map"@)
    }

    fn prefix() -> (p: Vec<u8>) {
        proof {
            reveal_strlit("test:map");
        }
        ascii_bytes("test:map")
    }
}

impl<R: ModuleRuntime> TestMap<R> {
    /// The storage key of `key`.
    pub fn key_for(key: u8) -> (k: Key)
        ensures
            k.0@ == map_key::<R, Self>(key),
    {
        map_key_for::<R, Self>(key)
    }

    /// Read the value at `key`.
    pub fn read(runtime: &mut R, key: u8) -> (r: Result<Something, ThreadId>)
        ensures
            (typed_result(r), final(runtime).rt_model()) == map_read::<R, Self>(old(runtime).rt_model(), key),
    {
        map_read_value::<R, Self>(runtime, key)
    }

    /// Write the value at `key`.
    pub fn write(runtime: &mut R, key: u8, val: Something) -> (r: Result<(), ThreadId>)
        ensures
            (r, final(runtime).rt_model()) == map_write::<R, Self>(old(runtime).rt_model(), key, val.0),
    {
        map_write_value::<R, Self>(runtime, key, val)
    }

    /// Update the value at `key`: see `map_mutate_value`.
    pub fn mutate<F: Fn(Something) -> Something>(runtime: &mut R, key: u8, update: F) -> (r: Result<(), ThreadId>)
        requires
            forall|v: Something| #[trigger] update.requires((v,)),
        ensures
            match r {
                Ok(()) => exists|v: Something, w: Something| {
                    &&& map_read::<R, Self>(old(runtime).rt_model(), key).0 == Ok::<u32, ThreadId>(v.0)
                    &&& #[trigger] update.ensures((v,), w)
                    &&& final(runtime).rt_model() == map_write::<R, Self>(
                        map_read::<R, Self>(old(runtime).rt_model(), key).1,
                        key,
                        w.0,
                    ).1
                },
                Err(o) => map_read::<R, Self>(old(runtime).rt_model(), key).0 == Err::<u32, ThreadId>(o)
                    && final(runtime).rt_model() == map_read::<R, Self>(old(runtime).rt_model(), key).1,
            },
    {
        map_mutate_value::<R, Self, F>(runtime, key, update)
    }

    /// Write the default value at `key`.
    pub fn clear(runtime: &mut R, key: u8) -> (r: Result<(), ThreadId>)
        ensures
            (r, final(runtime).rt_model()) == map_write::<R, Self>(old(runtime).rt_model(), key, 0u32),
    {
        map_clear_value::<R, Self>(runtime, key)
    }

    /// Whether the value at `key` differs from the default.
    pub fn exists_at(runtime: &mut R, key: u8) -> (r: Result<bool, ThreadId>)
        ensures
            final(runtime).rt_model() == map_read::<R, Self>(old(runtime).rt_model(), key).1,
            match map_read::<R, Self>(old(runtime).rt_model(), key).0 {
                Ok(v) => r == Ok::<bool, ThreadId>(v != 0u32),
                Err(t) => r == Err::<bool, ThreadId>(t),
            },
    {
        map_contains_value::<R, Self>(runtime, key)
    }
}

/// The map "test:accMap" from accounts to accounts.
pub struct AccMap<R>(PhantomData<R>);

impl<R: ModuleRuntime> StorageMap<R> for AccMap<R> {
    type KeyType = AccountId;

    type ValueType = AccountId;

    open spec fn spec_prefix() -> Seq<u8> {
        ascii_of("test:accMap"@)
    }

    fn prefix() -> (p: Vec<u8>) {
        proof {
            reveal_strlit("test:accMap");
        }
        ascii_bytes("test:accMap")
    }
}

impl<R: ModuleRuntime> AccMap<R> {
    /// Read the account at `key`.
    pub fn read(runtime: &mut R, key: AccountId) -> (r: Result<AccountId, ThreadId>)
        ensures
            (typed_result(r), final(runtime).rt_model()) == map_read::<R, Self>(old(runtime).rt_model(), key.0@),
    {
        proof {
            key.lemma_len();
        }
        map_read_value::<R, Self>(runtime, key)
    }

    /// Write the account at `key`.
    pub fn write(runtime: &mut R, key: AccountId, val: AccountId) -> (r: Result<(), ThreadId>)
        ensures
            (r, final(runtime).rt_model()) == map_write::<R, Self>(old(runtime).rt_model(), key.0@, val.0@),
    {
        proof {
            key.lemma_len();
            val.lemma_len();
        }
        map_write_value::<R, Self>(runtime, key, val)
    }
}

/// The list value "test:value".
pub struct TestValue<R>(PhantomData<R>);

impl<R: ModuleRuntime> StorageValue<R> for TestValue<R> {
    type ValueType = Vec<u32>;

    open spec fn spec_key() -> Seq<u8> {
        ascii_of("test:value"@)
    }

    fn key() -> (k: Key) {
        proof {
            reveal_strlit("test:value");
        }
        StateKey(ascii_bytes("test:value"))
    }
}

impl<R: ModuleRuntime> TestValue<R> {
    /// Read the list.
    pub fn read(runtime: &mut R) -> (r: Result<Vec<u32>, ThreadId>)
        ensures
            typed_result(r) == (match R::read_step(old(runtime).rt_model(), Self::spec_key()).0 {
                Ok(b) => Ok(decode_or_default::<Vec<u32>>(b)),
                Err(t) => Err(t),
            }),
            final(runtime).rt_model() == R::read_step(old(runtime).rt_model(), Self::spec_key()).1,
    {
        value_read::<R, Self>(runtime)
    }

    /// Write the list.
    pub fn write(runtime: &mut R, val: Vec<u32>) -> (r: Result<(), ThreadId>)
        requires
            <Vec<u32> as Codec>::model_encodable(val.value_model()),
        ensures
            (r, final(runtime).rt_model()) == R::write_step(
                old(runtime).rt_model(),
                Self::spec_key(),
                <Vec<u32> as Codec>::encoding(val.value_model()),
            ),
    {
        value_write::<R, Self>(runtime, val)
    }

    /// Update the list: see `value_mutate`.
    pub fn mutate<F: Fn(Vec<u32>) -> Vec<u32>>(runtime: &mut R, update: F) -> (r: Result<(), ThreadId>)
        requires
            forall|v: Vec<u32>| #[trigger] update.requires((v,)),
            forall|v: Vec<u32>, w: Vec<u32>| update.ensures((v,), w) ==> <Vec<u32> as Codec>::model_encodable(
                w.value_model(),
            ),
        ensures
            match r {
                Ok(()) => exists|v: Vec<u32>, w: Vec<u32>| {
                    &&& R::read_step(old(runtime).rt_model(), Self::spec_key()).0 is Ok
                    &&& v.value_model() == decode_or_default::<Vec<u32>>(
                        R::read_step(old(runtime).rt_model(), Self::spec_key()).0->Ok_0,
                    )
                    &&& #[trigger] update.ensures((v,), w)
                    &&& final(runtime).rt_model() == R::write_step(
                        R::read_step(old(runtime).rt_model(), Self::spec_key()).1,
                        Self::spec_key(),
                        <Vec<u32> as Codec>::encoding(w.value_model()),
                    ).1
                },
                Err(o) => R::read_step(old(runtime).rt_model(), Self::spec_key()).0 == Err::<Seq<u8>, ThreadId>(o)
                    && final(runtime).rt_model() == R::read_step(old(runtime).rt_model(), Self::spec_key()).1,
            },
    {
        value_mutate::<R, Self, F>(runtime, update)
    }

    /// Write the empty list.
    pub fn clear(runtime: &mut R) -> (r: Result<(), ThreadId>)
        ensures
            (r, final(runtime).rt_model()) == R::write_step(
                old(runtime).rt_model(),
                Self::spec_key(),
                <Vec<u32> as Codec>::encoding(Seq::empty()),
            ),
    {
        proof {
            assert(<Vec<u32> as Codec>::model_encodable(Seq::empty()));
        }
        value_clear::<R, Self>(runtime)
    }
}

} // verus!
