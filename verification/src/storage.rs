//! Typed storage on top of a runtime: a storage map stores encoded values under the encoded key
//! behind a fixed prefix, a storage value under the prefix alone. A stored value that does not
//! decode reads as the default.

use vstd::prelude::*;
use crate::codec::Codec;
use crate::primitives::{Key, StateKey, StateValue, ThreadId};
use crate::runtime::ModuleRuntime;

verus! {

/// A storable value with a default, which is what a missing or undecodable value reads as.
pub trait StorageDefault: Codec {
    spec fn default_model() -> Self::Model;

    fn default_value() -> (v: Self)
        ensures
            v.value_model() == Self::default_model(),
    ;

    fn is_default(&self) -> (b: bool)
        ensures
            b == (self.value_model() == Self::default_model()),
    ;
}

/// The value read from stored bytes.
pub open spec fn decode_or_default<V: StorageDefault>(b: Seq<u8>) -> V::Model {
    match V::decoding(b) {
        Some(m) => m,
        None => V::default_model(),
    }
}

/// The model of a typed read result.
pub open spec fn typed_result<V: Codec>(r: Result<V, ThreadId>) -> Result<V::Model, ThreadId> {
    match r {
        Ok(v) => Ok(v.value_model()),
        Err(t) => Err(t),
    }
}

/// The bytes of an ASCII string.
pub open spec fn ascii_of(s: Seq<char>) -> Seq<u8> {
    Seq::new(s.len(), |i: int| s[i] as u8)
}

/// The bytes of an ASCII string, as a vector.
pub fn ascii_bytes(s: &str) -> (r: Vec<u8>)
    requires
        vstd::string::is_ascii(s),
    ensures
        r@ == ascii_of(s@),
{
    proof {
        broadcast use vstd::string::is_ascii_spec_bytes;
    }
    let b = s.as_bytes();
    let r = vstd::slice::slice_to_vec(b);
    proof {
        assert(r@ =~= ascii_of(s@));
    }
    r
}

/// A map in storage from keys of one type to values of another.
pub trait StorageMap<R: ModuleRuntime>: Sized {
    type KeyType: Codec + Copy;

    type ValueType: StorageDefault;

    /// The prefix of every key of this map.
    spec fn spec_prefix() -> Seq<u8>;

    fn prefix() -> (p: Vec<u8>)
        ensures
            p@ == Self::spec_prefix(),
    ;
}

/// The storage key of `key` in map `M`.
pub open spec fn map_key<R: ModuleRuntime, M: StorageMap<R>>(key: <M::KeyType as Codec>::Model) -> Seq<u8> {
    M::spec_prefix() + M::KeyType::encoding(key)
}

/// Reading `key` of map `M`: the decoded value (or the default), or the refusing thread.
pub open spec fn map_read<R: ModuleRuntime, M: StorageMap<R>>(m: R::Model, key: <M::KeyType as Codec>::Model) -> (
    Result<<M::ValueType as Codec>::Model, ThreadId>,
    R::Model,
) {
    let (r, m2) = R::read_step(m, map_key::<R, M>(key));
    (
        match r {
            Ok(b) => Ok(decode_or_default::<M::ValueType>(b)),
            Err(t) => Err(t),
        },
        m2,
    )
}

/// Writing `v` at `key` of map `M`.
pub open spec fn map_write<R: ModuleRuntime, M: StorageMap<R>>(
    m: R::Model,
    key: <M::KeyType as Codec>::Model,
    v: <M::ValueType as Codec>::Model,
) -> (Result<(), ThreadId>, R::Model) {
    R::write_step(m, map_key::<R, M>(key), M::ValueType::encoding(v))
}

/// The storage key of `key`.
pub fn map_key_for<R: ModuleRuntime, M: StorageMap<R>>(key: M::KeyType) -> (k: Key)
    requires
        M::KeyType::model_encodable(key.value_model()),
    ensures
        k.0@ == map_key::<R, M>(key.value_model()),
{
    let mut final_key = M::prefix();
    let mut encoded = key.encode();
    final_key.append(&mut encoded);
    StateKey(final_key)
}

/// Write `val` at `key`.
pub fn map_write_value<R: ModuleRuntime, M: StorageMap<R>>(runtime: &mut R, key: M::KeyType, val: M::ValueType) -> (r: Result<(), ThreadId>)
    requires
        M::KeyType::model_encodable(key.value_model()),
        M::ValueType::model_encodable(val.value_model()),
    ensures
        (r, final(runtime).rt_model()) == map_write::<R, M>(old(runtime).rt_model(), key.value_model(), val.value_model()),
{
    let encoded_value = val.encode();
    let final_key = map_key_for::<R, M>(key);
    runtime.write(&final_key, StateValue(encoded_value))
}

/// Read the value at `key`.
pub fn map_read_value<R: ModuleRuntime, M: StorageMap<R>>(runtime: &mut R, key: M::KeyType) -> (r: Result<M::ValueType, ThreadId>)
    requires
        M::KeyType::model_encodable(key.value_model()),
    ensures
        (typed_result(r), final(runtime).rt_model()) == map_read::<R, M>(old(runtime).rt_model(), key.value_model()),
{
    let final_key = map_key_for::<R, M>(key);
    let encoded = runtime.read(&final_key)?;
    match M::ValueType::decode(encoded.as_bytes()) {
        Some((v, _)) => Ok(v),
        None => Ok(M::ValueType::default_value()),
    }
}

/// Read the value at `key`, update it, and write it back.
pub fn map_mutate_value<R: ModuleRuntime, M: StorageMap<R>, F: Fn(M::ValueType) -> M::ValueType>(runtime: &mut R, key: M::KeyType, update: F) -> (r: Result<(), ThreadId>)
    requires
        M::KeyType::model_encodable(key.value_model()),
        R::blocked_by(old(runtime).rt_model(), map_key::<R, M>(key.value_model())) is None ==> forall|v: M::ValueType|
            v.value_model() == decode_or_default::<M::ValueType>(
                R::value_of(old(runtime).rt_model(), map_key::<R, M>(key.value_model())),
            ) ==> #[trigger] update.requires((v,)),
        forall|v: M::ValueType, w: M::ValueType| update.ensures((v,), w) ==> M::ValueType::model_encodable(
            w.value_model(),
        ),
    ensures
        match r {
            Ok(()) => exists|v: M::ValueType, w: M::ValueType| {
                &&& map_read::<R, M>(old(runtime).rt_model(), key.value_model()).0 == Ok::<_, ThreadId>(v.value_model())
                &&& #[trigger] update.ensures((v,), w)
                &&& final(runtime).rt_model() == map_write::<R, M>(
                    map_read::<R, M>(old(runtime).rt_model(), key.value_model()).1,
                    key.value_model(),
                    w.value_model(),
                ).1
                &&& map_write::<R, M>(
                    map_read::<R, M>(old(runtime).rt_model(), key.value_model()).1,
                    key.value_model(),
                    w.value_model(),
                ).0 is Ok
            },
            Err(o) => map_read::<R, M>(old(runtime).rt_model(), key.value_model()).0 == Err::<
                <M::ValueType as Codec>::Model,
                ThreadId,
            >(o) && final(runtime).rt_model() == map_read::<R, M>(old(runtime).rt_model(), key.value_model()).1,
        },
{
    let ghost m0 = runtime.rt_model();
    let ghost k = map_key::<R, M>(key.value_model());
    proof {
        R::lemma_read_step(m0, k);
    }
    let old_value = map_read_value::<R, M>(runtime, key)?;
    let ghost vv = old_value;
    let new_value = update(old_value);
    let ghost m1 = runtime.rt_model();
    proof {
        R::lemma_write_step(m1, k, M::ValueType::encoding(new_value.value_model()));
    }
    let r = map_write_value::<R, M>(runtime, key, new_value);
    proof {
        assert(update.ensures((vv,), new_value));
    }
    r
}

/// Write the default value at `key`.
pub fn map_clear_value<R: ModuleRuntime, M: StorageMap<R>>(runtime: &mut R, key: M::KeyType) -> (r: Result<(), ThreadId>)
    requires
        M::KeyType::model_encodable(key.value_model()),
        M::ValueType::model_encodable(M::ValueType::default_model()),
    ensures
        (r, final(runtime).rt_model()) == map_write::<R, M>(
            old(runtime).rt_model(),
            key.value_model(),
            M::ValueType::default_model(),
        ),
{
    map_write_value::<R, M>(runtime, key, M::ValueType::default_value())
}

/// Whether the value at `key` differs from the default.
pub fn map_contains_value<R: ModuleRuntime, M: StorageMap<R>>(runtime: &mut R, key: M::KeyType) -> (r: Result<bool, ThreadId>)
    requires
        M::KeyType::model_encodable(key.value_model()),
    ensures
        final(runtime).rt_model() == map_read::<R, M>(old(runtime).rt_model(), key.value_model()).1,
        match map_read::<R, M>(old(runtime).rt_model(), key.value_model()).0 {
            Ok(v) => r == Ok::<bool, ThreadId>(v != M::ValueType::default_model()),
            Err(t) => r == Err::<bool, ThreadId>(t),
        },
{
    let v = map_read_value::<R, M>(runtime, key)?;
    Ok(!v.is_default())
}

/// What a runtime writes at a key of a storage map is what it then reads back from it.
pub proof fn law_map_read_after_write<R: ModuleRuntime, M: StorageMap<R>>(
    m: R::Model,
    key: <M::KeyType as Codec>::Model,
    v: <M::ValueType as Codec>::Model,
)
    requires
        map_write::<R, M>(m, key, v).0 is Ok,
        M::ValueType::model_encodable(v),
    ensures
        map_read::<R, M>(map_write::<R, M>(m, key, v).1, key).0 == Ok::<_, ThreadId>(v),
{
    let k = map_key::<R, M>(key);
    let e = M::ValueType::encoding(v);
    R::lemma_write_step(m, k, e);
    let m1 = R::write_step(m, k, e).1;
    R::lemma_read_step(m1, k);
    M::ValueType::lemma_roundtrip(v, Seq::empty());
    assert(e + Seq::<u8>::empty() =~= e);
}

/// A single value in storage.
pub trait StorageValue<R: ModuleRuntime>: Sized {
    type ValueType: StorageDefault;

    /// The storage key of the value.
    spec fn spec_key() -> Seq<u8>;

    fn key() -> (k: Key)
        ensures
            k.0@ == Self::spec_key(),
    ;
}

/// Write `val`.
pub fn value_write<R: ModuleRuntime, S: StorageValue<R>>(runtime: &mut R, val: S::ValueType) -> (r: Result<(), ThreadId>)
    requires
        S::ValueType::model_encodable(val.value_model()),
    ensures
        (r, final(runtime).rt_model()) == R::write_step(
            old(runtime).rt_model(),
            S::spec_key(),
            S::ValueType::encoding(val.value_model()),
        ),
{
    let encoded_value = val.encode();
    let final_key = S::key();
    runtime.write(&final_key, StateValue(encoded_value))
}

/// Read the value.
pub fn value_read<R: ModuleRuntime, S: StorageValue<R>>(runtime: &mut R) -> (r: Result<S::ValueType, ThreadId>)
    ensures
        typed_result(r) == (match R::read_step(old(runtime).rt_model(), S::spec_key()).0 {
            Ok(b) => Ok(decode_or_default::<S::ValueType>(b)),
            Err(t) => Err(t),
        }),
        final(runtime).rt_model() == R::read_step(old(runtime).rt_model(), S::spec_key()).1,
{
    let final_key = S::key();
    let encoded = runtime.read(&final_key)?;
    match S::ValueType::decode(encoded.as_bytes()) {
        Some((v, _)) => Ok(v),
        None => Ok(S::ValueType::default_value()),
    }
}

/// Read the value, update it, and write it back.
pub fn value_mutate<R: ModuleRuntime, S: StorageValue<R>, F: Fn(S::ValueType) -> S::ValueType>(runtime: &mut R, update: F) -> (r: Result<(), ThreadId>)
    requires
        forall|v: S::ValueType| v.value_model() == decode_or_default::<S::ValueType>(
            R::value_of(old(runtime).rt_model(), S::spec_key()),
        ) ==> #[trigger] update.requires((v,)),
        forall|v: S::ValueType, w: S::ValueType| update.ensures((v,), w) ==> S::ValueType::model_encodable(
            w.value_model(),
        ),
    ensures
        match r {
            Ok(()) => exists|v: S::ValueType, w: S::ValueType| {
                &&& R::read_step(old(runtime).rt_model(), S::spec_key()).0 is Ok
                &&& v.value_model() == decode_or_default::<S::ValueType>(
                    R::read_step(old(runtime).rt_model(), S::spec_key()).0->Ok_0,
                )
                &&& #[trigger] update.ensures((v,), w)
                &&& final(runtime).rt_model() == R::write_step(
                    R::read_step(old(runtime).rt_model(), S::spec_key()).1,
                    S::spec_key(),
                    S::ValueType::encoding(w.value_model()),
                ).1
            },
            Err(o) => R::read_step(old(runtime).rt_model(), S::spec_key()).0 == Err::<Seq<u8>, ThreadId>(o)
                && final(runtime).rt_model() == R::read_step(old(runtime).rt_model(), S::spec_key()).1,
        },
{
    let ghost m0 = runtime.rt_model();
    let old_value = value_read::<R, S>(runtime)?;
    let ghost vv = old_value;
    proof {
        R::lemma_read_step(m0, S::spec_key());
    }
    let new_value = update(old_value);
    proof {
        R::lemma_write_step(runtime.rt_model(), S::spec_key(), S::ValueType::encoding(new_value.value_model()));
    }
    let r = value_write::<R, S>(runtime, new_value);
    proof {
        assert(update.ensures((vv,), new_value));
    }
    r
}

/// Write the default value.
pub fn value_clear<R: ModuleRuntime, S: StorageValue<R>>(runtime: &mut R) -> (r: Result<(), ThreadId>)
    requires
        S::ValueType::model_encodable(S::ValueType::default_model()),
    ensures
        (r, final(runtime).rt_model()) == R::write_step(
            old(runtime).rt_model(),
            S::spec_key(),
            S::ValueType::encoding(S::ValueType::default_model()),
        ),
{
    value_write::<R, S>(runtime, S::ValueType::default_value())
}

/// A vector reads as empty where nothing decodes.
impl<T: Codec> StorageDefault for Vec<T> {
    open spec fn default_model() -> Seq<T::Model> {
        Seq::empty()
    }

    fn default_value() -> (v: Vec<T>) {
        let v: Vec<T> = Vec::new();
        assert(v.value_model() =~= Seq::<T::Model>::empty());
        v
    }

    fn is_default(&self) -> (b: bool) {
        assert(self.value_model().len() == self@.len());
        if self.len() == 0 {
            assert(self.value_model() =~= Seq::<T::Model>::empty());
        }
        self.len() == 0
    }
}

} // verus!
