//! The runtime: the interface through which transactions access storage, with a concurrent
//! implementation that is subject to tainting and caches its writes, and a sequential one that
//! accesses the state directly.

use vstd::prelude::*;
use crate::primitives::{Key, StateKey, StateValue, ThreadId, Value};
use crate::state::{
    accessible, owner_of, read_outcome, value_or, GenericState, KeyedMap, MapType, StateData, StateEntry,
    StateModel, TaintState,
};

verus! {

/// The state type of the runtime.
pub type RuntimeState = TaintState<Key, Value, ThreadId>;

/// The map of a dumped runtime state.
pub type StateMap = MapType<Key, Value, ThreadId>;

/// The model of a runtime state: byte keys to byte values and owners.
pub type RuntimeModel = StateModel<Seq<u8>, Seq<u8>, ThreadId>;

/// The error types returned from a dispatch function.
#[derive(Debug, Eq, PartialEq, Clone, Copy)]
pub enum DispatchError {
    /// The dispatch attempted to access a state key that another thread has tainted. The flag is
    /// true if the transaction must go to the master as an orphan: it already accessed a key
    /// that this thread owns, so the owner of the other key does not own that one.
    Tainted(ThreadId, bool),
    /// The transaction had a logical error.
    LogicError(&'static str),
}

#[derive(Debug, Eq, PartialEq, Clone, Copy)]
pub enum RuntimeDispatchSuccess {
    /// Execution went fine.
    Success,
    /// Execution had a logical error.
    LogicError(&'static str),
}

#[derive(Debug, Eq, PartialEq, Clone, Copy)]
pub enum RuntimeDispatchError {
    /// The dispatch attempted to access a state key that another thread has tainted.
    Tainted(ThreadId, bool),
}

/// The result of a dispatch.
pub type DispatchResult = Result<(), DispatchError>;

/// The final result of a dispatch: a logical error is a success; only tainting fails.
pub type RuntimeDispatchResult = Result<RuntimeDispatchSuccess, RuntimeDispatchError>;

/// The final result corresponding to a dispatch result.
pub open spec fn runtime_result(r: DispatchResult) -> RuntimeDispatchResult {
    match r {
        Ok(_) => Ok(RuntimeDispatchSuccess::Success),
        Err(DispatchError::LogicError(why)) => Ok(RuntimeDispatchSuccess::LogicError(why)),
        Err(DispatchError::Tainted(whom, orphan)) => Err(RuntimeDispatchError::Tainted(whom, orphan)),
    }
}

/// Conversion between `DispatchResult` and `RuntimeDispatchResult`.
pub trait ToRuntimeDispatchResult {
    fn to_runtime_dispatch_result(self) -> RuntimeDispatchResult;
}

impl ToRuntimeDispatchResult for DispatchResult {
    fn to_runtime_dispatch_result(self) -> (r: RuntimeDispatchResult)
        ensures
            r == runtime_result(self),
    {
        match self {
            Ok(_) => Ok(RuntimeDispatchSuccess::Success),
            Err(DispatchError::LogicError(why)) => Ok(RuntimeDispatchSuccess::LogicError(why)),
            Err(DispatchError::Tainted(whom, orphan)) => Err(RuntimeDispatchError::Tainted(whom, orphan)),
        }
    }
}

/// The result of a storage access with a refusal turned into a tainting error.
pub open spec fn tainted_as<T>(r: Result<T, ThreadId>, orphan: bool) -> Result<T, DispatchError> {
    match r {
        Ok(v) => Ok(v),
        Err(t) => Err(DispatchError::Tainted(t, orphan)),
    }
}

/// Conversion of the result of a storage access into a dispatch result.
pub trait UnwrapStorageOp<T>: Sized {
    /// A refusal means the transaction goes to the owner of the key: `Tainted(owner, false)`.
    fn or_forward(self) -> Result<T, DispatchError>;

    /// A refusal means the transaction goes to the master as an orphan: `Tainted(owner, true)`.
    fn or_orphan(self) -> Result<T, DispatchError>;
}

impl<T> UnwrapStorageOp<T> for Result<T, ThreadId> {
    fn or_forward(self) -> (r: Result<T, DispatchError>)
        ensures
            r == tainted_as(self, false),
    {
        match self {
            Ok(v) => Ok(v),
            Err(t) => Err(DispatchError::Tainted(t, false)),
        }
    }

    fn or_orphan(self) -> (r: Result<T, DispatchError>)
        ensures
            r == tainted_as(self, true),
    {
        match self {
            Ok(v) => Ok(v),
            Err(t) => Err(DispatchError::Tainted(t, true)),
        }
    }
}

/// The bytes of a read result.
pub open spec fn bytes_result(r: Result<Value, ThreadId>) -> Result<Seq<u8>, ThreadId> {
    match r {
        Ok(v) => Ok(v.0@),
        Err(t) => Err(t),
    }
}

/// Interface of the runtime that is available to each module.
///
/// A runtime has a model on which reads and writes act as `read_step` and `write_step`. Seen
/// from a transaction, each key has a value (`value_of`) and may be held by another thread
/// (`blocked_by`); a blocked access is refused with that thread and changes nothing.
pub trait ModuleRuntime: Sized {
    type Model;

    /// Whether storage access is subject to tainting.
    spec fn limited() -> bool;

    spec fn rt_model(&self) -> Self::Model;

    spec fn read_step(m: Self::Model, k: Seq<u8>) -> (Result<Seq<u8>, ThreadId>, Self::Model);

    spec fn write_step(m: Self::Model, k: Seq<u8>, v: Seq<u8>) -> (Result<(), ThreadId>, Self::Model);

    spec fn value_of(m: Self::Model, k: Seq<u8>) -> Seq<u8>;

    spec fn blocked_by(m: Self::Model, k: Seq<u8>) -> Option<ThreadId>;

    /// A read returns the value of an unblocked key, keeps every value, and does not block a
    /// key that was not blocked; a blocked read changes nothing.
    proof fn lemma_read_step(m: Self::Model, k: Seq<u8>)
        ensures
            Self::read_step(m, k).0 == (match Self::blocked_by(m, k) {
                Some(t) => Err(t),
                None => Ok(Self::value_of(m, k)),
            }),
            forall|k2: Seq<u8>| #[trigger] Self::value_of(Self::read_step(m, k).1, k2) == Self::value_of(m, k2),
            forall|k2: Seq<u8>| Self::blocked_by(m, k2) is None ==> (#[trigger] Self::blocked_by(Self::read_step(m, k).1, k2)) is None,
            Self::blocked_by(m, k) is Some ==> Self::read_step(m, k).1 == m,
            !Self::limited() ==> Self::blocked_by(m, k) is None,
            forall|k2: Seq<u8>| #[trigger] Self::blocked_by(Self::read_step(m, k).1, k2) == Self::blocked_by(m, k2),
    ;

    /// A write of an unblocked key sets its value and keeps the others; it does not block a key
    /// that was not blocked; a blocked write changes nothing.
    proof fn lemma_write_step(m: Self::Model, k: Seq<u8>, v: Seq<u8>)
        ensures
            Self::write_step(m, k, v).0 == (match Self::blocked_by(m, k) {
                Some(t) => Err(t),
                None => Ok(()),
            }),
            Self::blocked_by(m, k) is None ==> forall|k2: Seq<u8>| #[trigger] Self::value_of(Self::write_step(m, k, v).1, k2)
                == if k2 == k { v } else { Self::value_of(m, k2) },
            forall|k2: Seq<u8>| Self::blocked_by(m, k2) is None ==> (#[trigger] Self::blocked_by(Self::write_step(m, k, v).1, k2)) is None,
            Self::blocked_by(m, k) is Some ==> Self::write_step(m, k, v).1 == m,
            forall|k2: Seq<u8>| #[trigger] Self::blocked_by(Self::write_step(m, k, v).1, k2) == Self::blocked_by(m, k2),
    ;

    /// The value of `key` as a transaction sees it, and the thread that holds it against this
    /// one, if any, without accessing it.
    fn peek(&self, key: &Key) -> (r: (Value, Option<ThreadId>))
        ensures
            r.0.0@ == Self::value_of(self.rt_model(), key.0@),
            r.1 == Self::blocked_by(self.rt_model(), key.0@),
    ;

    /// The thread id of the runtime.
    fn thread_id(&self) -> ThreadId;

    /// Read from storage.
    fn read(&mut self, key: &Key) -> (r: Result<Value, ThreadId>)
        ensures
            bytes_result(r) == Self::read_step(old(self).rt_model(), key.0@).0,
            final(self).rt_model() == Self::read_step(old(self).rt_model(), key.0@).1,
    ;

    /// Write to storage.
    fn write(&mut self, key: &Key, value: Value) -> (r: Result<(), ThreadId>)
        ensures
            r == Self::write_step(old(self).rt_model(), key.0@, value.0@).0,
            final(self).rt_model() == Self::write_step(old(self).rt_model(), key.0@, value.0@).1,
    ;

    /// Read, update and write back the value at `key`.
    fn mutate<F: Fn(Value) -> Value>(&mut self, key: &Key, update: F) -> (r: Result<(), ThreadId>)
        requires
            forall|v: Value| #[trigger] update.requires((v,)),
        ensures
            match r {
                Ok(()) => exists|v: Value, w: Value| {
                    &&& v.0@ == Self::read_step(old(self).rt_model(), key.0@).0->Ok_0
                    &&& #[trigger] update.ensures((v,), w)
                    &&& final(self).rt_model() == Self::write_step(
                        Self::read_step(old(self).rt_model(), key.0@).1,
                        key.0@,
                        w.0@,
                    ).1
                },
                Err(o) => Self::read_step(old(self).rt_model(), key.0@).0 == Err::<Seq<u8>, ThreadId>(o)
                    && final(self).rt_model() == Self::read_step(old(self).rt_model(), key.0@).1,
            },
    {
        match self.read(key) {
            Ok(v) => {
                let ghost vv = v;
                let w = update(v);
                let ghost m1 = self.rt_model();
                proof {
                    Self::lemma_read_step(old(self).rt_model(), key.0@);
                    Self::lemma_write_step(m1, key.0@, w.0@);
                }
                let r = self.write(key, w);
                proof {
                    assert(update.ensures((vv,), w));
                }
                r
            },
            Err(o) => Err(o),
        }
    }
}

/// The model of a concurrent runtime: the shared state, the cached writes, and the thread id.
pub struct ConcurrentModel {
    pub state: RuntimeModel,
    pub cache: Map<Seq<u8>, Seq<u8>>,
    pub id: ThreadId,
}

/// The state after committing cached writes on behalf of `id`.
pub open spec fn committed(state: RuntimeModel, cache: Map<Seq<u8>, Seq<u8>>, id: ThreadId) -> RuntimeModel {
    state.union_prefer_right(cache.map_values(|v: Seq<u8>| (v, Some(id))))
}

/// A runtime for a worker thread. Every storage access is subject to tainting: only keys that
/// nobody else owns can be accessed, and an access makes this thread their owner. Writes are
/// cached and only applied to the state when a dispatch succeeds.
pub struct ConcurrentRuntime {
    /// The state.
    state: RuntimeState,
    /// Thread local cache of writes.
    cache: KeyedMap<Key, Value>,
    /// Id of the thread.
    id: ThreadId,
}

impl ConcurrentRuntime {
    /// Every cached key is owned by this thread in the state: a key is cached only after this
    /// thread accessed it.
    #[verifier::type_invariant]
    spec fn cached_keys_owned(self) -> bool {
        forall|k: Seq<u8>| #[trigger] self.cache@.contains_key(k) ==> owner_of(self.state@, k) == Some(self.id)
    }
}

impl ModuleRuntime for ConcurrentRuntime {
    type Model = ConcurrentModel;

    open spec fn limited() -> bool {
        true
    }

    closed spec fn rt_model(&self) -> ConcurrentModel {
        ConcurrentModel { state: self.state@, cache: self.cache@, id: self.id }
    }

    open spec fn read_step(m: ConcurrentModel, k: Seq<u8>) -> (Result<Seq<u8>, ThreadId>, ConcurrentModel) {
        if m.cache.contains_key(k) {
            (Ok(m.cache[k]), m)
        } else {
            let (r, s) = read_outcome(m.state, k, m.id, Seq::<u8>::empty());
            (r, ConcurrentModel { state: s, ..m })
        }
    }

    open spec fn write_step(m: ConcurrentModel, k: Seq<u8>, v: Seq<u8>) -> (Result<(), ThreadId>, ConcurrentModel) {
        let (r, m1) = Self::read_step(m, k);
        match r {
            Ok(_) => (Ok(()), ConcurrentModel { cache: m1.cache.insert(k, v), ..m1 }),
            Err(o) => (Err(o), m1),
        }
    }

    open spec fn value_of(m: ConcurrentModel, k: Seq<u8>) -> Seq<u8> {
        if m.cache.contains_key(k) {
            m.cache[k]
        } else {
            value_or(m.state, k, Seq::<u8>::empty())
        }
    }

    open spec fn blocked_by(m: ConcurrentModel, k: Seq<u8>) -> Option<ThreadId> {
        if m.cache.contains_key(k) || accessible(m.state, k, m.id) {
            None
        } else {
            owner_of(m.state, k)
        }
    }

    proof fn lemma_read_step(m: ConcurrentModel, k: Seq<u8>) {
        let r = Self::read_step(m, k);
        let expected: Result<Seq<u8>, ThreadId> = match Self::blocked_by(m, k) {
            Some(t) => Err(t),
            None => Ok(Self::value_of(m, k)),
        };
        assert(r.0 == expected);
        assert forall|k2: Seq<u8>| #[trigger] Self::value_of(r.1, k2) == Self::value_of(m, k2) by {
        }
        assert forall|k2: Seq<u8>| #[trigger] Self::blocked_by(r.1, k2) == Self::blocked_by(m, k2) by {
        }
        assert(Self::limited());
    }

    proof fn lemma_write_step(m: ConcurrentModel, k: Seq<u8>, v: Seq<u8>) {
        Self::lemma_read_step(m, k);
        let r = Self::write_step(m, k, v);
        let expected: Result<(), ThreadId> = match Self::blocked_by(m, k) {
            Some(t) => Err(t),
            None => Ok(()),
        };
        assert(r.0 == expected);
        if Self::blocked_by(m, k) is None {
            assert forall|k2: Seq<u8>| #[trigger] Self::value_of(r.1, k2) == if k2 == k { v } else { Self::value_of(m, k2) } by {
                assert(Self::value_of(Self::read_step(m, k).1, k2) == Self::value_of(m, k2));
            }
        }
        assert forall|k2: Seq<u8>| #[trigger] Self::blocked_by(r.1, k2) == Self::blocked_by(m, k2) by {
            assert(Self::blocked_by(Self::read_step(m, k).1, k2) == Self::blocked_by(m, k2));
        }
    }

    fn peek(&self, key: &Key) -> (r: (Value, Option<ThreadId>)) {
        proof {
            use_type_invariant(self);
        }
        match self.cache.get(key) {
            Some(v) => (v.duplicate(), None),
            None => {
                let v = match self.state.unsafe_read_value(key) {
                    Some(v) => v,
                    None => StateValue(Vec::new()),
                };
                let blocked = match self.state.unsafe_read_taint(key) {
                    Some(o) => if o == self.id {
                        None
                    } else {
                        Some(o)
                    },
                    None => None,
                };
                (v, blocked)
            },
        }
    }

    fn thread_id(&self) -> (t: ThreadId)
        ensures
            t == self.rt_model().id,
    {
        self.id
    }

    fn read(&mut self, key: &Key) -> (r: Result<Value, ThreadId>) {
        proof {
            use_type_invariant(&*self);
        }
        // a cached value belongs to this thread.
        match self.cache.get(key) {
            Some(value) => {
                return Ok(value.duplicate());
            },
            None => {},
        }
        let id = self.id;
        let mut cache = KeyedMap::new();
        std::mem::swap(&mut cache, &mut self.cache);
        let mut state = TaintState::new();
        std::mem::swap(&mut state, &mut self.state);
        let r = state.read(key, id);
        std::mem::swap(&mut state, &mut self.state);
        proof {
            assert forall|k: Seq<u8>| #[trigger] cache@.contains_key(k) implies owner_of(self.state@, k) == Some(id) by {
                assert(k != key.0@);
            }
        }
        std::mem::swap(&mut cache, &mut self.cache);
        r
    }

    fn write(&mut self, key: &Key, value: Value) -> (r: Result<(), ThreadId>) {
        match self.read(key) {
            Ok(_) => {
                proof {
                    use_type_invariant(&*self);
                }
                let mut cache = KeyedMap::new();
                std::mem::swap(&mut cache, &mut self.cache);
                cache.insert(key.duplicate(), value);
                std::mem::swap(&mut cache, &mut self.cache);
                Ok(())
            },
            Err(owner) => Err(owner),
        }
    }
}

impl ConcurrentRuntime {
    /// A runtime for thread `id` over `state`, with an empty cache.
    pub fn new(state: RuntimeState, id: ThreadId) -> (rt: Self)
        ensures
            rt.rt_model() == (ConcurrentModel { state: state@, cache: Map::empty(), id }),
    {
        Self { state, id, cache: KeyedMap::new() }
    }

    /// The state under this runtime.
    pub fn state(&self) -> (s: &RuntimeState)
        ensures
            s@ == self.rt_model().state,
    {
        &self.state
    }

    /// Give the state back.
    pub fn into_state(self) -> (s: RuntimeState)
        ensures
            s@ == self.rt_model().state,
    {
        self.state
    }

    /// The number of cached writes.
    pub fn cached_len(&self) -> (n: usize)
        ensures
            n == self.rt_model().cache.len(),
    {
        self.cache.len()
    }

    /// Apply the cached writes to the state, as owned by this thread. The cache is kept.
    pub fn commit_cache(&mut self)
        ensures
            final(self).rt_model() == (ConcurrentModel {
                state: committed(old(self).rt_model().state, old(self).rt_model().cache, old(self).rt_model().id),
                ..old(self).rt_model()
            }),
    {
        let id = self.id;
        let mut cache = KeyedMap::new();
        std::mem::swap(&mut cache, &mut self.cache);
        let mut state = TaintState::new();
        std::mem::swap(&mut state, &mut self.state);
        let n = cache.len();
        let ghost c = cache@;
        let ghost s0 = state@;
        let mut i: usize = 0;
        while i < n
            invariant
                n == cache.count(),
                c == cache@,
                forall|j: int| 0 <= j < n ==> #[trigger] c.contains_key(cache.key_at(j)),
                forall|k: Seq<u8>| #[trigger] c.contains_key(k) ==> exists|j: int| 0 <= j < n && cache.key_at(j) == k,
                i <= n,
                state@ == committed(s0, c.restrict(Set::new(|k: Seq<u8>| exists|j: int| 0 <= j < i && cache.key_at(j) == k)), id),
            decreases n - i,
        {
            let (k, v) = cache.entry_at(i);
            let entry = StateEntry::new(v.duplicate(), id);
            state.unsafe_insert(k, entry);
            proof {
                let s_old = Set::new(|k: Seq<u8>| exists|j: int| 0 <= j < i && cache.key_at(j) == k);
                let s_new = Set::new(|k: Seq<u8>| exists|j: int| 0 <= j < i + 1 && cache.key_at(j) == k);
                assert(s_new =~= s_old.insert(cache.key_at(i as int)));
                assert(c.restrict(s_new).map_values(|v: Seq<u8>| (v, Some(id))) =~= c.restrict(s_old).map_values(
                    |v: Seq<u8>| (v, Some(id)),
                ).insert(cache.key_at(i as int), (c[cache.key_at(i as int)], Some(id))));
                assert(state@ =~= committed(s0, c.restrict(s_new), id));
            }
            i = i + 1;
        }
        proof {
            let s = Set::new(|k: Seq<u8>| exists|j: int| 0 <= j < n && cache.key_at(j) == k);
            assert(c.restrict(s) =~= c);
        }
        std::mem::swap(&mut state, &mut self.state);
        std::mem::swap(&mut cache, &mut self.cache);
    }

    /// Drop the cached writes.
    pub fn clear_cache(&mut self)
        ensures
            final(self).rt_model() == (ConcurrentModel { cache: Map::empty(), ..old(self).rt_model() }),
    {
        self.cache = KeyedMap::new();
    }
}

/// The model of a sequential runtime: the state and the thread id.
pub struct SequentialModel {
    pub state: RuntimeModel,
    pub id: ThreadId,
}

/// A runtime that accesses the state directly, without regard to taints. Values it writes are
/// owned by no one.
pub struct SequentialRuntime {
    /// The state.
    pub state: RuntimeState,
    /// The thread id.
    pub id: ThreadId,
}

impl ModuleRuntime for SequentialRuntime {
    type Model = SequentialModel;

    open spec fn limited() -> bool {
        false
    }

    open spec fn rt_model(&self) -> SequentialModel {
        SequentialModel { state: self.state@, id: self.id }
    }

    open spec fn read_step(m: SequentialModel, k: Seq<u8>) -> (Result<Seq<u8>, ThreadId>, SequentialModel) {
        (Ok(value_or(m.state, k, Seq::<u8>::empty())), m)
    }

    open spec fn write_step(m: SequentialModel, k: Seq<u8>, v: Seq<u8>) -> (Result<(), ThreadId>, SequentialModel) {
        (Ok(()), SequentialModel { state: m.state.insert(k, (v, None)), ..m })
    }

    open spec fn value_of(m: SequentialModel, k: Seq<u8>) -> Seq<u8> {
        value_or(m.state, k, Seq::<u8>::empty())
    }

    open spec fn blocked_by(m: SequentialModel, k: Seq<u8>) -> Option<ThreadId> {
        None
    }

    proof fn lemma_read_step(m: SequentialModel, k: Seq<u8>) {
        assert(Self::blocked_by(m, k) is None);
        assert(!Self::limited());
        assert(Self::read_step(m, k).0 == Ok::<Seq<u8>, ThreadId>(Self::value_of(m, k)));
    }

    proof fn lemma_write_step(m: SequentialModel, k: Seq<u8>, v: Seq<u8>) {
        assert(Self::write_step(m, k, v).0 == Ok::<(), ThreadId>(()));
        assert forall|k2: Seq<u8>| #[trigger] Self::value_of(Self::write_step(m, k, v).1, k2) == if k2 == k { v } else { Self::value_of(m, k2) } by {
        }
    }

    fn thread_id(&self) -> (t: ThreadId)
        ensures
            t == self.id,
    {
        self.id
    }

    fn read(&mut self, key: &Key) -> (r: Result<Value, ThreadId>) {
        match self.state.unsafe_read_value(key) {
            Some(v) => Ok(v),
            None => Ok(StateValue(Vec::new())),
        }
    }

    fn peek(&self, key: &Key) -> (r: (Value, Option<ThreadId>)) {
        match self.state.unsafe_read_value(key) {
            Some(v) => (v, None),
            None => (StateValue(Vec::new()), None),
        }
    }

    fn write(&mut self, key: &Key, value: Value) -> (r: Result<(), ThreadId>) {
        self.state.unsafe_insert_genesis_value(key, value);
        Ok(())
    }
}

impl SequentialRuntime {
    /// A runtime for thread `id` over `state`.
    pub fn new(state: RuntimeState, id: ThreadId) -> (rt: Self)
        ensures
            rt.rt_model() == (SequentialModel { state: state@, id }),
            rt.state == state,
            rt.id == id,
    {
        Self { state, id }
    }
}

} // verus!

verus! {

/// Marker trait for those who have permission to dispatch.
pub trait DispatchPermission {}

impl DispatchPermission for ConcurrentRuntime {}

impl DispatchPermission for SequentialRuntime {}

/// The result of the validation of a dispatchable: the storage keys it will access.
pub type ValidationResult = Vec<Key>;

/// The byte strings of a list of keys.
pub open spec fn key_models(keys: Seq<Key>) -> Seq<Seq<u8>> {
    keys.map_values(|k: Key| k.0@)
}

/// Anything that can be dispatched on a runtime.
///
/// `dispatch_spec` is the result of the dispatch and the runtime model after it, which holds on
/// the models where `dispatch_safe` holds (where no balance arithmetic overflows).
pub trait Dispatchable<R: ModuleRuntime>: Sized {
    spec fn dispatch_spec(&self, m: R::Model, origin: Seq<u8>) -> (DispatchResult, R::Model);

    spec fn dispatch_safe(&self, m: R::Model, origin: Seq<u8>) -> bool;

    spec fn validate_spec(&self, origin: Seq<u8>) -> Seq<Seq<u8>>;

    /// Dispatch this dispatchable, consuming it.
    fn dispatch<T: DispatchPermission>(self, runtime: &mut R, origin: crate::primitives::AccountId) -> (r: DispatchResult)
        requires
            self.dispatch_safe(old(runtime).rt_model(), origin.0@),
        ensures
            (r, final(runtime).rt_model()) == self.dispatch_spec(old(runtime).rt_model(), origin.0@),
    ;

    /// The storage keys that this dispatchable will access.
    fn validate(&self, runtime: &R, origin: crate::primitives::AccountId) -> (keys: ValidationResult)
        ensures
            key_models(keys@) == self.validate_spec(origin.0@),
    ;
}

} // verus!
