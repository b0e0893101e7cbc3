//! The call of the runtime, which dispatches to the calls of its modules, and the dispatch of
//! a call on each runtime.

use vstd::prelude::*;
use crate::codec::Codec;
use crate::primitives::AccountId;
use crate::runtime::{
    committed, key_models, runtime_result, ConcurrentModel, ConcurrentRuntime, DispatchPermission, DispatchResult,
    Dispatchable, ModuleRuntime, RuntimeDispatchResult, SequentialRuntime, ToRuntimeDispatchResult, ValidationResult,
};
use crate::{balances, staking};

verus! {

/// The call of the runtime: a call of one of its modules.
#[derive(Debug, Eq, PartialEq)]
pub enum OuterCall {
    Balances(balances::Call),
    Staking(staking::Call),
}

impl Clone for OuterCall {
    fn clone(&self) -> (c: Self)
        ensures
            c.same(self),
    {
        match self {
            OuterCall::Balances(b) => OuterCall::Balances(*b),
            OuterCall::Staking(st) => OuterCall::Staking(st.clone()),
        }
    }
}

/// The same calls have the same outcome, the same safety, the same keys and the same encoding.
pub proof fn lemma_same_call<R: ModuleRuntime>(a: &OuterCall, b: &OuterCall, m: R::Model, origin: Seq<u8>)
    requires
        a.same(b),
    ensures
        <OuterCall as Dispatchable<R>>::dispatch_spec(a, m, origin) == <OuterCall as Dispatchable<R>>::dispatch_spec(
            b,
            m,
            origin,
        ),
        <OuterCall as Dispatchable<R>>::dispatch_safe(a, m, origin) == <OuterCall as Dispatchable<R>>::dispatch_safe(
            b,
            m,
            origin,
        ),
        <OuterCall as Dispatchable<R>>::validate_spec(a, origin) == <OuterCall as Dispatchable<R>>::validate_spec(b, origin),
        a.call_encoding() == b.call_encoding(),
        a.encodable() == b.encodable(),
{
}

impl OuterCall {
    /// Two calls are the same: calls of the same module that are the same.
    pub open spec fn same(&self, other: &OuterCall) -> bool {
        match (self, other) {
            (OuterCall::Balances(a), OuterCall::Balances(b)) => a == b,
            (OuterCall::Staking(a), OuterCall::Staking(b)) => a.same(b),
            _ => false,
        }
    }

    /// True when both calls are the same.
    pub fn is_same(&self, other: &OuterCall) -> (r: bool)
        ensures
            r == self.same(other),
    {
        match (self, other) {
            (OuterCall::Balances(a), OuterCall::Balances(b)) => a.is_same(b),
            (OuterCall::Staking(a), OuterCall::Staking(b)) => a.is_same(b),
            _ => false,
        }
    }

    /// The SCALE encoding of the call: the index of the module, then the module's call.
    pub open spec fn call_encoding(&self) -> Seq<u8> {
        match self {
            OuterCall::Balances(c) => seq![0u8] + c.call_encoding(),
            OuterCall::Staking(c) => seq![1u8] + c.call_encoding(),
        }
    }

    /// Whether the call can be encoded.
    pub open spec fn encodable(&self) -> bool {
        match self {
            OuterCall::Balances(_) => true,
            OuterCall::Staking(c) => c.encodable(),
        }
    }

    /// Encode the call.
    pub fn encode(&self) -> (r: Vec<u8>)
        requires
            self.encodable(),
        ensures
            r@ == self.call_encoding(),
    {
        let (index, mut inner): (u8, Vec<u8>) = match self {
            OuterCall::Balances(c) => (0, c.encode()),
            OuterCall::Staking(c) => (1, c.encode()),
        };
        let mut r = index.encode();
        r.append(&mut inner);
        r
    }
}

/// The outcome of a call on the model of a runtime.
pub open spec fn outer_spec<R: ModuleRuntime>(c: &OuterCall, m: R::Model, origin: Seq<u8>) -> (DispatchResult, R::Model) {
    match c {
        OuterCall::Balances(b) => balances::call_spec::<R>(*b, m, origin),
        OuterCall::Staking(s) => staking::call_spec::<R>(s, m, origin),
    }
}

/// The models on which a call does not panic.
pub open spec fn outer_safe<R: ModuleRuntime>(c: &OuterCall, m: R::Model, origin: Seq<u8>) -> bool {
    match c {
        OuterCall::Balances(b) => balances::call_safe::<R>(*b, m, origin),
        OuterCall::Staking(s) => staking::call_safe::<R>(s, m, origin),
    }
}

/// The storage keys that a call declares it will access; staking calls declare none.
pub open spec fn outer_keys<R: ModuleRuntime>(c: &OuterCall, origin: Seq<u8>) -> Seq<Seq<u8>> {
    match c {
        OuterCall::Balances(b) => balances::call_keys::<R>(*b, origin),
        OuterCall::Staking(_) => Seq::empty(),
    }
}

impl<R: ModuleRuntime> Dispatchable<R> for OuterCall {
    open spec fn dispatch_spec(&self, m: R::Model, origin: Seq<u8>) -> (DispatchResult, R::Model) {
        outer_spec::<R>(self, m, origin)
    }

    open spec fn dispatch_safe(&self, m: R::Model, origin: Seq<u8>) -> bool {
        outer_safe::<R>(self, m, origin)
    }

    open spec fn validate_spec(&self, origin: Seq<u8>) -> Seq<Seq<u8>> {
        outer_keys::<R>(self, origin)
    }

    fn dispatch<T: DispatchPermission>(self, runtime: &mut R, origin: AccountId) -> (r: DispatchResult) {
        match self {
            OuterCall::Balances(c) => balances::dispatch_call(c, runtime, origin),
            OuterCall::Staking(c) => staking::dispatch_call(c, runtime, origin),
        }
    }

    fn validate(&self, runtime: &R, origin: AccountId) -> (keys: ValidationResult) {
        match self {
            OuterCall::Balances(c) => balances::validate_call::<R>(c, origin),
            // staking calls declare no storage keys ahead of time.
            OuterCall::Staking(_) => Vec::new(),
        }
    }
}

/// The state after a dispatch on a concurrent runtime that ran the call to `r` and `m1`: the
/// cached writes are committed only where the dispatch succeeded, and the cache is emptied.
pub open spec fn concurrent_outcome(r: DispatchResult, m1: ConcurrentModel) -> ConcurrentModel {
    ConcurrentModel {
        state: match r {
            Ok(_) => committed(m1.state, m1.cache, m1.id),
            Err(_) => m1.state,
        },
        cache: Map::empty(),
        id: m1.id,
    }
}

impl ConcurrentRuntime {
    /// Dispatch a call. Writes go to a fresh cache, which is committed to the state only if the
    /// dispatch succeeds (a logic error drops them too) and emptied anyhow.
    pub fn dispatch(&mut self, call: OuterCall, origin: AccountId) -> (r: RuntimeDispatchResult)
        requires
            old(self).rt_model().cache == Map::<Seq<u8>, Seq<u8>>::empty(),
            <OuterCall as Dispatchable<ConcurrentRuntime>>::dispatch_safe(&call, old(self).rt_model(), origin.0@),
        ensures
            ({
                let (d, m1) = <OuterCall as Dispatchable<ConcurrentRuntime>>::dispatch_spec(
                    &call,
                    old(self).rt_model(),
                    origin.0@,
                );
                r == runtime_result(d) && final(self).rt_model() == concurrent_outcome(d, m1)
            }),
    {
        let dispatch_result = <OuterCall as Dispatchable<Self>>::dispatch::<Self>(call, self, origin);
        // only commit if result is ok. Note that logic error will also ignore all writes.
        match dispatch_result {
            Ok(_) => self.commit_cache(),
            _ => {},
        }
        // clear the cache anyhow.
        self.clear_cache();
        dispatch_result.to_runtime_dispatch_result()
    }

    /// The storage keys that a call declares it will access.
    pub fn validate(&self, call: &OuterCall, origin: AccountId) -> (keys: ValidationResult)
        ensures
            key_models(keys@) == <OuterCall as Dispatchable<ConcurrentRuntime>>::validate_spec(call, origin.0@),
    {
        <OuterCall as Dispatchable<Self>>::validate(call, self, origin)
    }
}

impl SequentialRuntime {
    /// Dispatch a call.
    pub fn dispatch(&mut self, call: OuterCall, origin: AccountId) -> (r: RuntimeDispatchResult)
        requires
            <OuterCall as Dispatchable<SequentialRuntime>>::dispatch_safe(&call, old(self).rt_model(), origin.0@),
        ensures
            ({
                let (d, m1) = <OuterCall as Dispatchable<SequentialRuntime>>::dispatch_spec(
                    &call,
                    old(self).rt_model(),
                    origin.0@,
                );
                r == runtime_result(d) && final(self).rt_model() == m1
            }),
    {
        <OuterCall as Dispatchable<Self>>::dispatch::<Self>(call, self, origin).to_runtime_dispatch_result()
    }

    /// The storage keys that a call declares it will access.
    pub fn validate(&self, call: &OuterCall, origin: AccountId) -> (keys: ValidationResult)
        ensures
            key_models(keys@) == <OuterCall as Dispatchable<SequentialRuntime>>::validate_spec(call, origin.0@),
    {
        <OuterCall as Dispatchable<Self>>::validate(call, self, origin)
    }
}

} // verus!
