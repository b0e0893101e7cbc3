//! A builder of initial states.

use vstd::prelude::*;
use crate::primitives::{StateKey, StateValue};
use crate::runtime::{RuntimeModel, RuntimeState, SequentialRuntime, StateMap};
use crate::state::TaintState;

verus! {

/// A simple builder of states.
///
/// It inserts values into a state through an internal sequential runtime, and hands the state
/// over on `build`.
pub struct InitialStateGenerate {
    runtime: SequentialRuntime,
}

impl InitialStateGenerate {
    /// The runtime the state is built with.
    pub closed spec fn runtime(&self) -> SequentialRuntime {
        self.runtime
    }

    /// A builder over an empty state, with a runtime of thread id 999.
    pub fn new() -> (g: Self)
        ensures
            g.runtime().state@ == RuntimeModel::empty(),
            g.runtime().id == 999,
    {
        Self { runtime: SequentialRuntime::new(TaintState::new(), 999) }
    }

    /// Let `update` work on the runtime: it takes the runtime and hands it back.
    pub fn with_runtime<F: FnOnce(SequentialRuntime) -> SequentialRuntime>(self, update: F) -> (g: Self)
        requires
            update.requires((self.runtime(),)),
        ensures
            update.ensures((self.runtime(),), g.runtime()),
    {
        let runtime = update(self.runtime);
        Self { runtime }
    }

    /// Insert `value` at `key`, owned by no one.
    pub fn insert(self, key: StateKey, value: StateValue) -> (g: Self)
        ensures
            g.runtime().state@ == self.runtime().state@.insert(key.0@, (value.0@, None::<u64>)),
            g.runtime().id == self.runtime().id,
    {
        let mut runtime = self.runtime;
        runtime.state.unsafe_insert_genesis_value(&key, value);
        Self { runtime }
    }

    /// The state built.
    pub fn build(self) -> (m: StateMap)
        ensures
            m@ == self.runtime().state@,
    {
        self.runtime.state.dump()
    }
}

} // verus!
