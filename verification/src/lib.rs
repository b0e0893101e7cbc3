//! A taint-tracking state database, a small transaction runtime on top of it, and the pure
//! decision logic of an executor that distributes transactions over worker threads.

pub mod balances;
pub mod codec;
pub mod components;
pub mod crypto;
pub mod executor;
pub mod outer_call;
pub mod pool;
pub mod primitives;
pub mod runtime;
pub mod staking;
pub mod state;
pub mod storage;
pub mod testing;
pub mod types;
pub mod worker;
pub mod tx_distribution;
pub mod master;
pub mod state_generator;
pub mod example_storage;
pub mod display;
pub mod datasets;
pub mod atomicity;
pub mod greedy;
pub mod safety;
pub mod staking_laws;

use vstd::prelude::*;

verus! {

} // verus!
