//! Executors: something that authors a block from transactions and validates a block, here the
//! sequential executor, which applies the transactions one by one on a sequential runtime.

use vstd::prelude::*;
use crate::outer_call::{lemma_same_call, outer_safe, outer_spec, OuterCall};
use crate::primitives::ThreadId;
use crate::runtime::{
    runtime_result, DispatchError, Dispatchable, ModuleRuntime, RuntimeModel, RuntimeState, SequentialModel,
    SequentialRuntime, StateMap,
};
use crate::state::{dumps_equal, StateData, StateEq, StateModel};
use crate::types::{Block, Transaction};

verus! {

/// A sequential runtime never refuses an access, so a dispatch on it never ends tainted.
pub proof fn lemma_sequential_untainted(c: &OuterCall, m: SequentialModel, origin: Seq<u8>)
    ensures
        !(<OuterCall as Dispatchable<SequentialRuntime>>::dispatch_spec(c, m, origin).0 is Err
            && <OuterCall as Dispatchable<SequentialRuntime>>::dispatch_spec(c, m, origin).0->Err_0 is Tainted),
{
}

/// A dispatch on a sequential runtime keeps its thread id.
pub proof fn lemma_sequential_keeps_id(c: &OuterCall, m: SequentialModel, origin: Seq<u8>)
    ensures
        <OuterCall as Dispatchable<SequentialRuntime>>::dispatch_spec(c, m, origin).1.id == m.id,
{
}

/// The model after one transaction on a sequential runtime.
pub open spec fn apply_one(m: SequentialModel, tx: Transaction) -> SequentialModel {
    outer_spec::<SequentialRuntime>(&tx.function, m, tx.signature.0.0@).1
}

/// The model after the transactions of `txs`, in order, on a sequential runtime.
pub open spec fn apply_seq(m: SequentialModel, txs: Seq<Transaction>) -> SequentialModel {
    txs.fold_left(m, |acc: SequentialModel, tx: Transaction| apply_one(acc, tx))
}

/// No transaction of `txs`, applied in order from `m`, panics.
pub open spec fn all_safe(m: SequentialModel, txs: Seq<Transaction>) -> bool {
    forall|i: int|
        0 <= i < txs.len() ==> outer_safe::<SequentialRuntime>(
            &(#[trigger] txs[i]).function,
            apply_seq(m, txs.take(i)),
            txs[i].signature.0.0@,
        )
}

/// Applying one more transaction.
pub proof fn lemma_apply_step(m: SequentialModel, txs: Seq<Transaction>, i: int)
    requires
        0 <= i < txs.len(),
    ensures
        apply_seq(m, txs.take(i + 1)) == apply_one(apply_seq(m, txs.take(i)), txs[i]),
{
    assert(txs.take(i + 1).drop_last() =~= txs.take(i));
}

/// Apply the transactions, in order, on a sequential runtime.
pub fn apply_transactions(runtime: &mut SequentialRuntime, transactions: &Vec<Transaction>)
    requires
        all_safe(old(runtime).rt_model(), transactions@),
    ensures
        final(runtime).rt_model() == apply_seq(old(runtime).rt_model(), transactions@),
        final(runtime).id == old(runtime).id,
{
    let ghost m0 = runtime.rt_model();
    let mut i: usize = 0;
    proof {
        assert(transactions@.take(0) =~= Seq::<Transaction>::empty());
    }
    while i < transactions.len()
        invariant
            i <= transactions@.len(),
            runtime.rt_model() == apply_seq(m0, transactions@.take(i as int)),
            all_safe(m0, transactions@),
            runtime.id == m0.id,
        decreases transactions@.len() - i,
    {
        let tx = &transactions[i];
        let call = tx.function.clone();
        let origin = tx.signature.0;
        proof {
            assert(transactions@[i as int] == *tx);
            lemma_same_call::<SequentialRuntime>(&call, &tx.function, runtime.rt_model(), origin.0@);
            lemma_sequential_untainted(&call, runtime.rt_model(), origin.0@);
            lemma_sequential_keeps_id(&call, runtime.rt_model(), origin.0@);
            lemma_apply_step(m0, transactions@, i as int);
        }
        let _ok = runtime.dispatch(call, origin).expect(
            "Sequential execution cannot fail on execute. This will at most be Ok(LogicError(..))",
        );
        i = i + 1;
    }
    proof {
        assert(transactions@.take(transactions@.len() as int) =~= transactions@);
    }
}

/// Apply the transactions, in order, on a sequential runtime, as long as each can be
/// dispatched without a panic: `Ok` where all were applied, or `Err` with the position of the
/// first that cannot be, after those before it were applied.
pub fn apply_transactions_checked(runtime: &mut SequentialRuntime, transactions: &Vec<Transaction>) -> (r: Result<(), usize>)
    ensures
        final(runtime).id == old(runtime).id,
        match r {
            Ok(()) => all_safe(old(runtime).rt_model(), transactions@) && final(runtime).rt_model() == apply_seq(
                old(runtime).rt_model(),
                transactions@,
            ),
            Err(i) => {
                &&& i < transactions@.len()
                &&& all_safe(old(runtime).rt_model(), transactions@.take(i as int))
                &&& !outer_safe::<SequentialRuntime>(
                    &transactions@[i as int].function,
                    apply_seq(old(runtime).rt_model(), transactions@.take(i as int)),
                    transactions@[i as int].signature.0.0@,
                )
                &&& final(runtime).rt_model() == apply_seq(old(runtime).rt_model(), transactions@.take(i as int))
            },
        },
{
    let ghost m0 = runtime.rt_model();
    let mut i: usize = 0;
    proof {
        assert(transactions@.take(0) =~= Seq::<Transaction>::empty());
    }
    while i < transactions.len()
        invariant
            m0 == old(runtime).rt_model(),
            m0.id == old(runtime).id,
            i <= transactions@.len(),
            runtime.rt_model() == apply_seq(m0, transactions@.take(i as int)),
            forall|j: int|
                0 <= j < i ==> outer_safe::<SequentialRuntime>(
                    &(#[trigger] transactions@[j]).function,
                    apply_seq(m0, transactions@.take(j)),
                    transactions@[j].signature.0.0@,
                ),
            runtime.id == m0.id,
        decreases transactions@.len() - i,
    {
        let tx = &transactions[i];
        if !crate::safety::dispatch_is_safe(runtime, &tx.function, tx.signature.0) {
            proof {
                assert(transactions@[i as int] == *tx);
                assert forall|j: int|
                    0 <= j < i implies outer_safe::<SequentialRuntime>(
                    &(#[trigger] transactions@.take(i as int)[j]).function,
                    apply_seq(m0, transactions@.take(i as int).take(j)),
                    transactions@.take(i as int)[j].signature.0.0@,
                ) by {
                    assert(transactions@.take(i as int).take(j) =~= transactions@.take(j));
                    assert(transactions@.take(i as int)[j] == transactions@[j]);
                }
            }
            return Err(i);
        }
        let call = tx.function.clone();
        let origin = tx.signature.0;
        proof {
            assert(transactions@[i as int] == *tx);
            lemma_same_call::<SequentialRuntime>(&call, &tx.function, runtime.rt_model(), origin.0@);
            lemma_sequential_untainted(&call, runtime.rt_model(), origin.0@);
            lemma_sequential_keeps_id(&call, runtime.rt_model(), origin.0@);
            lemma_apply_step(m0, transactions@, i as int);
        }
        let _ok = runtime.dispatch(call, origin).expect(
            "Sequential execution cannot fail on execute. This will at most be Ok(LogicError(..))",
        );
        i = i + 1;
    }
    proof {
        assert(transactions@.take(transactions@.len() as int) =~= transactions@);
    }
    Ok(())
}

/// A sequential runtime of the same thread over a copy of the state of `rt`.
pub fn copy_runtime(rt: &SequentialRuntime) -> (c: SequentialRuntime)
    ensures
        c.rt_model() == rt.rt_model(),
{
    let state = rt.state.dump();
    let mut c = SequentialRuntime::new(RuntimeState::new(), rt.id);
    let n = state.len();
    let mut i: usize = 0;
    while i < n
        invariant
            n == state.count(),
            forall|j: int| 0 <= j < n ==> #[trigger] state@.contains_key(state.key_at(j)),
            forall|k: Seq<u8>| #[trigger] state@.contains_key(k) ==> exists|j: int| 0 <= j < n && state.key_at(j) == k,
            i <= n,
            c.state@ == state@.restrict(Set::new(|k: Seq<u8>| exists|j: int| 0 <= j < i && state.key_at(j) == k)),
            c.id == rt.id,
        decreases n - i,
    {
        let (k, v) = state.entry_at(i);
        let entry = v.duplicate();
        c.state.unsafe_insert(k, entry);
        proof {
            let s_old = Set::new(|k: Seq<u8>| exists|j: int| 0 <= j < i && state.key_at(j) == k);
            let s_new = Set::new(|k: Seq<u8>| exists|j: int| 0 <= j < i + 1 && state.key_at(j) == k);
            assert(s_new =~= s_old.insert(state.key_at(i as int)));
            assert(c.state@ =~= state@.restrict(s_new));
        }
        i = i + 1;
    }
    proof {
        let s = Set::new(|k: Seq<u8>| exists|j: int| 0 <= j < n && state.key_at(j) == k);
        assert(state@.restrict(s) =~= state@);
    }
    c
}

/// Whether every transaction, applied in order from the state of `rt`, can be dispatched
/// without a panic.
pub fn all_safe_now(rt: &SequentialRuntime, transactions: &Vec<Transaction>) -> (b: bool)
    ensures
        b == all_safe(rt.rt_model(), transactions@),
{
    let mut c = copy_runtime(rt);
    match apply_transactions_checked(&mut c, transactions) {
        Ok(()) => true,
        Err(i) => {
            proof {
                let txs = transactions@;
                assert(txs.take(i as int) == txs.take(i as int));
                assert(!outer_safe::<SequentialRuntime>(
                    &(#[trigger] txs[i as int]).function,
                    apply_seq(rt.rt_model(), txs.take(i as int)),
                    txs[i as int].signature.0.0@,
                ));
            }
            false
        },
    }
}

/// Something that can execute transactions and blocks.
///
/// An executor works on a state; `authored` is the state and the block that authoring a block
/// from some transactions gives, `validated` the state that validating a block gives, and
/// `can_execute` whether either goes through on a state.
pub trait Executor: Sized {
    /// What, besides the state, decides how the executor runs.
    type Config;

    spec fn config(&self) -> Self::Config;

    /// The state the executor works on.
    spec fn exec_model(&self) -> RuntimeModel;

    spec fn can_execute(c: Self::Config, m: RuntimeModel, txs: Seq<Transaction>) -> bool;

    spec fn authored(c: Self::Config, m: RuntimeModel, txs: Seq<Transaction>) -> (RuntimeModel, Seq<Transaction>);

    spec fn validated(c: Self::Config, m: RuntimeModel, txs: Seq<Transaction>) -> RuntimeModel;

    /// Execute the given transactions into a block: the final state and the block.
    fn author_block(&mut self, initial_transactions: Vec<Transaction>) -> (r: (StateMap, Block))
        requires
            Self::can_execute(old(self).config(), old(self).exec_model(), initial_transactions@),
        ensures
            r.0@ == Self::authored(old(self).config(), old(self).exec_model(), initial_transactions@).0,
            r.1.transactions@ == Self::authored(old(self).config(), old(self).exec_model(), initial_transactions@).1,
            final(self).exec_model() == r.0@,
            final(self).config() == old(self).config(),
    ;

    /// Re-validate a block as it will be done by the validator: the final state.
    fn validate_block(&mut self, block: Block) -> (r: StateMap)
        requires
            Self::can_execute(old(self).config(), old(self).exec_model(), block.transactions@),
        ensures
            r@ == Self::validated(old(self).config(), old(self).exec_model(), block.transactions@),
            final(self).exec_model() == r@,
            final(self).config() == old(self).config(),
    ;

    /// Clean the internal state of the executor.
    fn clean(&mut self)
        ensures
            final(self).exec_model() == RuntimeModel::empty(),
            final(self).config() == old(self).config(),
    ;

    /// Insert the entries of a state into the state of the executor.
    fn apply_state(&mut self, state: StateMap)
        ensures
            final(self).exec_model() == old(self).exec_model().union_prefer_right(state@),
            final(self).config() == old(self).config(),
    ;
}

/// A sequential executor: no master, no workers; the transactions are applied one after the
/// other on a sequential runtime.
pub struct SequentialExecutor {
    pub runtime: SequentialRuntime,
}

impl SequentialExecutor {
    /// An executor on an empty state, for the thread `id`.
    pub fn new(id: ThreadId) -> (e: Self)
        ensures
            e.runtime.rt_model() == (SequentialModel { state: RuntimeModel::empty(), id }),
    {
        let state = RuntimeState::new();
        let runtime = SequentialRuntime::new(state, id);
        Self { runtime }
    }

    /// Apply the transactions one by one.
    pub fn apply_transaction(&mut self, transactions: Vec<Transaction>)
        requires
            all_safe(old(self).runtime.rt_model(), transactions@),
        ensures
            final(self).runtime.rt_model() == apply_seq(old(self).runtime.rt_model(), transactions@),
    {
        apply_transactions(&mut self.runtime, &transactions);
    }
}

impl Executor for SequentialExecutor {
    type Config = ThreadId;

    open spec fn config(&self) -> ThreadId {
        self.runtime.id
    }

    open spec fn exec_model(&self) -> RuntimeModel {
        self.runtime.state@
    }

    open spec fn can_execute(c: ThreadId, m: RuntimeModel, txs: Seq<Transaction>) -> bool {
        all_safe(SequentialModel { state: m, id: c }, txs)
    }

    /// The transactions go into the block as they are.
    open spec fn authored(c: ThreadId, m: RuntimeModel, txs: Seq<Transaction>) -> (RuntimeModel, Seq<Transaction>) {
        (apply_seq(SequentialModel { state: m, id: c }, txs).state, txs)
    }

    open spec fn validated(c: ThreadId, m: RuntimeModel, txs: Seq<Transaction>) -> RuntimeModel {
        apply_seq(SequentialModel { state: m, id: c }, txs).state
    }

    fn author_block(&mut self, initial_transactions: Vec<Transaction>) -> (r: (StateMap, Block)) {
        // simply apply the transactions, one by one.
        apply_transactions(&mut self.runtime, &initial_transactions);
        (self.runtime.state.dump(), Block::from(initial_transactions))
    }

    fn validate_block(&mut self, block: Block) -> (r: StateMap) {
        apply_transactions(&mut self.runtime, &block.transactions);
        self.runtime.state.dump()
    }

    fn clean(&mut self) {
        self.runtime.state.unsafe_clean();
    }

    fn apply_state(&mut self, state: StateMap) {
        let n = state.len();
        let ghost s0 = self.runtime.state@;
        let mut i: usize = 0;
        while i < n
            invariant
                n == state.count(),
                forall|j: int| 0 <= j < n ==> #[trigger] state@.contains_key(state.key_at(j)),
                forall|k: Seq<u8>| #[trigger] state@.contains_key(k) ==> exists|j: int| 0 <= j < n && state.key_at(j) == k,
                i <= n,
                self.runtime.state@ == s0.union_prefer_right(
                    state@.restrict(Set::new(|k: Seq<u8>| exists|j: int| 0 <= j < i && state.key_at(j) == k)),
                ),
                self.runtime.id == old(self).runtime.id,
            decreases n - i,
        {
            let (k, v) = state.entry_at(i);
            let entry = v.duplicate();
            self.runtime.state.unsafe_insert(k, entry);
            proof {
                let s_old = Set::new(|k: Seq<u8>| exists|j: int| 0 <= j < i && state.key_at(j) == k);
                let s_new = Set::new(|k: Seq<u8>| exists|j: int| 0 <= j < i + 1 && state.key_at(j) == k);
                assert(s_new =~= s_old.insert(state.key_at(i as int)));
                assert(self.runtime.state@ =~= s0.union_prefer_right(state@.restrict(s_new)));
            }
            i = i + 1;
        }
        proof {
            let s = Set::new(|k: Seq<u8>| exists|j: int| 0 <= j < n && state.key_at(j) == k);
            assert(state@.restrict(s) =~= state@);
        }
    }
}

/// A sequential executor that authors a block from a state and validates that block from the
/// same state reaches the same state: validation reproduces authoring.
pub proof fn law_sequential_validation_reproduces_authoring(id: ThreadId, init: RuntimeModel, txs: Seq<Transaction>)
    requires
        SequentialExecutor::can_execute(id, init, txs),
    ensures
        dumps_equal(
            SequentialExecutor::validated(id, init, SequentialExecutor::authored(id, init, txs).1),
            SequentialExecutor::authored(id, init, txs).0,
        ),
{
}

/// Author a block with an executor and validate it, each from the given initial state, if any:
/// whether the validation gives the state that the authoring gave.
pub fn author_and_validate<E: Executor>(executor: &mut E, initial_transactions: Vec<Transaction>, initial_state: Option<StateMap>) -> (r: bool)
    requires
        ({
            let init = match initial_state {
                Some(s) => s@,
                None => RuntimeModel::empty(),
            };
            let m1 = old(executor).exec_model().union_prefer_right(init);
            &&& E::can_execute(old(executor).config(), m1, initial_transactions@)
            &&& E::can_execute(old(executor).config(), init, E::authored(old(executor).config(), m1, initial_transactions@).1)
        }),
    ensures
        ({
            let init = match initial_state {
                Some(s) => s@,
                None => RuntimeModel::empty(),
            };
            let m1 = old(executor).exec_model().union_prefer_right(init);
            let (authoring, block) = E::authored(old(executor).config(), m1, initial_transactions@);
            r == dumps_equal(E::validated(old(executor).config(), init, block), authoring)
        }),
{
    let second = match &initial_state {
        Some(s) => Some(s.duplicate_map()),
        None => None,
    };
    match initial_state {
        Some(s) => executor.apply_state(s),
        None => {
            proof {
                assert(executor.exec_model().union_prefer_right(RuntimeModel::empty()) =~= executor.exec_model());
            }
        },
    }
    let (authoring_state, block) = executor.author_block(initial_transactions);
    executor.clean();
    match second {
        Some(s) => executor.apply_state(s),
        None => {},
    }
    proof {
        assert(executor.exec_model() =~= (match initial_state {
            Some(s) => s@,
            None => RuntimeModel::empty(),
        }));
    }
    let validation_state = executor.validate_block(block);
    validation_state.state_eq(authoring_state)
}

} // verus!
