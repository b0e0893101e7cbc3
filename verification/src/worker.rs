//! The decisions of a worker thread: what becomes of a transaction that it tried to execute.

use vstd::prelude::*;
use crate::outer_call::{concurrent_outcome, OuterCall};
use crate::primitives::{AccountId, ThreadId, TransactionId};
use crate::runtime::{
    runtime_result, ConcurrentModel, ConcurrentRuntime, Dispatchable, ModuleRuntime, RuntimeDispatchError,
    RuntimeDispatchResult, RuntimeDispatchSuccess,
};
use crate::types::{ExecutionStatus, MessagePayload, Transaction};

verus! {

/// The execution outcome of a transaction.
#[derive(Debug, Clone, Copy, Eq, PartialEq)]
pub enum ExecutionOutcome {
    /// This transaction was executed successfully with the contained dispatch success: either
    /// Ok or a logical error, not a taint error.
    Executed(RuntimeDispatchSuccess),
    /// This transaction was forwarded to another worker thread with the given thread id.
    Forwarded(ThreadId),
    /// This transaction was forwarded to master as an orphan.
    ForwardedToMaster,
}

/// What becomes of a transaction with execution status `exec_status` that was dispatched to
/// `result`: executed; or, where a key was tainted by another worker, forwarded to that worker
/// the first time (unless the transaction already touched a key of this worker), else to the
/// master as an orphan.
pub open spec fn outcome_spec(exec_status: ExecutionStatus, result: RuntimeDispatchResult) -> ExecutionOutcome {
    match result {
        Err(RuntimeDispatchError::Tainted(by_whom, corrupt)) => if exec_status == ExecutionStatus::Initial
            && !corrupt {
            ExecutionOutcome::Forwarded(by_whom)
        } else {
            ExecutionOutcome::ForwardedToMaster
        },
        Ok(ok) => ExecutionOutcome::Executed(ok),
    }
}

/// The decision of a worker about a transaction with execution status `exec_status` that was
/// dispatched to `result`: its outcome, and whether the master must be told that this worker
/// executed it (a forwarded transaction that got executed).
pub fn decide(exec_status: ExecutionStatus, result: RuntimeDispatchResult) -> (d: (ExecutionOutcome, bool))
    ensures
        d.0 == outcome_spec(exec_status, result),
        d.1 == (exec_status == ExecutionStatus::Forwarded && result is Ok),
{
    match result {
        Err(RuntimeDispatchError::Tainted(by_whom, corrupt)) => {
            if exec_status == ExecutionStatus::Initial {
                if corrupt {
                    (ExecutionOutcome::ForwardedToMaster, false)
                } else {
                    (ExecutionOutcome::Forwarded(by_whom), false)
                }
            } else {
                (ExecutionOutcome::ForwardedToMaster, false)
            }
        },
        Ok(ok) => (ExecutionOutcome::Executed(ok), exec_status == ExecutionStatus::Forwarded),
    }
}

/// What becomes of a dispatched transaction. A dispatch refused for a key of another thread
/// after the transaction already took a key of this worker (`Tainted(_, true)`) makes it an
/// orphan for the master, whatever its status. It goes to the owner `w` of the key exactly
/// where it is refused before taking any key (`Tainted(w, false)`) on its initial try; a
/// transaction that was already forwarded once goes to the master instead. An executed
/// dispatch is reported with its success.
pub proof fn law_forwarding_rule(exec_status: ExecutionStatus, w: ThreadId, r: RuntimeDispatchResult)
    ensures
        outcome_spec(exec_status, Err(RuntimeDispatchError::Tainted(w, true))) == ExecutionOutcome::ForwardedToMaster,
        outcome_spec(exec_status, r) == ExecutionOutcome::Forwarded(w) <==> (exec_status == ExecutionStatus::Initial && r
            == Err::<RuntimeDispatchSuccess, RuntimeDispatchError>(RuntimeDispatchError::Tainted(w, false))),
        exec_status != ExecutionStatus::Initial ==> outcome_spec(
            exec_status,
            Err(RuntimeDispatchError::Tainted(w, false)),
        ) == ExecutionOutcome::ForwardedToMaster,
        r matches Ok(x) ==> outcome_spec(exec_status, r) == ExecutionOutcome::Executed(x),
        r is Err ==> !(outcome_spec(exec_status, r) is Executed),
{
}

/// Try to execute a transaction on the runtime of a worker.
pub fn execute_transaction(runtime: &mut ConcurrentRuntime, tx: Transaction) -> (r: RuntimeDispatchResult)
    requires
        old(runtime).rt_model().cache == Map::<Seq<u8>, Seq<u8>>::empty(),
        <OuterCall as Dispatchable<ConcurrentRuntime>>::dispatch_safe(
            &tx.function,
            old(runtime).rt_model(),
            tx.signature.0.0@,
        ),
    ensures
        ({
            let (d, m1) = <OuterCall as Dispatchable<ConcurrentRuntime>>::dispatch_spec(
                &tx.function,
                old(runtime).rt_model(),
                tx.signature.0.0@,
            );
            r == runtime_result(d) && final(runtime).rt_model() == concurrent_outcome(d, m1)
        }),
{
    let call = tx.function;
    let origin = tx.signature.0;
    runtime.dispatch(call, origin)
}

/// Try to execute a transaction, and decide what becomes of it: see `decide`. The messages
/// that the decision calls for are for the caller to send.
pub fn execute_or_forward(runtime: &mut ConcurrentRuntime, tx: Transaction) -> (d: (ExecutionOutcome, bool))
    requires
        old(runtime).rt_model().cache == Map::<Seq<u8>, Seq<u8>>::empty(),
        <OuterCall as Dispatchable<ConcurrentRuntime>>::dispatch_safe(
            &tx.function,
            old(runtime).rt_model(),
            tx.signature.0.0@,
        ),
    ensures
        ({
            let (r, m1) = <OuterCall as Dispatchable<ConcurrentRuntime>>::dispatch_spec(
                &tx.function,
                old(runtime).rt_model(),
                tx.signature.0.0@,
            );
            &&& d.0 == outcome_spec(tx.exec_status, runtime_result(r))
            &&& d.1 == (tx.exec_status == ExecutionStatus::Forwarded && runtime_result(r) is Ok)
            &&& final(runtime).rt_model() == concurrent_outcome(r, m1)
        }),
{
    let exec_status = tx.exec_status;
    let rt_dispatch_result = execute_transaction(runtime, tx);
    decide(exec_status, rt_dispatch_result)
}

/// The phase of a worker while a block is authored.
#[derive(Debug, Clone, Copy, Eq, PartialEq, Structural)]
pub enum WorkerPhase {
    /// Executing the transactions that the master distributed, with the counts of those
    /// executed and those forwarded so far.
    Initial(usize, usize),
    /// Executing the transactions that other workers forward, until the master says the end.
    Forwarding,
    /// The master said the end.
    Terminated,
}

/// What a worker does upon a message.
#[derive(Debug, Clone)]
pub enum WorkerAction {
    /// Execute this transaction, or forward it: see `execute_or_forward`.
    Execute(Transaction),
    /// Send the report of the initial phase to the master: executed and forwarded counts.
    Report(usize, usize),
    /// Stop working on this block.
    Stop,
}

/// What a worker does upon a message of the master while a block is validated.
#[derive(Debug, Clone)]
pub enum ValidationAction {
    /// Apply this transaction of the block, which the block assigns to this worker.
    Apply(Transaction),
    /// The master sent all the transactions of this worker: report, and stop.
    Report,
}

/// A message that a worker does not expect where it came: each breaks the protocol between
/// master and workers, and the caller stops on it.
#[derive(Debug, Clone, Copy, Eq, PartialEq, Structural)]
pub enum UnexpectedMessage {
    /// From the master.
    FromMaster,
    /// From another worker.
    FromWorker,
}

/// The phase after a message of the master, and the action it calls for: in the initial
/// phase, a transaction is executed and the end of the distribution is reported; afterwards,
/// only the end is expected.
pub open spec fn on_master_spec(phase: WorkerPhase, payload: MessagePayload) -> Option<(WorkerPhase, WorkerAction)> {
    match (phase, payload) {
        (WorkerPhase::Initial(_, _), MessagePayload::Transaction(tx)) => Some((phase, WorkerAction::Execute(tx))),
        (WorkerPhase::Initial(e, f), MessagePayload::InitialPhaseDone) => Some(
            (WorkerPhase::Forwarding, WorkerAction::Report(e, f)),
        ),
        (WorkerPhase::Forwarding, MessagePayload::Terminate) => Some((WorkerPhase::Terminated, WorkerAction::Stop)),
        _ => None,
    }
}

/// The phase after an outcome of the execution of a transaction: in the initial phase, the
/// executed and forwarded counts grow.
pub open spec fn record_spec(phase: WorkerPhase, outcome: ExecutionOutcome) -> WorkerPhase {
    match phase {
        WorkerPhase::Initial(e, f) => match outcome {
            ExecutionOutcome::Executed(_) => WorkerPhase::Initial((e + 1) as usize, f),
            _ => WorkerPhase::Initial(e, (f + 1) as usize),
        },
        _ => phase,
    }
}

/// Whether the counts fit their type after one more outcome.
pub open spec fn record_fits(phase: WorkerPhase) -> bool {
    match phase {
        WorkerPhase::Initial(e, f) => e < usize::MAX && f < usize::MAX,
        _ => true,
    }
}

/// The pure part of a worker thread: its id, that of its master, the ids of the other workers
/// it can forward to, and its phase.
pub struct Worker {
    /// The id of the worker.
    pub id: ThreadId,
    /// The id of the master thread.
    pub master_id: ThreadId,
    /// The ids of all workers, whose queues the worker can send to.
    pub others: Vec<ThreadId>,
    /// The phase of the worker.
    pub phase: WorkerPhase,
}

impl Worker {
    /// A worker at the start of the initial phase, with no other worker known yet.
    pub fn new(id: ThreadId, master_id: ThreadId) -> (w: Self)
        ensures
            w.id == id,
            w.master_id == master_id,
            w.others@ == Seq::<ThreadId>::empty(),
            w.phase == WorkerPhase::Initial(0, 0),
    {
        Worker { id, master_id, others: Vec::new(), phase: WorkerPhase::Initial(0, 0) }
    }

    /// Take in the first message of the master, which must be the ids of all workers (the
    /// caller stops on any other message).
    pub fn wait_finalize_setup(&mut self, payload: MessagePayload)
        requires
            payload is FinalizeSetup,
        ensures
            final(self).id == old(self).id,
            final(self).master_id == old(self).master_id,
            final(self).phase == old(self).phase,
            final(self).others@ == payload->FinalizeSetup_0@,
    {
        match payload {
            MessagePayload::FinalizeSetup(ids) => {
                self.others = ids;
            },
            _ => {},
        }
    }

    /// Take in a message of the master: see `on_master_spec`.
    pub fn on_master(&mut self, payload: MessagePayload) -> (r: Result<WorkerAction, UnexpectedMessage>)
        ensures
            final(self).id == old(self).id,
            final(self).master_id == old(self).master_id,
            final(self).others == old(self).others,
            match on_master_spec(old(self).phase, payload) {
                Some((p, a)) => r == Ok::<WorkerAction, UnexpectedMessage>(a) && final(self).phase == p,
                None => r == Err::<WorkerAction, UnexpectedMessage>(UnexpectedMessage::FromMaster)
                    && final(self).phase == old(self).phase,
            },
    {
        match (self.phase, payload) {
            (WorkerPhase::Initial(_, _), MessagePayload::Transaction(tx)) => Ok(WorkerAction::Execute(tx)),
            (WorkerPhase::Initial(e, f), MessagePayload::InitialPhaseDone) => {
                self.phase = WorkerPhase::Forwarding;
                Ok(WorkerAction::Report(e, f))
            },
            (WorkerPhase::Forwarding, MessagePayload::Terminate) => {
                self.phase = WorkerPhase::Terminated;
                Ok(WorkerAction::Stop)
            },
            _ => Err(UnexpectedMessage::FromMaster),
        }
    }

    /// Take in a message of another worker: only a forwarded transaction is expected, and it
    /// is executed as such.
    pub fn on_worker(&self, payload: MessagePayload) -> (r: Result<WorkerAction, UnexpectedMessage>)
        ensures
            match payload {
                MessagePayload::Transaction(tx) => r == Ok::<WorkerAction, UnexpectedMessage>(
                    WorkerAction::Execute(Transaction { exec_status: ExecutionStatus::Forwarded, ..tx }),
                ),
                _ => r == Err::<WorkerAction, UnexpectedMessage>(UnexpectedMessage::FromWorker),
            },
    {
        match payload {
            MessagePayload::Transaction(tx) => {
                let mut tx = tx;
                tx.exec_status = ExecutionStatus::Forwarded;
                Ok(WorkerAction::Execute(tx))
            },
            _ => Err(UnexpectedMessage::FromWorker),
        }
    }

    /// Take in a message of the master while a block is validated: a transaction is applied,
    /// and the end of the distribution is reported; nothing else is expected.
    pub fn on_validation(&self, payload: MessagePayload) -> (r: Result<ValidationAction, UnexpectedMessage>)
        ensures
            match payload {
                MessagePayload::Transaction(tx) => r == Ok::<ValidationAction, UnexpectedMessage>(
                    ValidationAction::Apply(tx),
                ),
                MessagePayload::InitialPhaseDone => r == Ok::<ValidationAction, UnexpectedMessage>(
                    ValidationAction::Report,
                ),
                _ => r == Err::<ValidationAction, UnexpectedMessage>(UnexpectedMessage::FromMaster),
            },
    {
        match payload {
            MessagePayload::Transaction(tx) => Ok(ValidationAction::Apply(tx)),
            MessagePayload::InitialPhaseDone => Ok(ValidationAction::Report),
            _ => Err(UnexpectedMessage::FromMaster),
        }
    }

    /// Count the outcome of an execution: see `record_spec`.
    pub fn record(&mut self, outcome: ExecutionOutcome)
        requires
            record_fits(old(self).phase),
        ensures
            final(self).id == old(self).id,
            final(self).master_id == old(self).master_id,
            final(self).others == old(self).others,
            final(self).phase == record_spec(old(self).phase, outcome),
    {
        match self.phase {
            WorkerPhase::Initial(e, f) => match outcome {
                ExecutionOutcome::Executed(_) => {
                    self.phase = WorkerPhase::Initial(e + 1, f);
                },
                _ => {
                    self.phase = WorkerPhase::Initial(e, f + 1);
                },
            },
            _ => {},
        }
    }

    /// Whether the worker can send to the worker `to`.
    pub fn knows(&self, to: ThreadId) -> (b: bool)
        ensures
            b == self.others@.contains(to),
    {
        let mut i: usize = 0;
        while i < self.others.len()
            invariant
                i <= self.others@.len(),
                forall|j: int| 0 <= j < i ==> self.others@[j] != to,
            decreases self.others@.len() - i,
        {
            if self.others[i] == to {
                return true;
            }
            i = i + 1;
        }
        false
    }
}

/// The phase after the outcomes `outcomes` are counted in order.
pub open spec fn record_all(phase: WorkerPhase, outcomes: Seq<ExecutionOutcome>) -> WorkerPhase
    decreases outcomes.len(),
{
    if outcomes.len() == 0 {
        phase
    } else {
        record_spec(record_all(phase, outcomes.drop_last()), outcomes.last())
    }
}

/// Whether an outcome is an execution.
pub open spec fn is_executed(o: ExecutionOutcome) -> bool {
    o is Executed
}

/// The report of the initial phase counts every transaction once: after the outcomes of the
/// transactions from the master are counted from zero, the executed count is the number of
/// executions among them and the forwarded count the number of the others.
pub proof fn law_report_counts_every_outcome(outcomes: Seq<ExecutionOutcome>)
    requires
        outcomes.len() < usize::MAX,
    ensures
        record_all(WorkerPhase::Initial(0, 0), outcomes) == WorkerPhase::Initial(
            outcomes.filter(|o: ExecutionOutcome| is_executed(o)).len() as usize,
            (outcomes.len() - outcomes.filter(|o: ExecutionOutcome| is_executed(o)).len()) as usize,
        ),
    decreases outcomes.len(),
{
    let pred = |o: ExecutionOutcome| is_executed(o);
    reveal_with_fuel(Seq::filter, 2);
    if outcomes.len() > 0 {
        let rest = outcomes.drop_last();
        law_report_counts_every_outcome(rest);
        rest.lemma_filter_len(pred);
        outcomes.lemma_filter_len(pred);
        assert(outcomes.filter(pred) == if pred(outcomes.last()) {
            rest.filter(pred).push(outcomes.last())
        } else {
            rest.filter(pred)
        });
    }
}

} // verus!
