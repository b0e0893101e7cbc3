//! Transactions, blocks and the messages that the master and the workers exchange.

use vstd::prelude::*;
use crate::primitives::bytes_equal;
use crate::crypto::{ed25519_verify, Pair};
use crate::outer_call::OuterCall;
use crate::primitives::{AccountId, Signature, ThreadId, TransactionId};
use crate::{balances, testing};

verus! {

/// A block of transactions.
pub struct Block {
    /// Transactions within the block.
    pub transactions: Vec<Transaction>,
}

impl From<Vec<Transaction>> for Block {
    fn from(transactions: Vec<Transaction>) -> (b: Block) {
        Block { transactions }
    }
}

impl vstd::std_specs::convert::FromSpecImpl<Vec<Transaction>> for Block {
    open spec fn obeys_from_spec() -> bool {
        true
    }

    open spec fn from_spec(transactions: Vec<Transaction>) -> Block {
        Block { transactions }
    }
}

/// Status of a transaction: the final status once it is executed.
#[derive(Debug, Copy, Clone, Eq, PartialEq, Structural)]
pub enum TransactionStatus {
    /// Done by the given thread.
    Done(ThreadId),
    /// Ended up being an orphan.
    Orphan,
    /// Not yet executed.
    NotExecuted,
}

impl Default for TransactionStatus {
    fn default() -> (s: Self)
        ensures
            s == TransactionStatus::NotExecuted,
    {
        TransactionStatus::NotExecuted
    }
}

/// Execution status of a transaction.
#[derive(Debug, Copy, Clone, Eq, PartialEq, Structural)]
pub enum ExecutionStatus {
    /// It has just been created.
    Initial,
    /// Has already been forwarded by one thread.
    Forwarded,
}

impl Default for ExecutionStatus {
    fn default() -> (s: Self)
        ensures
            s == ExecutionStatus::Initial,
    {
        ExecutionStatus::Initial
    }
}

/// A transaction.
#[derive(Debug, Eq, PartialEq)]
pub struct Transaction {
    /// The identifier of the transaction. This must be strictly unique.
    pub id: TransactionId,
    /// Status of the transaction, set once it is executed.
    pub status: TransactionStatus,
    /// Execution status.
    pub exec_status: ExecutionStatus,
    /// The function of the transaction, executed by a runtime.
    pub function: OuterCall,
    /// The origin of the transaction and its signature of the function.
    pub signature: (AccountId, Signature),
}

impl Transaction {
    /// Two transactions are the same: the same fields, with the same call.
    pub open spec fn same(&self, other: &Transaction) -> bool {
        &&& self.id == other.id
        &&& self.status == other.status
        &&& self.exec_status == other.exec_status
        &&& self.function.same(&other.function)
        &&& self.signature == other.signature
    }
}

impl Transaction {
    /// True when both transactions are the same: see `same`.
    pub fn is_same(&self, other: &Transaction) -> (r: bool)
        ensures
            r == self.same(other),
    {
        self.id == other.id && self.status == other.status && self.exec_status == other.exec_status
            && self.function.is_same(&other.function) && self.signature.0.same(&other.signature.0)
            && self.signature.1.same(&other.signature.1)
    }
}

impl Clone for Transaction {
    fn clone(&self) -> (c: Self)
        ensures
            c.same(self),
    {
        Transaction {
            id: self.id,
            status: self.status,
            exec_status: self.exec_status,
            function: self.function.clone(),
            signature: self.signature,
        }
    }
}

/// A transaction that can be verified.
pub trait VerifiableTransaction: Sized {
    /// Whether the transaction is sane: typically, that its signature checks out.
    spec fn valid(&self) -> bool;

    /// Whether the transaction can be checked at all.
    spec fn checkable(&self) -> bool;

    /// Verify that this transaction is sane.
    fn verify(&self) -> (b: bool)
        requires
            self.checkable(),
        ensures
            b == self.valid(),
    ;
}

impl VerifiableTransaction for Transaction {
    /// The origin signed the encoding of the function.
    open spec fn valid(&self) -> bool {
        ed25519_verify(self.signature.0.0@, self.function.call_encoding(), self.signature.1.0@)
    }

    /// The function can be encoded.
    open spec fn checkable(&self) -> bool {
        self.function.encodable()
    }

    fn verify(&self) -> (b: bool) {
        let (origin, signature) = self.signature;
        let payload = self.function.encode();
        origin.verify(payload.as_slice(), &signature)
    }
}

impl Transaction {
    /// A transaction that has not been executed nor forwarded yet.
    pub fn new(id: TransactionId, call: OuterCall, origin: AccountId, signed_call: Signature) -> (t: Self)
        ensures
            t.id == id,
            t.function == call,
            t.status == TransactionStatus::NotExecuted,
            t.exec_status == ExecutionStatus::Initial,
            t.signature == (origin, signed_call),
    {
        Transaction {
            id,
            function: call,
            status: TransactionStatus::NotExecuted,
            exec_status: ExecutionStatus::Initial,
            signature: (origin, signed_call),
        }
    }

    /// A transfer of 999 from the given key pair to `dest`, signed by the pair, with id `id`.
    pub fn new_transfer_with_id(origin: Pair, dest: AccountId, id: TransactionId) -> (t: Self)
        ensures
            t.id == id,
            t.function == OuterCall::Balances(balances::Call::Transfer(dest, 999)),
            t.status == TransactionStatus::NotExecuted,
            t.exec_status == ExecutionStatus::Initial,
            t.signature.0 == origin.spec_public(),
            origin.consistent() ==> t.valid(),
    {
        let call = OuterCall::Balances(balances::Call::Transfer(dest, 999));
        let payload = call.encode();
        let signed_call = origin.sign(payload.as_slice());
        Self::new(id, call, origin.public(), signed_call)
    }

    /// A test transfer of 999 from the given key pair to bob, with id `id`.
    pub fn new_transfer(origin: Pair, id: TransactionId) -> (t: Self)
        ensures
            t.id == id,
            t.function matches OuterCall::Balances(balances::Call::Transfer(to, v)) && to.bytes() == testing::public_of(2)
                && v == 999,
            t.status == TransactionStatus::NotExecuted,
            t.exec_status == ExecutionStatus::Initial,
            t.signature.0 == origin.spec_public(),
            origin.consistent() ==> t.valid(),
    {
        let bob = testing::bob().public();
        Self::new_transfer_with_id(origin, bob, id)
    }

    /// A test transfer of 999 from the given key pair to `dest`, with id 99.
    pub fn new_transfer_to(origin: Pair, dest: AccountId) -> (t: Self)
        ensures
            t.id == 99,
            t.function == OuterCall::Balances(balances::Call::Transfer(dest, 999)),
            t.status == TransactionStatus::NotExecuted,
            t.exec_status == ExecutionStatus::Initial,
            t.signature.0 == origin.spec_public(),
            origin.consistent() ==> t.valid(),
    {
        Self::new_transfer_with_id(origin, dest, 99)
    }
}

/// A message between threads: its payload and the thread it comes from.
#[derive(Debug, Clone)]
pub struct Message {
    pub payload: MessagePayload,
    pub from: ThreadId,
}

/// The payload of a message.
#[derive(Debug, Clone)]
pub enum MessagePayload {
    /// Data needed to finalize the setup of a worker: the ids of all workers, whose queues are
    /// handed over with the message.
    FinalizeSetup(Vec<ThreadId>),
    /// Execute this transaction.
    ///
    /// This message has no response; if the thread never responds, the master can assume that
    /// it has been executed by the thread.
    Transaction(Transaction),
    /// Initial transactions that the master distributed to the worker are done.
    InitialPhaseDone,
    /// The outcome report of the initial phase: the counts of executed and forwarded
    /// transactions.
    InitialPhaseReport(usize, usize),
    /// Report the execution of a transaction by a worker back to master: used only where the
    /// thread executing a transaction is not its designated owner.
    WorkerExecuted(TransactionId),
    /// Report an orphan transaction back to the master.
    WorkerOrphan(TransactionId),
    /// Master is signaling the end.
    Terminate,
    /// A worker applied all the transactions of a block that the master sent it to validate.
    ValidationReport,
    /// An arbitrary payload of bytes for testing.
    Test(Vec<u8>),
}

/// When two payloads are equal: two transactions that are the same, two test payloads of the
/// same bytes, or two setups where every worker id of the first is in the second. No other
/// payloads are equal, not even two of the same variant without data.
pub open spec fn payload_eq(a: MessagePayload, b: MessagePayload) -> bool {
    match a {
        MessagePayload::Transaction(x) => b matches MessagePayload::Transaction(y) && x.same(&y),
        MessagePayload::Test(x) => b matches MessagePayload::Test(y) && x@ == y@,
        MessagePayload::FinalizeSetup(x) => b matches MessagePayload::FinalizeSetup(y) && setup_within(x@, y@),
        _ => false,
    }
}

/// Every worker id of `x` is one of `y`.
pub open spec fn setup_within(x: Seq<ThreadId>, y: Seq<ThreadId>) -> bool {
    forall|i: int| 0 <= i < x.len() ==> y.contains(#[trigger] x[i])
}

impl MessagePayload {
    /// Whether two payloads are equal: see `payload_eq`.
    pub fn eq(&self, other: &Self) -> (r: bool)
        ensures
            r == payload_eq(*self, *other),
    {
        match (self, other) {
            (MessagePayload::Transaction(x), MessagePayload::Transaction(y)) => x.is_same(y),
            (MessagePayload::Test(x), MessagePayload::Test(y)) => bytes_equal(x, y),
            (MessagePayload::FinalizeSetup(x), MessagePayload::FinalizeSetup(y)) => {
                let mut i: usize = 0;
                while i < x.len()
                    invariant
                        *self == MessagePayload::FinalizeSetup(*x),
                        *other == MessagePayload::FinalizeSetup(*y),
                        i <= x@.len(),
                        forall|j: int| 0 <= j < i ==> y@.contains(#[trigger] x@[j]),
                    decreases x@.len() - i,
                {
                    if !contains_id(y, x[i]) {
                        proof {
                            let k = i as int;
                            assert(!y@.contains(x@[k]));
                        }
                        return false;
                    }
                    i = i + 1;
                }
                true
            },
            _ => false,
        }
    }
}

/// Whether `id` is one of `ids`.
pub fn contains_id(ids: &Vec<ThreadId>, id: ThreadId) -> (b: bool)
    ensures
        b == ids@.contains(id),
{
    let mut i: usize = 0;
    while i < ids.len()
        invariant
            i <= ids@.len(),
            forall|j: int| 0 <= j < i ==> ids@[j] != id,
        decreases ids@.len() - i,
    {
        if ids[i] == id {
            return true;
        }
        i = i + 1;
    }
    false
}

} // verus!
