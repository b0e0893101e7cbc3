//! The decisions of the master thread: which worker each transaction goes to, what the reports
//! of the workers change in the pools, when the collection of reports is over, and the
//! execution of the orphans.

use vstd::prelude::*;
use crate::executor::{all_safe, apply_seq, apply_transactions};
use crate::pool::{first_match, TransactionPool, VecPool};
use crate::primitives::{ThreadId, TransactionId};
use crate::runtime::{ModuleRuntime, SequentialRuntime};
use crate::types::{Block, MessagePayload, Transaction, TransactionStatus};

verus! {

/// The position of the first transaction with id `tid`, if there is one.
pub open spec fn position_of(items: Seq<Transaction>, tid: TransactionId) -> Option<int> {
    if exists|i: int| 0 <= i < items.len() && items[i].id == tid {
        Some(
            choose|i: int|
                0 <= i < items.len() && items[i].id == tid && forall|j: int| 0 <= j < i ==> items[j].id != tid,
        )
    } else {
        None
    }
}

proof fn lemma_position_of(items: Seq<Transaction>, tid: TransactionId, i: int)
    requires
        0 <= i < items.len(),
        items[i].id == tid,
        forall|j: int| 0 <= j < i ==> items[j].id != tid,
    ensures
        position_of(items, tid) == Some(i),
{
    let k = choose|k: int|
        0 <= k < items.len() && items[k].id == tid && forall|j: int| 0 <= j < k ==> items[j].id != tid;
    assert(0 <= k < items.len() && items[k].id == tid && forall|j: int| 0 <= j < k ==> items[j].id != tid);
    if k < i {
        assert(items[k].id != tid);
    } else if k > i {
        assert(items[i].id != tid);
    }
}

/// The position in `items` that a search for the id `tid` finds.
proof fn lemma_found<F: Fn(&Transaction) -> bool>(items: Seq<Transaction>, tid: TransactionId, search: F, found: Option<usize>)
    requires
        first_match(items, search, found),
        forall|t: &Transaction, b: bool| search.ensures((t,), b) ==> b == (t.id == tid),
    ensures
        match found {
            Some(i) => position_of(items, tid) == Some(i as int),
            None => position_of(items, tid) is None,
        },
{
    match found {
        Some(i) => {
            assert forall|j: int| 0 <= j < i implies items[j].id != tid by {
                assert(search.ensures((&items[j],), false));
            }
            lemma_position_of(items, tid, i as int);
        },
        None => {
            assert forall|j: int| 0 <= j < items.len() implies items[j].id != tid by {
                assert(search.ensures((&items[j],), false));
            }
        },
    }
}

/// A report of a worker that the master cannot make sense of: each breaks the protocol between
/// master and workers, and the caller stops on it.
#[derive(Debug, Clone, Copy, Eq, PartialEq, Structural)]
pub enum CollectionError {
    /// A worker reported a transaction that is not in the pool.
    UnknownTransaction(TransactionId),
    /// A worker reported executing a transaction that no worker was assigned.
    NotAssigned(TransactionId),
    /// A worker reported executing a transaction that was assigned to itself.
    SameWorker(TransactionId),
    /// A message that does not belong in the collection phase.
    UnexpectedMessage,
}

/// The counters of the collection phase.
///
/// The phase ends when all workers have reported on their initial transactions, and every
/// transaction that they forwarded has been either executed by another worker or reported as
/// an orphan.
pub struct Collection {
    /// Transactions executed by their designated workers, as reported.
    pub executed_workers: usize,
    /// Transactions executed by another worker than the designated one.
    pub executed_local: usize,
    /// Transactions forwarded by their designated workers, as reported.
    pub forwarded: usize,
    /// Workers that reported.
    pub reported: usize,
    /// Transactions in the pool at the start.
    pub total: usize,
    /// Number of workers.
    pub workers_len: usize,
}

/// The counters after a step of the collection phase.
pub open spec fn counters_after(c: Collection, payload: MessagePayload) -> Collection {
    match payload {
        MessagePayload::InitialPhaseReport(e, f) => Collection {
            executed_workers: (c.executed_workers + e) as usize,
            forwarded: (c.forwarded + f) as usize,
            reported: (c.reported + 1) as usize,
            ..c
        },
        MessagePayload::WorkerExecuted(_) => Collection { executed_local: (c.executed_local + 1) as usize, ..c },
        _ => c,
    }
}

impl Collection {
    /// The counters at the start of the phase.
    pub fn new(total: usize, workers_len: usize) -> (c: Self)
        ensures
            c == (Collection {
                executed_workers: 0,
                executed_local: 0,
                forwarded: 0,
                reported: 0,
                total,
                workers_len,
            }),
    {
        Collection { executed_workers: 0, executed_local: 0, forwarded: 0, reported: 0, total, workers_len }
    }

    /// The counters fit their type after a step with `payload`.
    pub open spec fn step_fits(&self, payload: MessagePayload) -> bool {
        match payload {
            MessagePayload::InitialPhaseReport(e, f) => {
                &&& self.executed_workers + e <= usize::MAX
                &&& self.forwarded + f <= usize::MAX
                &&& self.reported + 1 <= usize::MAX
            },
            MessagePayload::WorkerExecuted(_) => self.executed_local + 1 <= usize::MAX,
            _ => true,
        }
    }

    /// Whether the collection phase is over, with `orphans` orphans collected.
    pub fn done(&self, orphans: usize) -> (b: bool)
        ensures
            b == (self.reported == self.workers_len && self.forwarded == self.executed_local + orphans),
    {
        self.reported == self.workers_len && self.executed_local as u128 + orphans as u128 == self.forwarded as u128
    }

    /// Take in the message `payload` of the worker `from`:
    /// - a report of the initial phase adds to the counters;
    /// - an orphan leaves the pool for the orphan pool, marked `Orphan`;
    /// - a transaction executed by another worker than its designated one is marked `Done` by
    ///   that worker.
    pub fn step(
        &mut self,
        pool: &mut VecPool<Transaction>,
        orphan_pool: &mut Vec<Transaction>,
        from: ThreadId,
        payload: MessagePayload,
    ) -> (r: Result<(), CollectionError>)
        requires
            old(self).step_fits(payload),
        ensures
            ({
                let items = old(pool).pool_items();
                match payload {
                    MessagePayload::InitialPhaseReport(_, _) => {
                        &&& r is Ok
                        &&& final(pool).pool_items() == items
                        &&& final(orphan_pool)@ == old(orphan_pool)@
                    },
                    MessagePayload::WorkerOrphan(tid) => match position_of(items, tid) {
                        Some(i) => {
                            &&& r is Ok
                            &&& final(pool).pool_items() == items.remove(i)
                            &&& final(orphan_pool)@ == old(orphan_pool)@.push(
                                Transaction { status: TransactionStatus::Orphan, ..items[i] },
                            )
                        },
                        None => {
                            &&& r == Err::<(), CollectionError>(CollectionError::UnknownTransaction(tid))
                            &&& final(pool).pool_items() == items
                            &&& final(orphan_pool)@ == old(orphan_pool)@
                        },
                    },
                    MessagePayload::WorkerExecuted(tid) => {
                        &&& final(orphan_pool)@ == old(orphan_pool)@
                        &&& match position_of(items, tid) {
                            Some(i) => match items[i].status {
                                TransactionStatus::Done(initial_worker) => if initial_worker == from {
                                    r == Err::<(), CollectionError>(CollectionError::SameWorker(tid))
                                        && final(pool).pool_items() == items
                                } else {
                                    r is Ok && final(pool).pool_items() == items.update(
                                        i,
                                        Transaction { status: TransactionStatus::Done(from), ..items[i] },
                                    )
                                },
                                _ => r == Err::<(), CollectionError>(CollectionError::NotAssigned(tid))
                                    && final(pool).pool_items() == items,
                            },
                            None => r == Err::<(), CollectionError>(CollectionError::UnknownTransaction(tid))
                                && final(pool).pool_items() == items,
                        }
                    },
                    _ => {
                        &&& r == Err::<(), CollectionError>(CollectionError::UnexpectedMessage)
                        &&& final(pool).pool_items() == items
                        &&& final(orphan_pool)@ == old(orphan_pool)@
                    },
                }
            }),
            r is Ok ==> *final(self) == counters_after(*old(self), payload),
            *final(self) == counters_after(*old(self), payload) || *final(self) == *old(self),
    {
        let ghost items = pool.pool_items();
        match payload {
            MessagePayload::InitialPhaseReport(e, f) => {
                self.executed_workers = self.executed_workers + e;
                self.forwarded = self.forwarded + f;
                self.reported = self.reported + 1;
                Ok(())
            },
            MessagePayload::WorkerOrphan(tid) => {
                let search = |t: &Transaction| -> (b: bool)
                    ensures
                        b == (t.id == tid),
                    { t.id == tid };
                let ghost old_pool = pool.pool_items();
                let found = pool.remove(search);
                proof {
                    let found_at = choose|found_at: Option<usize>| #[trigger]
                        first_match(old_pool, search, found_at) && match found_at {
                            Some(i) => found == Some(old_pool[i as int]) && pool.pool_items() == old_pool.remove(i as int),
                            None => found is None && pool.pool_items() == old_pool,
                        };
                    lemma_found(old_pool, tid, search, found_at);
                }
                match found {
                    Some(mut orphan) => {
                        orphan.status = TransactionStatus::Orphan;
                        orphan_pool.push(orphan);
                        Ok(())
                    },
                    None => Err(CollectionError::UnknownTransaction(tid)),
                }
            },
            MessagePayload::WorkerExecuted(tid) => {
                let search = |t: &Transaction| -> (b: bool)
                    ensures
                        b == (t.id == tid),
                    { t.id == tid };
                let ghost old_pool = pool.pool_items();
                match pool.get(search) {
                    Some((i, t)) => {
                        proof {
                            lemma_found(old_pool, tid, search, Some(i));
                        }
                        match t.status {
                            TransactionStatus::Done(initial_worker) => {
                                if initial_worker == from {
                                    Err(CollectionError::SameWorker(tid))
                                } else {
                                    let t = pool.get_at_mut(i);
                                    t.status = TransactionStatus::Done(from);
                                    self.executed_local = self.executed_local + 1;
                                    Ok(())
                                }
                            },
                            _ => Err(CollectionError::NotAssigned(tid)),
                        }
                    },
                    None => {
                        proof {
                            lemma_found(old_pool, tid, search, None);
                        }
                        Err(CollectionError::UnknownTransaction(tid))
                    },
                }
            },
            _ => Err(CollectionError::UnexpectedMessage),
        }
    }
}

/// Where every transaction of `items` is assigned to a worker, the workers and the
/// transactions, in order.
pub open spec fn all_assigned(items: Seq<Transaction>) -> bool {
    forall|i: int| 0 <= i < items.len() ==> (#[trigger] items[i]).status is Done
}

/// The worker that each transaction is assigned to, with a copy of the transaction, in the
/// order of the pool; or, if some transaction is not assigned, the id of the first such.
pub fn initial_assignments(pool: &VecPool<Transaction>) -> (r: Result<
    Vec<(ThreadId, Transaction)>,
    TransactionId,
>)
    ensures
        match r {
            Ok(v) => {
                &&& all_assigned(pool.pool_items())
                &&& v@.len() == pool.pool_items().len()
                &&& forall|i: int|
                    0 <= i < v@.len() ==> TransactionStatus::Done((#[trigger] v@[i]).0) == pool.pool_items()[i].status
                        && v@[i].1.same(&pool.pool_items()[i])
            },
            Err(tid) => exists|i: int|
                {
                    &&& 0 <= i < pool.pool_items().len()
                    &&& !(pool.pool_items()[i].status is Done)
                    &&& pool.pool_items()[i].id == tid
                    &&& forall|j: int| 0 <= j < i ==> (#[trigger] pool.pool_items()[j]).status is Done
                },
        },
{
    let txs = pool.all();
    let mut out: Vec<(ThreadId, Transaction)> = Vec::new();
    let mut i: usize = 0;
    while i < txs.len()
        invariant
            txs@.len() == pool.pool_items().len(),
            forall|j: int| 0 <= j < txs@.len() ==> cloned(pool.pool_items()[j], #[trigger] txs@[j]),
            i <= txs@.len(),
            out@.len() == i,
            forall|j: int| 0 <= j < i ==> (#[trigger] pool.pool_items()[j]).status is Done,
            forall|j: int|
                0 <= j < i ==> TransactionStatus::Done((#[trigger] out@[j]).0) == pool.pool_items()[j].status
                    && out@[j].1.same(&pool.pool_items()[j]),
        decreases txs@.len() - i,
    {
        assert(cloned(pool.pool_items()[i as int], txs@[i as int]));
        match txs[i].status {
            TransactionStatus::Done(w) => {
                out.push((w, txs[i].clone()));
            },
            _ => {
                return Err(txs[i].id);
            },
        }
        i = i + 1;
    }
    Ok(out)
}

/// Execute all the orphans, in order, on the runtime of the master; no worker runs meanwhile.
pub fn orphan_phase(runtime: &mut SequentialRuntime, orphan_pool: &Vec<Transaction>)
    requires
        forall|i: int| 0 <= i < orphan_pool@.len() ==> (#[trigger] orphan_pool@[i]).status == TransactionStatus::Orphan,
        all_safe(old(runtime).rt_model(), orphan_pool@),
    ensures
        final(runtime).rt_model() == apply_seq(old(runtime).rt_model(), orphan_pool@),
{
    apply_transactions(runtime, orphan_pool);
}

/// The block authored: copies of the transactions of the pool, in order, then copies of the
/// orphans, in the order in which they were executed.
pub fn authored_block(pool: &VecPool<Transaction>, orphan_pool: &Vec<Transaction>) -> (b: Block)
    ensures
        b.transactions@.len() == pool.pool_items().len() + orphan_pool@.len(),
        forall|i: int|
            0 <= i < pool.pool_items().len() ==> (#[trigger] b.transactions@[i]).same(&pool.pool_items()[i]),
        forall|j: int|
            0 <= j < orphan_pool@.len() ==> b.transactions@[pool.pool_items().len() + j].same(
                &(#[trigger] orphan_pool@[j]),
            ),
{
    let mut transactions = pool.all();
    let n = transactions.len();
    let ghost items = pool.pool_items();
    let mut i: usize = 0;
    while i < n
        invariant
            n == items.len(),
            transactions@.len() == n,
            i <= n,
            forall|j: int| 0 <= j < n ==> cloned(items[j], #[trigger] transactions@[j]),
            forall|j: int| 0 <= j < i ==> (#[trigger] transactions@[j]).same(&items[j]),
        decreases n - i,
    {
        assert(cloned(items[i as int], transactions@[i as int]));
        i = i + 1;
    }
    let mut k: usize = 0;
    while k < orphan_pool.len()
        invariant
            n == items.len(),
            k <= orphan_pool@.len(),
            transactions@.len() == n + k,
            forall|j: int| 0 <= j < n ==> (#[trigger] transactions@[j]).same(&items[j]),
            forall|j: int| 0 <= j < k ==> transactions@[n + j].same(&(#[trigger] orphan_pool@[j])),
        decreases orphan_pool@.len() - k,
    {
        let t = orphan_pool[k].clone();
        transactions.push(t);
        k = k + 1;
    }
    Block { transactions }
}

} // verus!
