//! Distribution of the transactions of a pool among worker threads, before execution.

use vstd::prelude::*;
use crate::pool::{TransactionPool, VecPool};
use crate::primitives::{ThreadId, TransactionId};
use crate::runtime::SequentialRuntime;
use crate::components::{
    build_graph, closed, declares, label_components, lemma_push_contains, position_of_key, Components, TxKeyGraph,
};
use crate::outer_call::outer_keys;
use crate::primitives::{bytes_equal, copy_bytes, Key, StateKey};
use crate::runtime::key_models;
use crate::types::{Transaction, TransactionStatus};
use crate::greedy::{all_components, greedy, greedy_choice, idle};

verus! {

/// `after` is `before` with its status set to `status`, everything else kept.
pub open spec fn with_status(before: Transaction, status: TransactionStatus) -> Transaction {
    Transaction { status, ..before }
}

/// `after` holds the transactions of `before`, in the same order, each with its status kept or
/// set to `Done` by one of `workers`.
pub open spec fn assigned_among(workers: Seq<ThreadId>, before: Seq<Transaction>, after: Seq<Transaction>) -> bool {
    &&& after.len() == before.len()
    &&& forall|i: int|
        0 <= i < before.len() ==> {
            ||| #[trigger] after[i] == before[i]
            ||| exists|w: ThreadId| workers.contains(w) && after[i] == with_status(before[i], TransactionStatus::Done(w))
        }
}

/// Something that can distribute transactions into buckets, each assigned to a thread.
pub trait Distributer {
    /// Whether the distribution of `txs` among `workers` goes through (where it does not, the
    /// distribution would panic).
    spec fn can_distribute(workers: Seq<ThreadId>, txs: Seq<Transaction>) -> bool;

    /// Whether the distribution of the pool among `worker_ids` goes through: see
    /// `can_distribute`.
    fn accepts(worker_ids: &[ThreadId], txs: &VecPool<Transaction>) -> (b: bool)
        ensures
            b == Self::can_distribute(worker_ids@, txs.pool_items()),
    ;

    /// Distribute the transactions of the pool among the given thread ids, marking each
    /// transaction that it assigns `Done` by its thread.
    fn distribute(runtime: &SequentialRuntime, worker_ids: &[ThreadId], txs: &mut VecPool<Transaction>)
        requires
            Self::can_distribute(worker_ids@, old(txs).pool_items()),
        ensures
            assigned_among(worker_ids@, old(txs).pool_items(), final(txs).pool_items()),
    ;
}

/// The round robin assignment: the transaction at position `i` goes to worker `i` modulo the
/// number of workers.
pub open spec fn round_robin(workers: Seq<ThreadId>, before: Seq<Transaction>) -> Seq<Transaction> {
    Seq::new(
        before.len(),
        |i: int| with_status(before[i], TransactionStatus::Done(workers[i % (workers.len() as int)])),
    )
}

/// A dumb, naive, round robin transaction distributer.
pub struct RoundRobin;

impl RoundRobin {
    /// Mark each transaction of the pool by its round robin worker.
    pub fn assign<P: TransactionPool<Transaction>>(worker_ids: &[ThreadId], pool: &mut P)
        requires
            worker_ids@.len() > 0 || old(pool).items().len() == 0,
        ensures
            final(pool).items() == round_robin(worker_ids@, old(pool).items()),
    {
        let num_workers = worker_ids.len();
        let len = pool.len();
        let ghost before = pool.items();
        let mut idx: usize = 0;
        while idx < len
            invariant
                len == before.len(),
                idx <= len,
                len > 0 ==> num_workers > 0,
                num_workers == worker_ids@.len(),
                pool.items().len() == len,
                forall|i: int| 0 <= i < idx ==> #[trigger] pool.items()[i] == round_robin(worker_ids@, before)[i],
                forall|i: int| idx <= i < len ==> #[trigger] pool.items()[i] == before[i],
            decreases len - idx,
        {
            let assigned_worker = worker_ids[idx % num_workers];
            let tx = pool.get_at_mut(idx);
            tx.status = TransactionStatus::Done(assigned_worker);
            idx = idx + 1;
        }
        assert(pool.items() =~= round_robin(worker_ids@, before));
    }
}

impl Distributer for RoundRobin {
    open spec fn can_distribute(workers: Seq<ThreadId>, txs: Seq<Transaction>) -> bool {
        workers.len() > 0 || txs.len() == 0
    }

    fn accepts(worker_ids: &[ThreadId], txs: &VecPool<Transaction>) -> (b: bool) {
        worker_ids.len() > 0 || txs.as_vec().len() == 0
    }

    /// Each transaction goes to its round robin worker.
    fn distribute(runtime: &SequentialRuntime, worker_ids: &[ThreadId], pool: &mut VecPool<Transaction>)
        ensures
            final(pool).pool_items() == round_robin(worker_ids@, old(pool).pool_items()),
    {
        Self::assign(worker_ids, pool);
        proof {
            let before = old(pool).pool_items();
            let after = pool.pool_items();
            assert forall|i: int| 0 <= i < before.len() implies {
                ||| #[trigger] after[i] == before[i]
                ||| exists|w: ThreadId| worker_ids@.contains(w) && after[i] == with_status(before[i], TransactionStatus::Done(w))
            } by {
                let w = worker_ids@[i % (worker_ids@.len() as int)];
                assert(worker_ids@.contains(w));
            }
        }
    }
}

proof fn lemma_insert_contains<A>(s: Seq<A>, j: int, x: A, y: A)
    requires
        0 <= j <= s.len(),
    ensures
        s.insert(j, x).contains(y) <==> (s.contains(y) || x == y),
{
    let t = s.insert(j, x);
    if s.contains(y) {
        let q = choose|q: int| 0 <= q < s.len() && s[q] == y;
        if q < j {
            assert(t[q] == y);
        } else {
            assert(t[q + 1] == y);
        }
    }
    if x == y {
        assert(t[j] == y);
    }
    if t.contains(y) {
        let q = choose|q: int| 0 <= q < t.len() && t[q] == y;
        if q < j {
            assert(s[q] == y);
        } else if q > j {
            assert(s[q - 1] == y);
        }
    }
}

/// The distinct worker ids, in increasing order.
fn sorted_workers(worker_ids: &[ThreadId]) -> (ws: Vec<ThreadId>)
    ensures
        forall|w: ThreadId| #[trigger] ws@.contains(w) <==> worker_ids@.contains(w),
        forall|a: int, b: int| 0 <= a < b < ws@.len() ==> ws@[a] < ws@[b],
{
    let mut ws: Vec<ThreadId> = Vec::new();
    let mut i: usize = 0;
    while i < worker_ids.len()
        invariant
            i <= worker_ids@.len(),
            forall|w: ThreadId| #[trigger] ws@.contains(w) <==> worker_ids@.take(i as int).contains(w),
            forall|a: int, b: int| 0 <= a < b < ws@.len() ==> ws@[a] < ws@[b],
        decreases worker_ids@.len() - i,
    {
        let w = worker_ids[i];
        let mut j: usize = 0;
        while j < ws.len() && ws[j] < w
            invariant
                j <= ws@.len(),
                forall|a: int| 0 <= a < j ==> ws@[a] < w,
            decreases ws@.len() - j,
        {
            j = j + 1;
        }
        let ghost before = ws@;
        proof {
            assert(worker_ids@.take(i + 1) =~= worker_ids@.take(i as int).push(w));
        }
        if j < ws.len() && ws[j] == w {
            proof {
                assert forall|x: ThreadId| #[trigger] ws@.contains(x) <==> worker_ids@.take(i + 1).contains(x) by {
                    crate::components::lemma_push_contains(worker_ids@.take(i as int), w, x);
                    if x == w {
                        assert(ws@[j as int] == w);
                    }
                }
            }
        } else {
            ws.insert(j, w);
            proof {
                assert forall|x: ThreadId| #[trigger] ws@.contains(x) <==> worker_ids@.take(i + 1).contains(x) by {
                    crate::components::lemma_push_contains(worker_ids@.take(i as int), w, x);
                    lemma_insert_contains(before, j as int, w, x);
                }
                assert forall|a: int, b: int| 0 <= a < b < ws@.len() implies ws@[a] < ws@[b] by {
                    if b < j {
                    } else if a < j && b == j {
                    } else if a < j {
                        assert(ws@[b] == before[b - 1]);
                        if j < before.len() {
                            assert(before[j as int] > w);
                            assert(before[j as int] <= before[b - 1]);
                        }
                    } else if a == j {
                        assert(ws@[b] == before[b - 1]);
                        assert(before[j as int] > w);
                        if b - 1 > j {
                            assert(before[j as int] < before[b - 1]);
                        }
                    } else {
                        assert(ws@[a] == before[a - 1]);
                        assert(ws@[b] == before[b - 1]);
                    }
                }
            }
        }
        i = i + 1;
    }
    proof {
        assert(worker_ids@.take(worker_ids@.len() as int) =~= worker_ids@);
    }
    ws
}

/// The sizes of the components.
pub open spec fn component_sizes(members: Seq<Vec<usize>>) -> Seq<usize> {
    Seq::new(members.len(), |c: int| members[c]@.len() as usize)
}

/// The worker that component `c` of `comps` goes to, among the workers `ws`: see `greedy`.
pub open spec fn component_worker(comps: Components, ws: Seq<ThreadId>, c: int) -> ThreadId {
    ws[greedy(all_components(comps.members@.len()), component_sizes(comps.members@), idle(ws.len()))[c as usize]]
}

/// The assignment of the components to the workers `ws`: repeatedly, the largest remaining
/// component (the last of the largest) goes to the least loaded worker (the first of those),
/// the load of a worker being the number of transactions it has.
fn assign_components(comps: Components, g: &TxKeyGraph, ws: &Vec<ThreadId>) -> (assign: Vec<ThreadId>)
    requires
        comps.of(g),
        ws@.len() > 0,
        g.num_txs() <= u32::MAX + 1,
    ensures
        assign@.len() == g.num_txs(),
        forall|t: int| 0 <= t < assign@.len() ==> ws@.contains(#[trigger] assign@[t]),
        forall|t1: int, t2: int|
            0 <= t1 < assign@.len() && 0 <= t2 < assign@.len() && #[trigger] comps.tx_labels@[t1] == #[trigger] comps.tx_labels@[t2]
                ==> assign@[t1] == assign@[t2],
        forall|c: int, t: int|
            0 <= c < comps.members@.len() && 0 <= t < g.num_txs() && #[trigger] comps.members@[c]@.contains(t as usize)
                ==> assign@[t] == component_worker(comps, ws@, c),
{
    let n = g.tx_keys.len();
    let k = comps.members.len();
    let ghost sizes_spec = component_sizes(comps.members@);
    let mut sizes: Vec<usize> = Vec::new();
    let mut c: usize = 0;
    while c < k
        invariant
            c <= k,
            k == comps.members@.len(),
            sizes_spec == component_sizes(comps.members@),
            sizes@ == sizes_spec.take(c as int),
        decreases k - c,
    {
        sizes.push(comps.members[c].len());
        c = c + 1;
        proof {
            assert(sizes@ =~= sizes_spec.take(c as int));
        }
    }
    proof {
        assert(sizes@ =~= sizes_spec);
    }
    let choice = greedy_choice(&sizes, ws.len());
    let ghost total = greedy(all_components(k as nat), sizes_spec, idle(ws.len() as nat));
    let mut assign: Vec<ThreadId> = Vec::new();
    let mut t: usize = 0;
    while t < n
        invariant
            t <= n,
            assign@.len() == t,
            ws@.len() > 0,
        decreases n - t,
    {
        assign.push(ws[0]);
        t = t + 1;
    }
    let mut c: usize = 0;
    while c < k
        invariant
            c <= k,
            k == comps.members@.len(),
            n == g.num_txs(),
            assign@.len() == n,
            choice@.len() == k,
            forall|d: int| 0 <= d < k ==> (#[trigger] choice@[d]) < ws@.len(),
            comps.of(g),
            forall|d: int, a: int|
                0 <= d < c && 0 <= a < n && #[trigger] comps.members@[d]@.contains(a as usize) ==> assign@[a] == ws@[choice@[d] as int],
        decreases k - c,
    {
        let w = ws[choice[c]];
        let len = comps.members[c].len();
        let mut q: usize = 0;
        while q < len
            invariant
                c < k,
                k == comps.members@.len(),
                n == g.num_txs(),
                len == comps.members@[c as int]@.len(),
                q <= len,
                assign@.len() == n,
                choice@.len() == k,
                w == ws@[choice@[c as int] as int],
                comps.of(g),
                forall|d: int, a: int|
                    0 <= d < c && 0 <= a < n && #[trigger] comps.members@[d]@.contains(a as usize) ==> assign@[a] == ws@[choice@[d] as int],
                forall|a: int|
                    0 <= a < n && #[trigger] comps.members@[c as int]@.take(q as int).contains(a as usize) ==> assign@[a] == w,
            decreases len - q,
        {
            let a = comps.members[c][q];
            proof {
                assert(comps.members@[c as int]@[q as int] == a);
                assert(a < n);
            }
            let ghost assign_b = assign@;
            assign.set(a, w);
            proof {
                assert(comps.members@[c as int]@.take(q + 1) =~= comps.members@[c as int]@.take(q as int).push(a));
                assert forall|d: int, b: int|
                    0 <= d < c && 0 <= b < n && #[trigger] comps.members@[d]@.contains(b as usize) implies assign@[b] == ws@[choice@[d] as int] by {
                    if b == a as int {
                        assert(comps.members@[c as int]@.contains(a));
                        assert(comps.members@[c as int]@.contains((b as int) as usize));
                        assert(comps.tx_labels@[b] == Some(comps.labels@[c as int]));
                        assert(comps.tx_labels@[b] == Some(comps.labels@[d]));
                        assert(d != c);
                    }
                }
                assert forall|b: int|
                    0 <= b < n && #[trigger] comps.members@[c as int]@.take(q + 1).contains(b as usize) implies assign@[b] == w by {
                    crate::components::lemma_push_contains(comps.members@[c as int]@.take(q as int), a, b as usize);
                }
            }
            q = q + 1;
        }
        proof {
            assert(comps.members@[c as int]@.take(len as int) =~= comps.members@[c as int]@);
        }
        c = c + 1;
    }
    proof {
        assert forall|t: int| 0 <= t < assign@.len() implies ws@.contains(#[trigger] assign@[t]) by {
            let d = choose|d: int| #![trigger comps.labels@[d]] 0 <= d < comps.labels@.len() && comps.tx_labels@[t] == Some(comps.labels@[d]);
            assert(comps.members@[d]@.contains(t as usize));
            assert(ws@[choice@[d] as int] == assign@[t]);
        }
        assert forall|t1: int, t2: int|
            0 <= t1 < assign@.len() && 0 <= t2 < assign@.len() && #[trigger] comps.tx_labels@[t1] == #[trigger] comps.tx_labels@[t2]
                implies assign@[t1] == assign@[t2] by {
            let d = choose|d: int| #![trigger comps.labels@[d]] 0 <= d < comps.labels@.len() && comps.tx_labels@[t1] == Some(comps.labels@[d]);
            assert(comps.members@[d]@.contains(t1 as usize));
            assert(comps.members@[d]@.contains(t2 as usize));
        }
        assert forall|d: int, t: int|
            0 <= d < comps.members@.len() && 0 <= t < g.num_txs() && #[trigger] comps.members@[d]@.contains(t as usize)
                implies assign@[t] == component_worker(comps, ws@, d) by {
            assert(choice@[d] as int == total[d as usize]);
        }
    }
    assign
}

/// The transactions have distinct ids.
pub open spec fn ids_unique(txs: Seq<Transaction>) -> bool {
    forall|i: int, j: int| 0 <= i < txs.len() && 0 <= j < txs.len() && i != j ==> #[trigger] txs[i].id != #[trigger] txs[j].id
}

/// Whether the transactions have distinct ids.
pub fn has_unique_ids(txs: &Vec<Transaction>) -> (b: bool)
    ensures
        b == ids_unique(txs@),
{
    let n = txs.len();
    let mut i: usize = 0;
    while i < n
        invariant
            n == txs@.len(),
            i <= n,
            forall|a: int, b: int| 0 <= a < i && 0 <= b < n && a != b ==> #[trigger] txs@[a].id != #[trigger] txs@[b].id,
        decreases n - i,
    {
        let mut j: usize = 0;
        while j < n
            invariant
                n == txs@.len(),
                i < n,
                j <= n,
                forall|a: int, b: int| 0 <= a < i && 0 <= b < n && a != b ==> #[trigger] txs@[a].id != #[trigger] txs@[b].id,
                forall|b: int| 0 <= b < j && b != i ==> txs@[i as int].id != #[trigger] txs@[b].id,
            decreases n - j,
        {
            if j != i && txs[i].id == txs[j].id {
                proof {
                    assert(txs@[i as int].id == txs@[j as int].id);
                }
                return false;
            }
            j = j + 1;
        }
        i = i + 1;
    }
    true
}

/// `ws` holds the distinct ids of `ids`, in increasing order.
pub open spec fn sorted_ids(ws: Seq<ThreadId>, ids: Seq<ThreadId>) -> bool {
    &&& forall|w: ThreadId| #[trigger] ws.contains(w) <==> ids.contains(w)
    &&& forall|a: int, b: int| 0 <= a < b < ws.len() ==> ws[a] < ws[b]
}

/// `after` is `before` distributed by connected components through `g`, a graph of the
/// transactions and the keys they declare, whose connected components `comps` are taken in the
/// order of their first transactions: each transaction goes to the worker of its component (see
/// `component_worker`), the workers being `ws`.
pub open spec fn distributed_by(
    g: TxKeyGraph,
    keys: Seq<Seq<u8>>,
    comps: Components,
    ws: Seq<ThreadId>,
    worker_ids: Seq<ThreadId>,
    before: Seq<Transaction>,
    after: Seq<Transaction>,
) -> bool {
    &&& g.of(before, keys)
    &&& comps.of(&g)
    &&& comps.ordered()
    &&& comps.connected(&g)
    &&& sorted_ids(ws, worker_ids)
    &&& after.len() == before.len()
    &&& forall|c: int, i: int|
        0 <= c < comps.members@.len() && 0 <= i < before.len() && #[trigger] comps.members@[c]@.contains(i as usize) ==> after[i]
            == with_status(before[i], TransactionStatus::Done(component_worker(comps, ws, c)))
}

/// A distributer that keeps transactions that touch a common key together: the connected
/// components of the transactions (connected through the keys they declare) go, largest first,
/// to the least loaded worker.
pub struct ConnectedComponentsDistributer;

impl ConnectedComponentsDistributer {
    /// Mark each transaction of the pool `Done` by the worker of its component.
    pub fn assign(runtime: &SequentialRuntime, worker_ids: &[ThreadId], txs: &mut VecPool<Transaction>)
        requires
            worker_ids@.len() > 0,
            old(txs).pool_items().len() > 0,
            old(txs).pool_items().len() <= u32::MAX + 1,
        ensures
            final(txs).pool_items().len() == old(txs).pool_items().len(),
            forall|i: int|
                0 <= i < old(txs).pool_items().len() ==> exists|w: ThreadId|
                    #![trigger worker_ids@.contains(w)]
                    worker_ids@.contains(w) && #[trigger] final(txs).pool_items()[i] == with_status(
                        old(txs).pool_items()[i],
                        TransactionStatus::Done(w),
                    ),
            forall|i: int, j: int, kb: Seq<u8>|
                0 <= i < old(txs).pool_items().len() && 0 <= j < old(txs).pool_items().len() && #[trigger] declares(
                    old(txs).pool_items()[i],
                    kb,
                ) && #[trigger] declares(old(txs).pool_items()[j], kb) ==> final(txs).pool_items()[i].status
                    == final(txs).pool_items()[j].status,
            exists|g: TxKeyGraph, keys: Seq<Seq<u8>>, comps: Components, ws: Seq<ThreadId>|
                #[trigger] distributed_by(g, keys, comps, ws, worker_ids@, old(txs).pool_items(), final(txs).pool_items()),
    {
        let ghost before = txs.pool_items();
        let (g, Ghost(keys)) = build_graph(runtime, txs.as_vec());
        let comps = label_components(&g);
        let ghost lt = comps.tx_labels@;
        let ghost lk = comps.key_labels@;
        let ws = sorted_workers(worker_ids);
        proof {
            assert(worker_ids@.contains(worker_ids@[0]));
            assert(ws@.contains(worker_ids@[0]));
        }
        let assign = assign_components(comps, &g, &ws);
        let n = txs.len();
        let mut t: usize = 0;
        while t < n
            invariant
                n == before.len(),
                t <= n,
                assign@.len() == n,
                txs.pool_items().len() == n,
                forall|a: int| 0 <= a < t ==> #[trigger] txs.pool_items()[a] == with_status(
                    before[a],
                    TransactionStatus::Done(assign@[a]),
                ),
                forall|a: int| t <= a < n ==> #[trigger] txs.pool_items()[a] == before[a],
            decreases n - t,
        {
            let w = assign[t];
            let tx = txs.get_at_mut(t);
            tx.status = TransactionStatus::Done(w);
            t = t + 1;
        }
        proof {
            assert forall|i: int| 0 <= i < n implies exists|w: ThreadId|
                #![trigger worker_ids@.contains(w)]
                worker_ids@.contains(w) && #[trigger] txs.pool_items()[i] == with_status(before[i], TransactionStatus::Done(w)) by {
                assert(ws@.contains(assign@[i]));
                assert(worker_ids@.contains(assign@[i]));
            }
            assert forall|i: int, j: int, kb: Seq<u8>|
                0 <= i < n && 0 <= j < n && #[trigger] declares(before[i], kb) && #[trigger] declares(before[j], kb) implies txs.pool_items()[i].status
                    == txs.pool_items()[j].status by {
                assert(keys.contains(kb));
                let k = choose|k: int| 0 <= k < keys.len() && keys[k] == kb;
                assert(g.edge(i, k));
                assert(g.edge(j, k));
                assert(g.tx_keys@[i]@.contains(k as usize));
                assert(g.tx_keys@[j]@.contains(k as usize));
                assert(lt[i] == lk[k]);
                assert(lt[j] == lk[k]);
                assert(assign@[i] == assign@[j]);
            }
            assert(distributed_by(g, keys, comps, ws@, worker_ids@, before, txs.pool_items()));
        }
    }
}

/// The transactions at positions `i` and `j` declare a common key.
pub open spec fn share_key(txs: Seq<Transaction>, i: int, j: int) -> bool {
    exists|kb: Seq<u8>| #[trigger] declares(txs[i], kb) && declares(txs[j], kb)
}

/// The step from position `q` of `chain` to the next one joins two transactions that declare a
/// common key.
pub open spec fn chain_step(txs: Seq<Transaction>, chain: Seq<int>, q: int) -> bool {
    share_key(txs, chain[q], chain[q + 1])
}

/// `chain` is a chain of positions of `txs` in which each two neighbours declare a common key.
pub open spec fn key_chain(txs: Seq<Transaction>, chain: Seq<int>) -> bool {
    &&& chain.len() > 0
    &&& forall|q: int| 0 <= q < chain.len() ==> 0 <= #[trigger] chain[q] < txs.len()
    &&& forall|q: int| 0 <= q < chain.len() - 1 ==> #[trigger] chain_step(txs, chain, q)
}

/// Where two transactions that declare a common key always end with the same status, so do
/// the two ends of a chain of transactions, each two neighbours of which declare a common key.
pub proof fn lemma_chain_same_status(before: Seq<Transaction>, after: Seq<Transaction>, chain: Seq<int>)
    requires
        after.len() == before.len(),
        key_chain(before, chain),
        forall|i: int, j: int, kb: Seq<u8>|
            0 <= i < before.len() && 0 <= j < before.len() && #[trigger] declares(before[i], kb) && #[trigger] declares(
                before[j],
                kb,
            ) ==> after[i].status == after[j].status,
    ensures
        after[chain[0]].status == after[chain.last()].status,
    decreases chain.len(),
{
    if chain.len() > 1 {
        let shorter = chain.drop_last();
        assert forall|q: int| 0 <= q < shorter.len() - 1 implies #[trigger] chain_step(before, shorter, q) by {
            assert(chain_step(before, chain, q));
        }
        assert forall|q: int| 0 <= q < shorter.len() implies 0 <= #[trigger] shorter[q] < before.len() by {
            assert(shorter[q] == chain[q]);
        }
        lemma_chain_same_status(before, after, shorter);
        let n = chain.len() as int;
        assert(chain_step(before, chain, n - 2));
        let a = chain[n - 2];
        let b = chain[n - 1];
        let kb = choose|kb: Seq<u8>| #[trigger] declares(before[a], kb) && declares(before[b], kb);
        assert(0 <= chain[n - 2] < before.len());
        assert(0 <= chain[n - 1] < before.len());
    }
}

impl Distributer for ConnectedComponentsDistributer {
    /// There is a worker; component ids fit in 32 bits; and the ids of the transactions are
    /// distinct, as they must be to find each transaction again by its id.
    open spec fn can_distribute(workers: Seq<ThreadId>, txs: Seq<Transaction>) -> bool {
        &&& workers.len() > 0
        &&& txs.len() <= u32::MAX + 1
        &&& ids_unique(txs)
    }

    fn accepts(worker_ids: &[ThreadId], txs: &VecPool<Transaction>) -> (b: bool) {
        let v = txs.as_vec();
        worker_ids.len() > 0 && (v.len() as u64) <= 0x1_0000_0000u64 && has_unique_ids(v)
    }

    /// Each transaction goes to the worker of its connected component: see `distributed_by`.
    /// So every transaction is marked `Done` by one of the workers, and the two ends of a chain
    /// of transactions, each two neighbours of which declare a common key, go to one worker. An
    /// empty pool stays as it is.
    fn distribute(runtime: &SequentialRuntime, worker_ids: &[ThreadId], txs: &mut VecPool<Transaction>)
        ensures
            old(txs).pool_items().len() > 0 ==> exists|g: TxKeyGraph, keys: Seq<Seq<u8>>, comps: Components, ws: Seq<ThreadId>|
                #[trigger] distributed_by(g, keys, comps, ws, worker_ids@, old(txs).pool_items(), final(txs).pool_items()),
            old(txs).pool_items().len() == 0 ==> final(txs).pool_items() == old(txs).pool_items(),
            final(txs).pool_items().len() == old(txs).pool_items().len(),
            forall|i: int|
                0 <= i < old(txs).pool_items().len() ==> exists|w: ThreadId|
                    #![trigger worker_ids@.contains(w)]
                    worker_ids@.contains(w) && #[trigger] final(txs).pool_items()[i] == with_status(
                        old(txs).pool_items()[i],
                        TransactionStatus::Done(w),
                    ),
            forall|chain: Seq<int>|
                #[trigger] key_chain(old(txs).pool_items(), chain) ==> final(txs).pool_items()[chain[0]].status
                    == final(txs).pool_items()[chain.last()].status,
    {
        if txs.as_vec().len() == 0 {
            return;
        }
        Self::assign(runtime, worker_ids, txs);
        proof {
            assert forall|chain: Seq<int>| #[trigger] key_chain(old(txs).pool_items(), chain) implies txs.pool_items()[chain[0]].status
                == txs.pool_items()[chain.last()].status by {
                lemma_chain_same_status(old(txs).pool_items(), txs.pool_items(), chain);
            }
        }
    }
}

/// The storage keys that a transaction declares.
pub open spec fn declared_keys(tx: Transaction) -> Seq<Seq<u8>> {
    outer_keys::<SequentialRuntime>(&tx.function, tx.signature.0.0@)
}

/// The number of times `kb` occurs in `s`.
pub open spec fn count_in(s: Seq<Seq<u8>>, kb: Seq<u8>) -> nat
    decreases s.len(),
{
    if s.len() == 0 {
        0
    } else {
        count_in(s.drop_last(), kb) + if s.last() == kb {
            1nat
        } else {
            0nat
        }
    }
}

/// The number of times the transactions not yet executed declare `kb`.
pub open spec fn declarations(txs: Seq<Transaction>, kb: Seq<u8>) -> nat
    decreases txs.len(),
{
    if txs.len() == 0 {
        0
    } else {
        declarations(txs.drop_last(), kb) + if txs.last().status == TransactionStatus::NotExecuted {
            count_in(declared_keys(txs.last()), kb)
        } else {
            0nat
        }
    }
}

/// `n` copies of `x`.
pub open spec fn repeated(x: usize, n: nat) -> Seq<usize> {
    Seq::new(n, |j: int| x)
}

/// The positions of the transactions not yet executed that declare `kb`, in order, a position
/// as many times as its transaction declares the key.
pub open spec fn positions_declaring(txs: Seq<Transaction>, kb: Seq<u8>) -> Seq<usize>
    decreases txs.len(),
{
    if txs.len() == 0 {
        Seq::empty()
    } else {
        positions_declaring(txs.drop_last(), kb) + if txs.last().status == TransactionStatus::NotExecuted {
            repeated((txs.len() - 1) as usize, count_in(declared_keys(txs.last()), kb))
        } else {
            Seq::empty()
        }
    }
}

/// The ids of the transactions at `positions`.
pub open spec fn ids_at(txs: Seq<Transaction>, positions: Seq<usize>) -> Seq<TransactionId> {
    positions.map_values(|p: usize| txs[p as int].id)
}

/// The ids of the transactions not yet executed that declare `kb`, in order, an id as many
/// times as its transaction declares the key.
pub open spec fn ids_declaring(txs: Seq<Transaction>, kb: Seq<u8>) -> Seq<TransactionId> {
    ids_at(txs, positions_declaring(txs, kb))
}

/// The order in which the storage aware distribution prefers keys, on the ids of the
/// transactions that declare them: the shorter list first, and lists of one length compared
/// from their first ids on.
pub open spec fn ids_le(a: Seq<TransactionId>, b: Seq<TransactionId>) -> bool
    decreases a.len(),
{
    if a.len() != b.len() {
        a.len() < b.len()
    } else if a.len() == 0 {
        true
    } else if a[0] != b[0] {
        a[0] < b[0]
    } else {
        ids_le(a.drop_first(), b.drop_first())
    }
}

proof fn lemma_ids_le_total(a: Seq<TransactionId>, b: Seq<TransactionId>)
    ensures
        ids_le(a, b) || ids_le(b, a),
    decreases a.len(),
{
    if a.len() == b.len() && a.len() > 0 && a[0] == b[0] {
        lemma_ids_le_total(a.drop_first(), b.drop_first());
    }
}

proof fn lemma_ids_le_antisymmetric(a: Seq<TransactionId>, b: Seq<TransactionId>)
    requires
        ids_le(a, b),
        ids_le(b, a),
    ensures
        a == b,
    decreases a.len(),
{
    if a.len() > 0 {
        lemma_ids_le_antisymmetric(a.drop_first(), b.drop_first());
        assert(a =~= seq![a[0]] + a.drop_first());
        assert(b =~= seq![b[0]] + b.drop_first());
    } else {
        assert(a =~= b);
    }
}

proof fn lemma_ids_le_transitive(a: Seq<TransactionId>, b: Seq<TransactionId>, c: Seq<TransactionId>)
    requires
        ids_le(a, b),
        ids_le(b, c),
    ensures
        ids_le(a, c),
    decreases a.len(),
{
    if a.len() == b.len() && b.len() == c.len() && a.len() > 0 && a[0] == b[0] && b[0] == c[0] {
        lemma_ids_le_transitive(a.drop_first(), b.drop_first(), c.drop_first());
    }
}

proof fn lemma_ids_le_refl(a: Seq<TransactionId>)
    ensures
        ids_le(a, a),
    decreases a.len(),
{
    if a.len() > 0 {
        lemma_ids_le_refl(a.drop_first());
    }
}

/// There are as many positions of transactions that declare `kb` as declarations of `kb`.
proof fn lemma_positions_declaring_len(txs: Seq<Transaction>, kb: Seq<u8>)
    ensures
        positions_declaring(txs, kb).len() == declarations(txs, kb),
    decreases txs.len(),
{
    if txs.len() > 0 {
        lemma_positions_declaring_len(txs.drop_last(), kb);
    }
}

/// The positions of the transactions that declare a key are positions of transactions not yet
/// executed that declare it, and each of those occurs.
proof fn lemma_positions_declaring_contains(txs: Seq<Transaction>, kb: Seq<u8>, i: int)
    requires
        0 <= i < txs.len(),
        txs.len() <= usize::MAX,
    ensures
        positions_declaring(txs, kb).contains(i as usize) <==> (txs[i].status == TransactionStatus::NotExecuted && declares(
            txs[i],
            kb,
        )),
        forall|q: int| 0 <= q < positions_declaring(txs, kb).len() ==> #[trigger] positions_declaring(txs, kb)[q] < txs.len(),
    decreases txs.len(),
{
    let pre = txs.drop_last();
    let last = (txs.len() - 1) as usize;
    let tail = if txs.last().status == TransactionStatus::NotExecuted {
        repeated(last, count_in(declared_keys(txs.last()), kb))
    } else {
        Seq::empty()
    };
    let all = positions_declaring(txs, kb);
    assert(all == positions_declaring(pre, kb) + tail);
    if pre.len() > 0 {
        lemma_positions_declaring_contains(pre, kb, if i < pre.len() { i } else { 0 });
    }
    assert forall|q: int| 0 <= q < all.len() implies #[trigger] all[q] < txs.len() by {
        if q < positions_declaring(pre, kb).len() {
            assert(all[q] == positions_declaring(pre, kb)[q]);
        } else {
            assert(all[q] == tail[q - positions_declaring(pre, kb).len()]);
        }
    }
    if i < pre.len() {
        assert(pre[i] == txs[i]);
        if all.contains(i as usize) {
            let q = choose|q: int| 0 <= q < all.len() && all[q] == i as usize;
            if q >= positions_declaring(pre, kb).len() {
                assert(tail[q - positions_declaring(pre, kb).len()] == last);
            } else {
                assert(positions_declaring(pre, kb)[q] == i as usize);
            }
        }
        if positions_declaring(pre, kb).contains(i as usize) {
            let q = choose|q: int| 0 <= q < positions_declaring(pre, kb).len() && positions_declaring(pre, kb)[q] == i as usize;
            assert(all[q] == i as usize);
        }
    } else {
        assert(!positions_declaring(pre, kb).contains(i as usize)) by {
            if pre.len() == 0 {
                assert(positions_declaring(pre, kb) =~= Seq::<usize>::empty());
            }
            if pre.len() > 0 && positions_declaring(pre, kb).contains(i as usize) {
                let q = choose|q: int| 0 <= q < positions_declaring(pre, kb).len() && positions_declaring(pre, kb)[q] == i as usize;
                assert(positions_declaring(pre, kb)[q] < pre.len());
            }
        }
        if txs.last().status == TransactionStatus::NotExecuted && declares(txs[i], kb) {
            lemma_count_in_present(declared_keys(txs.last()), kb);
            assert(all[positions_declaring(pre, kb).len() as int] == i as usize);
        }
        if all.contains(i as usize) {
            let q = choose|q: int| 0 <= q < all.len() && all[q] == i as usize;
            if q < positions_declaring(pre, kb).len() {
                assert(positions_declaring(pre, kb)[q] == i as usize);
            } else {
                assert(txs.last().status == TransactionStatus::NotExecuted);
                if !declares(txs[i], kb) {
                    lemma_count_in_absent(declared_keys(txs.last()), kb);
                }
            }
        }
    }
}

proof fn lemma_count_in_absent(s: Seq<Seq<u8>>, kb: Seq<u8>)
    requires
        !s.contains(kb),
    ensures
        count_in(s, kb) == 0,
    decreases s.len(),
{
    if s.len() > 0 {
        assert(!s.drop_last().contains(kb)) by {
            if s.drop_last().contains(kb) {
                let q = choose|q: int| 0 <= q < s.drop_last().len() && s.drop_last()[q] == kb;
                assert(s[q] == kb);
            }
        }
        lemma_count_in_absent(s.drop_last(), kb);
        assert(s.last() != kb) by {
            if s.last() == kb {
                assert(s[s.len() - 1] == kb);
            }
        }
    }
}

proof fn lemma_count_in_present(s: Seq<Seq<u8>>, kb: Seq<u8>)
    requires
        s.contains(kb),
    ensures
        count_in(s, kb) > 0,
    decreases s.len(),
{
    if s.last() != kb {
        assert(s.drop_last().contains(kb)) by {
            let q = choose|q: int| 0 <= q < s.len() && s[q] == kb;
            assert(q != s.len() - 1);
            assert(s.drop_last()[q] == kb);
        }
        lemma_count_in_present(s.drop_last(), kb);
    }
}

proof fn lemma_declarations_absent(txs: Seq<Transaction>, kb: Seq<u8>)
    requires
        forall|i: int| 0 <= i < txs.len() && txs[i].status == TransactionStatus::NotExecuted ==> !#[trigger] declares(txs[i], kb),
    ensures
        declarations(txs, kb) == 0,
    decreases txs.len(),
{
    if txs.len() > 0 {
        assert forall|i: int| 0 <= i < txs.drop_last().len() && txs.drop_last()[i].status == TransactionStatus::NotExecuted implies !#[trigger] declares(
            txs.drop_last()[i],
            kb,
        ) by {
            assert(txs.drop_last()[i] == txs[i]);
        }
        lemma_declarations_absent(txs.drop_last(), kb);
        if txs.last().status == TransactionStatus::NotExecuted {
            assert(!declares(txs[txs.len() - 1], kb));
            lemma_count_in_absent(declared_keys(txs.last()), kb);
        }
    }
}

/// The keys that the transactions not yet executed declare, distinct, each with the positions
/// of the transactions that declare it, in order, a position as many times as its transaction
/// declares the key.
fn key_lists(runtime: &SequentialRuntime, txs: &Vec<Transaction>) -> (r: (Vec<Key>, Vec<Vec<usize>>))
    ensures
        r.0@.len() == r.1@.len(),
        forall|k: int, q: int|
            0 <= k < r.1@.len() && 0 <= q < r.1@[k]@.len() ==> #[trigger] r.1@[k]@[q] < txs@.len() && txs@[r.1@[k]@[q] as int].status
                == TransactionStatus::NotExecuted,
        forall|i: int, kb: Seq<u8>|
            0 <= i < txs@.len() && txs@[i].status == TransactionStatus::NotExecuted && #[trigger] declares(txs@[i], kb) ==> exists|k: int|
                0 <= k < r.0@.len() && #[trigger] r.0@[k].0@ == kb,
        forall|k1: int, k2: int| 0 <= k1 < k2 < r.0@.len() ==> #[trigger] r.0@[k1].0@ != #[trigger] r.0@[k2].0@,
        forall|k: int, i: int|
            0 <= k < r.1@.len() && 0 <= i < txs@.len() ==> (#[trigger] r.1@[k]@.contains(i as usize) <==> (txs@[i].status
                == TransactionStatus::NotExecuted && declares(txs@[i], r.0@[k].0@))),
        forall|k: int| 0 <= k < r.1@.len() ==> (#[trigger] r.1@[k])@.len() == declarations(txs@, r.0@[k].0@),
        forall|k: int| 0 <= k < r.1@.len() ==> (#[trigger] r.1@[k])@ == positions_declaring(txs@, r.0@[k].0@),
        forall|k: int| 0 <= k < r.1@.len() ==> (#[trigger] r.1@[k])@.len() > 0,
{
    let mut keys: Vec<Key> = Vec::new();
    let mut lists: Vec<Vec<usize>> = Vec::new();
    let mut i: usize = 0;
    while i < txs.len()
        invariant
            i <= txs@.len(),
            keys@.len() == lists@.len(),
            forall|k: int, q: int|
                0 <= k < lists@.len() && 0 <= q < lists@[k]@.len() ==> #[trigger] lists@[k]@[q] < i && txs@[lists@[k]@[q] as int].status
                    == TransactionStatus::NotExecuted,
            forall|a: int, kb: Seq<u8>|
                0 <= a < i && txs@[a].status == TransactionStatus::NotExecuted && #[trigger] declares(txs@[a], kb) ==> exists|k: int|
                    0 <= k < keys@.len() && #[trigger] keys@[k].0@ == kb,
            forall|k1: int, k2: int| 0 <= k1 < k2 < keys@.len() ==> #[trigger] keys@[k1].0@ != #[trigger] keys@[k2].0@,
            forall|k: int, a: int|
                0 <= k < lists@.len() && 0 <= a < i ==> (#[trigger] lists@[k]@.contains(a as usize) <==> (txs@[a].status
                    == TransactionStatus::NotExecuted && declares(txs@[a], keys@[k].0@))),
            forall|k: int| 0 <= k < lists@.len() ==> (#[trigger] lists@[k])@.len() == declarations(txs@.take(i as int), keys@[k].0@),
            forall|k: int| 0 <= k < lists@.len() ==> (#[trigger] lists@[k])@ == positions_declaring(txs@.take(i as int), keys@[k].0@),
            forall|k: int| 0 <= k < lists@.len() ==> (#[trigger] lists@[k])@.len() > 0,
        decreases txs@.len() - i,
    {
        let tx = &txs[i];
        let ghost pre = txs@.take(i as int);
        let ghost post = txs@.take(i + 1);
        proof {
            assert(post.drop_last() =~= pre);
            assert(post.last() == txs@[i as int]);
        }
        if tx.status == TransactionStatus::NotExecuted {
            let declared = runtime.validate(&tx.function, tx.signature.0);
            let ghost dm = key_models(declared@);
            let mut p: usize = 0;
            assert(txs@[i as int] == *tx);
            proof {
                assert(dm.take(0) =~= Seq::<Seq<u8>>::empty());
                assert(repeated(i, 0) =~= Seq::<usize>::empty());
                assert forall|k: int| 0 <= k < lists@.len() implies (#[trigger] lists@[k])@ == positions_declaring(pre, keys@[k].0@)
                    + repeated(i, count_in(dm.take(0), keys@[k].0@)) by {
                    assert(positions_declaring(pre, keys@[k].0@) + repeated(i, 0) =~= positions_declaring(pre, keys@[k].0@));
                }
            }
            while p < declared.len()
                invariant
                    i < txs@.len(),
                    pre == txs@.take(i as int),
                    txs@[i as int].status == TransactionStatus::NotExecuted,
                    p <= declared@.len(),
                    dm == key_models(declared@),
                    dm == declared_keys(txs@[i as int]),
                    keys@.len() == lists@.len(),
                    forall|k: int, q: int|
                        0 <= k < lists@.len() && 0 <= q < lists@[k]@.len() ==> #[trigger] lists@[k]@[q] <= i
                            && txs@[lists@[k]@[q] as int].status == TransactionStatus::NotExecuted,
                    forall|a: int, kb: Seq<u8>|
                        0 <= a < i && txs@[a].status == TransactionStatus::NotExecuted && #[trigger] declares(txs@[a], kb) ==> exists|k: int|
                            0 <= k < keys@.len() && #[trigger] keys@[k].0@ == kb,
                    forall|q: int| #![trigger dm[q]] 0 <= q < p ==> exists|k: int| 0 <= k < keys@.len() && #[trigger] keys@[k].0@ == dm[q],
                    forall|k1: int, k2: int| 0 <= k1 < k2 < keys@.len() ==> #[trigger] keys@[k1].0@ != #[trigger] keys@[k2].0@,
                    forall|k: int, a: int|
                        0 <= k < lists@.len() && 0 <= a < i ==> (#[trigger] lists@[k]@.contains(a as usize) <==> (txs@[a].status
                            == TransactionStatus::NotExecuted && declares(txs@[a], keys@[k].0@))),
                    forall|k: int|
                        0 <= k < lists@.len() ==> (#[trigger] lists@[k]@.contains(i) <==> dm.take(p as int).contains(keys@[k].0@)),
                    forall|k: int|
                        0 <= k < lists@.len() ==> (#[trigger] lists@[k])@.len() == declarations(pre, keys@[k].0@) + count_in(
                            dm.take(p as int),
                            keys@[k].0@,
                        ),
                    forall|k: int|
                        0 <= k < lists@.len() ==> (#[trigger] lists@[k])@ == positions_declaring(pre, keys@[k].0@) + repeated(
                            i,
                            count_in(dm.take(p as int), keys@[k].0@),
                        ),
                    forall|k: int| 0 <= k < lists@.len() ==> (#[trigger] lists@[k])@.len() > 0,
                decreases declared@.len() - p,
            {
                let key = &declared[p];
                let ghost keys_b = keys@;
                let ghost lists_b = lists@;
                let ghost kb = key.0@;
                proof {
                    assert(dm[p as int] == kb);
                    let t = dm.take(p + 1);
                    assert(t.drop_last() =~= dm.take(p as int));
                    assert(t.last() == kb);
                }
                let k = match position_of_key(&keys, key) {
                    Some(k) => k,
                    None => {
                        proof {
                            assert forall|a: int| 0 <= a < pre.len() && pre[a].status == TransactionStatus::NotExecuted implies !#[trigger] declares(
                                pre[a],
                                kb,
                            ) by {
                                assert(pre[a] == txs@[a]);
                                if declares(txs@[a], kb) {
                                    let k3 = choose|k3: int| 0 <= k3 < keys@.len() && #[trigger] keys@[k3].0@ == kb;
                                }
                            }
                            lemma_declarations_absent(pre, kb);
                            assert(!dm.take(p as int).contains(kb)) by {
                                if dm.take(p as int).contains(kb) {
                                    let q = choose|q: int| 0 <= q < p && dm.take(p as int)[q] == kb;
                                    assert(dm[q] == kb);
                                    let k3 = choose|k3: int| 0 <= k3 < keys@.len() && #[trigger] keys@[k3].0@ == dm[q];
                                }
                            }
                            lemma_count_in_absent(dm.take(p as int), kb);
                            lemma_positions_declaring_len(pre, kb);
                            assert(positions_declaring(pre, kb) + repeated(i, 0) =~= Seq::<usize>::empty());
                        }
                        keys.push(StateKey(copy_bytes(&key.0)));
                        lists.push(Vec::new());
                        proof {
                            assert(lists@[lists@.len() - 1]@ =~= Seq::<usize>::empty());
                            assert forall|k1: int, k2: int| 0 <= k1 < k2 < keys@.len() implies #[trigger] keys@[k1].0@ != #[trigger] keys@[k2].0@ by {
                                if k2 < keys_b.len() {
                                    assert(keys@[k1] == keys_b[k1]);
                                    assert(keys@[k2] == keys_b[k2]);
                                } else {
                                    assert(keys@[k1] == keys_b[k1]);
                                }
                            }
                        }
                        keys.len() - 1
                    },
                };
                let ghost keys_m = keys@;
                let ghost lists_m = lists@;
                lists[k].push(i);
                proof {
                    assert(keys@ == keys_m);
                    assert(keys@[k as int].0@ == kb);
                    assert forall|k2: int| 0 <= k2 < lists@.len() && k2 != k implies lists@[k2] == lists_m[k2] by {}
                    assert forall|k2: int| 0 <= k2 < lists_b.len() implies #[trigger] lists_m[k2] == lists_b[k2] by {}
                    assert(lists@[k as int]@ == lists_m[k as int]@.push(i));
                    assert forall|k2: int, q: int|
                        0 <= k2 < lists@.len() && 0 <= q < lists@[k2]@.len() implies #[trigger] lists@[k2]@[q] <= i
                            && txs@[lists@[k2]@[q] as int].status == TransactionStatus::NotExecuted by {
                        if k2 == k && q < lists@[k2]@.len() - 1 {
                            assert(lists@[k2]@[q] == lists_m[k2]@[q]);
                        }
                    }
                    assert forall|a: int, kb2: Seq<u8>|
                        0 <= a < i && txs@[a].status == TransactionStatus::NotExecuted && #[trigger] declares(txs@[a], kb2) implies exists|k2: int|
                            0 <= k2 < keys@.len() && #[trigger] keys@[k2].0@ == kb2 by {
                        let k3 = choose|k3: int| 0 <= k3 < keys_b.len() && #[trigger] keys_b[k3].0@ == kb2;
                        assert(keys@[k3] == keys_b[k3]);
                    }
                    assert forall|q: int| #![trigger dm[q]] 0 <= q < p + 1 implies exists|k2: int| 0 <= k2 < keys@.len() && #[trigger] keys@[k2].0@ == dm[q] by {
                        if q < p {
                            let k3 = choose|k3: int| 0 <= k3 < keys_b.len() && #[trigger] keys_b[k3].0@ == dm[q];
                            assert(keys@[k3] == keys_b[k3]);
                        } else {
                            assert(keys@[k as int].0@ == dm[q]);
                        }
                    }
                    assert forall|k2: int, a: int|
                        0 <= k2 < lists@.len() && 0 <= a < i implies (#[trigger] lists@[k2]@.contains(a as usize) <==> (txs@[a].status
                            == TransactionStatus::NotExecuted && declares(txs@[a], keys@[k2].0@))) by {
                        if k2 == k {
                            if lists_m[k2]@.contains(a as usize) {
                                let q = choose|q: int| 0 <= q < lists_m[k2]@.len() && lists_m[k2]@[q] == a as usize;
                                assert(lists@[k2]@[q] == a as usize);
                            }
                            if lists@[k2]@.contains(a as usize) {
                                let q = choose|q: int| 0 <= q < lists@[k2]@.len() && lists@[k2]@[q] == a as usize;
                                if q < lists_m[k2]@.len() {
                                    assert(lists_m[k2]@[q] == a as usize);
                                }
                            }
                            if k2 >= lists_b.len() {
                                assert(lists_m[k2]@.len() == 0);
                                assert(!(txs@[a].status == TransactionStatus::NotExecuted && declares(txs@[a], kb))) by {
                                    if txs@[a].status == TransactionStatus::NotExecuted && declares(txs@[a], kb) {
                                        let k3 = choose|k3: int| 0 <= k3 < keys_b.len() && #[trigger] keys_b[k3].0@ == kb;
                                    }
                                }
                            }
                        }
                    }
                    assert forall|k2: int| 0 <= k2 < lists@.len() implies (#[trigger] lists@[k2]@.contains(i) <==> dm.take(p + 1).contains(
                        keys@[k2].0@,
                    )) by {
                        let t = dm.take(p + 1);
                        if k2 == k {
                            assert(lists@[k2]@[lists@[k2]@.len() - 1] == i);
                            assert(t[p as int] == kb);
                        } else {
                            assert(lists@[k2] == lists_m[k2]);
                            if k2 < lists_b.len() {
                                assert(lists_m[k2] == lists_b[k2]);
                            }
                            if t.contains(keys@[k2].0@) {
                                let q = choose|q: int| 0 <= q < t.len() && t[q] == keys@[k2].0@;
                                if q == p {
                                    assert(keys@[k2].0@ == kb);
                                    assert(keys@[k as int].0@ == kb);
                                    if k2 < k {
                                        assert(keys@[k2].0@ != keys@[k as int].0@);
                                    } else {
                                        assert(keys@[k as int].0@ != keys@[k2].0@);
                                    }
                                } else {
                                    assert(dm.take(p as int)[q] == keys@[k2].0@);
                                }
                            }
                            if dm.take(p as int).contains(keys@[k2].0@) {
                                let q = choose|q: int| 0 <= q < p && dm.take(p as int)[q] == keys@[k2].0@;
                                assert(t[q] == keys@[k2].0@);
                            }
                        }
                    }
                    assert forall|k2: int| 0 <= k2 < lists@.len() implies (#[trigger] lists@[k2])@ == positions_declaring(pre, keys@[k2].0@)
                        + repeated(i, count_in(dm.take(p + 1), keys@[k2].0@)) by {
                        let t = dm.take(p + 1);
                        if k2 != k {
                            assert(lists@[k2] == lists_m[k2]);
                            if k2 < lists_b.len() {
                                assert(lists_m[k2] == lists_b[k2]);
                            }
                            assert(keys@[k2].0@ != kb) by {
                                if k2 < k {
                                    assert(keys@[k2].0@ != keys@[k as int].0@);
                                } else {
                                    assert(keys@[k as int].0@ != keys@[k2].0@);
                                }
                            }
                            assert(count_in(t, keys@[k2].0@) == count_in(dm.take(p as int), keys@[k2].0@));
                        } else {
                            let c = count_in(dm.take(p as int), kb);
                            assert(count_in(t, kb) == c + 1);
                            if k >= lists_b.len() {
                                assert(lists_m[k2]@ =~= Seq::<usize>::empty());
                                assert(positions_declaring(pre, kb) + repeated(i, c) =~= Seq::<usize>::empty());
                            } else {
                                assert(lists_m[k2] == lists_b[k2]);
                            }
                            assert(repeated(i, c + 1) =~= repeated(i, c).push(i));
                            assert(positions_declaring(pre, kb) + repeated(i, c + 1) =~= (positions_declaring(pre, kb) + repeated(
                                i,
                                c,
                            )).push(i));
                        }
                    }
                    assert forall|k2: int| 0 <= k2 < lists@.len() implies (#[trigger] lists@[k2])@.len() == declarations(pre, keys@[k2].0@)
                        + count_in(dm.take(p + 1), keys@[k2].0@) by {
                        if k2 != k {
                            assert(lists@[k2] == lists_m[k2]);
                            if k2 < lists_b.len() {
                                assert(lists_m[k2] == lists_b[k2]);
                            }
                            assert(keys@[k2].0@ != kb) by {
                                if k2 < k {
                                    assert(keys@[k2].0@ != keys@[k as int].0@);
                                } else {
                                    assert(keys@[k as int].0@ != keys@[k2].0@);
                                }
                            }
                        }
                    }
                }
                p = p + 1;
            }
            proof {
                assert(dm.take(declared@.len() as int) =~= dm);
                assert forall|kb: Seq<u8>| #[trigger] declares(txs@[i as int], kb) implies exists|k2: int|
                    0 <= k2 < keys@.len() && #[trigger] keys@[k2].0@ == kb by {
                    let q = choose|q: int| 0 <= q < dm.len() && dm[q] == kb;
                }
                assert forall|k: int| 0 <= k < lists@.len() implies (#[trigger] lists@[k])@.len() == declarations(post, keys@[k].0@) by {
                }
                assert forall|k: int| 0 <= k < lists@.len() implies (#[trigger] lists@[k])@ == positions_declaring(post, keys@[k].0@) by {
                    assert(((post.len() - 1) as usize) == i);
                }
                assert forall|k: int, a: int|
                    0 <= k < lists@.len() && 0 <= a < i + 1 implies (#[trigger] lists@[k]@.contains(a as usize) <==> (txs@[a].status
                        == TransactionStatus::NotExecuted && declares(txs@[a], keys@[k].0@))) by {
                    if a == i {
                        assert(lists@[k]@.contains(i) <==> dm.contains(keys@[k].0@));
                    }
                }
            }
        } else {
            proof {
                assert forall|k: int| 0 <= k < lists@.len() implies (#[trigger] lists@[k])@ == positions_declaring(post, keys@[k].0@) by {
                    assert(positions_declaring(pre, keys@[k].0@) + Seq::<usize>::empty() =~= positions_declaring(pre, keys@[k].0@));
                }
                assert forall|k: int, a: int|
                    0 <= k < lists@.len() && 0 <= a < i + 1 implies (#[trigger] lists@[k]@.contains(a as usize) <==> (txs@[a].status
                        == TransactionStatus::NotExecuted && declares(txs@[a], keys@[k].0@))) by {
                    if a == i {
                        if lists@[k]@.contains(a as usize) {
                            let q = choose|q: int| 0 <= q < lists@[k]@.len() && lists@[k]@[q] == a as usize;
                        }
                    }
                }
            }
        }
        i = i + 1;
    }
    proof {
        assert(txs@.take(txs@.len() as int) =~= txs@);
        assert forall|a: int, kb: Seq<u8>|
            0 <= a < txs@.len() && txs@[a].status == TransactionStatus::NotExecuted && #[trigger] declares(txs@[a], kb) implies exists|k: int|
                0 <= k < keys@.len() && #[trigger] keys@[k].0@ == kb by {
            assert(a < i);
        }
    }
    (keys, lists)
}

/// `after` is `before` with some transactions that were not executed marked `Done` by one of
/// `workers`.
pub open spec fn marked_among(workers: Seq<ThreadId>, before: Seq<Transaction>, after: Seq<Transaction>) -> bool {
    &&& after.len() == before.len()
    &&& forall|i: int|
        0 <= i < before.len() ==> {
            ||| #[trigger] after[i] == before[i]
            ||| before[i].status == TransactionStatus::NotExecuted && exists|w: ThreadId|
                workers.contains(w) && after[i] == with_status(before[i], TransactionStatus::Done(w))
        }
}

/// A storage aware distributer: each worker but the last gets the transactions not yet
/// assigned that declare the key that most of them declare (ties broken by the ids of those
/// transactions); the last worker gets the rest.
/// Where no transaction left declares a key, the distribution stops early, and the remaining
/// transactions stay unassigned.
pub struct SimpleStorageAwareDistributer;

/// Whether a transaction not yet executed declares a key.
pub open spec fn any_declared(txs: Seq<Transaction>) -> bool {
    exists|i: int, kb: Seq<u8>|
        0 <= i < txs.len() && txs[i].status == TransactionStatus::NotExecuted && #[trigger] declares(txs[i], kb)
}

/// `kb` is one of the keys that the transactions not yet executed declare most often, and of
/// those, one whose declaring transactions' ids come last in the order of `ids_le`.
pub open spec fn most_declared(txs: Seq<Transaction>, kb: Seq<u8>) -> bool {
    &&& declarations(txs, kb) > 0
    &&& forall|kb2: Seq<u8>| #[trigger] ids_le(ids_declaring(txs, kb2), ids_declaring(txs, kb))
}

/// Whether the ids of the transactions at positions `a` come no earlier than those at
/// positions `b` in the order of `ids_le`.
fn ids_at_least(txs: &Vec<Transaction>, a: &Vec<usize>, b: &Vec<usize>) -> (r: bool)
    requires
        forall|q: int| 0 <= q < a@.len() ==> #[trigger] a@[q] < txs@.len(),
        forall|q: int| 0 <= q < b@.len() ==> #[trigger] b@[q] < txs@.len(),
    ensures
        r == ids_le(ids_at(txs@, b@), ids_at(txs@, a@)),
{
    let ghost ia = ids_at(txs@, a@);
    let ghost ib = ids_at(txs@, b@);
    if a.len() != b.len() {
        return b.len() < a.len();
    }
    let mut j: usize = 0;
    proof {
        assert(ia.skip(0) =~= ia);
        assert(ib.skip(0) =~= ib);
    }
    while j < a.len()
        invariant
            a@.len() == b@.len(),
            ia == ids_at(txs@, a@),
            ib == ids_at(txs@, b@),
            j <= a@.len(),
            forall|q: int| 0 <= q < a@.len() ==> #[trigger] a@[q] < txs@.len(),
            forall|q: int| 0 <= q < b@.len() ==> #[trigger] b@[q] < txs@.len(),
            ids_le(ib, ia) == ids_le(ib.skip(j as int), ia.skip(j as int)),
        decreases a@.len() - j,
    {
        let x = txs[a[j]].id;
        let y = txs[b[j]].id;
        proof {
            assert(ia.skip(j as int)[0] == x);
            assert(ib.skip(j as int)[0] == y);
        }
        if x != y {
            return y < x;
        }
        proof {
            assert(ia.skip(j as int).drop_first() =~= ia.skip(j + 1));
            assert(ib.skip(j as int).drop_first() =~= ib.skip(j + 1));
        }
        j = j + 1;
    }
    proof {
        assert(ia.skip(j as int) =~= Seq::<TransactionId>::empty());
        assert(ib.skip(j as int) =~= Seq::<TransactionId>::empty());
    }
    true
}

/// The transactions not yet executed that declare `kb` go to `w`.
pub open spec fn round_to(txs: Seq<Transaction>, kb: Seq<u8>, w: ThreadId) -> Seq<Transaction> {
    Seq::new(
        txs.len(),
        |i: int|
            if txs[i].status == TransactionStatus::NotExecuted && declares(txs[i], kb) {
                with_status(txs[i], TransactionStatus::Done(w))
            } else {
                txs[i]
            },
    )
}

/// The transactions not yet executed go to `w`.
pub open spec fn rest_to(txs: Seq<Transaction>, w: ThreadId) -> Seq<Transaction> {
    Seq::new(
        txs.len(),
        |i: int|
            if txs[i].status == TransactionStatus::NotExecuted {
                with_status(txs[i], TransactionStatus::Done(w))
            } else {
                txs[i]
            },
    )
}

/// The outcome of the rounds of the storage aware distribution from round `r` on, the key of
/// round `q` being `keys[q]`: each round but the last gives the transactions that declare its
/// key to its worker, and the last worker gets the rest; where no transaction left declares a
/// key, the distribution stops there. `None` where a key is not one of those declared most
/// often.
pub open spec fn storage_rounds(txs: Seq<Transaction>, workers: Seq<ThreadId>, r: int, keys: Seq<Seq<u8>>) -> Option<
    Seq<Transaction>,
>
    decreases workers.len() - r,
{
    if r >= workers.len() - 1 {
        Some(rest_to(txs, workers.last()))
    } else if !any_declared(txs) {
        Some(txs)
    } else if 0 <= r < keys.len() && most_declared(txs, keys[r]) {
        storage_rounds(round_to(txs, keys[r], workers[r]), workers, r + 1, keys)
    } else {
        None
    }
}

impl SimpleStorageAwareDistributer {
    /// Mark the transactions of the pool `Done` by the workers, by the keys they declare: see
    /// `storage_rounds`. The key of each round is one that is declared most often and, among
    /// those, by the transactions with the greatest ids (see `most_declared`); where several
    /// keys are declared by the same transactions, which of them is taken does not change the
    /// round (see `law_storage_round_determined`).
    pub fn assign(runtime: &SequentialRuntime, worker_ids: &[ThreadId], txs: &mut VecPool<Transaction>)
        requires
            worker_ids@.len() > 0,
        ensures
            exists|keys: Seq<Seq<u8>>|
                #[trigger] storage_rounds(old(txs).pool_items(), worker_ids@, 0, keys) == Some(final(txs).pool_items()),
            marked_among(worker_ids@, old(txs).pool_items(), final(txs).pool_items()),
            forall|i: int|
                0 <= i < final(txs).pool_items().len() && #[trigger] final(txs).pool_items()[i].status
                    == TransactionStatus::NotExecuted ==> forall|kb: Seq<u8>| !declares(old(txs).pool_items()[i], kb),
    {
        let ghost before = txs.pool_items();
        let ghost mut chosen: Seq<Seq<u8>> = Seq::empty();
        let num_workers = worker_ids.len();
        let mut r: usize = 0;
        proof {
            assert forall|i: int| 0 <= i < before.len() implies {
                ||| #[trigger] txs.pool_items()[i] == before[i]
                ||| before[i].status == TransactionStatus::NotExecuted && exists|w: ThreadId|
                    worker_ids@.contains(w) && txs.pool_items()[i] == with_status(before[i], TransactionStatus::Done(w))
            } by {}
        }
        while r < num_workers - 1
            invariant
                num_workers == worker_ids@.len(),
                num_workers > 0,
                r <= num_workers - 1,
                before == old(txs).pool_items(),
                marked_among(worker_ids@, before, txs.pool_items()),
                chosen.len() == r,
                forall|ks: Seq<Seq<u8>>|
                    ks.len() >= r && ks.take(r as int) == chosen ==> #[trigger] storage_rounds(before, worker_ids@, 0, ks) == storage_rounds(
                        txs.pool_items(),
                        worker_ids@,
                        r as int,
                        ks,
                    ),
            decreases num_workers - 1 - r,
        {
            let next_worker = worker_ids[r];
            let ghost round = txs.pool_items();
            let (keys, lists) = key_lists(runtime, txs.as_vec());
            if keys.len() == 0 {
                proof {
                    assert(!any_declared(round)) by {
                        if any_declared(round) {
                            let (i, kb) = choose|i: int, kb: Seq<u8>|
                                0 <= i < round.len() && round[i].status == TransactionStatus::NotExecuted && #[trigger] declares(round[i], kb);
                            let k = choose|k: int| 0 <= k < keys@.len() && #[trigger] keys@[k].0@ == kb;
                        }
                    }
                    assert(storage_rounds(round, worker_ids@, r as int, chosen) == Some(round));
                    assert(chosen.take(r as int) =~= chosen);
                    assert(storage_rounds(before, worker_ids@, 0, chosen) == Some(txs.pool_items()));
                    assert forall|i: int|
                        0 <= i < txs.pool_items().len() && #[trigger] txs.pool_items()[i].status == TransactionStatus::NotExecuted implies forall|kb: Seq<u8>|
                            !declares(before[i], kb) by {
                        assert(txs.pool_items()[i] == before[i]);
                        assert forall|kb: Seq<u8>| !declares(before[i], kb) by {
                            if declares(before[i], kb) {
                                assert(declares(txs.pool_items()[i], kb));
                                let k = choose|k: int| 0 <= k < keys@.len() && #[trigger] keys@[k].0@ == kb;
                            }
                        }
                    }
                }
                return;
            }
            // the key that the transactions declare most often, by the ids of those transactions
            // after that.
            let pool_txs = txs.as_vec();
            let mut best: usize = 0;
            let mut c: usize = 1;
            proof {
                lemma_ids_le_refl(ids_at(round, lists@[0]@));
            }
            while c < lists.len()
                invariant
                    1 <= c <= lists@.len(),
                    best < c,
                    pool_txs@ == round,
                    forall|k: int, q: int| 0 <= k < lists@.len() && 0 <= q < lists@[k]@.len() ==> #[trigger] lists@[k]@[q] < round.len(),
                    forall|c2: int| 0 <= c2 < c ==> ids_le(ids_at(round, (#[trigger] lists@[c2])@), ids_at(round, lists@[best as int]@)),
                decreases lists@.len() - c,
            {
                let ghost old_best = best as int;
                if ids_at_least(pool_txs, &lists[c], &lists[best]) {
                    best = c;
                    proof {
                        assert forall|c2: int| 0 <= c2 < c + 1 implies ids_le(ids_at(round, (#[trigger] lists@[c2])@), ids_at(round, lists@[best as int]@)) by {
                            if c2 < c {
                                lemma_ids_le_transitive(ids_at(round, lists@[c2]@), ids_at(round, lists@[old_best]@), ids_at(round, lists@[c as int]@));
                            } else {
                                lemma_ids_le_refl(ids_at(round, lists@[c2]@));
                            }
                        }
                    }
                } else {
                    proof {
                        lemma_ids_le_total(ids_at(round, lists@[old_best]@), ids_at(round, lists@[c as int]@));
                    }
                }
                c = c + 1;
            }
            let ghost kb = keys@[best as int].0@;
            proof {
                assert(declarations(round, kb) == lists@[best as int]@.len());
                assert forall|kb2: Seq<u8>| #[trigger] ids_le(ids_declaring(round, kb2), ids_declaring(round, kb)) by {
                    assert(ids_declaring(round, kb) == ids_at(round, lists@[best as int]@));
                    if exists|k: int| 0 <= k < keys@.len() && #[trigger] keys@[k].0@ == kb2 {
                        let k = choose|k: int| 0 <= k < keys@.len() && #[trigger] keys@[k].0@ == kb2;
                        assert(ids_declaring(round, kb2) == ids_at(round, lists@[k]@));
                    } else {
                        assert forall|i: int| 0 <= i < round.len() && round[i].status == TransactionStatus::NotExecuted implies !#[trigger] declares(
                            round[i],
                            kb2,
                        ) by {
                            if declares(round[i], kb2) {
                                let k = choose|k: int| 0 <= k < keys@.len() && #[trigger] keys@[k].0@ == kb2;
                            }
                        }
                        lemma_declarations_absent(round, kb2);
                        lemma_positions_declaring_len(round, kb2);
                        assert(ids_declaring(round, kb2).len() == 0);
                    }
                }
                assert(lists@[best as int]@.len() > 0);
            }
            let chosen_list = &lists[best];
            let rlen = txs.len();
            let mut q: usize = 0;
            while q < chosen_list.len()
                invariant
                    rlen == round.len(),
                    num_workers == worker_ids@.len(),
                    r < num_workers,
                    next_worker == worker_ids@[r as int],
                    q <= chosen_list@.len(),
                    forall|q2: int| 0 <= q2 < chosen_list@.len() ==> #[trigger] chosen_list@[q2] < round.len() && round[chosen_list@[q2] as int].status
                        == TransactionStatus::NotExecuted,
                    txs.pool_items().len() == round.len(),
                    forall|i: int|
                        0 <= i < round.len() ==> #[trigger] txs.pool_items()[i] == (if chosen_list@.take(q as int).contains(i as usize) {
                            with_status(round[i], TransactionStatus::Done(next_worker))
                        } else {
                            round[i]
                        }),
                decreases chosen_list@.len() - q,
            {
                let p = chosen_list[q];
                let ghost prev = txs.pool_items();
                let tx = txs.get_at_mut(p);
                tx.status = TransactionStatus::Done(next_worker);
                proof {
                    assert(txs.pool_items() == prev.update(p as int, with_status(round[p as int], TransactionStatus::Done(next_worker))));
                    assert(chosen_list@.take(q + 1) =~= chosen_list@.take(q as int).push(p));
                    assert forall|i: int|
                        0 <= i < round.len() implies #[trigger] txs.pool_items()[i] == (if chosen_list@.take(q + 1).contains(i as usize) {
                            with_status(round[i], TransactionStatus::Done(next_worker))
                        } else {
                            round[i]
                        }) by {
                        crate::components::lemma_push_contains(chosen_list@.take(q as int), p, i as usize);
                        assert(prev[i] == (if chosen_list@.take(q as int).contains(i as usize) {
                            with_status(round[i], TransactionStatus::Done(next_worker))
                        } else {
                            round[i]
                        }));
                        if i != p as int {
                            assert(txs.pool_items()[i] == prev[i]);
                            assert(i as usize != p);
                            assert(chosen_list@.take(q + 1).contains(i as usize) == chosen_list@.take(q as int).contains(i as usize));
                        } else {
                            assert(i as usize == p);
                            assert(chosen_list@.take(q + 1).contains(i as usize));
                            assert(txs.pool_items()[i] == with_status(round[i], TransactionStatus::Done(next_worker)));
                        }
                    }
                }
                q = q + 1;
            }
            proof {
                assert(chosen_list@.take(chosen_list@.len() as int) =~= chosen_list@);
                assert(txs.pool_items() =~= round_to(round, kb, next_worker)) by {
                    assert forall|i: int| 0 <= i < round.len() implies txs.pool_items()[i] == round_to(round, kb, next_worker)[i] by {
                        assert(lists@[best as int]@.contains(i as usize) <==> (round[i].status == TransactionStatus::NotExecuted
                            && declares(round[i], kb)));
                    }
                }
                let new_chosen = chosen.push(kb);
                assert forall|ks: Seq<Seq<u8>>|
                    ks.len() >= r + 1 && ks.take(r + 1) == new_chosen implies #[trigger] storage_rounds(before, worker_ids@, 0, ks) == storage_rounds(
                        txs.pool_items(),
                        worker_ids@,
                        r + 1,
                        ks,
                    ) by {
                    assert(ks.take(r as int) =~= ks.take(r + 1).take(r as int));
                    assert(new_chosen.take(r as int) =~= chosen);
                    assert(ks[r as int] == ks.take(r + 1)[r as int]);
                    assert(any_declared(round)) by {
                        let k = 0int;
                        assert(lists@[best as int]@.len() > 0);
                        let i = lists@[best as int]@[0] as int;
                        assert(lists@[best as int]@.contains(i as usize));
                        assert(declares(round[i], kb));
                    }
                    assert(most_declared(round, ks[r as int]));
                }
                chosen = new_chosen;
                assert(worker_ids@.contains(next_worker));
                assert forall|i: int| 0 <= i < before.len() implies {
                    ||| #[trigger] txs.pool_items()[i] == before[i]
                    ||| before[i].status == TransactionStatus::NotExecuted && exists|w: ThreadId|
                        worker_ids@.contains(w) && txs.pool_items()[i] == with_status(before[i], TransactionStatus::Done(w))
                } by {
                    if txs.pool_items()[i] != round[i] {
                        assert(round[i].status == TransactionStatus::NotExecuted);
                        assert(round[i] == before[i]);
                    }
                }
            }
            r = r + 1;
        }
        // assign anything left to the last worker.
        let last_worker = worker_ids[num_workers - 1];
        let ghost round = txs.pool_items();
        let n = txs.len();
        let mut t: usize = 0;
        while t < n
            invariant
                num_workers == worker_ids@.len(),
                num_workers > 0,
                last_worker == worker_ids@[num_workers - 1],
                marked_among(worker_ids@, before, round),
                n == round.len(),
                t <= n,
                txs.pool_items().len() == n,
                forall|i: int|
                    0 <= i < t ==> #[trigger] txs.pool_items()[i] == (if round[i].status == TransactionStatus::NotExecuted {
                        with_status(round[i], TransactionStatus::Done(last_worker))
                    } else {
                        round[i]
                    }),
                forall|i: int| t <= i < n ==> #[trigger] txs.pool_items()[i] == round[i],
            decreases n - t,
        {
            let tx = txs.get_at_mut(t);
            if tx.status == TransactionStatus::NotExecuted {
                tx.status = TransactionStatus::Done(last_worker);
            }
            t = t + 1;
        }
        proof {
            assert(worker_ids@.contains(last_worker));
            assert forall|i: int| 0 <= i < before.len() implies {
                ||| #[trigger] txs.pool_items()[i] == before[i]
                ||| before[i].status == TransactionStatus::NotExecuted && exists|w: ThreadId|
                    worker_ids@.contains(w) && txs.pool_items()[i] == with_status(before[i], TransactionStatus::Done(w))
            } by {
                if round[i].status == TransactionStatus::NotExecuted {
                    assert(round[i] == before[i]);
                }
            }
            assert(txs.pool_items() =~= rest_to(round, worker_ids@.last()));
            assert(chosen.take(r as int) =~= chosen);
            assert(storage_rounds(before, worker_ids@, 0, chosen) == Some(txs.pool_items()));
        }
    }
}

/// Every transaction is not yet executed and declares a key.
pub open spec fn all_fresh_declaring(txs: Seq<Transaction>) -> bool {
    forall|i: int|
        0 <= i < txs.len() ==> (#[trigger] txs[i]).status == TransactionStatus::NotExecuted && exists|kb: Seq<u8>|
            declares(txs[i], kb)
}

/// The transaction is marked `Done` by one of `workers`.
pub open spec fn done_among(workers: Seq<ThreadId>, tx: Transaction) -> bool {
    exists|w: ThreadId| workers.contains(w) && tx.status == TransactionStatus::Done(w)
}

/// Every transaction is marked `Done` by one of `workers`.
pub open spec fn all_done_among(workers: Seq<ThreadId>, txs: Seq<Transaction>) -> bool {
    forall|i: int| 0 <= i < txs.len() ==> #[trigger] done_among(workers, txs[i])
}

/// The rounds of the storage aware distribution leave the transactions that are already
/// assigned as they are.
proof fn lemma_rounds_keep_assigned(txs: Seq<Transaction>, workers: Seq<ThreadId>, r: int, keys: Seq<Seq<u8>>)
    requires
        storage_rounds(txs, workers, r, keys) is Some,
    ensures
        storage_rounds(txs, workers, r, keys).unwrap().len() == txs.len(),
        forall|i: int|
            0 <= i < txs.len() && txs[i].status != TransactionStatus::NotExecuted ==> #[trigger] storage_rounds(
                txs,
                workers,
                r,
                keys,
            ).unwrap()[i] == txs[i],
    decreases workers.len() - r,
{
    if r >= workers.len() - 1 {
    } else if !any_declared(txs) {
    } else {
        let next = round_to(txs, keys[r], workers[r]);
        lemma_rounds_keep_assigned(next, workers, r + 1, keys);
        assert forall|i: int| 0 <= i < txs.len() && txs[i].status != TransactionStatus::NotExecuted implies #[trigger] storage_rounds(
            txs,
            workers,
            r,
            keys,
        ).unwrap()[i] == txs[i] by {
            assert(next[i] == txs[i]);
            assert(storage_rounds(next, workers, r + 1, keys).unwrap()[i] == next[i]);
        }
    }
}

impl Distributer for SimpleStorageAwareDistributer {
    /// There is a worker to assign to, and the ids of the transactions are distinct, as they
    /// must be to find each transaction again by its id.
    open spec fn can_distribute(workers: Seq<ThreadId>, txs: Seq<Transaction>) -> bool {
        workers.len() > 0 && ids_unique(txs)
    }

    fn accepts(worker_ids: &[ThreadId], txs: &VecPool<Transaction>) -> (b: bool) {
        worker_ids.len() > 0 && has_unique_ids(txs.as_vec())
    }

    /// The transactions go to the workers round by round, by the keys they declare: see
    /// `storage_rounds`. Only statuses change, to `Done` by one of the workers. Where every
    /// transaction is not yet executed and declares a key, every one ends `Done`; and where there
    /// is more than one worker and some transaction left declares a key, the first worker gets
    /// all the transactions left that declare a key declared most often.
    fn distribute(runtime: &SequentialRuntime, worker_ids: &[ThreadId], txs: &mut VecPool<Transaction>)
        ensures
            exists|keys: Seq<Seq<u8>>|
                #[trigger] storage_rounds(old(txs).pool_items(), worker_ids@, 0, keys) == Some(final(txs).pool_items()),
            marked_among(worker_ids@, old(txs).pool_items(), final(txs).pool_items()),
            all_fresh_declaring(old(txs).pool_items()) ==> all_done_among(worker_ids@, final(txs).pool_items()),
            worker_ids@.len() > 1 && any_declared(old(txs).pool_items()) ==> exists|kb: Seq<u8>|
                {
                    &&& #[trigger] most_declared(old(txs).pool_items(), kb)
                    &&& forall|i: int|
                        0 <= i < old(txs).pool_items().len() && old(txs).pool_items()[i].status
                            == TransactionStatus::NotExecuted && #[trigger] declares(old(txs).pool_items()[i], kb)
                            ==> final(txs).pool_items()[i].status == TransactionStatus::Done(worker_ids@[0])
                },
    {
        Self::assign(runtime, worker_ids, txs);
        proof {
            let before = old(txs).pool_items();
            let after = txs.pool_items();
            if all_fresh_declaring(before) {
                assert forall|i: int| 0 <= i < after.len() implies #[trigger] done_among(worker_ids@, after[i]) by {
                    assert(before[i].status == TransactionStatus::NotExecuted);
                    let kb = choose|kb: Seq<u8>| declares(before[i], kb);
                    if after[i] == before[i] {
                        assert(after[i].status == TransactionStatus::NotExecuted);
                        assert(!declares(before[i], kb));
                    } else {
                        let w = choose|w: ThreadId|
                            worker_ids@.contains(w) && after[i] == with_status(before[i], TransactionStatus::Done(w));
                        assert(after[i].status == TransactionStatus::Done(w));
                    }
                }
                assert(all_done_among(worker_ids@, after));
            }
            if worker_ids@.len() > 1 && any_declared(before) {
                let keys = choose|keys: Seq<Seq<u8>>| #[trigger] storage_rounds(before, worker_ids@, 0, keys) == Some(after);
                let kb = keys[0];
                assert(most_declared(before, kb));
                let next = round_to(before, kb, worker_ids@[0]);
                assert(storage_rounds(next, worker_ids@, 1, keys) == Some(after));
                lemma_rounds_keep_assigned(next, worker_ids@, 1, keys);
                assert forall|i: int|
                    0 <= i < before.len() && before[i].status == TransactionStatus::NotExecuted && #[trigger] declares(
                        before[i],
                        kb,
                    ) implies after[i].status == TransactionStatus::Done(worker_ids@[0]) by {
                    assert(next[i] == with_status(before[i], TransactionStatus::Done(worker_ids@[0])));
                    assert(storage_rounds(next, worker_ids@, 1, keys).unwrap()[i] == next[i]);
                }
            }
        }
    }
}

/// A round of the storage aware distribution does not depend on which key it takes among
/// those declared most often: where the transactions have distinct ids, such keys are declared
/// by the same transactions.
pub proof fn law_storage_round_determined(txs: Seq<Transaction>, kb1: Seq<u8>, kb2: Seq<u8>, w: ThreadId)
    requires
        txs.len() <= usize::MAX,
        ids_unique(txs),
        most_declared(txs, kb1),
        most_declared(txs, kb2),
    ensures
        round_to(txs, kb1, w) == round_to(txs, kb2, w),
{
    let ids1 = ids_declaring(txs, kb1);
    let ids2 = ids_declaring(txs, kb2);
    assert(ids_le(ids_declaring(txs, kb2), ids_declaring(txs, kb1)));
    assert(ids_le(ids_declaring(txs, kb1), ids_declaring(txs, kb2)));
    lemma_ids_le_antisymmetric(ids1, ids2);
    let p1 = positions_declaring(txs, kb1);
    let p2 = positions_declaring(txs, kb2);
    assert forall|i: int| 0 <= i < txs.len() && txs[i].status == TransactionStatus::NotExecuted implies (declares(txs[i], kb1)
        <==> declares(txs[i], kb2)) by {
        lemma_positions_declaring_contains(txs, kb1, i);
        lemma_positions_declaring_contains(txs, kb2, i);
        if declares(txs[i], kb1) {
            let q = choose|q: int| 0 <= q < p1.len() && p1[q] == i as usize;
            assert(ids1[q] == txs[i].id);
            assert(ids2[q] == txs[p2[q] as int].id);
            assert(p2[q] < txs.len());
            assert(p2[q] as int == i);
            assert(p2.contains(i as usize));
        }
        if declares(txs[i], kb2) {
            let q = choose|q: int| 0 <= q < p2.len() && p2[q] == i as usize;
            assert(ids2[q] == txs[i].id);
            assert(ids1[q] == txs[p1[q] as int].id);
            assert(p1[q] < txs.len());
            assert(p1[q] as int == i);
            assert(p1.contains(i as usize));
        }
    }
    assert(round_to(txs, kb1, w) =~= round_to(txs, kb2, w));
}

} // verus!
