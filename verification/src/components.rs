//! The connected components of transactions, where two transactions are connected when they
//! declare a common storage key.

use vstd::prelude::*;
use crate::outer_call::outer_keys;
use crate::primitives::{bytes_equal, copy_bytes, Key, StateKey};
use crate::runtime::{key_models, SequentialRuntime};
use crate::types::Transaction;

verus! {

/// Transaction `tx` declares the storage key `k`.
pub open spec fn declares(tx: Transaction, k: Seq<u8>) -> bool {
    outer_keys::<SequentialRuntime>(&tx.function, tx.signature.0.0@).contains(k)
}

/// Every position in the lists `adj` is below `bound`.
pub open spec fn adj_bounded(adj: Seq<Vec<usize>>, bound: int) -> bool {
    forall|i: int, p: int| 0 <= i < adj.len() && 0 <= p < adj[i]@.len() ==> #[trigger] adj[i]@[p] < bound
}

/// The adjacency lists `tk` (from transactions) and `kt` (from keys) agree.
pub open spec fn adj_symmetric(tk: Seq<Vec<usize>>, kt: Seq<Vec<usize>>) -> bool {
    forall|i: int, k: int|
        0 <= i < tk.len() && 0 <= k < kt.len() ==> (#[trigger] tk[i]@.contains(k as usize) <==> #[trigger] kt[k]@.contains(
            i as usize,
        ))
}

/// Positions are in range, and the two adjacency lists agree.
pub open spec fn graph_wf(tk: Seq<Vec<usize>>, kt: Seq<Vec<usize>>) -> bool {
    adj_bounded(tk, kt.len() as int) && adj_bounded(kt, tk.len() as int) && adj_symmetric(tk, kt)
}

proof fn lemma_bounded_not_contains(adj: Seq<Vec<usize>>, bound: int, i: int, x: usize)
    requires
        adj_bounded(adj, bound),
        0 <= i < adj.len(),
        x >= bound,
    ensures
        !adj[i]@.contains(x),
{
    if adj[i]@.contains(x) {
        let q = choose|q: int| 0 <= q < adj[i]@.len() && adj[i]@[q] == x;
        assert(adj[i]@[q] < bound);
    }
}

/// A bipartite graph between transactions and keys: for each transaction the positions of the
/// keys it declares, and for each key the positions of the transactions that declare it.
pub struct TxKeyGraph {
    pub tx_keys: Vec<Vec<usize>>,
    pub key_txs: Vec<Vec<usize>>,
}

impl TxKeyGraph {
    pub open spec fn num_txs(&self) -> int {
        self.tx_keys@.len() as int
    }

    pub open spec fn num_keys(&self) -> int {
        self.key_txs@.len() as int
    }

    /// Transaction `i` declares key `k`.
    pub open spec fn edge(&self, i: int, k: int) -> bool {
        self.tx_keys@[i]@.contains(k as usize)
    }

    pub open spec fn wf(&self) -> bool {
        graph_wf(self.tx_keys@, self.key_txs@)
    }

    /// The graph of `txs`, whose keys are `keys`: transaction `i` has an edge to key `k`
    /// exactly where it declares `keys[k]`, and every declared key is one of `keys`.
    pub open spec fn of(&self, txs: Seq<Transaction>, keys: Seq<Seq<u8>>) -> bool {
        &&& self.wf()
        &&& self.num_txs() == txs.len()
        &&& self.num_keys() == keys.len()
        &&& forall|i: int, k: int|
            0 <= i < txs.len() && 0 <= k < keys.len() ==> (#[trigger] self.edge(i, k) <==> declares(
                txs[i],
                keys[k],
            ))
        &&& forall|i: int, kb: Seq<u8>| 0 <= i < txs.len() && #[trigger] declares(txs[i], kb) ==> keys.contains(kb)
    }
}

pub proof fn lemma_push_contains<A>(s: Seq<A>, x: A, y: A)
    ensures
        s.push(x).contains(y) <==> (s.contains(y) || x == y),
{
    if s.contains(y) {
        let q = choose|q: int| 0 <= q < s.len() && s[q] == y;
        assert(s.push(x)[q] == y);
    }
    if x == y {
        assert(s.push(x)[s.len() as int] == y);
    }
    if s.push(x).contains(y) {
        let q = choose|q: int| 0 <= q < s.push(x).len() && s.push(x)[q] == y;
        if q < s.len() {
            assert(s[q] == y);
        }
    }
}

/// The position of `key` in `keys`, if it is there.
pub(crate) fn position_of_key(keys: &Vec<Key>, key: &Key) -> (r: Option<usize>)
    ensures
        match r {
            Some(k) => k < keys@.len() && keys@[k as int].0@ == key.0@,
            None => forall|k: int| 0 <= k < keys@.len() ==> keys@[k].0@ != key.0@,
        },
{
    let mut k: usize = 0;
    while k < keys.len()
        invariant
            k <= keys@.len(),
            forall|j: int| 0 <= j < k ==> keys@[j].0@ != key.0@,
        decreases keys@.len() - k,
    {
        if bytes_equal(&keys[k].0, &key.0) {
            return Some(k);
        }
        k = k + 1;
    }
    None
}

/// The graph of the transactions and the keys they declare to `runtime`.
pub fn build_graph(runtime: &SequentialRuntime, txs: &Vec<Transaction>) -> (r: (TxKeyGraph, Ghost<Seq<Seq<u8>>>))
    ensures
        r.0.of(txs@, r.1@),
{
    let n = txs.len();
    let mut keys: Vec<Key> = Vec::new();
    let mut tx_keys: Vec<Vec<usize>> = Vec::new();
    let mut key_txs: Vec<Vec<usize>> = Vec::new();
    let mut i: usize = 0;
    while i < n
        invariant
            n == txs@.len(),
            i <= n,
            tx_keys@.len() == i,
            key_txs@.len() == keys@.len(),
            graph_wf(tx_keys@, key_txs@),
            forall|a: int, k: int|
                #![trigger tx_keys@[a]@.contains(k as usize)]
                #![trigger declares(txs@[a], keys@[k].0@)]
                0 <= a < i && 0 <= k < keys@.len() ==> (tx_keys@[a]@.contains(k as usize) <==> declares(
                    txs@[a],
                    keys@[k].0@,
                )),
            forall|a: int, kb: Seq<u8>|
                0 <= a < i && #[trigger] declares(txs@[a], kb) ==> key_models(keys@).contains(kb),
            forall|k1: int, k2: int|
                0 <= k1 < keys@.len() && 0 <= k2 < keys@.len() && k1 != k2 ==> #[trigger] keys@[k1].0@ != #[trigger] keys@[k2].0@,
        decreases n - i,
    {
        let tx = &txs[i];
        let declared = runtime.validate(&tx.function, tx.signature.0);
        let ghost dm = key_models(declared@);
        proof {
            let g = TxKeyGraph { tx_keys, key_txs };
            assert forall|k: int| 0 <= k < keys@.len() implies !key_txs@[k]@.contains(i) by {
                if key_txs@[k]@.contains(i) {
                    let q = choose|q: int| 0 <= q < key_txs@[k]@.len() && key_txs@[k]@[q] == i;
                    assert(g.key_txs@[k]@[q] < g.num_txs());
                }
            }
        }
        let ghost before_push = tx_keys@;
        tx_keys.push(Vec::new());
        proof {
            assert(dm.take(0) =~= Seq::<Seq<u8>>::empty());
            assert(tx_keys@[i as int]@ =~= Seq::<usize>::empty());
            assert forall|a: int| 0 <= a < i implies tx_keys@[a] == before_push[a] by {}
        }
        let mut p: usize = 0;
        while p < declared.len()
            invariant
                n == txs@.len(),
                i < n,
                tx_keys@.len() == i + 1,
                key_txs@.len() == keys@.len(),
                p <= declared@.len(),
                dm == key_models(declared@),
                dm == outer_keys::<SequentialRuntime>(&txs@[i as int].function, txs@[i as int].signature.0.0@),
                graph_wf(tx_keys@, key_txs@),
                forall|a: int, k: int|
                    #![trigger tx_keys@[a]@.contains(k as usize)]
                    #![trigger declares(txs@[a], keys@[k].0@)]
                    0 <= a < i && 0 <= k < keys@.len() ==> (tx_keys@[a]@.contains(k as usize) <==> declares(
                        txs@[a],
                        keys@[k].0@,
                    )),
                forall|a: int, kb: Seq<u8>|
                    0 <= a < i && #[trigger] declares(txs@[a], kb) ==> key_models(keys@).contains(kb),
                forall|k: int|
                    #![trigger tx_keys@[i as int]@.contains(k as usize)]
                    #![trigger keys@[k]]
                    0 <= k < keys@.len() ==> (tx_keys@[i as int]@.contains(k as usize) <==> dm.take(
                        p as int,
                    ).contains(keys@[k].0@)),
                forall|kb: Seq<u8>| #[trigger] dm.take(p as int).contains(kb) ==> key_models(keys@).contains(kb),
                forall|k1: int, k2: int|
                    0 <= k1 < keys@.len() && 0 <= k2 < keys@.len() && k1 != k2 ==> #[trigger] keys@[k1].0@ != #[trigger] keys@[k2].0@,
            decreases declared@.len() - p,
        {
            let key = &declared[p];
            let ghost old_keys = keys@;
            let ghost old_tx_keys = tx_keys@;
            let ghost old_key_txs = key_txs@;
            let k = match position_of_key(&keys, key) {
                Some(k) => k,
                None => {
                    keys.push(StateKey(copy_bytes(&key.0)));
                    key_txs.push(Vec::new());
                    keys.len() - 1
                },
            };
            proof {
                assert(tx_keys@ == old_tx_keys);
                if keys@.len() > old_keys.len() {
                    assert(keys@ == old_keys.push(keys@[k as int]));
                    assert(key_txs@.len() == old_key_txs.len() + 1);
                    assert(key_txs@[k as int]@ =~= Seq::<usize>::empty());
                    assert forall|b: int| 0 <= b < old_keys.len() implies key_txs@[b] == old_key_txs[b] by {}
                    assert forall|a: int, b: int|
                        0 <= a < tx_keys@.len() && 0 <= b < key_txs@.len() implies (#[trigger] tx_keys@[a]@.contains(
                            b as usize,
                        ) <==> #[trigger] key_txs@[b]@.contains(a as usize)) by {
                        if b == k {
                            lemma_bounded_not_contains(old_tx_keys, old_keys.len() as int, a, k);
                        }
                    }
                    assert forall|a: int, q: int| 0 <= a < key_txs@.len() && 0 <= q < key_txs@[a]@.len() implies #[trigger] key_txs@[a]@[q]
                        < tx_keys@.len() by {
                        assert(key_txs@[a] == old_key_txs[a]);
                    }
                } else {
                    assert(keys@ == old_keys);
                    assert(key_txs@ == old_key_txs);
                }
                assert(graph_wf(tx_keys@, key_txs@));
                assert(keys@[k as int].0@ == key.0@);
                if keys@.len() > old_keys.len() {
                    assert(key_models(keys@) =~= key_models(old_keys).push(key.0@));
                    assert forall|kb: Seq<u8>| key_models(old_keys).contains(kb) implies #[trigger] key_models(keys@).contains(kb) by {
                        lemma_push_contains(key_models(old_keys), key.0@, kb);
                    }
                } else {
                    assert(key_models(keys@) == key_models(old_keys));
                }
                assert(key_models(keys@)[k as int] == key.0@);
                assert(key_models(keys@).contains(key.0@));
                assert forall|kb: Seq<u8>| #[trigger] dm.take(p + 1).contains(kb) implies key_models(keys@).contains(kb) by {
                    assert(dm.take(p + 1) =~= dm.take(p as int).push(key.0@));
                    lemma_push_contains(dm.take(p as int), key.0@, kb);
                    if kb != key.0@ {
                        assert(key_models(old_keys).contains(kb));
                    }
                }
            }
            let ghost mid_tx_keys = tx_keys@;
            let ghost mid_key_txs = key_txs@;
            tx_keys[i].push(k);
            key_txs[k].push(i);
            proof {
                assert(dm.take(p + 1) =~= dm.take(p as int).push(key.0@));
                assert(key_models(keys@)[k as int] == key.0@);
                assert(tx_keys@[i as int]@ == mid_tx_keys[i as int]@.push(k));
                assert(key_txs@[k as int]@ == mid_key_txs[k as int]@.push(i));
                assert forall|a: int| 0 <= a < tx_keys@.len() && a != i implies tx_keys@[a] == mid_tx_keys[a] by {}
                assert forall|b: int| 0 <= b < key_txs@.len() && b != k implies key_txs@[b] == mid_key_txs[b] by {}
                assert forall|a: int, b: int|
                    0 <= a < tx_keys@.len() && 0 <= b < key_txs@.len() implies (#[trigger] tx_keys@[a]@.contains(b as usize)
                        <==> #[trigger] key_txs@[b]@.contains(a as usize)) by {
                    assert(mid_tx_keys[a]@.contains(b as usize) <==> mid_key_txs[b]@.contains(a as usize));
                    if a == i && b == k {
                        lemma_push_contains(mid_tx_keys[a]@, k, b as usize);
                        lemma_push_contains(mid_key_txs[b]@, i, a as usize);
                        assert(tx_keys@[a]@ == mid_tx_keys[a]@.push(k));
                        assert(key_txs@[b]@ == mid_key_txs[b]@.push(i));
                    } else if a == i {
                        assert(key_txs@.len() == key_txs.len());
                        assert(b as usize != k);
                        lemma_push_contains(mid_tx_keys[a]@, k, b as usize);
                        assert(tx_keys@[a]@ == mid_tx_keys[a]@.push(k));
                        assert(key_txs@[b] == mid_key_txs[b]);
                        assert(tx_keys@[a]@.contains(b as usize) <==> mid_tx_keys[a]@.contains(b as usize));
                    } else if b == k {
                        assert(tx_keys@.len() == tx_keys.len());
                        assert(a as usize != i);
                        lemma_push_contains(mid_key_txs[b]@, i, a as usize);
                        assert(key_txs@[b]@ == mid_key_txs[b]@.push(i));
                        assert(tx_keys@[a] == mid_tx_keys[a]);
                        assert(key_txs@[b]@.contains(a as usize) <==> mid_key_txs[b]@.contains(a as usize));
                    } else {
                        assert(tx_keys@[a] == mid_tx_keys[a]);
                        assert(key_txs@[b] == mid_key_txs[b]);
                    }
                }
                assert forall|a: int, q: int| 0 <= a < tx_keys@.len() && 0 <= q < tx_keys@[a]@.len() implies #[trigger] tx_keys@[a]@[q]
                    < key_txs@.len() by {
                    if a == i && q == tx_keys@[a]@.len() - 1 {
                    } else {
                        assert(tx_keys@[a]@[q] == mid_tx_keys[a]@[q]);
                    }
                }
                assert forall|a: int, q: int| 0 <= a < key_txs@.len() && 0 <= q < key_txs@[a]@.len() implies #[trigger] key_txs@[a]@[q]
                    < tx_keys@.len() by {
                    if a == k && q == key_txs@[a]@.len() - 1 {
                    } else {
                        assert(key_txs@[a]@[q] == mid_key_txs[a]@[q]);
                    }
                }
                assert forall|k2: int| 0 <= k2 < keys@.len() implies (tx_keys@[i as int]@.contains(k2 as usize)
                    <==> dm.take(p + 1).contains(#[trigger] keys@[k2].0@)) by {
                    lemma_push_contains(mid_tx_keys[i as int]@, k, k2 as usize);
                    lemma_push_contains(dm.take(p as int), key.0@, keys@[k2].0@);
                    if k2 != k {
                        assert(keys@.len() == keys.len());
                        assert(k2 as usize != k);
                    }
                    if k2 < old_keys.len() {
                        assert(keys@[k2] == old_keys[k2]);
                        assert(mid_tx_keys[i as int]@.contains(k2 as usize) <==> dm.take(p as int).contains(old_keys[k2].0@));
                        if k2 != k {
                            assert(keys@[k2].0@ != keys@[k as int].0@);
                        }
                    } else {
                        lemma_bounded_not_contains(old_tx_keys, old_keys.len() as int, i as int, k2 as usize);
                    }
                }
            }
            p = p + 1;
        }
        proof {
            assert(dm.take(declared@.len() as int) =~= dm);
        }
        i = i + 1;
    }
    (TxKeyGraph { tx_keys, key_txs }, Ghost(key_models(keys@)))
}

/// The number of unlabeled entries.
pub open spec fn count_none(s: Seq<Option<u32>>) -> nat
    decreases s.len(),
{
    if s.len() == 0 {
        0
    } else {
        count_none(s.drop_last()) + if s.last() is None {
            1nat
        } else {
            0nat
        }
    }
}

proof fn lemma_count_none_update(s: Seq<Option<u32>>, j: int, x: u32)
    requires
        0 <= j < s.len(),
        s[j] is None,
    ensures
        count_none(s.update(j, Some(x))) + 1 == count_none(s),
    decreases s.len(),
{
    let t = s.update(j, Some(x));
    if j == s.len() - 1 {
        assert(t.drop_last() =~= s.drop_last());
    } else {
        lemma_count_none_update(s.drop_last(), j, x);
        assert(t.drop_last() =~= s.drop_last().update(j, Some(x)));
    }
}

/// A node of the graph: a transaction (`true`) or a key (`false`), by position.
pub type Node = (bool, usize);

/// The label of a node.
pub open spec fn label_of(lt: Seq<Option<u32>>, lk: Seq<Option<u32>>, v: Node) -> Option<u32> {
    if v.0 {
        lt[v.1 as int]
    } else {
        lk[v.1 as int]
    }
}

/// The neighbours of a node.
pub open spec fn adjacent(tk: Seq<Vec<usize>>, kt: Seq<Vec<usize>>, v: Node) -> Seq<usize> {
    if v.0 {
        tk[v.1 as int]@
    } else {
        kt[v.1 as int]@
    }
}

/// A node is in range.
pub open spec fn node_ok(tk: Seq<Vec<usize>>, kt: Seq<Vec<usize>>, v: Node) -> bool {
    if v.0 {
        v.1 < tk.len()
    } else {
        v.1 < kt.len()
    }
}

/// Nodes `a` and `b` are joined by an edge: one is a transaction that declares the other, a key.
pub open spec fn linked(tk: Seq<Vec<usize>>, kt: Seq<Vec<usize>>, a: Node, b: Node) -> bool {
    &&& a.0 != b.0
    &&& node_ok(tk, kt, a)
    &&& adjacent(tk, kt, a).contains(b.1)
}

/// The step from position `i` of `path` to the next one follows an edge.
pub open spec fn path_step(tk: Seq<Vec<usize>>, kt: Seq<Vec<usize>>, path: Seq<Node>, i: int) -> bool {
    linked(tk, kt, path[i], path[i + 1])
}

/// Node `b` is reached from node `a` along edges of the graph.
pub open spec fn reaches(tk: Seq<Vec<usize>>, kt: Seq<Vec<usize>>, a: Node, b: Node) -> bool {
    exists|path: Seq<Node>|
        {
            &&& path.len() > 0
            &&& path[0] == a
            &&& path.last() == b
            &&& forall|i: int| 0 <= i < path.len() - 1 ==> #[trigger] path_step(tk, kt, path, i)
        }
}

/// Every node reaches itself.
pub proof fn lemma_reaches_self(tk: Seq<Vec<usize>>, kt: Seq<Vec<usize>>, a: Node)
    ensures
        reaches(tk, kt, a, a),
{
    let path = seq![a];
    assert(path.last() == a);
    assert(forall|i: int| 0 <= i < path.len() - 1 ==> #[trigger] path_step(tk, kt, path, i));
}

/// What a node reaches, each of its neighbours' neighbours reaches too.
pub proof fn lemma_reaches_step(tk: Seq<Vec<usize>>, kt: Seq<Vec<usize>>, a: Node, b: Node, c: Node)
    requires
        reaches(tk, kt, a, b),
        linked(tk, kt, b, c),
    ensures
        reaches(tk, kt, a, c),
{
    let path = choose|path: Seq<Node>|
        {
            &&& path.len() > 0
            &&& path[0] == a
            &&& path.last() == b
            &&& forall|i: int| 0 <= i < path.len() - 1 ==> #[trigger] path_step(tk, kt, path, i)
        };
    let longer = path.push(c);
    assert(longer[0] == a);
    assert(longer.last() == c);
    assert forall|i: int| 0 <= i < longer.len() - 1 implies #[trigger] path_step(tk, kt, longer, i) by {
        if i < path.len() - 1 {
            assert(path_step(tk, kt, path, i));
            assert(longer[i] == path[i] && longer[i + 1] == path[i + 1]);
        } else {
            assert(longer[i] == b && longer[i + 1] == c);
        }
    }
}

/// The end of an edge lies in the graph.
proof fn lemma_linked_in_range(tk: Seq<Vec<usize>>, kt: Seq<Vec<usize>>, a: Node, b: Node)
    requires
        graph_wf(tk, kt),
        linked(tk, kt, a, b),
    ensures
        node_ok(tk, kt, b),
{
    let adj = adjacent(tk, kt, a);
    let q = choose|q: int| 0 <= q < adj.len() && adj[q] == b.1;
    if a.0 {
        assert(tk[a.1 as int]@[q] < kt.len());
    } else {
        assert(kt[a.1 as int]@[q] < tk.len());
    }
}

/// Edges go both ways.
proof fn lemma_linked_symmetric(tk: Seq<Vec<usize>>, kt: Seq<Vec<usize>>, a: Node, b: Node)
    requires
        graph_wf(tk, kt),
        linked(tk, kt, a, b),
    ensures
        linked(tk, kt, b, a),
{
    lemma_linked_in_range(tk, kt, a, b);
    if a.0 {
        assert(tk[a.1 as int]@.contains(b.1));
        assert(tk[a.1 as int]@.contains((b.1 as int) as usize));
        assert(kt[b.1 as int]@.contains((a.1 as int) as usize));
    } else {
        assert(kt[a.1 as int]@.contains((b.1 as int) as usize));
        assert(tk[b.1 as int]@.contains((a.1 as int) as usize));
    }
}

/// The two ends of an edge have the same label, where every edge joins nodes of the same label.
proof fn lemma_linked_same_label(
    tk: Seq<Vec<usize>>,
    kt: Seq<Vec<usize>>,
    lt: Seq<Option<u32>>,
    lk: Seq<Option<u32>>,
    a: Node,
    b: Node,
)
    requires
        graph_wf(tk, kt),
        closed(tk, lt, lk),
        lk.len() == kt.len(),
        linked(tk, kt, a, b),
    ensures
        label_of(lt, lk, a) == label_of(lt, lk, b),
{
    lemma_linked_in_range(tk, kt, a, b);
    if a.0 {
        assert(tk[a.1 as int]@.contains((b.1 as int) as usize));
    } else {
        assert(kt[a.1 as int]@.contains((b.1 as int) as usize));
        assert(tk[b.1 as int]@.contains((a.1 as int) as usize));
    }
}

/// Along a path all nodes have the same label, where every edge joins nodes of the same label.
proof fn lemma_path_same_label(
    tk: Seq<Vec<usize>>,
    kt: Seq<Vec<usize>>,
    lt: Seq<Option<u32>>,
    lk: Seq<Option<u32>>,
    path: Seq<Node>,
)
    requires
        graph_wf(tk, kt),
        closed(tk, lt, lk),
        lk.len() == kt.len(),
        path.len() > 0,
        forall|i: int| 0 <= i < path.len() - 1 ==> #[trigger] path_step(tk, kt, path, i),
    ensures
        label_of(lt, lk, path.last()) == label_of(lt, lk, path[0]),
    decreases path.len(),
{
    if path.len() > 1 {
        let shorter = path.drop_last();
        assert forall|i: int| 0 <= i < shorter.len() - 1 implies #[trigger] path_step(tk, kt, shorter, i) by {
            assert(path_step(tk, kt, path, i));
        }
        lemma_path_same_label(tk, kt, lt, lk, shorter);
        assert(path_step(tk, kt, path, path.len() - 2));
        lemma_linked_same_label(tk, kt, lt, lk, path[path.len() - 2], path.last());
    }
}

/// What one node reaches reaches it back.
proof fn lemma_reaches_back(tk: Seq<Vec<usize>>, kt: Seq<Vec<usize>>, a: Node, b: Node)
    requires
        graph_wf(tk, kt),
        reaches(tk, kt, a, b),
    ensures
        reaches(tk, kt, b, a),
{
    let path = choose|path: Seq<Node>|
        {
            &&& path.len() > 0
            &&& path[0] == a
            &&& path.last() == b
            &&& forall|i: int| 0 <= i < path.len() - 1 ==> #[trigger] path_step(tk, kt, path, i)
        };
    let n = path.len() as int;
    let back = Seq::new(path.len(), |i: int| path[n - 1 - i]);
    assert(back[0] == b);
    assert(back.last() == a);
    assert forall|i: int| 0 <= i < back.len() - 1 implies #[trigger] path_step(tk, kt, back, i) by {
        assert(path_step(tk, kt, path, n - 2 - i));
        assert(back[i] == path[n - 1 - i] && back[i + 1] == path[n - 2 - i]);
        lemma_linked_symmetric(tk, kt, path[n - 2 - i], path[n - 1 - i]);
    }
}

/// Reaching is transitive.
proof fn lemma_reaches_trans(tk: Seq<Vec<usize>>, kt: Seq<Vec<usize>>, a: Node, b: Node, c: Node)
    requires
        reaches(tk, kt, a, b),
        reaches(tk, kt, b, c),
    ensures
        reaches(tk, kt, a, c),
{
    let p1 = choose|path: Seq<Node>|
        {
            &&& path.len() > 0
            &&& path[0] == a
            &&& path.last() == b
            &&& forall|i: int| 0 <= i < path.len() - 1 ==> #[trigger] path_step(tk, kt, path, i)
        };
    let p2 = choose|path: Seq<Node>|
        {
            &&& path.len() > 0
            &&& path[0] == b
            &&& path.last() == c
            &&& forall|i: int| 0 <= i < path.len() - 1 ==> #[trigger] path_step(tk, kt, path, i)
        };
    let n1 = p1.len() as int;
    let path = p1 + p2.subrange(1, p2.len() as int);
    assert(path[0] == a);
    if p2.len() == 1 {
        assert(path =~= p1);
    } else {
        assert(path.last() == p2.last());
    }
    assert forall|i: int| 0 <= i < path.len() - 1 implies #[trigger] path_step(tk, kt, path, i) by {
        if i < n1 - 1 {
            assert(path_step(tk, kt, p1, i));
            assert(path[i] == p1[i] && path[i + 1] == p1[i + 1]);
        } else {
            let j = i - n1 + 1;
            assert(path_step(tk, kt, p2, j));
            assert(path[i + 1] == p2[j + 1]);
            if i == n1 - 1 {
                assert(path[i] == p1.last());
            } else {
                assert(path[i] == p2[j]);
            }
        }
    }
}

/// Every node labelled `id` is reached from `start`.
pub open spec fn reached_from(
    tk: Seq<Vec<usize>>,
    kt: Seq<Vec<usize>>,
    lt: Seq<Option<u32>>,
    lk: Seq<Option<u32>>,
    start: Node,
    id: u32,
) -> bool {
    &&& forall|t: int| 0 <= t < lt.len() && #[trigger] lt[t] == Some(id) ==> reaches(tk, kt, start, (true, t as usize))
    &&& forall|k: int| 0 <= k < lk.len() && #[trigger] lk[k] == Some(id) ==> reaches(tk, kt, start, (false, k as usize))
}

/// Every edge joins two nodes with the same label.
pub open spec fn closed(tk: Seq<Vec<usize>>, lt: Seq<Option<u32>>, lk: Seq<Option<u32>>) -> bool {
    forall|i: int, k: int| 0 <= i < tk.len() && #[trigger] tk[i]@.contains(k as usize) && 0 <= k < lk.len() ==> lt[i] == lk[k]
}

/// During a traversal labelling with `id`: every edge joins two nodes with the same label,
/// except where one end is labelled `id` and waits in `queue`, or is `cur` and the other end
/// is not among the first `p` neighbours of `cur`, and the other end has no label.
pub open spec fn closed_but(
    tk: Seq<Vec<usize>>,
    kt: Seq<Vec<usize>>,
    lt: Seq<Option<u32>>,
    lk: Seq<Option<u32>>,
    id: u32,
    queue: Seq<Node>,
    cur: Option<Node>,
    p: int,
) -> bool {
    forall|i: int, k: int|
        0 <= i < tk.len() && #[trigger] tk[i]@.contains(k as usize) && 0 <= k < lk.len() ==> {
            ||| lt[i] == lk[k]
            ||| lt[i] == Some(id) && lk[k] is None && (queue.contains((true, i as usize)) || (cur == Some(
                (true, i as usize),
            ) && !tk[i]@.take(p).contains(k as usize)))
            ||| lk[k] == Some(id) && lt[i] is None && (queue.contains((false, k as usize)) || (cur == Some(
                (false, k as usize),
            ) && !kt[k]@.take(p).contains(i as usize)))
        }
}

/// Labels only go from none to `id`.
pub open spec fn labels_grow(before: Seq<Option<u32>>, after: Seq<Option<u32>>, id: u32) -> bool {
    &&& after.len() == before.len()
    &&& forall|i: int| 0 <= i < before.len() && (#[trigger] before[i]) is Some ==> after[i] == before[i]
    &&& forall|i: int| 0 <= i < before.len() && (#[trigger] before[i]) is None ==> (after[i] is None || after[i] == Some(id))
}

/// The state of a breadth-first traversal: the labels of the transactions and of the keys,
/// the nodes waiting to be visited, and the transactions reached so far, in order.
pub type BfsState = (Seq<Option<u32>>, Seq<Option<u32>>, Seq<Node>, Seq<usize>);

/// The state after the neighbours of `cur` from position `p` on are looked at, in the order
/// of its adjacency list: each that has no label yet gets `id`, joins the end of the queue
/// and, if it is a transaction, the end of the transactions reached.
pub open spec fn visit_from(tk: Seq<Vec<usize>>, kt: Seq<Vec<usize>>, id: u32, cur: Node, p: int, st: BfsState) -> BfsState
    decreases adjacent(tk, kt, cur).len() - p,
{
    if p < 0 || p >= adjacent(tk, kt, cur).len() {
        st
    } else {
        let w = adjacent(tk, kt, cur)[p];
        let wn: Node = (!cur.0, w);
        let next = if label_of(st.0, st.1, wn) is None {
            if wn.0 {
                (st.0.update(w as int, Some(id)), st.1, st.2.push(wn), st.3.push(w))
            } else {
                (st.0, st.1.update(w as int, Some(id)), st.2.push(wn), st.3)
            }
        } else {
            st
        };
        visit_from(tk, kt, id, cur, p + 1, next)
    }
}

/// Breadth-first search from the state `st`, for at most `fuel` visits: while nodes wait, the
/// first is taken out of the queue and its neighbours are looked at (see `visit_from`). The
/// transactions reached, in the order reached.
pub open spec fn bfs(tk: Seq<Vec<usize>>, kt: Seq<Vec<usize>>, id: u32, st: BfsState, fuel: nat) -> Seq<usize>
    decreases fuel,
{
    if st.2.len() == 0 || fuel == 0 {
        st.3
    } else {
        bfs(tk, kt, id, visit_from(tk, kt, id, st.2[0], 0, (st.0, st.1, st.2.drop_first(), st.3)), (fuel - 1) as nat)
    }
}

/// The transactions that a breadth-first search from `start`, which gets label `id`, reaches,
/// in the order in which it reaches them: `start` first where it is a transaction, then the
/// neighbours of each node visited, in the order of its adjacency list. Each visit labels at
/// least one node that had no label, or empties the queue by one, so the fuel (the unlabelled
/// nodes, and `start`) is enough for the search to end.
pub open spec fn bfs_order(
    tk: Seq<Vec<usize>>,
    kt: Seq<Vec<usize>>,
    lt: Seq<Option<u32>>,
    lk: Seq<Option<u32>>,
    start: Node,
    id: u32,
) -> Seq<usize> {
    let lt1 = if start.0 { lt.update(start.1 as int, Some(id)) } else { lt };
    let lk1 = if start.0 { lk } else { lk.update(start.1 as int, Some(id)) };
    let comp: Seq<usize> = if start.0 { seq![start.1] } else { Seq::empty() };
    bfs(tk, kt, id, (lt1, lk1, seq![start], comp), count_none(lt1) + count_none(lk1) + 1)
}

/// Label the connected component of `start` with `id`, if `start` has no label yet,
/// breadth first; the transactions of the component are returned, in the order in which they
/// were reached.
pub fn traverse(g: &TxKeyGraph, lt: &mut Vec<Option<u32>>, lk: &mut Vec<Option<u32>>, start: Node, id: u32) -> (component: Vec<usize>)
    requires
        g.wf(),
        old(lt)@.len() == g.num_txs(),
        old(lk)@.len() == g.num_keys(),
        node_ok(g.tx_keys@, g.key_txs@, start),
        closed(g.tx_keys@, old(lt)@, old(lk)@),
        forall|i: int| 0 <= i < old(lt)@.len() ==> #[trigger] old(lt)@[i] != Some(id),
        forall|k: int| 0 <= k < old(lk)@.len() ==> #[trigger] old(lk)@[k] != Some(id),
    ensures
        closed(g.tx_keys@, final(lt)@, final(lk)@),
        labels_grow(old(lt)@, final(lt)@, id),
        labels_grow(old(lk)@, final(lk)@, id),
        label_of(old(lt)@, old(lk)@, start) is None ==> label_of(final(lt)@, final(lk)@, start) == Some(id),
        label_of(old(lt)@, old(lk)@, start) is Some ==> final(lt)@ == old(lt)@ && final(lk)@ == old(lk)@,
        forall|t: int| 0 <= t < final(lt)@.len() ==> ((#[trigger] component@.contains(t as usize)) <==> final(lt)@[t] == Some(id)),
        forall|q: int| 0 <= q < component@.len() ==> #[trigger] component@[q] < final(lt)@.len(),
        label_of(old(lt)@, old(lk)@, start) is Some ==> component@.len() == 0,
        label_of(old(lt)@, old(lk)@, start) is None && start.0 ==> component@.len() > 0 && component@[0] == start.1,
        label_of(old(lt)@, old(lk)@, start) is None ==> component@ == bfs_order(
            g.tx_keys@,
            g.key_txs@,
            old(lt)@,
            old(lk)@,
            start,
            id,
        ),
        component@.no_duplicates(),
        reached_from(g.tx_keys@, g.key_txs@, final(lt)@, final(lk)@, start, id),
{
    let mut component: Vec<usize> = Vec::new();
    let started = if start.0 {
        lt[start.1].is_some()
    } else {
        lk[start.1].is_some()
    };
    if started {
        proof {
            assert forall|t: int| 0 <= t < lt@.len() implies ((#[trigger] component@.contains(t as usize)) <==> lt@[t] == Some(id)) by {
                assert(lt@[t] != Some(id));
            }
            assert forall|k: int| 0 <= k < lk@.len() implies #[trigger] lk@[k] != Some(id) by {
                assert(old(lk)@[k] != Some(id));
            }
        }
        return component;
    }
    let ghost lt0 = lt@;
    let ghost lk0 = lk@;
    if start.0 {
        proof {
            lemma_count_none_update(lt@, start.1 as int, id);
        }
        lt.set(start.1, Some(id));
        component.push(start.1);
    } else {
        proof {
            lemma_count_none_update(lk@, start.1 as int, id);
        }
        lk.set(start.1, Some(id));
    }
    let mut queue: Vec<Node> = Vec::new();
    queue.push(start);
    let ghost target = bfs_order(g.tx_keys@, g.key_txs@, lt0, lk0, start, id);
    proof {
        if start.0 {
            assert(component@ =~= seq![start.1]);
        } else {
            assert(component@ =~= Seq::<usize>::empty());
        }
        assert(queue@ =~= seq![start]);
    }
    proof {
        assert forall|i: int, k: int| 0 <= i < g.tx_keys@.len() && #[trigger] g.tx_keys@[i]@.contains(k as usize) && 0 <= k < lk@.len()
            implies {
            ||| lt@[i] == lk@[k]
            ||| lt@[i] == Some(id) && lk@[k] is None && (queue@.contains((true, i as usize)) || (None::<Node> == Some(
                (true, i as usize),
            ) && !g.tx_keys@[i]@.take(0).contains(k as usize)))
            ||| lk@[k] == Some(id) && lt@[i] is None && (queue@.contains((false, k as usize)) || (None::<Node> == Some(
                (false, k as usize),
            ) && !g.key_txs@[k]@.take(0).contains(i as usize)))
        } by {
            assert(lt0[i] == lk0[k]);
            if start.0 && i == start.1 {
                assert(queue@[0] == (true, i as usize));
            } else if !start.0 && k == start.1 {
                assert(queue@[0] == (false, k as usize));
            }
        }
        if start.0 {
            assert(component@ =~= seq![start.1]);
        } else {
            assert(component@ =~= Seq::<usize>::empty());
        }
        assert forall|t: int| 0 <= t < lt@.len() implies ((#[trigger] component@.contains(t as usize)) <==> lt@[t] == Some(id)) by {
            assert(lt0 == old(lt)@);
            assert(lt@.len() == lt.len());
            assert(old(lt)@[t] != Some(id));
            if start.0 && t == start.1 {
                assert(component@[0] == t as usize);
            } else {
                assert(lt@[t] == lt0[t]);
                if component@.contains(t as usize) {
                    let q = choose|q: int| 0 <= q < component@.len() && component@[q] == t as usize;
                    assert(component@[q] == start.1);
                    assert(start.0);
                    assert(t == start.1);
                }
            }
        }
        lemma_reaches_self(g.tx_keys@, g.key_txs@, start);
        assert forall|t: int| 0 <= t < lt@.len() && #[trigger] lt@[t] == Some(id) implies reaches(
            g.tx_keys@,
            g.key_txs@,
            start,
            (true, t as usize),
        ) by {
            assert(old(lt)@[t] != Some(id));
            if !(start.0 && t == start.1) {
                assert(lt@[t] == lt0[t]);
            }
        }
        assert forall|k: int| 0 <= k < lk@.len() && #[trigger] lk@[k] == Some(id) implies reaches(
            g.tx_keys@,
            g.key_txs@,
            start,
            (false, k as usize),
        ) by {
            assert(old(lk)@[k] != Some(id));
            if !(!start.0 && k == start.1) {
                assert(lk@[k] == lk0[k]);
            }
        }
    }
    while queue.len() > 0
        invariant
            g.wf(),
            lt@.len() == g.num_txs(),
            lk@.len() == g.num_keys(),
            labels_grow(lt0, lt@, id),
            labels_grow(lk0, lk@, id),
            label_of(lt@, lk@, start) == Some(id),
            node_ok(g.tx_keys@, g.key_txs@, start),
            reached_from(g.tx_keys@, g.key_txs@, lt@, lk@, start, id),
            component@.no_duplicates(),
            start.0 ==> component@.len() > 0 && component@[0] == start.1,
            target == bfs_order(g.tx_keys@, g.key_txs@, lt0, lk0, start, id),
            bfs(g.tx_keys@, g.key_txs@, id, (lt@, lk@, queue@, component@), count_none(lt@) + count_none(lk@) + queue@.len())
                == target,
            closed_but(g.tx_keys@, g.key_txs@, lt@, lk@, id, queue@, None, 0),
            forall|q: int| 0 <= q < queue@.len() ==> node_ok(g.tx_keys@, g.key_txs@, #[trigger] queue@[q]) && label_of(
                lt@,
                lk@,
                queue@[q],
            ) == Some(id),
            forall|t: int| 0 <= t < lt@.len() ==> ((#[trigger] component@.contains(t as usize)) <==> lt@[t] == Some(id)),
            forall|q: int| 0 <= q < component@.len() ==> #[trigger] component@[q] < lt@.len(),
        decreases count_none(lt@) + count_none(lk@), queue@.len(),
    {
        let ghost q0 = queue@;
        let cur = queue.remove(0);
        let ghost q1 = queue@;
        proof {
            assert(q0 =~= seq![cur] + q1);
            assert forall|x: Node| q0.contains(x) implies x == cur || #[trigger] q1.contains(x) by {
                let q = choose|q: int| 0 <= q < q0.len() && q0[q] == x;
                if q > 0 {
                    assert(q1[q - 1] == x);
                }
            }
            assert forall|i: int, k: int|
                0 <= i < g.tx_keys@.len() && #[trigger] g.tx_keys@[i]@.contains(k as usize) && 0 <= k < lk@.len() implies {
                ||| lt@[i] == lk@[k]
                ||| lt@[i] == Some(id) && lk@[k] is None && (queue@.contains((true, i as usize)) || (Some(cur) == Some(
                    (true, i as usize),
                ) && !g.tx_keys@[i]@.take(0).contains(k as usize)))
                ||| lk@[k] == Some(id) && lt@[i] is None && (queue@.contains((false, k as usize)) || (Some(cur) == Some(
                    (false, k as usize),
                ) && !g.key_txs@[k]@.take(0).contains(i as usize)))
            } by {
                assert(g.tx_keys@[i]@.take(0) =~= Seq::<usize>::empty());
                assert(g.key_txs@[k]@.take(0) =~= Seq::<usize>::empty());
                if q0.contains((true, i as usize)) && !q1.contains((true, i as usize)) {
                    assert((true, i as usize) == cur);
                }
                if q0.contains((false, k as usize)) && !q1.contains((false, k as usize)) {
                    assert((false, k as usize) == cur);
                }
            }
            assert(forall|q: int| 0 <= q < q1.len() ==> q1[q] == q0[q + 1]);
        }
        let ghost c1 = count_none(lt@) + count_none(lk@);
        let ghost after_cur = visit_from(g.tx_keys@, g.key_txs@, id, cur, 0, (lt@, lk@, queue@, component@));
        proof {
            assert(q0[0] == cur);
            assert(q0.drop_first() =~= q1);
            assert(bfs(g.tx_keys@, g.key_txs@, id, (lt@, lk@, q0, component@), c1 + q0.len()) == bfs(
                g.tx_keys@,
                g.key_txs@,
                id,
                after_cur,
                (c1 + q1.len()) as nat,
            ));
        }
        let nbrs_len = if cur.0 {
            g.tx_keys[cur.1].len()
        } else {
            g.key_txs[cur.1].len()
        };
        let mut p: usize = 0;
        while p < nbrs_len
            invariant
                g.wf(),
                lt@.len() == g.num_txs(),
                lk@.len() == g.num_keys(),
                labels_grow(lt0, lt@, id),
                labels_grow(lk0, lk@, id),
                label_of(lt@, lk@, start) == Some(id),
                node_ok(g.tx_keys@, g.key_txs@, start),
                node_ok(g.tx_keys@, g.key_txs@, cur),
                label_of(lt@, lk@, cur) == Some(id),
                reached_from(g.tx_keys@, g.key_txs@, lt@, lk@, start, id),
                component@.no_duplicates(),
                start.0 ==> component@.len() > 0 && component@[0] == start.1,
                bfs(g.tx_keys@, g.key_txs@, id, after_cur, (c1 + q1.len()) as nat) == target,
                visit_from(g.tx_keys@, g.key_txs@, id, cur, p as int, (lt@, lk@, queue@, component@)) == after_cur,
                nbrs_len == adjacent(g.tx_keys@, g.key_txs@, cur).len(),
                p <= nbrs_len,
                closed_but(g.tx_keys@, g.key_txs@, lt@, lk@, id, queue@, Some(cur), p as int),
                forall|q: int| 0 <= q < queue@.len() ==> node_ok(g.tx_keys@, g.key_txs@, #[trigger] queue@[q]) && label_of(
                    lt@,
                    lk@,
                    queue@[q],
                ) == Some(id),
                forall|t: int| 0 <= t < lt@.len() ==> ((#[trigger] component@.contains(t as usize)) <==> lt@[t] == Some(id)),
                forall|q: int| 0 <= q < component@.len() ==> #[trigger] component@[q] < lt@.len(),
                queue@.len() >= q1.len(),
                count_none(lt@) + count_none(lk@) + (queue@.len() - q1.len()) == c1,
            decreases nbrs_len - p,
        {
            let ghost lt_b = lt@;
            let ghost lk_b = lk@;
            let ghost queue_b = queue@;
            let ghost comp_b = component@;
            let w = if cur.0 {
                g.tx_keys[cur.1][p]
            } else {
                g.key_txs[cur.1][p]
            };
            proof {
                assert(adjacent(g.tx_keys@, g.key_txs@, cur)[p as int] == w);
                assert(lt@.len() == lt.len());
                assert(lk@.len() == lk.len());
                if cur.0 {
                    assert(g.tx_keys@[cur.1 as int]@[p as int] < g.key_txs@.len());
                    assert(g.tx_keys@[cur.1 as int]@.contains(w));
                    let i = cur.1 as int;
                    let k = w as int;
                    assert(g.tx_keys@[i]@.contains(k as usize));
                    assert(lk@[k] is None || lk@[k] == Some(id));
                } else {
                    assert(g.key_txs@[cur.1 as int]@[p as int] < g.tx_keys@.len());
                    assert(g.key_txs@[cur.1 as int]@.contains(w));
                    let i = w as int;
                    let k = cur.1 as int;
                    assert(g.tx_keys@[i]@.contains(k as usize));
                    assert(lt@[i] is None || lt@[i] == Some(id));
                }
            }
            let wnode: Node = (!cur.0, w);
            let unlabeled = if wnode.0 {
                lt[w].is_none()
            } else {
                lk[w].is_none()
            };
            assert(unlabeled == (label_of(lt_b, lk_b, wnode) is None));
            if unlabeled {
                if wnode.0 {
                    proof {
                        lemma_count_none_update(lt@, w as int, id);
                    }
                    lt.set(w, Some(id));
                    component.push(w);
                } else {
                    proof {
                        lemma_count_none_update(lk@, w as int, id);
                    }
                    lk.set(w, Some(id));
                }
                queue.push(wnode);
            }
            proof {
                let wn: Node = (!cur.0, w);
                assert(lt@.len() == lt.len());
                assert(lk@.len() == lk.len());
                // the labels changed at most at `w`, which had none
                assert forall|i: int| 0 <= i < lt@.len() && !(wn.0 && i == w) implies lt@[i] == lt_b[i] by {}
                assert forall|k: int| 0 <= k < lk@.len() && !(!wn.0 && k == w) implies lk@[k] == lk_b[k] by {}
                assert(label_of(lt@, lk@, wn) == Some(id));
                assert(forall|x: Node| queue_b.contains(x) ==> #[trigger] queue@.contains(x)) by {
                    assert forall|x: Node| queue_b.contains(x) implies #[trigger] queue@.contains(x) by {
                        let q = choose|q: int| 0 <= q < queue_b.len() && queue_b[q] == x;
                        assert(queue@[q] == x);
                    }
                }
                if unlabeled {
                    assert(queue@[queue@.len() - 1] == wn);
                    assert(queue@.contains(wn));
                }
                // the edges
                assert forall|i: int, k: int|
                    0 <= i < g.tx_keys@.len() && #[trigger] g.tx_keys@[i]@.contains(k as usize) && 0 <= k < lk@.len() implies {
                    ||| lt@[i] == lk@[k]
                    ||| lt@[i] == Some(id) && lk@[k] is None && (queue@.contains((true, i as usize)) || (Some(cur) == Some(
                        (true, i as usize),
                    ) && !g.tx_keys@[i]@.take(p + 1).contains(k as usize)))
                    ||| lk@[k] == Some(id) && lt@[i] is None && (queue@.contains((false, k as usize)) || (Some(cur) == Some(
                        (false, k as usize),
                    ) && !g.key_txs@[k]@.take(p + 1).contains(i as usize)))
                } by {
                    assert(g.key_txs@[k]@.contains(i as usize));
                    if cur.0 && i == cur.1 {
                        assert(g.tx_keys@[i]@.take(p + 1) =~= g.tx_keys@[i]@.take(p as int).push(w));
                        lemma_push_contains(g.tx_keys@[i]@.take(p as int), w, k as usize);
                    }
                    if !cur.0 && k == cur.1 {
                        assert(g.key_txs@[k]@.take(p + 1) =~= g.key_txs@[k]@.take(p as int).push(w));
                        lemma_push_contains(g.key_txs@[k]@.take(p as int), w, i as usize);
                    }
                    if wn.0 && i == w {
                    } else {
                        assert(lt@[i] == lt_b[i]);
                    }
                    if !wn.0 && k == w {
                    } else {
                        assert(lk@[k] == lk_b[k]);
                    }
                }
                if start.0 {
                    assert(lt_b[start.1 as int] == Some(id));
                    if wn.0 && start.1 == w {
                        assert(!unlabeled);
                        assert(lt@ == lt_b);
                    } else {
                        assert(lt@[start.1 as int] == lt_b[start.1 as int]);
                    }
                    assert(lt@[start.1 as int] == Some(id));
                } else {
                    assert(lk_b[start.1 as int] == Some(id));
                    if !wn.0 && start.1 == w {
                        assert(!unlabeled);
                        assert(lk@ == lk_b);
                    } else {
                        assert(lk@[start.1 as int] == lk_b[start.1 as int]);
                    }
                    assert(lk@[start.1 as int] == Some(id));
                }
                assert(label_of(lt@, lk@, start) == Some(id));
                if cur.0 {
                    assert(lt_b[cur.1 as int] == Some(id));
                } else {
                    assert(lk_b[cur.1 as int] == Some(id));
                }
                assert(reaches(g.tx_keys@, g.key_txs@, start, cur));
                if unlabeled && wn.0 {
                    assert(lt_b[w as int] is None);
                    assert(!comp_b.contains(w));
                    assert(component@ == comp_b.push(w));
                    assert forall|a: int, b: int| 0 <= a < b < component@.len() implies component@[a] != component@[b] by {
                        if b == comp_b.len() {
                            assert(comp_b[a] != w);
                        } else {
                            assert(component@[a] == comp_b[a] && component@[b] == comp_b[b]);
                        }
                    }
                    if start.0 {
                        assert(component@[0] == comp_b[0]);
                    }
                }
                if unlabeled {
                    assert(adjacent(g.tx_keys@, g.key_txs@, cur).contains(w));
                    assert(linked(g.tx_keys@, g.key_txs@, cur, wn));
                    lemma_reaches_step(g.tx_keys@, g.key_txs@, start, cur, wn);
                }
                assert forall|t: int| 0 <= t < lt@.len() && #[trigger] lt@[t] == Some(id) implies reaches(
                    g.tx_keys@,
                    g.key_txs@,
                    start,
                    (true, t as usize),
                ) by {
                    if !(wn.0 && t == w) {
                        assert(lt@[t] == lt_b[t]);
                    }
                }
                assert forall|k: int| 0 <= k < lk@.len() && #[trigger] lk@[k] == Some(id) implies reaches(
                    g.tx_keys@,
                    g.key_txs@,
                    start,
                    (false, k as usize),
                ) by {
                    if !(!wn.0 && k == w) {
                        assert(lk@[k] == lk_b[k]);
                    }
                }
                assert forall|t: int| 0 <= t < lt@.len() implies ((#[trigger] component@.contains(t as usize)) <==> lt@[t] == Some(id)) by {
                    assert(comp_b.contains(t as usize) <==> lt_b[t] == Some(id));
                    if unlabeled && wn.0 {
                        assert(component@ == comp_b.push(w));
                        lemma_push_contains(comp_b, w, t as usize);
                        if t == w {
                        } else {
                            assert(t as usize != w);
                            assert(lt@[t] == lt_b[t]);
                        }
                    } else {
                        assert(component@ == comp_b);
                        assert(lt@[t] == lt_b[t]);
                    }
                }
            }
            p = p + 1;
        }
        proof {
            assert forall|i: int, k: int|
                0 <= i < g.tx_keys@.len() && #[trigger] g.tx_keys@[i]@.contains(k as usize) && 0 <= k < lk@.len() implies {
                ||| lt@[i] == lk@[k]
                ||| lt@[i] == Some(id) && lk@[k] is None && (queue@.contains((true, i as usize)) || (None::<Node> == Some(
                    (true, i as usize),
                ) && !g.tx_keys@[i]@.take(0).contains(k as usize)))
                ||| lk@[k] == Some(id) && lt@[i] is None && (queue@.contains((false, k as usize)) || (None::<Node> == Some(
                    (false, k as usize),
                ) && !g.key_txs@[k]@.take(0).contains(i as usize)))
            } by {
                assert(g.key_txs@[k]@.contains(i as usize));
                assert(lt@.len() == lt.len());
                assert(lk@.len() == lk.len());
                if cur == (true, i as usize) {
                    assert(g.tx_keys@[i]@.take(p as int) =~= g.tx_keys@[i]@);
                }
                if cur == (false, k as usize) {
                    assert(g.key_txs@[k]@.take(p as int) =~= g.key_txs@[k]@);
                }
            }
        }
    }
    component
}

/// The labels of the connected components of the graph, and its components.
pub struct Components {
    /// The label of each transaction.
    pub tx_labels: Vec<Option<u32>>,
    /// The label of each key.
    pub key_labels: Vec<Option<u32>>,
    /// The transactions of each component, in the order in which they were reached.
    pub members: Vec<Vec<usize>>,
    /// The label of each component: the position of the transaction it was reached from.
    pub labels: Vec<u32>,
}

impl Components {
    /// The components come in the order of their first transactions, and each is labelled by
    /// the position of its first transaction.
    pub open spec fn ordered(&self) -> bool {
        &&& forall|c: int| 0 <= c < self.members@.len() ==> (#[trigger] self.members@[c])@.contains(self.labels@[c] as usize)
        &&& forall|c: int, t: usize| 0 <= c < self.members@.len() && #[trigger] self.members@[c]@.contains(t) ==> self.labels@[c] <= t
        &&& forall|c1: int, c2: int| 0 <= c1 < c2 < self.labels@.len() ==> #[trigger] self.labels@[c1] < #[trigger] self.labels@[c2]
    }

    /// Each component is connected: each of its transactions is reached from its first one
    /// along edges of graph `g`.
    pub open spec fn connected(&self, g: &TxKeyGraph) -> bool {
        forall|c: int, t: usize|
            0 <= c < self.members@.len() && #[trigger] self.members@[c]@.contains(t) ==> reaches(
                g.tx_keys@,
                g.key_txs@,
                (true, self.labels@[c] as usize),
                (true, t),
            )
    }

    /// The components of graph `g`: every edge joins nodes of the same label, every transaction
    /// has a label, and each component holds exactly the transactions of its label, each once,
    /// distinct labels for distinct components.
    pub open spec fn of(&self, g: &TxKeyGraph) -> bool {
        &&& self.tx_labels@.len() == g.num_txs()
        &&& self.key_labels@.len() == g.num_keys()
        &&& closed(g.tx_keys@, self.tx_labels@, self.key_labels@)
        &&& self.members@.len() == self.labels@.len()
        &&& self.members@.len() <= g.num_txs()
        &&& forall|t: int| 0 <= t < g.num_txs() ==> (#[trigger] self.tx_labels@[t]) is Some
        &&& forall|t: int|
            #![trigger self.tx_labels@[t]]
            0 <= t < g.num_txs() ==> exists|c: int|
                #![trigger self.labels@[c]]
                0 <= c < self.labels@.len() && self.tx_labels@[t] == Some(self.labels@[c])
        &&& forall|c: int, t: int|
            0 <= c < self.members@.len() && 0 <= t < g.num_txs() ==> (#[trigger] self.members@[c]@.contains(t as usize)
                <==> self.tx_labels@[t] == Some(self.labels@[c]))
        &&& forall|c: int, q: int|
            0 <= c < self.members@.len() && 0 <= q < self.members@[c]@.len() ==> #[trigger] self.members@[c]@[q] < g.num_txs()
        &&& forall|c1: int, c2: int|
            0 <= c1 < self.labels@.len() && 0 <= c2 < self.labels@.len() && c1 != c2 ==> #[trigger] self.labels@[c1]
                != #[trigger] self.labels@[c2]
        &&& forall|c: int| 0 <= c < self.members@.len() ==> (#[trigger] self.members@[c])@.len() > 0
        &&& forall|c: int| 0 <= c < self.members@.len() ==> (#[trigger] self.members@[c])@.no_duplicates()
    }
}

/// The connected components of the graph, found by traversals from each transaction in turn;
/// a traversal from a transaction that an earlier one reached finds nothing.
pub fn label_components(g: &TxKeyGraph) -> (r: Components)
    requires
        g.wf(),
        g.num_txs() <= u32::MAX + 1,
    ensures
        r.of(g),
        r.ordered(),
        r.connected(g),
{
    let n = g.tx_keys.len();
    let m = g.key_txs.len();
    let mut tx_labels: Vec<Option<u32>> = Vec::new();
    let mut key_labels: Vec<Option<u32>> = Vec::new();
    let mut i: usize = 0;
    while i < n
        invariant
            i <= n,
            n == g.num_txs(),
            tx_labels@.len() == i,
            forall|t: int| 0 <= t < i ==> (#[trigger] tx_labels@[t]) is None,
        decreases n - i,
    {
        tx_labels.push(None);
        i = i + 1;
    }
    let mut k: usize = 0;
    while k < m
        invariant
            k <= m,
            m == g.num_keys(),
            key_labels@.len() == k,
            forall|t: int| 0 <= t < k ==> (#[trigger] key_labels@[t]) is None,
        decreases m - k,
    {
        key_labels.push(None);
        k = k + 1;
    }
    let mut members: Vec<Vec<usize>> = Vec::new();
    let mut labels: Vec<u32> = Vec::new();
    let mut s: usize = 0;
    while s < n
        invariant
            g.wf(),
            n == g.num_txs(),
            n <= u32::MAX + 1,
            s <= n,
            tx_labels@.len() == n,
            key_labels@.len() == g.num_keys(),
            closed(g.tx_keys@, tx_labels@, key_labels@),
            forall|t: int| 0 <= t < n && (#[trigger] tx_labels@[t]) is Some ==> tx_labels@[t].unwrap() < s,
            forall|t: int| 0 <= t < g.num_keys() && (#[trigger] key_labels@[t]) is Some ==> key_labels@[t].unwrap() < s,
            forall|t: int| 0 <= t < s ==> (#[trigger] tx_labels@[t]) is Some,
            members@.len() == labels@.len(),
            members@.len() <= s,
            forall|c: int| 0 <= c < labels@.len() ==> #[trigger] labels@[c] < s,
            forall|t: int|
                0 <= t < n && (#[trigger] tx_labels@[t]) is Some ==> exists|c: int| 0 <= c < labels@.len() && tx_labels@[t] == Some(labels@[c]),
            forall|c: int, t: int|
                0 <= c < members@.len() && 0 <= t < n ==> (#[trigger] members@[c]@.contains(t as usize) <==> tx_labels@[t]
                    == Some(labels@[c])),
            forall|c: int, q: int| 0 <= c < members@.len() && 0 <= q < members@[c]@.len() ==> #[trigger] members@[c]@[q] < n,
            forall|c1: int, c2: int|
                0 <= c1 < labels@.len() && 0 <= c2 < labels@.len() && c1 != c2 ==> #[trigger] labels@[c1] != #[trigger] labels@[c2],
            forall|c: int| 0 <= c < members@.len() ==> (#[trigger] members@[c])@.len() > 0,
            forall|c: int| 0 <= c < members@.len() ==> (#[trigger] members@[c])@.no_duplicates(),
            forall|c: int| 0 <= c < members@.len() ==> (#[trigger] members@[c])@.contains(labels@[c] as usize),
            forall|c: int, t: usize| 0 <= c < members@.len() && #[trigger] members@[c]@.contains(t) ==> labels@[c] <= t,
            forall|c1: int, c2: int| 0 <= c1 < c2 < labels@.len() ==> #[trigger] labels@[c1] < #[trigger] labels@[c2],
            forall|c: int, t: usize|
                0 <= c < members@.len() && #[trigger] members@[c]@.contains(t) ==> reaches(
                    g.tx_keys@,
                    g.key_txs@,
                    (true, labels@[c] as usize),
                    (true, t),
                ),
        decreases n - s,
    {
        let ghost lt_b = tx_labels@;
        let ghost lk_b = key_labels@;
        let id = s as u32;
        proof {
            assert forall|t: int| 0 <= t < tx_labels@.len() implies #[trigger] tx_labels@[t] != Some(id) by {
                if tx_labels@[t] is Some {
                    assert(tx_labels@[t].unwrap() < s);
                }
            }
            assert forall|t: int| 0 <= t < key_labels@.len() implies #[trigger] key_labels@[t] != Some(id) by {
                if key_labels@[t] is Some {
                    assert(key_labels@[t].unwrap() < s);
                }
            }
        }
        let component = traverse(g, &mut tx_labels, &mut key_labels, (true, s), id);
        let ghost comp = component@;
        let ghost labels_b0 = labels@;
        let ghost members_b0 = members@;
        if component.len() > 0 {
            let ghost members_b = members@;
            let ghost labels_b = labels@;
            members.push(component);
            labels.push(id);
            proof {
                assert(labels@[labels@.len() - 1] == id);
                assert(tx_labels@[s as int] == Some(id));
                assert(comp.contains((s as int) as usize));
                assert forall|c: int| 0 <= c < members@.len() implies (#[trigger] members@[c])@.contains(labels@[c] as usize) by {
                    if c < members_b.len() {
                        assert(members@[c] == members_b[c]);
                        assert(labels@[c] == labels_b[c]);
                    }
                }
                assert forall|c: int, t: usize| 0 <= c < members@.len() && #[trigger] members@[c]@.contains(t) implies labels@[c] <= t by {
                    if c < members_b.len() {
                        assert(members@[c] == members_b[c]);
                        assert(labels@[c] == labels_b[c]);
                    } else {
                        assert(members@[c]@ == comp);
                        assert(comp.contains((t as int) as usize));
                        if (t as int) < s {
                            assert(lt_b[t as int] is Some);
                            assert(lt_b[t as int].unwrap() < s);
                            assert(tx_labels@[t as int] == lt_b[t as int]);
                            assert(tx_labels@[t as int] != Some(id));
                        }
                    }
                }
                assert forall|c: int, t: usize| 0 <= c < members@.len() && #[trigger] members@[c]@.contains(t) implies reaches(
                    g.tx_keys@,
                    g.key_txs@,
                    (true, labels@[c] as usize),
                    (true, t),
                ) by {
                    if c < members_b.len() {
                        assert(members@[c] == members_b[c]);
                        assert(labels@[c] == labels_b[c]);
                    } else {
                        assert(members@[c]@ == comp);
                        let q = choose|q: int| 0 <= q < comp.len() && comp[q] == t;
                        assert(comp[q] < n);
                        assert(tx_labels@[t as int] == Some(id));
                        assert(labels@[c] as usize == s);
                    }
                }
                assert forall|c1: int, c2: int| 0 <= c1 < c2 < labels@.len() implies #[trigger] labels@[c1] < #[trigger] labels@[c2] by {
                    if c2 < labels_b.len() {
                        assert(labels@[c1] == labels_b[c1]);
                        assert(labels@[c2] == labels_b[c2]);
                    } else {
                        assert(labels@[c1] == labels_b[c1]);
                        assert(labels_b[c1] < s);
                    }
                }
                assert forall|c: int, t: int|
                    0 <= c < members@.len() && 0 <= t < n implies (#[trigger] members@[c]@.contains(t as usize) <==> tx_labels@[t]
                        == Some(labels@[c])) by {
                    if c < members_b.len() {
                        assert(members@[c] == members_b[c]);
                        assert(labels@[c] == labels_b[c]);
                        assert(labels_b[c] < s);
                        if lt_b[t] is Some {
                            assert(tx_labels@[t] == lt_b[t]);
                        }
                    }
                }
            }
        }
        proof {
            assert(tx_labels@.len() == tx_labels.len());
            assert(key_labels@.len() == key_labels.len());
            assert(id as int == s);
            assert(tx_labels@[s as int] is Some);
            assert forall|t: int| 0 <= t < s + 1 implies (#[trigger] tx_labels@[t]) is Some by {
                if t < s {
                    assert(lt_b[t] is Some);
                }
            }
            assert forall|t: int| 0 <= t < g.num_keys() && (#[trigger] key_labels@[t]) is Some implies key_labels@[t].unwrap() < s + 1 by {
                if lk_b[t] is Some {
                    assert(key_labels@[t] == lk_b[t]);
                }
            }
            assert forall|t: int|
                0 <= t < n && (#[trigger] tx_labels@[t]) is Some implies exists|c: int| 0 <= c < labels@.len() && tx_labels@[t]
                    == Some(labels@[c]) by {
                if lt_b[t] is Some {
                    assert(tx_labels@[t] == lt_b[t]);
                    let c = choose|c: int| 0 <= c < labels_b0.len() && lt_b[t] == Some(labels_b0[c]);
                    assert(labels@[c] == labels_b0[c]);
                } else {
                    assert(tx_labels@[t] == Some(id));
                    assert(comp.contains(t as usize));
                    if comp.len() == 0 {
                        let q = choose|q: int| 0 <= q < comp.len() && comp[q] == t as usize;
                    }
                    assert(members@[members@.len() - 1]@ == comp);
                    assert(tx_labels@[t] == Some(labels@[labels@.len() - 1]));
                }
            }
        }
        s = s + 1;
    }
    let r = Components { tx_labels, key_labels, members, labels };
    proof {
        assert forall|t: int| #![trigger r.tx_labels@[t]] 0 <= t < g.num_txs() implies exists|c: int|
            #![trigger r.labels@[c]]
            0 <= c < r.labels@.len() && r.tx_labels@[t] == Some(r.labels@[c]) by {
            assert(r.tx_labels@[t] is Some);
            let c = choose|c: int| 0 <= c < r.labels@.len() && r.tx_labels@[t] == Some(r.labels@[c]);
            assert(r.tx_labels@[t] == Some(r.labels@[c]));
        }
    }
    r
}

/// The components are the connected components: a transaction is in the component of
/// another exactly when it is reached from it along the edges of the graph, that is, through
/// keys that transactions declare in common.
pub proof fn law_components_are_connected(g: &TxKeyGraph, comps: &Components, c: int, t1: usize, t2: usize)
    requires
        g.wf(),
        comps.of(g),
        comps.connected(g),
        0 <= c < comps.members@.len(),
        comps.members@[c]@.contains(t1),
        t2 < g.num_txs(),
    ensures
        comps.members@[c]@.contains(t2) <==> reaches(g.tx_keys@, g.key_txs@, (true, t1), (true, t2)),
{
    let tk = g.tx_keys@;
    let kt = g.key_txs@;
    let root: Node = (true, comps.labels@[c] as usize);
    let q1 = choose|q: int| 0 <= q < comps.members@[c]@.len() && comps.members@[c]@[q] == t1;
    assert(comps.members@[c]@[q1] < g.num_txs());
    assert(comps.members@[c]@.contains((t1 as int) as usize));
    assert(comps.tx_labels@[t1 as int] == Some(comps.labels@[c]));
    if comps.members@[c]@.contains(t2) {
        lemma_reaches_back(tk, kt, root, (true, t1));
        lemma_reaches_trans(tk, kt, (true, t1), root, (true, t2));
    }
    if reaches(tk, kt, (true, t1), (true, t2)) {
        let path = choose|path: Seq<Node>|
            {
                &&& path.len() > 0
                &&& path[0] == (true, t1)
                &&& path.last() == (true, t2)
                &&& forall|i: int| 0 <= i < path.len() - 1 ==> #[trigger] path_step(tk, kt, path, i)
            };
        lemma_path_same_label(tk, kt, comps.tx_labels@, comps.key_labels@, path);
        assert(comps.tx_labels@[t2 as int] == Some(comps.labels@[c]));
        assert(comps.members@[c]@.contains((t2 as int) as usize));
    }
}

} // verus!
