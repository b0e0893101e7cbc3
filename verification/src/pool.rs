//! An ordered transaction pool.

use vstd::prelude::*;
use crate::types::VerifiableTransaction;

verus! {

/// The first index in `items` where `search` gives true, if any, as the outcome of searching
/// with a closure that gave `found` at `found.0` and false before it.
pub open spec fn first_match<Tx, F: Fn(&Tx) -> bool>(items: Seq<Tx>, search: F, found: Option<usize>) -> bool {
    match found {
        Some(i) => {
            &&& i < items.len()
            &&& search.ensures((&items[i as int],), true)
            &&& forall|j: int| 0 <= j < i ==> search.ensures((&items[j],), false)
        },
        None => forall|j: int| 0 <= j < items.len() ==> search.ensures((&items[j],), false),
    }
}

/// The index of a search result.
pub open spec fn found_index<A>(r: Option<(usize, A)>) -> Option<usize> {
    match r {
        Some(p) => Some(p.0),
        None => None,
    }
}

/// An ordered transaction pool.
pub trait TransactionPool<Tx: Clone + VerifiableTransaction>: Sized {
    /// The transactions of the pool, in order.
    spec fn items(&self) -> Seq<Tx>;

    /// Create a new transaction pool.
    fn new() -> (p: Self)
        ensures
            p.items() == Seq::<Tx>::empty(),
    ;

    /// Create a new transaction pool with the given capacity.
    fn with_capacity(size: usize) -> (p: Self)
        ensures
            p.items() == Seq::<Tx>::empty(),
    ;

    /// Add a valid transaction to the end of the pool.
    fn push_back(&mut self, tx: Tx)
        requires
            tx.checkable(),
            tx.valid(),
        ensures
            final(self).items() == old(self).items().push(tx),
    ;

    /// Add copies of a batch of transactions to the end of the pool; every copy must be valid.
    fn push_batch(&mut self, txs: &[Tx])
        requires
            forall|i: int, c: Tx| 0 <= i < txs@.len() && #[trigger] cloned(txs@[i], c) ==> c.checkable() && c.valid(),
        ensures
            final(self).items().len() == old(self).items().len() + txs@.len(),
            final(self).items().take(old(self).items().len() as int) == old(self).items(),
            forall|i: int| 0 <= i < txs@.len() ==> cloned(txs@[i], #[trigger] final(self).items()[old(self).items().len() + i]),
    ;

    /// Insert a valid transaction at the given index of the pool.
    fn insert(&mut self, index: usize, tx: Tx)
        requires
            index <= old(self).items().len(),
            tx.checkable(),
            tx.valid(),
        ensures
            final(self).items() == old(self).items().insert(index as int, tx),
    ;

    /// Remove the first transaction that matches `search`, returning it.
    fn remove<F: Fn(&Tx) -> bool>(&mut self, search: F) -> (r: Option<Tx>)
        requires
            forall|t: &Tx| #[trigger] search.requires((t,)),
        ensures
            exists|found: Option<usize>| {
                &&& #[trigger] first_match(old(self).items(), search, found)
                &&& match found {
                    Some(i) => r == Some(old(self).items()[i as int]) && final(self).items() == old(self).items().remove(
                        i as int,
                    ),
                    None => r is None && final(self).items() == old(self).items(),
                }
            },
    {
        match self.get(search) {
            Some((index, _)) => Some(self.remove_at(index)),
            None => None,
        }
    }

    /// Remove the transaction at an index, returning it.
    fn remove_at(&mut self, at: usize) -> (r: Tx)
        requires
            at < old(self).items().len(),
        ensures
            r == old(self).items()[at as int],
            final(self).items() == old(self).items().remove(at as int),
    ;

    /// Remove all.
    fn clear(&mut self)
        ensures
            final(self).items() == Seq::<Tx>::empty(),
    ;

    /// Current count of transactions.
    fn len(&self) -> (n: usize)
        ensures
            n == self.items().len(),
    ;

    /// Copies of all the transactions in the pool, in order.
    fn all(&self) -> (v: Vec<Tx>)
        ensures
            v@.len() == self.items().len(),
            forall|i: int| 0 <= i < v@.len() ==> cloned(self.items()[i], #[trigger] v@[i]),
    ;

    /// Consume self and get all of the transactions in the pool, in order.
    fn destruct(self) -> (v: Vec<Tx>)
        ensures
            v@ == self.items(),
    ;

    /// The first transaction that matches `search`, with its index.
    fn get<F: Fn(&Tx) -> bool>(&self, search: F) -> (r: Option<(usize, &Tx)>)
        requires
            forall|t: &Tx| #[trigger] search.requires((t,)),
        ensures
            first_match(self.items(), search, found_index(r)),
            r matches Some((i, t)) ==> *t == self.items()[i as int],
    ;

    /// The first transaction that matches `search`, with its index, to change in place.
    fn get_mut<F: Fn(&Tx) -> bool>(&mut self, search: F) -> (r: Option<(usize, &mut Tx)>)
        requires
            forall|t: &Tx| #[trigger] search.requires((t,)),
        ensures
            first_match(old(self).items(), search, found_index(r)),
            match r {
                Some((i, t)) => *t == old(self).items()[i as int] && final(self).items() == old(self).items().update(
                    i as int,
                    *final(t),
                ),
                None => final(self).items() == old(self).items(),
            },
    ;

    /// The transaction at an index, to change in place.
    fn get_at_mut(&mut self, index: usize) -> (t: &mut Tx)
        requires
            index < old(self).items().len(),
        ensures
            *t == old(self).items()[index as int],
            final(self).items() == old(self).items().update(index as int, *final(t)),
    ;

    /// Iterate without consuming.
    fn iter(&self) -> (it: PoolIter<'_, Tx>)
        ensures
            it.remaining() == self.items(),
    ;

    /// Iterate, changing the transactions in place.
    fn iter_mut(&mut self) -> (it: PoolIterMut<'_, Tx>)
        ensures
            it.position() == 0,
            it.items() == old(self).items(),
    ;
}

/// A transaction pool implemented by a vector.
pub struct VecPool<Tx> {
    inner: Vec<Tx>,
}

impl<Tx> From<Vec<Tx>> for VecPool<Tx> {
    fn from(v: Vec<Tx>) -> (p: VecPool<Tx>) {
        VecPool { inner: v }
    }
}

impl<Tx> vstd::std_specs::convert::FromSpecImpl<Vec<Tx>> for VecPool<Tx> {
    open spec fn obeys_from_spec() -> bool {
        true
    }

    closed spec fn from_spec(v: Vec<Tx>) -> VecPool<Tx> {
        VecPool { inner: v }
    }
}

impl<Tx> VecPool<Tx> {
    /// The transactions of the pool, in order.
    pub closed spec fn pool_items(&self) -> Seq<Tx> {
        self.inner@
    }

    /// The pool made of the transactions of a vector, in order.
    pub proof fn lemma_from(v: Vec<Tx>)
        ensures
            <VecPool<Tx> as vstd::std_specs::convert::FromSpec<Vec<Tx>>>::from_spec(v).pool_items() == v@,
    {
    }

    /// The transactions of the pool, in order.
    pub fn as_vec(&self) -> (v: &Vec<Tx>)
        ensures
            v@ == self.pool_items(),
    {
        &self.inner
    }

    /// Consume the pool into an iterator over its transactions, in order.
    pub fn into_iter(self) -> (it: PoolIntoIter<Tx>)
        ensures
            it.remaining() == self.pool_items(),
    {
        PoolIntoIter { rest: self.inner }
    }
}

/// An iterator over the transactions of a pool.
pub struct PoolIter<'a, Tx> {
    items: &'a Vec<Tx>,
    pos: usize,
}

impl<'a, Tx> PoolIter<'a, Tx> {
    /// The transactions not yet yielded.
    pub closed spec fn remaining(&self) -> Seq<Tx> {
        if self.pos <= self.items@.len() {
            self.items@.skip(self.pos as int)
        } else {
            Seq::empty()
        }
    }

    /// The next transaction, if any.
    pub fn next(&mut self) -> (r: Option<&'a Tx>)
        ensures
            old(self).remaining().len() == 0 ==> r is None && final(self).remaining() == old(self).remaining(),
            old(self).remaining().len() > 0 ==> r == Some(&old(self).remaining()[0]) && final(self).remaining()
                == old(self).remaining().drop_first(),
    {
        if self.pos < self.items.len() {
            let i = self.pos;
            self.pos = self.pos + 1;
            assert(self.items@.skip(self.pos as int) =~= self.items@.skip(i as int).drop_first());
            assert(self.items@.skip(i as int)[0] == self.items@[i as int]);
            let r = &self.items[i];
            assert(*r == old(self).remaining()[0]);
            Some(r)
        } else {
            None
        }
    }
}

/// An iterator over the transactions of a pool, to change them in place.
pub struct PoolIterMut<'a, Tx> {
    items: &'a mut Vec<Tx>,
    pos: usize,
}

impl<'a, Tx> PoolIterMut<'a, Tx> {
    /// The number of transactions yielded so far.
    pub closed spec fn position(&self) -> int {
        self.pos as int
    }

    /// The transactions of the pool as they are now.
    pub closed spec fn items(&self) -> Seq<Tx> {
        self.items@
    }

    /// The next transaction, if any.
    pub fn next(&mut self) -> (r: Option<&mut Tx>)
        ensures
            old(self).position() >= old(self).items().len() ==> r is None,
            0 <= old(self).position() < old(self).items().len() ==> (r matches Some(t) && *t == old(
                self,
            ).items()[old(self).position()] && final(self).position() == old(self).position() + 1),
    {
        if self.pos < self.items.len() {
            let i = self.pos;
            self.pos = self.pos + 1;
            Some(&mut self.items[i])
        } else {
            None
        }
    }
}

/// An iterator that consumes a pool, yielding its transactions in order.
pub struct PoolIntoIter<Tx> {
    rest: Vec<Tx>,
}

impl<Tx> PoolIntoIter<Tx> {
    /// The transactions not yet yielded.
    pub closed spec fn remaining(&self) -> Seq<Tx> {
        self.rest@
    }

    /// The next transaction, if any.
    pub fn next(&mut self) -> (r: Option<Tx>)
        ensures
            old(self).remaining().len() == 0 ==> r is None && final(self).remaining() == old(self).remaining(),
            old(self).remaining().len() > 0 ==> r == Some(old(self).remaining()[0]) && final(self).remaining()
                == old(self).remaining().drop_first(),
    {
        if self.rest.len() > 0 {
            let t = self.rest.remove(0);
            assert(self.rest@ =~= old(self).rest@.drop_first());
            Some(t)
        } else {
            None
        }
    }
}

impl<Tx: Clone + VerifiableTransaction> TransactionPool<Tx> for VecPool<Tx> {
    open spec fn items(&self) -> Seq<Tx> {
        self.pool_items()
    }

    fn new() -> (p: Self) {
        VecPool { inner: Vec::new() }
    }

    fn with_capacity(size: usize) -> (p: Self) {
        VecPool { inner: Vec::with_capacity(size) }
    }

    fn push_back(&mut self, tx: Tx) {
        // an invalid transaction never enters the pool (`requires`).
        self.inner.push(tx);
    }

    fn push_batch(&mut self, txs: &[Tx]) {
        let ghost start = self.inner@;
        let mut i: usize = 0;
        while i < txs.len()
            invariant
                i <= txs@.len(),
                self.inner@.len() == start.len() + i,
                self.inner@.take(start.len() as int) == start,
                forall|j: int| 0 <= j < i ==> cloned(txs@[j], #[trigger] self.inner@[start.len() + j]),
                forall|j: int, c: Tx| 0 <= j < txs@.len() && #[trigger] cloned(txs@[j], c) ==> c.checkable() && c.valid(),
            decreases txs@.len() - i,
        {
            let t = txs[i].clone();
            assert(cloned(txs@[i as int], t));
            self.push_back(t);
            proof {
                assert(self.inner@.take(start.len() as int) =~= start);
                assert(self.inner@[start.len() + i] == t);
            }
            i = i + 1;
        }
    }

    fn insert(&mut self, index: usize, tx: Tx) {
        self.inner.insert(index, tx);
    }

    fn remove_at(&mut self, at: usize) -> (r: Tx) {
        self.inner.remove(at)
    }

    fn clear(&mut self) {
        self.inner.clear();
    }

    fn len(&self) -> (n: usize) {
        self.inner.len()
    }

    fn all(&self) -> (v: Vec<Tx>) {
        self.inner.clone()
    }

    fn destruct(self) -> (v: Vec<Tx>) {
        self.inner
    }

    fn get<F: Fn(&Tx) -> bool>(&self, search: F) -> (r: Option<(usize, &Tx)>) {
        let mut i: usize = 0;
        while i < self.inner.len()
            invariant
                i <= self.inner@.len(),
                forall|t: &Tx| #[trigger] search.requires((t,)),
                forall|j: int| 0 <= j < i ==> search.ensures((&self.inner@[j],), false),
            decreases self.inner@.len() - i,
        {
            if search(&self.inner[i]) {
                return Some((i, &self.inner[i]));
            }
            i = i + 1;
        }
        None
    }

    fn get_mut<F: Fn(&Tx) -> bool>(&mut self, search: F) -> (r: Option<(usize, &mut Tx)>) {
        let mut i: usize = 0;
        while i < self.inner.len()
            invariant
                i <= self.inner@.len(),
                self.inner@ == old(self).inner@,
                forall|t: &Tx| #[trigger] search.requires((t,)),
                forall|j: int| 0 <= j < i ==> search.ensures((&self.inner@[j],), false),
            decreases self.inner@.len() - i,
        {
            if search(&self.inner[i]) {
                return Some((i, &mut self.inner[i]));
            }
            i = i + 1;
        }
        None
    }

    fn get_at_mut(&mut self, index: usize) -> (t: &mut Tx) {
        &mut self.inner[index]
    }

    fn iter(&self) -> (it: PoolIter<'_, Tx>) {
        let it = PoolIter { items: &self.inner, pos: 0 };
        assert(self.inner@.skip(0) =~= self.inner@);
        it
    }

    fn iter_mut(&mut self) -> (it: PoolIterMut<'_, Tx>) {
        PoolIterMut { items: &mut self.inner, pos: 0 }
    }
}

} // verus!
