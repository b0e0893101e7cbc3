use executor::pool::{TransactionPool, VecPool};
use executor::types::VerifiableTransaction;

#[derive(Clone, Eq, PartialEq, Debug)]
struct TestTransaction {
    id: u32,
    signature: u32,
}

impl TestTransaction {
    fn new(id: u32, signature: u32) -> Self {
        Self { id, signature }
    }
}

impl VerifiableTransaction for TestTransaction {
    fn valid(&self) -> bool {
        self.id % 2 == 0
    }

    fn checkable(&self) -> bool {
        true
    }

    fn verify(&self) -> bool {
        self.id % 2 == 0
    }
}

type Pool = VecPool<TestTransaction>;

#[test]
fn get_works() {
    let mut pool = Pool::new();

    for i in (0..10).step_by(2) {
        pool.push_back(TestTransaction::new(i, i));
    }

    assert_eq!(
        pool.get(|t| t.id == 8),
        Some((4, &TestTransaction { id: 8, signature: 8 })),
    )
}

#[test]
fn get_mut_works() {
    let mut pool = Pool::new();

    for i in (0..10).step_by(2) {
        pool.push_back(TestTransaction::new(i, i));
    }

    let (_, tx_mut) = pool.get_mut(|t| t.id == 8).unwrap();
    tx_mut.signature = 999;

    let (_, tx) = pool.get(|t| t.id == 8).unwrap();
    assert_eq!(tx.signature, 999);
}

#[test]
fn iter_works() {
    let mut pool = Pool::new();

    for i in (0..6).step_by(2) {
        pool.push_back(TestTransaction::new(i, i));
    }

    let mut iter = pool.iter();
    assert_eq!(iter.next().map(|t| t.id), Some(0));
    assert_eq!(iter.next().map(|t| t.id), Some(2));
    assert_eq!(iter.next().map(|t| t.id), Some(4));
    assert_eq!(iter.next(), None);
}

#[test]
fn into_iter_works() {
    let mut pool = Pool::new();

    for i in (0..6).step_by(2) {
        pool.push_back(TestTransaction::new(i, i));
    }

    let mut iter = pool.into_iter();
    assert_eq!(iter.next().map(|t| t.id), Some(0));
    assert_eq!(iter.next().map(|t| t.id), Some(2));
    assert_eq!(iter.next().map(|t| t.id), Some(4));
    assert_eq!(iter.next(), None);
}

#[test]
fn iter_mut_works() {
    let mut pool = Pool::new();

    for i in (0..10).step_by(2) {
        pool.push_back(TestTransaction::new(i, i));
    }

    let mut iter = pool.iter_mut();
    while let Some(t) = iter.next() {
        t.signature += 1;
    }
    (0..10).step_by(2).for_each(|i| assert_eq!(pool.get(|t| t.id == i).unwrap().1.signature, i + 1))
}

// Own tests.

#[test]
fn remove_takes_first_match_out() {
    let mut pool = Pool::new();
    pool.push_back(TestTransaction::new(2, 1));
    pool.push_back(TestTransaction::new(4, 2));
    pool.push_back(TestTransaction::new(4, 3));
    assert_eq!(pool.remove(|t| t.id == 4), Some(TestTransaction::new(4, 2)));
    assert_eq!(pool.len(), 2);
    assert_eq!(pool.remove(|t| t.id == 6), None);
    assert_eq!(pool.len(), 2);
    assert_eq!(pool.destruct(), vec![TestTransaction::new(2, 1), TestTransaction::new(4, 3)]);
}

#[test]
fn insert_and_remove_at_keep_order() {
    let mut pool = Pool::with_capacity(4);
    pool.push_back(TestTransaction::new(0, 0));
    pool.push_back(TestTransaction::new(4, 4));
    pool.insert(1, TestTransaction::new(2, 2));
    assert_eq!(pool.all(), vec![TestTransaction::new(0, 0), TestTransaction::new(2, 2), TestTransaction::new(4, 4)]);
    assert_eq!(pool.remove_at(0), TestTransaction::new(0, 0));
    assert_eq!(pool.all(), vec![TestTransaction::new(2, 2), TestTransaction::new(4, 4)]);
    pool.clear();
    assert_eq!(pool.len(), 0);
}

#[test]
fn push_batch_appends_copies() {
    let mut pool = Pool::new();
    pool.push_back(TestTransaction::new(0, 0));
    pool.push_batch(&[TestTransaction::new(2, 2), TestTransaction::new(4, 4)]);
    assert_eq!(pool.len(), 3);
    assert_eq!(pool.get(|t| t.id == 4).map(|(i, _)| i), Some(2));
}

#[test]
fn pool_from_vec_keeps_order() {
    let pool: Pool = vec![TestTransaction::new(6, 1), TestTransaction::new(2, 2)].into();
    assert_eq!(pool.get(|t| t.signature == 2).map(|(i, _)| i), Some(1));
    assert_eq!(pool.as_vec().len(), 2);
}
