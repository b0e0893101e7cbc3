//! Basic types shared by the state, the runtime and the executor.

use vstd::prelude::*;
use crate::codec::{scale_decode_array32, scale_encode_array32, Codec};
use crate::state::{KeyT, StateData, ValueT};

verus! {

/// Identifier of a thread.
pub type ThreadId = u64;

/// The balance type.
pub type Balance = u128;

/// Identifier of a transaction.
pub type TransactionId = u32;

/// The key of storage items.
pub type Key = StateKey;

/// Values inserted into storage.
pub type Value = StateValue;

/// The account identifier.
pub type AccountId = Public;

/// True when two byte vectors hold the same bytes.
pub fn bytes_equal(a: &Vec<u8>, b: &Vec<u8>) -> (r: bool)
    ensures
        r == (a@ == b@),
{
    if a.len() != b.len() {
        return false;
    }
    let mut i: usize = 0;
    while i < a.len()
        invariant
            a@.len() == b@.len(),
            i <= a@.len(),
            forall|j: int| 0 <= j < i ==> a@[j] == b@[j],
        decreases a@.len() - i,
    {
        if a[i] != b[i] {
            assert(a@[i as int] != b@[i as int]);
            return false;
        }
        i = i + 1;
    }
    assert(a@ =~= b@);
    true
}

/// A copy of a byte vector.
pub fn copy_bytes(a: &Vec<u8>) -> (r: Vec<u8>)
    ensures
        r@ == a@,
{
    let mut r: Vec<u8> = Vec::with_capacity(a.len());
    let mut i: usize = 0;
    while i < a.len()
        invariant
            i <= a@.len(),
            r@ == a@.take(i as int),
        decreases a@.len() - i,
    {
        r.push(a[i]);
        i = i + 1;
        assert(r@ =~= a@.take(i as int));
    }
    assert(a@.take(a@.len() as int) =~= a@);
    r
}

/// A state key.
#[derive(Clone, Eq, PartialEq, Hash, Default, Ord, PartialOrd, Debug)]
pub struct StateKey(pub Vec<u8>);

/// A state value.
#[derive(Clone, Eq, PartialEq, Hash, Default, Debug)]
pub struct StateValue(pub Vec<u8>);

impl StateData for StateKey {
    type Model = Seq<u8>;

    open spec fn model(&self) -> Seq<u8> {
        self.0@
    }

    fn same(&self, other: &StateKey) -> (b: bool) {
        bytes_equal(&self.0, &other.0)
    }

    fn duplicate(&self) -> (c: StateKey) {
        StateKey(copy_bytes(&self.0))
    }
}

impl KeyT for StateKey {}

impl StateData for StateValue {
    type Model = Seq<u8>;

    open spec fn model(&self) -> Seq<u8> {
        self.0@
    }

    fn same(&self, other: &StateValue) -> (b: bool) {
        bytes_equal(&self.0, &other.0)
    }

    fn duplicate(&self) -> (c: StateValue) {
        StateValue(copy_bytes(&self.0))
    }
}

impl ValueT for StateValue {
    open spec fn default_model() -> Seq<u8> {
        Seq::empty()
    }

    fn default_value() -> (v: StateValue) {
        StateValue(Vec::new())
    }
}

impl From<Vec<u8>> for StateKey {
    fn from(t: Vec<u8>) -> (k: StateKey) {
        StateKey(t)
    }
}

impl vstd::std_specs::convert::FromSpecImpl<Vec<u8>> for StateKey {
    open spec fn obeys_from_spec() -> bool {
        true
    }

    open spec fn from_spec(t: Vec<u8>) -> StateKey {
        StateKey(t)
    }
}

impl From<Vec<u8>> for StateValue {
    fn from(t: Vec<u8>) -> (v: StateValue) {
        StateValue(t)
    }
}

impl vstd::std_specs::convert::FromSpecImpl<Vec<u8>> for StateValue {
    open spec fn obeys_from_spec() -> bool {
        true
    }

    open spec fn from_spec(t: Vec<u8>) -> StateValue {
        StateValue(t)
    }
}

impl StateKey {
    /// The bytes of the key.
    pub fn as_bytes(&self) -> (b: &[u8])
        ensures
            b@ == self.0@,
    {
        self.0.as_slice()
    }
}

impl StateValue {
    /// The bytes of the value.
    pub fn as_bytes(&self) -> (b: &[u8])
        ensures
            b@ == self.0@,
    {
        self.0.as_slice()
    }
}

/// The bytes of the all-zero key.
pub open spec fn zero_bytes() -> Seq<u8> {
    Seq::new(32, |i: int| 0u8)
}

/// A public key, identifying an account.
#[derive(Clone, Copy, Debug, PartialEq, Eq, Hash, Default, PartialOrd, Ord)]
pub struct Public(pub [u8; 32]);

/// A signature of a message.
#[derive(Clone, Copy, Debug, PartialEq, Eq)]
pub struct Signature(pub [u8; 64]);

impl Signature {
    /// True when both signatures are the same.
    pub fn same(&self, other: &Signature) -> (r: bool)
        ensures
            r == (*self == *other),
    {
        let mut i: usize = 0;
        while i < 64
            invariant
                i <= 64,
                forall|j: int| 0 <= j < i ==> self.0@[j] == other.0@[j],
            decreases 64 - i,
        {
            if self.0[i] != other.0[i] {
                assert(self.0@[i as int] != other.0@[i as int]);
                return false;
            }
            i = i + 1;
        }
        proof {
            broadcast use vstd::array::group_array_axioms;
            assert(self.0@ =~= other.0@);
            assert(self.0 =~= other.0);
        }
        true
    }
}

impl Public {
    /// The bytes of the key, as a specification value.
    pub open spec fn bytes(&self) -> Seq<u8> {
        self.0@
    }

    /// A public key has 32 bytes.
    pub proof fn lemma_len(&self)
        ensures
            self.0@.len() == 32,
            Public::model_encodable(self.value_model()),
    {
        broadcast use vstd::array::group_array_axioms;
    }

    /// True when both keys are the same.
    pub fn same(&self, other: &Public) -> (r: bool)
        ensures
            r == (*self == *other),
            r == (self.bytes() == other.bytes()),
    {
        let mut i: usize = 0;
        while i < 32
            invariant
                i <= 32,
                forall|j: int| 0 <= j < i ==> self.0@[j] == other.0@[j],
            decreases 32 - i,
        {
            if self.0[i] != other.0[i] {
                assert(self.0@[i as int] != other.0@[i as int]);
                return false;
            }
            i = i + 1;
        }
        proof {
            broadcast use vstd::array::group_array_axioms;
            assert(self.0@ =~= other.0@);
            assert(self.0 =~= other.0);
        }
        true
    }

    /// The all-zero key, which is the default account.
    pub fn zero() -> (p: Public)
        ensures
            p.bytes() == zero_bytes(),
    {
        let p = Public([0u8; 32]);
        proof {
            broadcast use vstd::array::group_array_axioms;
            assert(p.bytes() =~= zero_bytes());
        }
        p
    }

    /// True if this is the all-zero key.
    pub fn is_zero(&self) -> (r: bool)
        ensures
            r == (self.bytes() == zero_bytes()),
    {
        let z = Public::zero();
        self.same(&z)
    }
}

impl Codec for Public {
    type Model = Seq<u8>;

    open spec fn value_model(&self) -> Seq<u8> {
        self.0@
    }

    open spec fn encoding(m: Seq<u8>) -> Seq<u8> {
        m
    }

    open spec fn decoding(b: Seq<u8>) -> Option<Seq<u8>> {
        if b.len() >= 32 {
            Some(b.take(32))
        } else {
            None
        }
    }

    open spec fn model_encodable(m: Seq<u8>) -> bool {
        m.len() == 32
    }

    proof fn lemma_roundtrip(m: Seq<u8>, rest: Seq<u8>) {
        assert((m + rest).take(32) =~= m);
    }

    proof fn lemma_canonical(b: Seq<u8>) {
    }

    fn encode(&self) -> (r: Vec<u8>) {
        scale_encode_array32(&self.0)
    }

    fn decode(b: &[u8]) -> (r: Option<(Public, usize)>) {
        match scale_decode_array32(b) {
            Some(a) => Some((Public(a), 32)),
            None => None,
        }
    }
}

} // verus!
