//! The state database: keyed entries, each holding a value and an optional taint that names the
//! thread owning the entry.

use vstd::prelude::*;
use vstd::string::StrSliceExecFns;

verus! {

/// Something that can be stored in the state: it has a mathematical model, can be compared
/// with another value of its type and can be duplicated.
pub trait StateData: Sized {
    type Model;

    spec fn model(&self) -> Self::Model;

    fn same(&self, other: &Self) -> (b: bool)
        ensures
            b == (self.model() == other.model()),
    ;

    fn duplicate(&self) -> (c: Self)
        ensures
            c.model() == self.model(),
    ;
}

/// A key of the state.
pub trait KeyT: StateData {}

/// A value of the state. Reading a key that has never been written yields the default value.
pub trait ValueT: StateData {
    spec fn default_model() -> Self::Model;

    fn default_value() -> (v: Self)
        ensures
            v.model() == Self::default_model(),
    ;
}

/// The identity of the owner of a state entry.
pub trait TaintT: StateData + Copy {}

impl StateData for u8 {
    type Model = u8;

    open spec fn model(&self) -> u8 {
        *self
    }

    fn same(&self, other: &u8) -> (b: bool) {
        *self == *other
    }

    fn duplicate(&self) -> (c: u8) {
        *self
    }
}

impl StateData for u32 {
    type Model = u32;

    open spec fn model(&self) -> u32 {
        *self
    }

    fn same(&self, other: &u32) -> (b: bool) {
        *self == *other
    }

    fn duplicate(&self) -> (c: u32) {
        *self
    }
}

impl StateData for u64 {
    type Model = u64;

    open spec fn model(&self) -> u64 {
        *self
    }

    fn same(&self, other: &u64) -> (b: bool) {
        *self == *other
    }

    fn duplicate(&self) -> (c: u64) {
        *self
    }
}

impl StateData for &'static str {
    type Model = Seq<char>;

    open spec fn model(&self) -> Seq<char> {
        (*self)@
    }

    fn same(&self, other: &&'static str) -> (b: bool) {
        let a: &str = *self;
        let o: &str = *other;
        assert(self.model() == a@ && other.model() == o@);
        let n = a.unicode_len();
        if n != o.unicode_len() {
            return false;
        }
        let mut i: usize = 0;
        while i < n
            invariant
                self.model() == a@,
                other.model() == o@,
                n == a@.len(),
                n == o@.len(),
                i <= n,
                forall|j: int| 0 <= j < i ==> a@[j] == o@[j],
            decreases n - i,
        {
            if a.get_char(i) != o.get_char(i) {
                assert(a@[i as int] != o@[i as int]);
                return false;
            }
            i = i + 1;
        }
        assert(a@ =~= o@);
        true
    }

    fn duplicate(&self) -> (c: &'static str) {
        *self
    }
}

impl KeyT for u8 {}

impl KeyT for u32 {}

impl KeyT for u64 {}

impl ValueT for u32 {
    open spec fn default_model() -> u32 {
        0
    }

    fn default_value() -> (v: u32) {
        0
    }
}

impl ValueT for u64 {
    open spec fn default_model() -> u64 {
        0
    }

    fn default_value() -> (v: u64) {
        0
    }
}

impl ValueT for &'static str {
    open spec fn default_model() -> Seq<char> {
        Seq::empty()
    }

    fn default_value() -> (v: &'static str) {
        let s: &'static str = "";
        proof {
            reveal_strlit("");
        }
        assert(s@ =~= Seq::<char>::empty());
        s
    }
}

impl TaintT for u8 {}

impl TaintT for u32 {}

impl TaintT for u64 {}

impl TaintT for &'static str {}

/// The model of an optional taint.
pub open spec fn taint_model<T: TaintT>(t: Option<T>) -> Option<T::Model> {
    match t {
        Some(x) => Some(x.model()),
        None => None,
    }
}

/// A single entry of the state: a value and the thread that owns it, if any.
#[derive(Debug)]
pub struct StateEntry<V, T> {
    data: V,
    taint: Option<T>,
}

impl<V: ValueT, T: TaintT> StateData for StateEntry<V, T> {
    type Model = (V::Model, Option<T::Model>);

    closed spec fn model(&self) -> (V::Model, Option<T::Model>) {
        (self.data.model(), taint_model(self.taint))
    }

    fn same(&self, other: &Self) -> (b: bool) {
        let d = self.data.same(&other.data);
        let t = match (self.taint, other.taint) {
            (Some(a), Some(b)) => a.same(&b),
            (None, None) => true,
            _ => false,
        };
        d && t
    }

    fn duplicate(&self) -> (c: Self) {
        StateEntry { data: self.data.duplicate(), taint: self.taint }
    }
}

impl<V: ValueT, T: TaintT> StateEntry<V, T> {
    /// A copy of the value of this entry.
    pub fn data(&self) -> (v: V)
        ensures
            v.model() == self.model().0,
    {
        self.data.duplicate()
    }

    /// The owner of this entry, if any.
    pub fn taint(&self) -> (t: Option<T>)
        ensures
            taint_model(t) == self.model().1,
    {
        self.taint
    }

    /// An entry holding `value`, owned by `taint`.
    pub fn new(value: V, taint: T) -> (e: Self)
        ensures
            e.model() == (value.model(), Some(taint.model())),
    {
        Self { data: value, taint: Some(taint) }
    }

    /// An entry holding the default value, owned by `taint`.
    pub fn new_taint(taint: T) -> (e: Self)
        ensures
            e.model() == (V::default_model(), Some(taint.model())),
    {
        Self { taint: Some(taint), data: V::default_value() }
    }

    /// An entry holding `value`, owned by no one.
    pub fn new_data(value: V) -> (e: Self)
        ensures
            e.model() == (value.model(), None::<T::Model>),
    {
        Self { data: value, taint: None }
    }
}

/// Two entries are equal when their values are: the taint is not compared.
impl<V: ValueT, T: TaintT> PartialEq for StateEntry<V, T> {
    fn eq(&self, other: &Self) -> (r: bool) {
        self.data.same(&other.data)
    }
}

impl<V: ValueT, T: TaintT> vstd::std_specs::cmp::PartialEqSpecImpl for StateEntry<V, T> {
    open spec fn obeys_eq_spec() -> bool {
        true
    }

    open spec fn eq_spec(&self, other: &Self) -> bool {
        self.model().0 == other.model().0
    }
}

impl<V: ValueT, T: TaintT> Eq for StateEntry<V, T> {}

/// A finite map from keys to entries, kept as a list of pairs in which no key occurs twice.
pub struct KeyedMap<K: StateData, E: StateData> {
    entries: Vec<(K, E)>,
}

/// The map that a state is made of.
pub type MapType<K, V, T> = KeyedMap<K, StateEntry<V, T>>;

impl<K: StateData, E: StateData> View for KeyedMap<K, E> {
    type V = Map<K::Model, E::Model>;

    closed spec fn view(&self) -> Map<K::Model, E::Model> {
        Map::new(
            |k: K::Model| self.key_models().contains(k),
            |k: K::Model| self.entries@[self.key_models().index_of(k)].1.model(),
        )
    }
}

impl<K: StateData, E: StateData> KeyedMap<K, E> {
    /// The models of the keys, in the order in which they are stored.
    pub closed spec fn key_models(&self) -> Seq<K::Model> {
        self.entries@.map_values(|p: (K, E)| p.0.model())
    }

    #[verifier::type_invariant]
    closed spec fn keys_unique(&self) -> bool {
        self.key_models().no_duplicates()
    }

    proof fn lemma_at(&self, i: int)
        requires
            self.keys_unique(),
            0 <= i < self.entries@.len(),
        ensures
            self.key_models()[i] == self.entries@[i].0.model(),
            self@.contains_key(self.entries@[i].0.model()),
            self@[self.entries@[i].0.model()] == self.entries@[i].1.model(),
    {
        let k = self.entries@[i].0.model();
        assert(self.key_models()[i] == k);
        let j = self.key_models().index_of(k);
        assert(self.key_models().contains(k));
        assert(0 <= j < self.key_models().len() && self.key_models()[j] == k);
    }

    /// The keys and the map agree: the map's domain is the set of stored keys and has as many
    /// elements as are stored.
    proof fn lemma_dom(&self)
        requires
            self.keys_unique(),
        ensures
            self@.dom() == self.key_models().to_set(),
            self@.dom().finite(),
            self@.len() == self.count(),
            self.key_models().len() == self.count(),
    {
        assert(self@.dom() =~= self.key_models().to_set());
        self.key_models().unique_seq_to_set();
    }

    /// An empty map.
    pub fn new() -> (m: Self)
        ensures
            m@ == Map::<K::Model, E::Model>::empty(),
    {
        let m = KeyedMap { entries: Vec::new() };
        assert(m@ =~= Map::<K::Model, E::Model>::empty());
        m
    }

    /// An empty map with room for `capacity` entries.
    pub fn with_capacity(capacity: usize) -> (m: Self)
        ensures
            m@ == Map::<K::Model, E::Model>::empty(),
    {
        let m = KeyedMap { entries: Vec::with_capacity(capacity) };
        assert(m@ =~= Map::<K::Model, E::Model>::empty());
        m
    }

    /// The number of entries.
    pub fn len(&self) -> (n: usize)
        ensures
            n == self@.len(),
            n == self.count(),
            self@.dom().finite(),
            forall|i: int| 0 <= i < self.count() ==> #[trigger] self@.contains_key(self.key_at(i)),
            forall|k: K::Model| #[trigger] self@.contains_key(k) ==> exists|i: int| 0 <= i < self.count() && self.key_at(i) == k,
            forall|i: int, j: int| 0 <= i < self.count() && 0 <= j < self.count() && i != j ==> self.key_at(i) != self.key_at(j),
    {
        proof {
            use_type_invariant(self);
            self.lemma_positions();
            self.lemma_dom();
        }
        self.entries.len()
    }

    /// The position of `key`, if it is stored.
    fn find(&self, key: &K) -> (r: Option<usize>)
        ensures
            match r {
                Some(i) => i < self.entries@.len() && self.entries@[i as int].0.model() == key.model(),
                None => !self@.contains_key(key.model()),
            },
    {
        proof {
            use_type_invariant(self);
        }
        let mut i: usize = 0;
        while i < self.entries.len()
            invariant
                i <= self.entries@.len(),
                self.key_models().len() == self.entries@.len(),
                forall|j: int| 0 <= j < i ==> self.key_models()[j] != key.model(),
            decreases self.entries@.len() - i,
        {
            if self.entries[i].0.same(key) {
                return Some(i);
            }
            i = i + 1;
        }
        None
    }

    /// The number of stored entries, as a specification value.
    pub closed spec fn count(&self) -> nat {
        self.entries@.len()
    }

    /// The key stored at position `i`, in storage order.
    pub closed spec fn key_at(&self, i: int) -> K::Model {
        self.entries@[i].0.model()
    }

    /// The entry stored at position `i` together with its key.
    pub fn entry_at(&self, i: usize) -> (r: (&K, &E))
        requires
            i < self.count(),
        ensures
            r.0.model() == self.key_at(i as int),
            self@.contains_key(self.key_at(i as int)),
            r.1.model() == self@[self.key_at(i as int)],
    {
        proof {
            use_type_invariant(self);
            self.lemma_at(i as int);
        }
        let p = &self.entries[i];
        (&p.0, &p.1)
    }

    /// Positions enumerate the keys: every stored key is at some position, no two positions
    /// hold the same key, and the count is the size of the map.
    proof fn lemma_positions(&self)
        requires
            self.keys_unique(),
        ensures
            self.count() == self@.len(),
            forall|i: int| 0 <= i < self.count() ==> #[trigger] self@.contains_key(self.key_at(i)),
            forall|k: K::Model| #[trigger] self@.contains_key(k) ==> exists|i: int| 0 <= i < self.count() && self.key_at(i) == k,
            forall|i: int, j: int| 0 <= i < self.count() && 0 <= j < self.count() && i != j ==> self.key_at(i) != self.key_at(j),
    {
        self.lemma_dom();
        assert forall|i: int| 0 <= i < self.count() implies #[trigger] self@.contains_key(self.key_at(i)) by {
            self.lemma_at(i);
        }
        assert forall|k: K::Model| #[trigger] self@.contains_key(k) implies exists|i: int| 0 <= i < self.count() && self.key_at(i) == k by {
            let i = self.key_models().index_of(k);
            assert(self.key_models()[i] == self.key_at(i));
        }
        assert forall|i: int, j: int| 0 <= i < self.count() && 0 <= j < self.count() && i != j implies self.key_at(i) != self.key_at(j) by {
            assert(self.key_models()[i] == self.key_at(i));
            assert(self.key_models()[j] == self.key_at(j));
        }
    }

    /// The entry of `key`, if it is stored.
    pub fn get(&self, key: &K) -> (r: Option<&E>)
        ensures
            match r {
                Some(e) => self@.contains_key(key.model()) && e.model() == self@[key.model()],
                None => !self@.contains_key(key.model()),
            },
    {
        proof {
            use_type_invariant(self);
        }
        match self.find(key) {
            Some(i) => {
                proof {
                    self.lemma_at(i as int);
                }
                Some(&self.entries[i].1)
            },
            None => None,
        }
    }

    /// True if `key` is stored.
    pub fn contains_key(&self, key: &K) -> (b: bool)
        ensures
            b == self@.contains_key(key.model()),
    {
        proof {
            use_type_invariant(self);
        }
        match self.find(key) {
            Some(i) => {
                proof {
                    self.lemma_at(i as int);
                }
                true
            },
            None => false,
        }
    }

    /// Store `value` at `key`, replacing what was there.
    pub fn insert(&mut self, key: K, value: E)
        ensures
            final(self)@ == old(self)@.insert(key.model(), value.model()),
    {
        proof {
            use_type_invariant(&*self);
        }
        let ghost old_keys = self.key_models();
        let found = self.find(&key);
        let mut entries: Vec<(K, E)> = Vec::new();
        std::mem::swap(&mut entries, &mut self.entries);
        let ghost km = key.model();
        let ghost vm = value.model();
        match found {
            Some(i) => {
                entries.set(i, (key, value));
                proof {
                    let ks = entries@.map_values(|p: (K, E)| p.0.model());
                    assert(ks =~= old_keys);
                }
            },
            None => {
                entries.push((key, value));
                proof {
                    let ks = entries@.map_values(|p: (K, E)| p.0.model());
                    assert(ks =~= old_keys.push(km));
                    assert(!old_keys.contains(km));
                }
            },
        }
        self.entries = entries;
        proof {
            use_type_invariant(&*self);
            let new_map = old(self)@.insert(km, vm);
            assert forall|k: K::Model| #[trigger] self@.contains_key(k) == new_map.contains_key(k) by {
                if self@.contains_key(k) {
                    let j = self.key_models().index_of(k);
                    self.lemma_at(j);
                    if k != km {
                        if found is Some {
                            assert(old(self).key_models()[j] == k);
                        } else {
                            assert(j < old(self).entries@.len());
                            assert(old(self).key_models()[j] == k);
                        }
                    }
                }
                if new_map.contains_key(k) && k != km {
                    let j = old(self).key_models().index_of(k);
                    assert(old(self).key_models()[j] == k);
                    assert(self.key_models()[j] == k);
                }
                if k == km {
                    match found {
                        Some(i) => { assert(self.key_models()[i as int] == km); },
                        None => { assert(self.key_models()[old(self).entries@.len() as int] == km); },
                    }
                }
            }
            let pos: int = match found {
                Some(i) => i as int,
                None => old(self).entries@.len() as int,
            };
            self.lemma_at(pos);
            assert(self.entries@[pos].0.model() == km);
            assert forall|k: K::Model| #[trigger] self@.contains_key(k) implies self@[k] == new_map[k] by {
                if k != km {
                    let j = self.key_models().index_of(k);
                    self.lemma_at(j);
                    assert(j != pos);
                    assert(j < old(self).entries@.len());
                    assert(self.entries@[j] == old(self).entries@[j]);
                    old(self).lemma_at(j);
                }
            }
            assert(self@ =~= new_map);
        }
    }

    /// Remove every entry.
    pub fn clear(&mut self)
        ensures
            final(self)@ == Map::<K::Model, E::Model>::empty(),
    {
        self.entries = Vec::new();
        assert(self@ =~= Map::<K::Model, E::Model>::empty());
    }

    /// A copy of this map.
    pub fn duplicate_map(&self) -> (m: Self)
        ensures
            m@ == self@,
    {
        proof {
            use_type_invariant(self);
        }
        let mut entries: Vec<(K, E)> = Vec::new();
        let mut i: usize = 0;
        while i < self.entries.len()
            invariant
                i <= self.entries@.len(),
                entries@.len() == i,
                forall|j: int| 0 <= j < i ==> #[trigger] entries@[j].0.model() == self.entries@[j].0.model()
                    && entries@[j].1.model() == self.entries@[j].1.model(),
            decreases self.entries@.len() - i,
        {
            let p = &self.entries[i];
            entries.push((p.0.duplicate(), p.1.duplicate()));
            i = i + 1;
        }
        proof {
            assert(entries@.map_values(|p: (K, E)| p.0.model()) =~= self.key_models());
        }
        let m = KeyedMap { entries };
        proof {
            use_type_invariant(&m);
            assert forall|k: K::Model| #[trigger] m@.contains_key(k) implies m@[k] == self@[k] by {
                let j = m.key_models().index_of(k);
                m.lemma_at(j);
                self.lemma_at(j);
            }
            assert(m@ =~= self@);
        }
        m
    }
}

} // verus!

verus! {

/// The model of a state: each key holds a value and, possibly, the thread that owns it.
pub type StateModel<KM, VM, TM> = Map<KM, (VM, Option<TM>)>;

/// The thread that owns `k`, if `k` is stored and owned.
pub open spec fn owner_of<KM, VM, TM>(m: StateModel<KM, VM, TM>, k: KM) -> Option<TM> {
    if m.contains_key(k) {
        m[k].1
    } else {
        None
    }
}

/// The value stored at `k`, or `dflt` if `k` is not stored.
pub open spec fn value_or<KM, VM, TM>(m: StateModel<KM, VM, TM>, k: KM, dflt: VM) -> VM {
    if m.contains_key(k) {
        m[k].0
    } else {
        dflt
    }
}

/// Whether thread `cur` may access `k`: nobody else owns it.
pub open spec fn accessible<KM, VM, TM>(m: StateModel<KM, VM, TM>, k: KM, cur: TM) -> bool {
    match owner_of(m, k) {
        Some(o) => o == cur,
        None => true,
    }
}

/// The outcome of a tainting read of `k` by `cur`: if another thread owns `k`, the read is
/// refused with that owner and nothing changes; else the value (or the default) is returned and
/// `cur` becomes the owner of `k`.
pub open spec fn read_outcome<KM, VM, TM>(
    m: StateModel<KM, VM, TM>,
    k: KM,
    cur: TM,
    dflt: VM,
) -> (Result<VM, TM>, StateModel<KM, VM, TM>) {
    if accessible(m, k, cur) {
        (Ok(value_or(m, k, dflt)), m.insert(k, (value_or(m, k, dflt), Some(cur))))
    } else {
        (Err(owner_of(m, k).unwrap()), m)
    }
}

/// The outcome of a tainting write of `v` at `k` by `cur`: if another thread owns `k`, the write
/// is refused with that owner and nothing changes; else `k` holds `v` and is owned by `cur`.
pub open spec fn write_outcome<KM, VM, TM>(
    m: StateModel<KM, VM, TM>,
    k: KM,
    v: VM,
    cur: TM,
) -> (Result<(), TM>, StateModel<KM, VM, TM>) {
    if accessible(m, k, cur) {
        (Ok(()), m.insert(k, (v, Some(cur))))
    } else {
        (Err(owner_of(m, k).unwrap()), m)
    }
}

/// The model of a read result.
pub open spec fn value_result_model<V: ValueT, T: TaintT>(r: Result<V, T>) -> Result<V::Model, T::Model> {
    match r {
        Ok(v) => Ok(v.model()),
        Err(t) => Err(t.model()),
    }
}

/// The model of a write result.
pub open spec fn unit_result_model<T: TaintT>(r: Result<(), T>) -> Result<(), T::Model> {
    match r {
        Ok(()) => Ok(()),
        Err(t) => Err(t.model()),
    }
}

/// Equality of two state dumps: same keys, and the same value at each key. Taints are ignored.
pub open spec fn dumps_equal<KM, VM, TM>(a: StateModel<KM, VM, TM>, b: StateModel<KM, VM, TM>) -> bool {
    &&& a.dom() == b.dom()
    &&& forall|k: KM| #[trigger] a.contains_key(k) ==> a[k].0 == b[k].0
}

/// Extension trait to check the equality of two state dumps.
pub trait StateEq: Sized {
    spec fn spec_state_eq(&self, other: &Self) -> bool;

    fn state_eq(&self, other: Self) -> (b: bool)
        ensures
            b == self.spec_state_eq(&other),
    ;
}

impl<K: KeyT, V: ValueT, T: TaintT> StateEq for KeyedMap<K, StateEntry<V, T>> {
    open spec fn spec_state_eq(&self, other: &Self) -> bool {
        dumps_equal(self@, other@)
    }

    fn state_eq(&self, other: Self) -> (b: bool) {
        let n = self.len();
        let mut i: usize = 0;
        while i < n
            invariant
                n == self.count(),
                n == self@.len(),
                forall|j: int| 0 <= j < n ==> #[trigger] self@.contains_key(self.key_at(j)),
                forall|k: K::Model| #[trigger] self@.contains_key(k) ==> exists|j: int| 0 <= j < n && self.key_at(j) == k,
                i <= n,
                forall|j: int| 0 <= j < i ==> #[trigger] other@.contains_key(self.key_at(j))
                    && other@[self.key_at(j)].0 == self@[self.key_at(j)].0,
            decreases n - i,
        {
            let (k, e) = self.entry_at(i);
            match other.get(k) {
                Some(oe) => {
                    if !e.data().same(&oe.data()) {
                        return false;
                    }
                },
                None => {
                    return false;
                },
            }
            i = i + 1;
        }
        let m = other.len();
        proof {
            assert forall|k: K::Model| #[trigger] self@.contains_key(k) implies other@.contains_key(k)
                && other@[k].0 == self@[k].0 by {
                let j = choose|j: int| 0 <= j < n && self.key_at(j) == k;
                assert(other@.contains_key(self.key_at(j)));
            }
            assert(self@.dom().subset_of(other@.dom()));
        }
        if n != m {
            return false;
        }
        proof {
            vstd::set_lib::lemma_subset_equality(self@.dom(), other@.dom());
        }
        true
    }
}

/// The operations of a state database.
pub trait GenericState<K, V, T> {
    /// Read the state entry at `key` on behalf of `current`, tainting it.
    fn read(&mut self, key: &K, current: T) -> Result<V, T>;

    /// Write `value` at `key` on behalf of `current`, tainting it.
    fn write(&mut self, key: &K, value: V, current: T) -> Result<(), T>;

    /// A read followed by a write of the updated value.
    fn mutate<F: Fn(V) -> V>(&mut self, key: &K, update: F, current: T) -> Result<(), T>
        requires
            forall|v: V| #[trigger] update.requires((v,)),
    ;
}

/// A state that taints each key it gives access to: once a thread has read or written a key, no
/// other thread can access it.
pub struct TaintState<K: KeyT, V: ValueT, T: TaintT> {
    backend: MapType<K, V, T>,
}

impl<K: KeyT, V: ValueT, T: TaintT> View for TaintState<K, V, T> {
    type V = StateModel<K::Model, V::Model, T::Model>;

    closed spec fn view(&self) -> StateModel<K::Model, V::Model, T::Model> {
        self.backend@
    }
}

impl<K: KeyT, V: ValueT, T: TaintT> TaintState<K, V, T> {
    /// An empty state.
    pub fn new() -> (s: Self)
        ensures
            s@ == StateModel::<K::Model, V::Model, T::Model>::empty(),
    {
        Self { backend: KeyedMap::new() }
    }

    /// Consume self and return it in an `Arc`.
    pub fn as_arc(self) -> (a: std::sync::Arc<Self>)
        ensures
            *a == self,
    {
        std::sync::Arc::new(self)
    }

    /// An empty state with room for `capacity` keys.
    pub fn with_capacity(capacity: usize) -> (s: Self)
        ensures
            s@ == StateModel::<K::Model, V::Model, T::Model>::empty(),
    {
        Self { backend: KeyedMap::with_capacity(capacity) }
    }

    /// Store `value` at `at`, whoever owns it.
    pub fn unsafe_insert(&mut self, at: &K, value: StateEntry<V, T>)
        ensures
            final(self)@ == old(self)@.insert(at.model(), value.model()),
    {
        self.backend.insert(at.duplicate(), value);
    }

    /// Store `value` at `at` with no owner, whoever owned it.
    pub fn unsafe_insert_genesis_value(&mut self, at: &K, value: V)
        ensures
            final(self)@ == old(self)@.insert(at.model(), (value.model(), None::<T::Model>)),
    {
        self.backend.insert(at.duplicate(), StateEntry::new_data(value));
    }

    /// A copy of the whole state.
    pub fn dump(&self) -> (m: MapType<K, V, T>)
        ensures
            m@ == self@,
    {
        self.backend.duplicate_map()
    }

    /// Insert every entry of `initial` into self, keeping its taint.
    pub fn unsafe_duplicate(&mut self, initial: Self)
        ensures
            final(self)@ == old(self)@.union_prefer_right(initial@),
    {
        let n = initial.backend.len();
        let mut i: usize = 0;
        while i < n
            invariant
                n == initial.backend.count(),
                forall|j: int| 0 <= j < n ==> #[trigger] initial@.contains_key(initial.backend.key_at(j)),
                forall|k: K::Model| #[trigger] initial@.contains_key(k) ==> exists|j: int| 0 <= j < n && initial.backend.key_at(j) == k,
                i <= n,
                self@ == old(self)@.union_prefer_right(
                    initial@.restrict(Set::new(|k: K::Model| exists|j: int| 0 <= j < i && initial.backend.key_at(j) == k)),
                ),
            decreases n - i,
        {
            let ghost before = self@;
            let (k, e) = initial.backend.entry_at(i);
            self.backend.insert(k.duplicate(), e.duplicate());
            proof {
                let s_old = Set::new(|k: K::Model| exists|j: int| 0 <= j < i && initial.backend.key_at(j) == k);
                let s_new = Set::new(|k: K::Model| exists|j: int| 0 <= j < i + 1 && initial.backend.key_at(j) == k);
                assert(s_new =~= s_old.insert(initial.backend.key_at(i as int)));
                assert(self@ =~= old(self)@.union_prefer_right(initial@.restrict(s_new)));
            }
            i = i + 1;
        }
        proof {
            let s = Set::new(|k: K::Model| exists|j: int| 0 <= j < n && initial.backend.key_at(j) == k);
            assert(initial@.restrict(s) =~= initial@);
        }
    }

    /// Remove every entry.
    pub fn unsafe_clean(&mut self)
        ensures
            final(self)@ == StateModel::<K::Model, V::Model, T::Model>::empty(),
    {
        self.backend.clear();
    }

    /// The number of keys in the state.
    pub fn unsafe_len(&self) -> (n: usize)
        ensures
            n == self@.len(),
            self@.dom().finite(),
    {
        self.backend.len()
    }

    /// The value at `key`, whoever owns it.
    pub fn unsafe_read_value(&self, key: &K) -> (r: Option<V>)
        ensures
            match r {
                Some(v) => self@.contains_key(key.model()) && v.model() == self@[key.model()].0,
                None => !self@.contains_key(key.model()),
            },
    {
        match self.unsafe_read(key) {
            Some(e) => Some(e.data()),
            None => None,
        }
    }

    /// The owner of `key`, if it is stored and owned.
    pub fn unsafe_read_taint(&self, key: &K) -> (r: Option<T>)
        ensures
            taint_model(r) == owner_of(self@, key.model()),
    {
        match self.unsafe_read(key) {
            Some(e) => e.taint(),
            None => None,
        }
    }

    /// A copy of the entry at `key`, whoever owns it.
    pub fn unsafe_read(&self, key: &K) -> (r: Option<StateEntry<V, T>>)
        ensures
            match r {
                Some(e) => self@.contains_key(key.model()) && e.model() == self@[key.model()],
                None => !self@.contains_key(key.model()),
            },
    {
        match self.backend.get(key) {
            Some(e) => Some(e.duplicate()),
            None => None,
        }
    }

    /// The owner and a copy of the value of `key`, if it is stored.
    fn lookup(&self, key: &K) -> (r: Option<(Option<T>, V)>)
        ensures
            match r {
                Some((t, v)) => self@.contains_key(key.model()) && taint_model(t) == self@[key.model()].1
                    && v.model() == self@[key.model()].0,
                None => !self@.contains_key(key.model()),
            },
    {
        match self.backend.get(key) {
            Some(e) => Some((e.taint(), e.data())),
            None => None,
        }
    }
}

impl<K: KeyT, V: ValueT, T: TaintT> GenericState<K, V, T> for TaintState<K, V, T> {
    fn read(&mut self, key: &K, current: T) -> (r: Result<V, T>)
        ensures
            value_result_model(r) == read_outcome(old(self)@, key.model(), current.model(), V::default_model()).0,
            final(self)@ == read_outcome(old(self)@, key.model(), current.model(), V::default_model()).1,
    {
        match self.lookup(key) {
            Some((Some(owner), data)) => {
                if owner.same(&current) {
                    proof {
                        assert(self@.insert(key.model(), (data.model(), Some(current.model()))) =~= self@);
                    }
                    Ok(data)
                } else {
                    Err(owner)
                }
            },
            Some((None, data)) => {
                // the entry exists but nobody owns it: taint it and read.
                self.backend.insert(key.duplicate(), StateEntry::new(data.duplicate(), current));
                Ok(data)
            },
            None => {
                // the entry does not exist: taint it with the default value.
                self.backend.insert(key.duplicate(), StateEntry::new_taint(current));
                Ok(V::default_value())
            },
        }
    }

    fn write(&mut self, key: &K, value: V, current: T) -> (r: Result<(), T>)
        ensures
            unit_result_model(r) == write_outcome(old(self)@, key.model(), value.model(), current.model()).0,
            final(self)@ == write_outcome(old(self)@, key.model(), value.model(), current.model()).1,
    {
        match self.lookup(key) {
            Some((Some(owner), _)) => {
                if owner.same(&current) {
                    self.backend.insert(key.duplicate(), StateEntry::new(value, current));
                    Ok(())
                } else {
                    Err(owner)
                }
            },
            _ => {
                // nobody owns the entry, or it does not exist: taint it and write.
                self.backend.insert(key.duplicate(), StateEntry::new(value, current));
                Ok(())
            },
        }
    }

    fn mutate<F: Fn(V) -> V>(&mut self, key: &K, update: F, current: T) -> (r: Result<(), T>)
        ensures
            match r {
                Ok(()) => accessible(old(self)@, key.model(), current.model()) && exists|v: V, w: V|
                    v.model() == value_or(old(self)@, key.model(), V::default_model())
                    && #[trigger] update.ensures((v,), w)
                    && final(self)@ == old(self)@.insert(key.model(), (w.model(), Some(current.model()))),
                Err(o) => !accessible(old(self)@, key.model(), current.model())
                    && Some(o.model()) == owner_of(old(self)@, key.model())
                    && final(self)@ == old(self)@,
            },
    {
        match self.read(key, current) {
            Ok(v) => {
                let ghost vm = v;
                let w = update(v);
                let r = self.write(key, w, current);
                proof {
                    assert(update.ensures((vm,), w));
                }
                r
            },
            Err(o) => Err(o),
        }
    }
}

} // verus!

verus! {

/// What a thread writes to a key is what that thread reads back from it afterwards, and the
/// read changes nothing.
pub proof fn law_read_after_write<KM, VM, TM>(m: StateModel<KM, VM, TM>, k: KM, v: VM, cur: TM, dflt: VM)
    requires
        write_outcome(m, k, v, cur).0 is Ok,
    ensures
        read_outcome(write_outcome(m, k, v, cur).1, k, cur, dflt) == (Ok::<VM, TM>(v), write_outcome(m, k, v, cur).1),
{
    let m1 = write_outcome(m, k, v, cur).1;
    assert(m1.insert(k, (v, Some(cur))) =~= m1);
}

/// Once a thread has read a key, any other thread is refused access to it, with the reader
/// named as the owner, and the refusal changes nothing.
pub proof fn law_read_taints<KM, VM, TM>(m: StateModel<KM, VM, TM>, k: KM, cur: TM, other: TM, v: VM, dflt: VM)
    requires
        cur != other,
        read_outcome(m, k, cur, dflt).0 is Ok,
    ensures
        read_outcome(read_outcome(m, k, cur, dflt).1, k, other, dflt)
            == (Err::<VM, TM>(cur), read_outcome(m, k, cur, dflt).1),
        write_outcome(read_outcome(m, k, cur, dflt).1, k, v, other)
            == (Err::<(), TM>(cur), read_outcome(m, k, cur, dflt).1),
{
}

/// Once a thread has written a key, any other thread is refused access to it, with the writer
/// named as the owner, and the refusal changes nothing.
pub proof fn law_write_taints<KM, VM, TM>(m: StateModel<KM, VM, TM>, k: KM, cur: TM, other: TM, v: VM, w: VM, dflt: VM)
    requires
        cur != other,
        write_outcome(m, k, v, cur).0 is Ok,
    ensures
        read_outcome(write_outcome(m, k, v, cur).1, k, other, dflt)
            == (Err::<VM, TM>(cur), write_outcome(m, k, v, cur).1),
        write_outcome(write_outcome(m, k, v, cur).1, k, w, other)
            == (Err::<(), TM>(cur), write_outcome(m, k, v, cur).1),
{
}

/// A thread that may access a key keeps that right after its own reads and writes of any key.
pub proof fn law_access_is_kept<KM, VM, TM>(m: StateModel<KM, VM, TM>, k: KM, k2: KM, cur: TM, v: VM, dflt: VM)
    requires
        accessible(m, k2, cur),
    ensures
        accessible(read_outcome(m, k, cur, dflt).1, k2, cur),
        accessible(write_outcome(m, k, v, cur).1, k2, cur),
{
}

/// An access to one key leaves every other key as it was.
pub proof fn law_access_is_local<KM, VM, TM>(m: StateModel<KM, VM, TM>, k: KM, k2: KM, cur: TM, v: VM, dflt: VM)
    requires
        k != k2,
    ensures
        read_outcome(m, k, cur, dflt).1.contains_key(k2) == m.contains_key(k2),
        read_outcome(m, k, cur, dflt).1[k2] == m[k2],
        write_outcome(m, k, v, cur).1.contains_key(k2) == m.contains_key(k2),
        write_outcome(m, k, v, cur).1[k2] == m[k2],
{
}

} // verus!
