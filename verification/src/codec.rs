//! Byte encodings of the values kept in storage, in the SCALE format: integers are written
//! little endian, a sequence is its length in compact form followed by its items.

use vstd::prelude::*;
use parity_scale_codec::{Compact, Decode, Encode};

verus! {

/// `256` to the power `n`.
pub open spec fn pow256(n: nat) -> nat
    decreases n,
{
    if n == 0 {
        1
    } else {
        256 * pow256((n - 1) as nat)
    }
}

/// The `n` low bytes of `x`, least significant first.
pub open spec fn le_bytes(x: nat, n: nat) -> Seq<u8>
    decreases n,
{
    if n == 0 {
        Seq::empty()
    } else {
        seq![(x % 256) as u8] + le_bytes(x / 256, (n - 1) as nat)
    }
}

/// The number whose bytes, least significant first, are `b`.
pub open spec fn from_le(b: Seq<u8>) -> nat
    decreases b.len(),
{
    if b.len() == 0 {
        0
    } else {
        b[0] as nat + 256 * from_le(b.drop_first())
    }
}

pub proof fn lemma_pow256_positive(n: nat)
    ensures
        pow256(n) >= 1,
    decreases n,
{
    if n > 0 {
        lemma_pow256_positive((n - 1) as nat);
    }
}

pub proof fn lemma_le_bytes_len(x: nat, n: nat)
    ensures
        le_bytes(x, n).len() == n,
    decreases n,
{
    if n > 0 {
        lemma_le_bytes_len(x / 256, (n - 1) as nat);
    }
}

/// Reading back the bytes of a number that fits gives the number.
pub proof fn lemma_from_le_bytes(x: nat, n: nat)
    requires
        x < pow256(n),
    ensures
        from_le(le_bytes(x, n)) == x,
    decreases n,
{
    if n > 0 {
        let p = pow256((n - 1) as nat);
        assert(x / 256 < p) by (nonlinear_arith)
            requires
                x < 256 * p,
        ;
        lemma_from_le_bytes(x / 256, (n - 1) as nat);
        let s = le_bytes(x, n);
        assert(s.drop_first() =~= le_bytes(x / 256, (n - 1) as nat));
    } else {
        assert(x == 0);
    }
}

/// The number read from `b` is below `256 ^ b.len()`.
pub proof fn lemma_from_le_bound(b: Seq<u8>)
    ensures
        from_le(b) < pow256(b.len()),
    decreases b.len(),
{
    if b.len() > 0 {
        lemma_from_le_bound(b.drop_first());
        let r = from_le(b.drop_first());
        let p = pow256(b.drop_first().len());
        assert(b[0] as nat + 256 * r < 256 * p) by (nonlinear_arith)
            requires
                r < p,
                b[0] < 256,
        ;
    }
}

/// Writing the number read from `b` gives back `b`.
pub proof fn lemma_le_bytes_from_le(b: Seq<u8>)
    ensures
        le_bytes(from_le(b), b.len()) == b,
    decreases b.len(),
{
    if b.len() > 0 {
        lemma_le_bytes_from_le(b.drop_first());
        let r = from_le(b.drop_first());
        let x = b[0] as nat + 256 * r;
        assert(x % 256 == b[0] as nat);
        assert(x / 256 == r);
        assert(le_bytes(x, b.len()) =~= seq![b[0]] + le_bytes(r, b.drop_first().len()));
        assert(b =~= seq![b[0]] + b.drop_first());
    }
}

/// Fixed-width little-endian reading is the inverse of writing, whatever follows.
pub proof fn lemma_fixed_roundtrip(x: nat, n: nat, rest: Seq<u8>)
    requires
        x < pow256(n),
    ensures
        (le_bytes(x, n) + rest).len() >= n,
        (le_bytes(x, n) + rest).take(n as int) == le_bytes(x, n),
        from_le((le_bytes(x, n) + rest).take(n as int)) == x,
{
    lemma_le_bytes_len(x, n);
    assert((le_bytes(x, n) + rest).take(n as int) =~= le_bytes(x, n));
    lemma_from_le_bytes(x, n);
}

/// The number read from the first `n` bytes is written back as those bytes.
pub proof fn lemma_fixed_canonical(b: Seq<u8>, n: nat)
    requires
        b.len() >= n,
    ensures
        from_le(b.take(n as int)) < pow256(n),
        starts_with(b, le_bytes(from_le(b.take(n as int)), n)),
{
    lemma_from_le_bound(b.take(n as int));
    lemma_le_bytes_from_le(b.take(n as int));
}

pub proof fn lemma_pow256_values()
    ensures
        pow256(1) == 256,
        pow256(2) == 65536,
        pow256(4) == 4294967296,
        pow256(16) == 340282366920938463463374607431768211456,
{
    reveal_with_fuel(pow256, 17);
}

/// Prefix test on byte sequences.
pub open spec fn starts_with(b: Seq<u8>, prefix: Seq<u8>) -> bool {
    prefix.len() <= b.len() && b.take(prefix.len() as int) == prefix
}

/// The compact encoding of a length.
pub open spec fn compact_encoding(n: u32) -> Seq<u8> {
    if n < 64 {
        seq![(n * 4) as u8]
    } else if n < 16384 {
        le_bytes((n * 4 + 1) as nat, 2)
    } else if n < 1073741824 {
        le_bytes((n * 4 + 2) as nat, 4)
    } else {
        seq![3u8] + le_bytes(n as nat, 4)
    }
}

/// The length whose compact encoding is at the front of `b`, if there is one.
pub open spec fn compact_prefix(b: Seq<u8>) -> Option<u32> {
    if exists|n: u32| #[trigger] starts_with(b, compact_encoding(n)) {
        Some(choose|n: u32| #[trigger] starts_with(b, compact_encoding(n)))
    } else {
        None
    }
}

/// The size class of a compact length: the two low bits of its first byte.
pub open spec fn compact_class(n: u32) -> int {
    if n < 64 {
        0
    } else if n < 16384 {
        1
    } else if n < 1073741824 {
        2
    } else {
        3
    }
}

proof fn lemma_compact_shape(n: u32)
    ensures
        compact_encoding(n).len() == (if n < 64 { 1int } else if n < 16384 { 2int } else if n < 1073741824 { 4int } else { 5int }),
        compact_encoding(n)[0] % 4 == compact_class(n),
{
    lemma_pow256_values();
    if n < 64 {
    } else if n < 16384 {
        lemma_le_bytes_len((n * 4 + 1) as nat, 2);
        let x = (n * 4 + 1) as nat;
        assert(compact_encoding(n)[0] == (x % 256) as u8);
        assert((x % 256) % 4 == 1);
    } else if n < 1073741824 {
        lemma_le_bytes_len((n * 4 + 2) as nat, 4);
        let x = (n * 4 + 2) as nat;
        assert(compact_encoding(n)[0] == (x % 256) as u8);
        assert((x % 256) % 4 == 2);
    } else {
        lemma_le_bytes_len(n as nat, 4);
    }
}

/// At most one length has its compact encoding at the front of a byte sequence.
pub proof fn lemma_compact_unique(b: Seq<u8>, n: u32, m: u32)
    requires
        starts_with(b, compact_encoding(n)),
        starts_with(b, compact_encoding(m)),
    ensures
        n == m,
{
    lemma_compact_shape(n);
    lemma_compact_shape(m);
    lemma_pow256_values();
    assert(b[0] == compact_encoding(n)[0]);
    assert(b[0] == compact_encoding(m)[0]);
    assert(compact_class(n) == compact_class(m));
    if n < 64 {
    } else if n < 16384 {
        assert(compact_encoding(n) =~= b.take(2));
        assert(compact_encoding(m) =~= b.take(2));
        lemma_from_le_bytes((n * 4 + 1) as nat, 2);
        lemma_from_le_bytes((m * 4 + 1) as nat, 2);
    } else if n < 1073741824 {
        assert(compact_encoding(n) =~= b.take(4));
        assert(compact_encoding(m) =~= b.take(4));
        lemma_from_le_bytes((n * 4 + 2) as nat, 4);
        lemma_from_le_bytes((m * 4 + 2) as nat, 4);
    } else {
        assert(compact_encoding(n) =~= b.take(5));
        assert(compact_encoding(m) =~= b.take(5));
        assert(compact_encoding(n).drop_first() =~= le_bytes(n as nat, 4));
        assert(compact_encoding(m).drop_first() =~= le_bytes(m as nat, 4));
        lemma_from_le_bytes(n as nat, 4);
        lemma_from_le_bytes(m as nat, 4);
    }
}

/// The compact prefix of an encoded length followed by anything is that length.
pub proof fn lemma_compact_prefix(n: u32, rest: Seq<u8>)
    ensures
        compact_prefix(compact_encoding(n) + rest) == Some(n),
{
    let b = compact_encoding(n) + rest;
    assert(b.take(compact_encoding(n).len() as int) =~= compact_encoding(n));
    assert(starts_with(b, compact_encoding(n)));
    let c = choose|k: u32| #[trigger] starts_with(b, compact_encoding(k));
    lemma_compact_unique(b, n, c);
}

/// A value with a byte encoding: `decoding` reads a value from the front of a byte sequence and
/// ignores what follows it.
pub trait Codec: Sized {
    type Model;

    spec fn value_model(&self) -> Self::Model;

    spec fn encoding(m: Self::Model) -> Seq<u8>;

    spec fn decoding(b: Seq<u8>) -> Option<Self::Model>;

    /// Decoding reads back what was encoded, whatever follows it.
    proof fn lemma_roundtrip(m: Self::Model, rest: Seq<u8>)
        requires
            Self::model_encodable(m),
        ensures
            Self::decoding(Self::encoding(m) + rest) == Some(m),
    ;

    /// A decoded value is read from its own encoding at the front of the bytes.
    proof fn lemma_canonical(b: Seq<u8>)
        ensures
            Self::decoding(b) matches Some(m) ==> starts_with(b, Self::encoding(m)),
    ;

    fn encode(&self) -> (r: Vec<u8>)
        requires
            Self::model_encodable(self.value_model()),
        ensures
            r@ == Self::encoding(self.value_model()),
    ;

    /// Whether a value can be encoded (a sequence too long for a compact length cannot).
    spec fn model_encodable(m: Self::Model) -> bool;

    /// Decode a value from the front of `b`; the number of bytes read is returned with it.
    fn decode(b: &[u8]) -> (r: Option<(Self, usize)>)
        ensures
            match r {
                Some((v, n)) => Self::decoding(b@) == Some(v.value_model()) && n == Self::encoding(v.value_model()).len(),
                None => Self::decoding(b@) is None,
            },
    ;
}

impl Codec for u8 {
    type Model = u8;

    open spec fn value_model(&self) -> u8 {
        *self
    }

    open spec fn encoding(m: u8) -> Seq<u8> {
        seq![m]
    }

    open spec fn decoding(b: Seq<u8>) -> Option<u8> {
        if b.len() >= 1 {
            Some(b[0])
        } else {
            None
        }
    }

    proof fn lemma_roundtrip(m: u8, rest: Seq<u8>) {
    }

    proof fn lemma_canonical(b: Seq<u8>) {
        if b.len() >= 1 {
            assert(b.take(1) =~= seq![b[0]]);
        }
    }

    open spec fn model_encodable(m: Self::Model) -> bool {
        true
    }

    fn encode(&self) -> (r: Vec<u8>) {
        scale_encode_u8(*self)
    }

    fn decode(b: &[u8]) -> (r: Option<(u8, usize)>) {
        match scale_decode_u8(b) {
            Some(v) => Some((v, 1)),
            None => None,
        }
    }
}

impl Codec for u32 {
    type Model = u32;

    open spec fn value_model(&self) -> u32 {
        *self
    }

    open spec fn encoding(m: u32) -> Seq<u8> {
        le_bytes(m as nat, 4)
    }

    open spec fn decoding(b: Seq<u8>) -> Option<u32> {
        if b.len() >= 4 {
            Some(from_le(b.take(4)) as u32)
        } else {
            None
        }
    }

    proof fn lemma_roundtrip(m: u32, rest: Seq<u8>) {
        lemma_pow256_values();
        lemma_fixed_roundtrip(m as nat, 4, rest);
    }

    proof fn lemma_canonical(b: Seq<u8>) {
        if b.len() >= 4 {
            lemma_pow256_values();
            lemma_fixed_canonical(b, 4);
        }
    }

    open spec fn model_encodable(m: Self::Model) -> bool {
        true
    }

    fn encode(&self) -> (r: Vec<u8>) {
        scale_encode_u32(*self)
    }

    fn decode(b: &[u8]) -> (r: Option<(u32, usize)>) {
        match scale_decode_u32(b) {
            Some(v) => {
                proof {
                    lemma_pow256_values();
                    lemma_fixed_canonical(b@, 4);
                    lemma_le_bytes_len(v as nat, 4);
                }
                Some((v, 4))
            },
            None => None,
        }
    }
}

impl Codec for u128 {
    type Model = u128;

    open spec fn value_model(&self) -> u128 {
        *self
    }

    open spec fn encoding(m: u128) -> Seq<u8> {
        le_bytes(m as nat, 16)
    }

    open spec fn decoding(b: Seq<u8>) -> Option<u128> {
        if b.len() >= 16 {
            Some(from_le(b.take(16)) as u128)
        } else {
            None
        }
    }

    proof fn lemma_roundtrip(m: u128, rest: Seq<u8>) {
        lemma_pow256_values();
        lemma_fixed_roundtrip(m as nat, 16, rest);
    }

    proof fn lemma_canonical(b: Seq<u8>) {
        if b.len() >= 16 {
            lemma_pow256_values();
            lemma_fixed_canonical(b, 16);
        }
    }

    open spec fn model_encodable(m: Self::Model) -> bool {
        true
    }

    fn encode(&self) -> (r: Vec<u8>) {
        scale_encode_u128(*self)
    }

    fn decode(b: &[u8]) -> (r: Option<(u128, usize)>) {
        match scale_decode_u128(b) {
            Some(v) => {
                proof {
                    lemma_pow256_values();
                    lemma_fixed_canonical(b@, 16);
                    lemma_le_bytes_len(v as nat, 16);
                }
                Some((v, 16))
            },
            None => None,
        }
    }
}

/// The encodings of the items of a sequence, one after the other.
pub open spec fn items_encoding<T: Codec>(s: Seq<T::Model>) -> Seq<u8>
    decreases s.len(),
{
    if s.len() == 0 {
        Seq::empty()
    } else {
        T::encoding(s[0]) + items_encoding::<T>(s.drop_first())
    }
}

/// Decode `n` items one after the other from the front of `b`.
pub open spec fn items_decoding<T: Codec>(b: Seq<u8>, n: nat) -> Option<Seq<T::Model>>
    decreases n,
{
    if n == 0 {
        Some(Seq::empty())
    } else {
        match T::decoding(b) {
            Some(m) => match items_decoding::<T>(b.skip(T::encoding(m).len() as int), (n - 1) as nat) {
                Some(r) => Some(seq![m] + r),
                None => None,
            },
            None => None,
        }
    }
}

pub proof fn lemma_items_encoding_append<T: Codec>(a: Seq<T::Model>, b: Seq<T::Model>)
    ensures
        items_encoding::<T>(a + b) == items_encoding::<T>(a) + items_encoding::<T>(b),
    decreases a.len(),
{
    if a.len() > 0 {
        lemma_items_encoding_append::<T>(a.drop_first(), b);
        assert((a + b).drop_first() =~= a.drop_first() + b);
        assert((a + b)[0] == a[0]);
        assert(items_encoding::<T>(a + b) =~= T::encoding(a[0]) + (items_encoding::<T>(a.drop_first()) + items_encoding::<T>(b)));
    } else {
        assert(a + b =~= b);
    }
}

pub proof fn lemma_items_single<T: Codec>(x: T::Model)
    ensures
        items_encoding::<T>(seq![x]) == T::encoding(x),
{
    let s = seq![x];
    assert(s.drop_first() =~= Seq::<T::Model>::empty());
    assert(items_encoding::<T>(s.drop_first()) == Seq::<u8>::empty());
    assert(items_encoding::<T>(s) =~= T::encoding(x));
}

pub proof fn lemma_items_roundtrip<T: Codec>(s: Seq<T::Model>, rest: Seq<u8>)
    requires
        forall|i: int| 0 <= i < s.len() ==> T::model_encodable(#[trigger] s[i]),
    ensures
        items_decoding::<T>(items_encoding::<T>(s) + rest, s.len()) == Some(s),
    decreases s.len(),
{
    if s.len() > 0 {
        let tail = s.drop_first();
        let b = items_encoding::<T>(s) + rest;
        let after = items_encoding::<T>(tail) + rest;
        assert(b =~= T::encoding(s[0]) + after);
        T::lemma_roundtrip(s[0], after);
        assert(b.skip(T::encoding(s[0]).len() as int) =~= after);
        assert forall|i: int| 0 <= i < tail.len() implies T::model_encodable(#[trigger] tail[i]) by {
            assert(tail[i] == s[i + 1]);
        }
        lemma_items_roundtrip::<T>(tail, rest);
        assert(seq![s[0]] + tail =~= s);
    }
}

pub proof fn lemma_items_canonical<T: Codec>(b: Seq<u8>, n: nat)
    ensures
        items_decoding::<T>(b, n) matches Some(s) ==> s.len() == n && starts_with(b, items_encoding::<T>(s)),
    decreases n,
{
    if n > 0 {
        T::lemma_canonical(b);
        match T::decoding(b) {
            Some(m) => {
                let k = T::encoding(m).len() as int;
                lemma_items_canonical::<T>(b.skip(k), (n - 1) as nat);
                match items_decoding::<T>(b.skip(k), (n - 1) as nat) {
                    Some(r) => {
                        let s = seq![m] + r;
                        assert(s.drop_first() =~= r);
                        assert(items_encoding::<T>(s) =~= T::encoding(m) + items_encoding::<T>(r));
                        assert(b.take(items_encoding::<T>(s).len() as int) =~= b.take(k) + b.skip(k).take(items_encoding::<T>(r).len() as int));
                    },
                    None => {},
                }
            },
            None => {},
        }
    } else {
        assert(b.take(0) =~= Seq::<u8>::empty());
    }
}

/// The models of the items of a vector.
pub open spec fn models_of<T: Codec>(v: Seq<T>) -> Seq<T::Model> {
    v.map_values(|x: T| x.value_model())
}

/// The number of bytes of the compact encoding of `n`.
fn compact_len(n: u32) -> (k: usize)
    ensures
        k == compact_encoding(n).len(),
{
    proof {
        lemma_compact_shape(n);
    }
    if n < 64 {
        1
    } else if n < 16384 {
        2
    } else if n < 1073741824 {
        4
    } else {
        5
    }
}

impl<T: Codec> Codec for Vec<T> {
    type Model = Seq<T::Model>;

    open spec fn value_model(&self) -> Seq<T::Model> {
        models_of(self@)
    }

    open spec fn encoding(m: Seq<T::Model>) -> Seq<u8> {
        compact_encoding(m.len() as u32) + items_encoding::<T>(m)
    }

    open spec fn decoding(b: Seq<u8>) -> Option<Seq<T::Model>> {
        match compact_prefix(b) {
            Some(n) => items_decoding::<T>(b.skip(compact_encoding(n).len() as int), n as nat),
            None => None,
        }
    }

    open spec fn model_encodable(m: Seq<T::Model>) -> bool {
        m.len() <= u32::MAX && forall|i: int| 0 <= i < m.len() ==> T::model_encodable(#[trigger] m[i])
    }

    proof fn lemma_roundtrip(m: Seq<T::Model>, rest: Seq<u8>) {
        let n = m.len() as u32;
        let b = compact_encoding(n) + items_encoding::<T>(m) + rest;
        assert(b =~= compact_encoding(n) + (items_encoding::<T>(m) + rest));
        lemma_compact_prefix(n, items_encoding::<T>(m) + rest);
        assert(b.skip(compact_encoding(n).len() as int) =~= items_encoding::<T>(m) + rest);
        lemma_items_roundtrip::<T>(m, rest);
    }

    proof fn lemma_canonical(b: Seq<u8>) {
        match compact_prefix(b) {
            Some(n) => {
                let c = compact_encoding(n).len() as int;
                assert(starts_with(b, compact_encoding(n)));
                lemma_items_canonical::<T>(b.skip(c), n as nat);
                match items_decoding::<T>(b.skip(c), n as nat) {
                    Some(s) => {
                        assert(s.len() as u32 == n);
                        let e = items_encoding::<T>(s);
                        assert(b.take(c + e.len()) =~= b.take(c) + b.skip(c).take(e.len() as int));
                    },
                    None => {},
                }
            },
            None => {},
        }
    }

    fn encode(&self) -> (r: Vec<u8>) {
        let n = self.len();
        assert(models_of(self@).len() == n);
        let mut r = scale_encode_compact(n as u32);
        let ghost c = r@;
        let mut i: usize = 0;
        while i < n
            invariant
                n == self@.len(),
                n <= u32::MAX,
                i <= n,
                c == compact_encoding(n as u32),
                forall|j: int| 0 <= j < n ==> T::model_encodable(#[trigger] models_of(self@)[j]),
                r@ == c + items_encoding::<T>(models_of(self@).take(i as int)),
            decreases n - i,
        {
            assert(models_of(self@)[i as int] == self@[i as int].value_model());
            let mut e = self[i].encode();
            let ghost before = r@;
            r.append(&mut e);
            proof {
                let ms = models_of(self@);
                assert(ms.take(i + 1) =~= ms.take(i as int) + seq![ms[i as int]]);
                lemma_items_encoding_append::<T>(ms.take(i as int), seq![ms[i as int]]);
                lemma_items_single::<T>(ms[i as int]);
                assert(r@ =~= c + items_encoding::<T>(ms.take(i + 1)));
            }
            i = i + 1;
        }
        proof {
            assert(models_of(self@).take(n as int) =~= models_of(self@));
        }
        r
    }

    fn decode(b: &[u8]) -> (r: Option<(Vec<T>, usize)>) {
        let n = match scale_decode_compact(b) {
            Some(n) => n,
            None => {
                return None;
            },
        };
        let start = compact_len(n);
        proof {
            assert(starts_with(b@, compact_encoding(n))) by {
                let c = choose|k: u32| #[trigger] starts_with(b@, compact_encoding(k));
                assert(starts_with(b@, compact_encoding(c)));
            }
        }
        let mut items: Vec<T> = Vec::new();
        let mut offset: usize = start;
        let mut i: u32 = 0;
        while i < n
            invariant
                start <= offset <= b@.len(),
                start == compact_encoding(n).len(),
                compact_prefix(b@) == Some(n),
                i <= n,
                models_of(items@).len() == i,
                offset - start == items_encoding::<T>(models_of(items@)).len(),
                b@.skip(start as int).take(offset - start) == items_encoding::<T>(models_of(items@)),
                items_decoding::<T>(b@.skip(start as int), n as nat) == match items_decoding::<T>(b@.skip(offset as int), (n - i) as nat) {
                    Some(rest) => Some(models_of(items@) + rest),
                    None => None::<Seq<T::Model>>,
                },
            decreases n - i,
        {
            let rest = vstd::slice::slice_subrange(b, offset, b.len());
            assert(rest@ =~= b@.skip(offset as int));
            match T::decode(rest) {
                Some((v, k)) => {
                    proof {
                        T::lemma_canonical(rest@);
                        let ms = models_of(items@);
                        let m = v.value_model();
                        assert(b@.skip(offset as int).skip(k as int) =~= b@.skip(offset + k));
                        let ms2 = ms.push(m);
                        assert(models_of(items@.push(v)) =~= ms2);
                        lemma_items_encoding_append::<T>(ms, seq![m]);
                        lemma_items_single::<T>(m);
                        assert(ms + seq![m] =~= ms2);
                        assert(b@.skip(start as int).take(offset + k - start) =~= b@.skip(start as int).take(offset - start) + b@.skip(offset as int).take(k as int));
                        match items_decoding::<T>(b@.skip(offset + k), (n - i - 1) as nat) {
                            Some(r2) => {
                                assert(ms + (seq![m] + r2) =~= ms2 + r2);
                            },
                            None => {},
                        }
                    }
                    items.push(v);
                    offset = offset + k;
                },
                None => {
                    return None;
                },
            }
            i = i + 1;
        }
        proof {
            assert(models_of(items@) + Seq::<T::Model>::empty() =~= models_of(items@));
            lemma_compact_shape(n);
        }
        Some((items, offset))
    }
}

/// The SCALE encoding of a `u8` (`Encode for u8` in parity-scale-codec): the byte itself.
#[verifier::external_body]
fn scale_encode_u8(x: u8) -> (r: Vec<u8>)
    ensures
        r@ == seq![x],
{
    Encode::encode(&x)
}

/// The SCALE encoding of a `u32` (`Encode for u32` in parity-scale-codec): its four bytes, least
/// significant first.
#[verifier::external_body]
fn scale_encode_u32(x: u32) -> (r: Vec<u8>)
    ensures
        r@ == le_bytes(x as nat, 4),
{
    Encode::encode(&x)
}

/// The SCALE encoding of a `u128` (`Encode for u128` in parity-scale-codec): its sixteen bytes,
/// least significant first.
#[verifier::external_body]
fn scale_encode_u128(x: u128) -> (r: Vec<u8>)
    ensures
        r@ == le_bytes(x as nat, 16),
{
    Encode::encode(&x)
}

/// The SCALE encoding of a byte array (`Encode for [u8; 32]` in parity-scale-codec): the bytes.
#[verifier::external_body]
pub(crate) fn scale_encode_array32(a: &[u8; 32]) -> (r: Vec<u8>)
    ensures
        r@ == a@,
{
    Encode::encode(a)
}

/// The SCALE compact encoding of a length (`Encode for Compact<u32>` in parity-scale-codec).
#[verifier::external_body]
fn scale_encode_compact(n: u32) -> (r: Vec<u8>)
    ensures
        r@ == compact_encoding(n),
{
    Encode::encode(&Compact(n))
}

/// `Decode for u8` in parity-scale-codec: the first byte, if there is one.
#[verifier::external_body]
fn scale_decode_u8(b: &[u8]) -> (r: Option<u8>)
    ensures
        b@.len() >= 1 ==> r == Some(b@[0]),
        b@.len() < 1 ==> r is None,
{
    <u8 as Decode>::decode(&mut &b[..]).ok()
}

/// `Decode for u32` in parity-scale-codec: the number whose bytes, least significant first,
/// are the first four, if there are four.
#[verifier::external_body]
fn scale_decode_u32(b: &[u8]) -> (r: Option<u32>)
    ensures
        b@.len() >= 4 ==> r == Some(from_le(b@.take(4)) as u32),
        b@.len() < 4 ==> r is None,
{
    <u32 as Decode>::decode(&mut &b[..]).ok()
}

/// `Decode for u128` in parity-scale-codec: the number whose bytes, least significant first,
/// are the first sixteen, if there are sixteen.
#[verifier::external_body]
fn scale_decode_u128(b: &[u8]) -> (r: Option<u128>)
    ensures
        b@.len() >= 16 ==> r == Some(from_le(b@.take(16)) as u128),
        b@.len() < 16 ==> r is None,
{
    <u128 as Decode>::decode(&mut &b[..]).ok()
}

/// `Decode for [u8; 32]` in parity-scale-codec: the first 32 bytes, if there are 32.
#[verifier::external_body]
pub(crate) fn scale_decode_array32(b: &[u8]) -> (r: Option<[u8; 32]>)
    ensures
        b@.len() >= 32 ==> r is Some && r.unwrap()@ == b@.take(32),
        b@.len() < 32 ==> r is None,
{
    <[u8; 32] as Decode>::decode(&mut &b[..]).ok()
}

/// `Decode for Compact<u32>` in parity-scale-codec: the length whose compact encoding is at the
/// front of `b`; non-canonical encodings are refused.
#[verifier::external_body]
fn scale_decode_compact(b: &[u8]) -> (r: Option<u32>)
    ensures
        r == compact_prefix(b@),
{
    <Compact<u32> as Decode>::decode(&mut &b[..]).ok().map(|c| c.0)
}

} // verus!
