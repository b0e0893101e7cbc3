//! Short text renderings of byte strings, as logs print them: a decimal list that elides the
//! middle of long strings, and a hexadecimal dump.

use vstd::prelude::*;
use crate::primitives::{StateKey, StateValue};

verus! {

/// The ASCII decimal digits of `n`, without leading zeros.
pub open spec fn dec_digits(n: nat) -> Seq<u8>
    decreases n,
{
    if n < 10 {
        seq![(48 + n) as u8]
    } else {
        dec_digits(n / 10) + seq![(48 + n % 10) as u8]
    }
}

/// The ASCII digit of a hexadecimal digit, lower case.
pub open spec fn hex_digit(d: nat) -> u8 {
    if d < 10 {
        (48 + d) as u8
    } else {
        (87 + d) as u8
    }
}

/// The ASCII lower-case hexadecimal digits of `n`, without leading zeros.
pub open spec fn hex_digits(n: nat) -> Seq<u8>
    decreases n,
{
    if n < 16 {
        seq![hex_digit(n)]
    } else {
        hex_digits(n / 16) + seq![hex_digit(n % 16)]
    }
}

/// The decimal renderings of the bytes, separated by ", ".
pub open spec fn join_dec(b: Seq<u8>) -> Seq<u8>
    decreases b.len(),
{
    if b.len() == 0 {
        Seq::empty()
    } else if b.len() == 1 {
        dec_digits(b[0] as nat)
    } else {
        join_dec(b.drop_last()) + seq![44u8, 32u8] + dec_digits(b.last() as nat)
    }
}

/// The bracketed list of the bytes in decimal: "[1, 2, 3]".
pub open spec fn list_text(b: Seq<u8>) -> Seq<u8> {
    seq![91u8] + join_dec(b) + seq![93u8]
}

/// The rendering of a byte string: its list where it has at most six bytes; otherwise the
/// first three, " .. ", and then the third last, the second last and the second last again.
pub open spec fn slice_text(b: Seq<u8>) -> Seq<u8> {
    if b.len() > 6 {
        let n = b.len() as int;
        seq![91u8] + join_dec(seq![b[0], b[1], b[2]]) + seq![32u8, 46u8, 46u8, 32u8] + join_dec(
            seq![b[n - 3], b[n - 2], b[n - 2]],
        ) + seq![93u8]
    } else {
        list_text(b)
    }
}

/// The concatenated hexadecimal renderings of the bytes, each without leading zeros.
pub open spec fn hex_concat(b: Seq<u8>) -> Seq<u8>
    decreases b.len(),
{
    if b.len() == 0 {
        Seq::empty()
    } else {
        hex_concat(b.drop_last()) + hex_digits(b.last() as nat)
    }
}

/// The hexadecimal rendering of a byte string: "0x", then each byte in hexadecimal.
pub open spec fn hex_text(b: Seq<u8>) -> Seq<u8> {
    seq![48u8, 120u8] + hex_concat(b)
}

/// The characters of ASCII bytes.
pub open spec fn ascii_chars(b: Seq<u8>) -> Seq<char> {
    Seq::new(b.len(), |i: int| b[i] as char)
}

/// Whether all the bytes are ASCII.
pub open spec fn all_ascii(b: Seq<u8>) -> bool {
    forall|i: int| 0 <= i < b.len() ==> #[trigger] b[i] < 128
}

/// `String::from_utf8` of std: ASCII bytes are valid UTF-8, and each makes the character of
/// the same code.
#[verifier::external_body]
fn string_from_ascii(bytes: Vec<u8>) -> (s: String)
    requires
        all_ascii(bytes@),
    ensures
        s@ == ascii_chars(bytes@),
{
    match String::from_utf8(bytes) {
        Ok(s) => s,
        Err(_) => String::new(),
    }
}

/// Append the decimal digits of `x`.
fn push_dec(out: &mut Vec<u8>, x: u8)
    ensures
        final(out)@ == old(out)@ + dec_digits(x as nat),
{
    proof {
        reveal_with_fuel(dec_digits, 3);
    }
    if x >= 100 {
        out.push(48 + x / 100);
        out.push(48 + (x / 10) % 10);
        out.push(48 + x % 10);
        proof {
            assert(dec_digits(x as nat / 10) == dec_digits(x as nat / 100) + seq![(48 + (x as nat / 10) % 10) as u8]);
        }
    } else if x >= 10 {
        out.push(48 + x / 10);
        out.push(48 + x % 10);
    } else {
        out.push(48 + x);
    }
    assert(final(out)@ =~= old(out)@ + dec_digits(x as nat));
}

/// The ASCII digit of a hexadecimal digit.
fn hex_digit_of(d: u8) -> (c: u8)
    requires
        d < 16,
    ensures
        c == hex_digit(d as nat),
{
    if d < 10 {
        48 + d
    } else {
        87 + d
    }
}

/// Append the hexadecimal digits of `x`.
fn push_hex(out: &mut Vec<u8>, x: u8)
    ensures
        final(out)@ == old(out)@ + hex_digits(x as nat),
{
    proof {
        reveal_with_fuel(hex_digits, 2);
    }
    if x >= 16 {
        out.push(hex_digit_of(x / 16));
        out.push(hex_digit_of(x % 16));
    } else {
        out.push(hex_digit_of(x));
    }
    assert(final(out)@ =~= old(out)@ + hex_digits(x as nat));
}

proof fn lemma_dec_ascii(n: nat)
    ensures
        all_ascii(dec_digits(n)),
    decreases n,
{
    if n >= 10 {
        lemma_dec_ascii(n / 10);
    }
    assert forall|i: int| 0 <= i < dec_digits(n).len() implies #[trigger] dec_digits(n)[i] < 128 by {
        if n >= 10 {
            if i < dec_digits(n / 10).len() {
                assert(dec_digits(n)[i] == dec_digits(n / 10)[i]);
            }
        }
    }
}

proof fn lemma_hex_ascii(n: nat)
    ensures
        all_ascii(hex_digits(n)),
    decreases n,
{
    if n >= 16 {
        lemma_hex_ascii(n / 16);
    }
    assert forall|i: int| 0 <= i < hex_digits(n).len() implies #[trigger] hex_digits(n)[i] < 128 by {
        if n >= 16 {
            if i < hex_digits(n / 16).len() {
                assert(hex_digits(n)[i] == hex_digits(n / 16)[i]);
            }
        }
    }
}

proof fn lemma_concat_ascii(a: Seq<u8>, b: Seq<u8>)
    requires
        all_ascii(a),
        all_ascii(b),
    ensures
        all_ascii(a + b),
{
    assert forall|i: int| 0 <= i < (a + b).len() implies #[trigger] (a + b)[i] < 128 by {
        if i < a.len() {
            assert((a + b)[i] == a[i]);
        } else {
            assert((a + b)[i] == b[i - a.len()]);
        }
    }
}

proof fn lemma_join_ascii(b: Seq<u8>)
    ensures
        all_ascii(join_dec(b)),
    decreases b.len(),
{
    if b.len() == 1 {
        lemma_dec_ascii(b[0] as nat);
    } else if b.len() > 1 {
        lemma_join_ascii(b.drop_last());
        lemma_dec_ascii(b.last() as nat);
        lemma_concat_ascii(join_dec(b.drop_last()), seq![44u8, 32u8]);
        lemma_concat_ascii(join_dec(b.drop_last()) + seq![44u8, 32u8], dec_digits(b.last() as nat));
    }
}

proof fn lemma_hex_concat_ascii(b: Seq<u8>)
    ensures
        all_ascii(hex_concat(b)),
    decreases b.len(),
{
    if b.len() > 0 {
        lemma_hex_concat_ascii(b.drop_last());
        lemma_hex_ascii(b.last() as nat);
        lemma_concat_ascii(hex_concat(b.drop_last()), hex_digits(b.last() as nat));
    }
}

/// Append the decimal renderings of `b`, separated by ", ".
fn push_join_dec(out: &mut Vec<u8>, b: &[u8])
    ensures
        final(out)@ == old(out)@ + join_dec(b@),
{
    let ghost start = out@;
    let mut i: usize = 0;
    while i < b.len()
        invariant
            i <= b@.len(),
            out@ == start + join_dec(b@.take(i as int)),
        decreases b@.len() - i,
    {
        let ghost before = out@;
        if i > 0 {
            out.push(44);
            out.push(32);
        }
        push_dec(out, b[i]);
        proof {
            let t = b@.take(i as int + 1);
            assert(t.drop_last() =~= b@.take(i as int));
            assert(t.last() == b@[i as int]);
            if i == 0 {
                assert(t =~= seq![b@[0]]);
                assert(join_dec(b@.take(0)) =~= Seq::<u8>::empty());
            }
            assert(out@ =~= start + join_dec(t));
        }
        i = i + 1;
    }
    assert(b@.take(b@.len() as int) =~= b@);
}

/// Append the hexadecimal renderings of `b`.
fn push_hex_concat(out: &mut Vec<u8>, b: &[u8])
    ensures
        final(out)@ == old(out)@ + hex_concat(b@),
{
    let ghost start = out@;
    let mut i: usize = 0;
    while i < b.len()
        invariant
            i <= b@.len(),
            out@ == start + hex_concat(b@.take(i as int)),
        decreases b@.len() - i,
    {
        push_hex(out, b[i]);
        proof {
            let t = b@.take(i as int + 1);
            assert(t.drop_last() =~= b@.take(i as int));
            assert(out@ =~= start + hex_concat(t));
        }
        i = i + 1;
    }
    assert(b@.take(b@.len() as int) =~= b@);
}

/// A byte string, rendered in decimal for logs.
pub struct Slice<'a>(pub &'a [u8]);

impl<'a> Slice<'a> {
    pub fn new(data: &'a [u8]) -> (s: Slice<'a>)
        ensures
            s.0@ == data@,
    {
        Slice(data)
    }

    /// The rendering: see `slice_text`.
    pub fn text(&self) -> (s: String)
        ensures
            s@ == ascii_chars(slice_text(self.0@)),
    {
        let b = self.0;
        let mut out: Vec<u8> = Vec::new();
        if b.len() > 6 {
            let n = b.len();
            let head = [b[0], b[1], b[2]];
            let tail = [b[n - 3], b[n - 2], b[n - 2]];
            out.push(91);
            push_join_dec(&mut out, &head);
            out.push(32);
            out.push(46);
            out.push(46);
            out.push(32);
            push_join_dec(&mut out, &tail);
            out.push(93);
            proof {
                assert(head@ =~= seq![b@[0], b@[1], b@[2]]);
                assert(tail@ =~= seq![b@[n - 3], b@[n - 2], b@[n - 2]]);
                assert(out@ =~= slice_text(b@));
                lemma_join_ascii(head@);
                lemma_join_ascii(tail@);
                lemma_concat_ascii(seq![91u8], join_dec(head@));
                lemma_concat_ascii(seq![91u8] + join_dec(head@), seq![32u8, 46u8, 46u8, 32u8]);
                lemma_concat_ascii(seq![91u8] + join_dec(head@) + seq![32u8, 46u8, 46u8, 32u8], join_dec(tail@));
                lemma_concat_ascii(
                    seq![91u8] + join_dec(head@) + seq![32u8, 46u8, 46u8, 32u8] + join_dec(tail@),
                    seq![93u8],
                );
            }
        } else {
            out.push(91);
            push_join_dec(&mut out, b);
            out.push(93);
            proof {
                assert(out@ =~= slice_text(b@));
                lemma_join_ascii(b@);
                lemma_concat_ascii(seq![91u8], join_dec(b@));
                lemma_concat_ascii(seq![91u8] + join_dec(b@), seq![93u8]);
            }
        }
        string_from_ascii(out)
    }
}

/// A byte string, rendered in hexadecimal for logs.
pub struct HexSlice<'a>(pub &'a [u8]);

impl<'a> HexSlice<'a> {
    pub fn new(data: &'a [u8]) -> (s: HexSlice<'a>)
        ensures
            s.0@ == data@,
    {
        HexSlice(data)
    }

    /// The bytes of the rendering: see `hex_text`.
    fn text_bytes(&self) -> (r: Vec<u8>)
        ensures
            r@ == hex_text(self.0@),
            all_ascii(r@),
    {
        let mut out: Vec<u8> = Vec::new();
        out.push(48);
        out.push(120);
        push_hex_concat(&mut out, self.0);
        proof {
            assert(out@ =~= hex_text(self.0@));
            lemma_hex_concat_ascii(self.0@);
            lemma_concat_ascii(seq![48u8, 120u8], hex_concat(self.0@));
        }
        out
    }

    /// The rendering: see `hex_text`.
    pub fn text(&self) -> (s: String)
        ensures
            s@ == ascii_chars(hex_text(self.0@)),
    {
        string_from_ascii(self.text_bytes())
    }
}

/// Byte strings that can be rendered in decimal.
pub trait BytesDisplay {
    spec fn display_bytes(&self) -> Seq<u8>;

    fn bytes_display(&self) -> (s: Slice<'_>)
        ensures
            s.0@ == self.display_bytes(),
    ;
}

/// Byte strings that can be rendered in hexadecimal.
pub trait HexDisplayExt {
    spec fn hex_bytes(&self) -> Seq<u8>;

    fn hex_display(&self) -> (s: HexSlice<'_>)
        ensures
            s.0@ == self.hex_bytes(),
    ;
}

impl BytesDisplay for Vec<u8> {
    open spec fn display_bytes(&self) -> Seq<u8> {
        self@
    }

    fn bytes_display(&self) -> (s: Slice<'_>) {
        Slice::new(self.as_slice())
    }
}

impl HexDisplayExt for Vec<u8> {
    open spec fn hex_bytes(&self) -> Seq<u8> {
        self@
    }

    fn hex_display(&self) -> (s: HexSlice<'_>) {
        HexSlice::new(self.as_slice())
    }
}

impl BytesDisplay for StateKey {
    open spec fn display_bytes(&self) -> Seq<u8> {
        self.0@
    }

    fn bytes_display(&self) -> (s: Slice<'_>) {
        Slice::new(self.0.as_slice())
    }
}

impl HexDisplayExt for StateKey {
    open spec fn hex_bytes(&self) -> Seq<u8> {
        self.0@
    }

    fn hex_display(&self) -> (s: HexSlice<'_>) {
        HexSlice::new(self.0.as_slice())
    }
}

impl BytesDisplay for StateValue {
    open spec fn display_bytes(&self) -> Seq<u8> {
        self.0@
    }

    fn bytes_display(&self) -> (s: Slice<'_>) {
        Slice::new(self.0.as_slice())
    }
}

impl HexDisplayExt for StateValue {
    open spec fn hex_bytes(&self) -> Seq<u8> {
        self.0@
    }

    fn hex_display(&self) -> (s: HexSlice<'_>) {
        HexSlice::new(self.0.as_slice())
    }
}

/// "Key [" then the hexadecimal rendering, then "]".
pub open spec fn key_text(b: Seq<u8>) -> Seq<u8> {
    seq![75u8, 101u8, 121u8, 32u8, 91u8] + hex_text(b) + seq![93u8]
}

/// "Value [" then the hexadecimal rendering, then "]".
pub open spec fn value_text(b: Seq<u8>) -> Seq<u8> {
    seq![86u8, 97u8, 108u8, 117u8, 101u8, 32u8, 91u8] + hex_text(b) + seq![93u8]
}

/// The rendering of a framed hexadecimal dump.
fn framed(prefix: Vec<u8>, b: &[u8]) -> (r: Vec<u8>)
    requires
        all_ascii(prefix@),
    ensures
        r@ == prefix@ + hex_text(b@) + seq![93u8],
        all_ascii(r@),
{
    let mut out = prefix;
    let mut hex = HexSlice::new(b).text_bytes();
    out.append(&mut hex);
    out.push(93);
    proof {
        lemma_concat_ascii(prefix@, hex_text(b@));
        lemma_concat_ascii(prefix@ + hex_text(b@), seq![93u8]);
    }
    out
}

impl StateKey {
    /// The rendering of a key: see `key_text`.
    pub fn text(&self) -> (s: String)
        ensures
            s@ == ascii_chars(key_text(self.0@)),
    {
        let prefix: Vec<u8> = vec![75, 101, 121, 32, 91];
        proof {
            assert(prefix@ =~= seq![75u8, 101u8, 121u8, 32u8, 91u8]);
        }
        string_from_ascii(framed(prefix, self.0.as_slice()))
    }
}

impl StateValue {
    /// The rendering of a value: see `value_text`.
    pub fn text(&self) -> (s: String)
        ensures
            s@ == ascii_chars(value_text(self.0@)),
    {
        let prefix: Vec<u8> = vec![86, 97, 108, 117, 101, 32, 91];
        proof {
            assert(prefix@ =~= seq![86u8, 97u8, 108u8, 117u8, 101u8, 32u8, 91u8]);
        }
        string_from_ascii(framed(prefix, self.0.as_slice()))
    }
}

} // verus!
