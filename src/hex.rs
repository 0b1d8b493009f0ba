//! Byte sequences with a hexadecimal text form.
use vstd::prelude::*;
use vstd::arithmetic::div_mod::{lemma_fundamental_div_mod, lemma_fundamental_div_mod_converse, lemma_mod_pos_bound};
use vstd::utf8::encode_utf8;

use crate::error::CodecError;
use crate::hex_symbol::{bit_count, digit_value, nibble_char, HexSymbol};
use crate::text::{bytes_of, bytes_to_text, chars_of, text_from_bytes};

verus! {

/// Every character is a hexadecimal digit and they come in pairs.
pub open spec fn is_hex_text(t: Seq<char>) -> bool {
    &&& t.len() % 2 == 0
    &&& forall|i: int| 0 <= i < t.len() ==> (#[trigger] digit_value(t[i])) is Some
}

/// The bytes written by well-formed hexadecimal text, high nibble first.
pub open spec fn hex_text_bytes(t: Seq<char>) -> Seq<u8> {
    Seq::new(
        (t.len() / 2) as nat,
        |i: int| (digit_value(t[2 * i])->0 * 16 + digit_value(t[2 * i + 1])->0) as u8,
    )
}

/// Two lowercase digits per byte, in order.
pub open spec fn hex_text(b: Seq<u8>) -> Seq<char> {
    Seq::new(
        2 * b.len(),
        |j: int|
            if j % 2 == 0 {
                nibble_char(b[j / 2] / 16)
            } else {
                nibble_char(b[j / 2] % 16)
            },
    )
}

/// Byte-wise XOR of two sequences of equal length.
pub open spec fn xor_bytes(a: Seq<u8>, b: Seq<u8>) -> Seq<u8> {
    Seq::new(a.len(), |i: int| a[i] ^ b[i])
}

/// XOR against `key` repeated from its start over the whole of `a`.
pub open spec fn repeating_xor(a: Seq<u8>, key: Seq<u8>) -> Seq<u8>
    recommends
        key.len() > 0,
{
    Seq::new(a.len(), |i: int| a[i] ^ key[i % (key.len() as int)])
}

/// The number of differing bits between paired bytes.
pub open spec fn hamming_distance(a: Seq<u8>, b: Seq<u8>) -> nat
    decreases a.len(),
{
    if a.len() == 0 || b.len() == 0 {
        0
    } else {
        hamming_distance(a.drop_last(), b.drop_last()) + bit_count(a.last() ^ b.last())
    }
}

/// A sequence is at distance zero from itself.
pub proof fn lemma_hamming_self(x: Seq<u8>)
    ensures
        hamming_distance(x, x) == 0,
    decreases x.len(),
{
    if x.len() > 0 {
        lemma_hamming_self(x.drop_last());
        let b = x.last();
        assert(b ^ b == 0) by (bit_vector);
        assert(bit_count(0) == 0);
    }
}

/// The distance does not depend on the order of its arguments.
pub proof fn lemma_hamming_symmetric(x: Seq<u8>, y: Seq<u8>)
    ensures
        hamming_distance(x, y) == hamming_distance(y, x),
    decreases x.len(),
{
    if x.len() > 0 && y.len() > 0 {
        lemma_hamming_symmetric(x.drop_last(), y.drop_last());
        let (a, b) = (x.last(), y.last());
        assert(a ^ b == b ^ a) by (bit_vector);
    }
}

/// Each digit reads back as the nibble it was written for.
proof fn lemma_nibble_digit(n: u8)
    requires
        n < 16,
    ensures
        digit_value(nibble_char(n)) == Some(n),
{
}

/// Parsing the rendered text gives back the bytes.
pub proof fn lemma_render_parse(b: Seq<u8>)
    ensures
        is_hex_text(hex_text(b)),
        hex_text_bytes(hex_text(b)) == b,
{
    let t = hex_text(b);
    assert forall|j: int| 0 <= j < t.len() implies (#[trigger] digit_value(t[j])) is Some by {
        lemma_nibble_digit(b[j / 2] / 16);
        lemma_nibble_digit(b[j / 2] % 16);
    }
    assert forall|i: int| 0 <= i < b.len() implies #[trigger] hex_text_bytes(t)[i] == b[i] by {
        assert((2 * i) / 2 == i && (2 * i + 1) / 2 == i);
        assert((2 * i) % 2 == 0 && (2 * i + 1) % 2 == 1);
        lemma_nibble_digit(b[i] / 16);
        lemma_nibble_digit(b[i] % 16);
    }
    assert(hex_text_bytes(t) =~= b);
}

/// Stepping an index by one steps its remainder by one, wrapping at `n`.
proof fn lemma_mod_step(i: int, n: int)
    requires
        i >= 0,
        n > 0,
    ensures
        (i + 1) % n == if i % n + 1 == n { 0 } else { i % n + 1 },
{
    lemma_fundamental_div_mod(i, n);
    lemma_mod_pos_bound(i, n);
    let q = i / n;
    let m = i % n;
    assert(i + 1 == q * n + m + 1) by (nonlinear_arith)
        requires
            i == n * q + m,
    ;
    assert((q + 1) * n == q * n + n) by (nonlinear_arith);
    if m + 1 == n {
        lemma_fundamental_div_mod_converse(i + 1, n, q + 1, 0);
    } else {
        lemma_fundamental_div_mod_converse(i + 1, n, q, m + 1);
    }
}

/// An ordered sequence of bytes.
#[derive(Debug, Clone, PartialEq, Eq)]
pub struct Hex(pub Vec<HexSymbol>);

impl View for Hex {
    type V = Seq<u8>;

    open spec fn view(&self) -> Seq<u8> {
        self.0@.map_values(|s: HexSymbol| s.0)
    }
}

/// The bytes of a symbol vector.
fn symbols_from_bytes(b: &[u8]) -> (r: Vec<HexSymbol>)
    ensures
        r@.map_values(|s: HexSymbol| s.0) == b@,
{
    let mut v: Vec<HexSymbol> = Vec::new();
    let mut i: usize = 0;
    while i < b.len()
        invariant
            i <= b@.len(),
            v@.len() == i,
            forall|j: int| 0 <= j < i ==> (#[trigger] v@[j]).0 == b@[j],
        decreases b@.len() - i,
    {
        v.push(HexSymbol::new(b[i]));
        i = i + 1;
    }
    assert(v@.map_values(|s: HexSymbol| s.0) =~= b@);
    v
}

impl Hex {
    pub fn new(symbols: &[HexSymbol]) -> (r: Self)
        ensures
            r.0@ == symbols@,
    {
        let mut v: Vec<HexSymbol> = Vec::new();
        let mut i: usize = 0;
        while i < symbols.len()
            invariant
                i <= symbols@.len(),
                v@ == symbols@.take(i as int),
            decreases symbols@.len() - i,
        {
            v.push(symbols[i]);
            i = i + 1;
        }
        assert(symbols@.take(symbols@.len() as int) == symbols@);
        Hex(v)
    }

    /// One byte per byte of the UTF-8 form of `input`.
    pub fn encode(input: &str) -> (r: Self)
        ensures
            r@ == encode_utf8(input@),
    {
        let b = bytes_of(input);
        Hex(symbols_from_bytes(b.as_slice()))
    }

    /// Each byte read as the character with the same code. Only bytes in
    /// the printable ASCII range give displayable text.
    pub fn decode(&self) -> (r: String)
        ensures
            r@ == bytes_to_text(self@),
    {
        let b = self.bytes();
        text_from_bytes(b.as_slice())
    }

    /// The bytes, in order.
    pub fn bytes(&self) -> (r: Vec<u8>)
        ensures
            r@ == self@,
    {
        let mut v: Vec<u8> = Vec::new();
        let mut i: usize = 0;
        while i < self.0.len()
            invariant
                i <= self.0@.len(),
                v@.len() == i,
                forall|j: int| 0 <= j < i ==> #[trigger] v@[j] == self.0@[j].0,
            decreases self.0@.len() - i,
        {
            v.push(self.0[i].decode());
            i = i + 1;
        }
        assert(v@ =~= self@);
        v
    }

    /// XOR against `key` laid over `self` again and again from its start; a
    /// final chunk shorter than the key meets the key's leading bytes.
    pub fn rolling_xor(&self, key: &Self) -> (r: Self)
        requires
            key@.len() > 0,
        ensures
            r@ == repeating_xor(self@, key@),
    {
        let mut v: Vec<HexSymbol> = Vec::new();
        let n = key.0.len();
        let mut i: usize = 0;
        let mut k: usize = 0;
        while i < self.0.len()
            invariant
                i <= self.0@.len(),
                n == key.0@.len(),
                k < n,
                k as int == (i as int) % (n as int),
                v@.len() == i,
                forall|j: int| 0 <= j < i ==> (#[trigger] v@[j]).0 == self@[j] ^ key@[j % (n as int)],
            decreases self.0@.len() - i,
        {
            v.push(self.0[i].xor(&key.0[k]));
            i = i + 1;
            k = if k + 1 == n { 0 } else { k + 1 };
            proof {
                lemma_mod_step((i - 1) as int, n as int);
            }
        }
        let r = Hex(v);
        assert(r@ =~= repeating_xor(self@, key@));
        r
    }

    /// XOR of paired bytes.
    pub fn xor(&self, other: &Self) -> (r: Result<Self, CodecError>)
        ensures
            self@.len() != other@.len() ==> r == Err::<Self, CodecError>(CodecError::LengthMismatch),
            self@.len() == other@.len() ==> r is Ok && r->Ok_0@ == xor_bytes(self@, other@),
    {
        if self.0.len() != other.0.len() {
            return Err(CodecError::LengthMismatch);
        }
        let mut v: Vec<HexSymbol> = Vec::new();
        let mut i: usize = 0;
        while i < self.0.len()
            invariant
                i <= self.0@.len(),
                self.0@.len() == other.0@.len(),
                v@.len() == i,
                forall|j: int| 0 <= j < i ==> (#[trigger] v@[j]).0 == self@[j] ^ other@[j],
            decreases self.0@.len() - i,
        {
            v.push(self.0[i].xor(&other.0[i]));
            i = i + 1;
        }
        let r = Hex(v);
        assert(r@ =~= xor_bytes(self@, other@));
        Ok(r)
    }

    /// The number of bits in which the two sequences differ.
    pub fn hamming(&self, other: &Self) -> (r: Result<u32, CodecError>)
        requires
            8 * self@.len() <= u32::MAX,
        ensures
            self@.len() != other@.len() ==> r == Err::<u32, CodecError>(CodecError::LengthMismatch),
            self@.len() == other@.len() ==> r == Ok::<u32, CodecError>(
                hamming_distance(self@, other@) as u32,
            ),
    {
        if self.0.len() != other.0.len() {
            return Err(CodecError::LengthMismatch);
        }
        let mut dist: u32 = 0;
        let mut i: usize = 0;
        while i < self.0.len()
            invariant
                i <= self.0@.len(),
                self.0@.len() == other.0@.len(),
                8 * self@.len() <= u32::MAX,
                dist == hamming_distance(self@.take(i as int), other@.take(i as int)),
                dist <= 8 * i,
            decreases self.0@.len() - i,
        {
            let d = self.0[i].hamming(&other.0[i]);
            proof {
                let (a, b) = (self@.take(i + 1), other@.take(i + 1));
                assert(a.drop_last() == self@.take(i as int));
                assert(b.drop_last() == other@.take(i as int));
            }
            dist = dist + d;
            i = i + 1;
        }
        assert(self@.take(i as int) == self@);
        assert(other@.take(i as int) == other@);
        Ok(dist)
    }

    /// Reads hexadecimal text, either case.
    pub fn parse(hex: &str) -> (r: Result<Self, CodecError>)
        ensures
            is_hex_text(hex@) ==> r is Ok && r->Ok_0@ == hex_text_bytes(hex@),
            !is_hex_text(hex@) ==> r == Err::<Self, CodecError>(CodecError::InvalidFormat),
    {
        let t = chars_of(hex);
        if t.len() % 2 != 0 {
            return Err(CodecError::InvalidFormat);
        }
        let mut v: Vec<HexSymbol> = Vec::new();
        let mut i: usize = 0;
        while i < t.len() / 2
            invariant
                t@ == hex@,
                t@.len() % 2 == 0,
                i <= t@.len() / 2,
                v@.len() == i,
                forall|j: int| 0 <= j < 2 * i ==> (#[trigger] digit_value(t@[j])) is Some,
                forall|j: int|
                    0 <= j < i ==> (#[trigger] v@[j]).0 == (digit_value(t@[2 * j])->0 * 16
                        + digit_value(t@[2 * j + 1])->0) as u8,
            decreases t@.len() / 2 - i,
        {
            match HexSymbol::from_hex_digits(t[2 * i], t[2 * i + 1]) {
                Ok(s) => {
                    v.push(s);
                },
                Err(e) => {
                    return Err(e);
                },
            }
            i = i + 1;
        }
        let r = Hex(v);
        assert(r@ =~= hex_text_bytes(hex@));
        Ok(r)
    }

    /// The hexadecimal text: two lowercase digits per byte.
    pub fn to_string(&self) -> (r: String)
        ensures
            r@ == hex_text(self@),
    {
        let mut s = String::new();
        let mut i: usize = 0;
        while i < self.0.len()
            invariant
                i <= self.0@.len(),
                s@ == hex_text(self@.take(i as int)),
            decreases self.0@.len() - i,
        {
            let b = self.0[i].decode();
            s.push(HexSymbol::encode_partial(b / 16));
            s.push(HexSymbol::encode_partial(b % 16));
            assert(self@.take(i + 1).drop_last() == self@.take(i as int));
            i = i + 1;
            assert(s@ =~= hex_text(self@.take(i as int)));
        }
        assert(self@.take(i as int) == self@);
        s
    }
}

impl<'a> TryFrom<&'a str> for Hex {
    type Error = CodecError;

    fn try_from(hex: &'a str) -> (r: Result<Self, CodecError>)
        ensures
            is_hex_text(hex@) ==> r is Ok && r->Ok_0@ == hex_text_bytes(hex@),
            !is_hex_text(hex@) ==> r == Err::<Self, CodecError>(CodecError::InvalidFormat),
    {
        Hex::parse(hex)
    }
}

/// `try_from` states its result in its own `ensures`, as `parse` does.
impl<'a> vstd::std_specs::convert::TryFromSpecImpl<&'a str> for Hex {
    open spec fn obeys_try_from_spec() -> bool {
        false
    }

    open spec fn try_from_spec(v: &'a str) -> Result<Self, CodecError> {
        arbitrary()
    }
}

} // verus!
