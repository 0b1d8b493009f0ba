//! One byte and its two-digit hexadecimal form.
use vstd::prelude::*;

use vstd::arithmetic::power2::{lemma2_to64, lemma_pow2_unfold, pow2};

use crate::error::CodecError;

verus! {

/// The lowercase hexadecimal digit of a nibble.
pub open spec fn nibble_char(n: u8) -> char
    recommends
        n < 16,
{
    if n < 10 {
        (n + 48) as char
    } else {
        (n + 87) as char
    }
}

/// The value of a hexadecimal digit, either case; `None` for any other character.
pub open spec fn digit_value(c: char) -> Option<u8> {
    if '0' <= c <= '9' {
        Some((c as u32 - 48) as u8)
    } else if 'a' <= c <= 'f' {
        Some((c as u32 - 87) as u8)
    } else if 'A' <= c <= 'F' {
        Some((c as u32 - 55) as u8)
    } else {
        None
    }
}

/// The two lowercase digits of a byte, high nibble first.
pub open spec fn byte_digits(b: u8) -> Seq<char> {
    seq![nibble_char(b / 16), nibble_char(b % 16)]
}

/// The number of set bits of a byte.
pub open spec fn bit_count(x: u8) -> nat
    decreases x,
{
    if x == 0 {
        0
    } else {
        (x % 2) as nat + bit_count(x / 2)
    }
}

/// A byte below `2^k` has at most `k` set bits.
proof fn lemma_bit_count_bound(x: u8, k: nat)
    requires
        x < pow2(k),
    ensures
        bit_count(x) <= k,
    decreases k,
{
    if k == 0 {
        lemma2_to64();
    } else if x > 0 {
        lemma_pow2_unfold(k);
        lemma_bit_count_bound(x / 2, (k - 1) as nat);
    }
}

/// A single byte, written as two hexadecimal digits.
#[derive(Debug, Clone, Copy, PartialEq, Eq, Structural)]
pub struct HexSymbol(pub u8);

impl HexSymbol {
    pub fn new(i: u8) -> (r: Self)
        ensures
            r.0 == i,
    {
        HexSymbol(i)
    }

    pub(crate) fn encode_partial(input: u8) -> (r: char)
        ensures
            r == nibble_char(input % 16),
    {
        let n = input % 16;
        if n < 10 {
            (n + 48) as char
        } else {
            (n + 87) as char
        }
    }

    fn decode_partial(input: char) -> (r: Option<u8>)
        ensures
            r == digit_value(input),
    {
        if '0' <= input && input <= '9' {
            Some((input as u32 - 48) as u8)
        } else if 'a' <= input && input <= 'f' {
            Some((input as u32 - 87) as u8)
        } else if 'A' <= input && input <= 'F' {
            Some((input as u32 - 55) as u8)
        } else {
            None
        }
    }

    /// The byte written by the digits `high` then `low`, either case.
    pub fn from_hex_digits(high: char, low: char) -> (r: Result<Self, CodecError>)
        ensures
            match (digit_value(high), digit_value(low)) {
                (Some(h), Some(l)) => r == Ok::<Self, CodecError>(HexSymbol((h * 16 + l) as u8)),
                _ => r == Err::<Self, CodecError>(CodecError::InvalidFormat),
            },
    {
        match (Self::decode_partial(high), Self::decode_partial(low)) {
            (Some(h), Some(l)) => Ok(HexSymbol(h * 16 + l)),
            _ => Err(CodecError::InvalidFormat),
        }
    }

    pub fn encode(input: u8) -> (r: Self)
        ensures
            r.0 == input,
    {
        HexSymbol(input)
    }

    pub fn decode(&self) -> (r: u8)
        ensures
            r == self.0,
    {
        self.0
    }

    /// Not a control character.
    pub fn is_printable(&self) -> (r: bool)
        ensures
            r == (self.0 > 31),
    {
        self.0 > 31
    }

    /// Outside the ASCII range.
    pub fn is_extended(&self) -> (r: bool)
        ensures
            r == (self.0 > 127),
    {
        self.0 > 127
    }

    pub fn xor(&self, other: &HexSymbol) -> (r: HexSymbol)
        ensures
            r.0 == self.0 ^ other.0,
    {
        HexSymbol(self.0 ^ other.0)
    }

    /// The number of bits in which the two bytes differ.
    pub fn hamming(&self, other: &HexSymbol) -> (r: u32)
        ensures
            r == bit_count(self.0 ^ other.0),
            r <= 8,
    {
        let mut x: u8 = self.0 ^ other.0;
        let mut dist: u32 = 0;
        proof {
            lemma2_to64();
            lemma_bit_count_bound(x, 8);
        }
        while x > 0
            invariant
                dist + bit_count(x) == bit_count(self.0 ^ other.0),
                bit_count(self.0 ^ other.0) <= 8,
            decreases x,
        {
            dist = dist + (x % 2) as u32;
            x = x / 2;
        }
        dist
    }

    /// The two lowercase hexadecimal digits of the byte.
    pub fn to_string(&self) -> (r: String)
        ensures
            r@ == byte_digits(self.0),
    {
        let mut s = String::new();
        s.push(Self::encode_partial(self.0 / 16));
        s.push(Self::encode_partial(self.0 % 16));
        s
    }
}

impl From<u8> for HexSymbol {
    fn from(input: u8) -> (r: Self) {
        Self::encode(input)
    }
}

impl vstd::std_specs::convert::FromSpecImpl<u8> for HexSymbol {
    open spec fn obeys_from_spec() -> bool {
        true
    }

    open spec fn from_spec(v: u8) -> HexSymbol {
        HexSymbol(v)
    }
}

impl From<char> for HexSymbol {
    /// The low byte of the character's code.
    fn from(input: char) -> (r: Self) {
        Self::encode(input as u8)
    }
}

impl vstd::std_specs::convert::FromSpecImpl<char> for HexSymbol {
    open spec fn obeys_from_spec() -> bool {
        true
    }

    open spec fn from_spec(v: char) -> HexSymbol {
        HexSymbol(v as u8)
    }
}

} // verus!
