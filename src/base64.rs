//! Base64: byte strings as sequences of 6-bit values.
use vstd::prelude::*;
use vstd::utf8::encode_utf8;

use crate::error::CodecError;
use crate::text::{bytes_of, bytes_to_text, chars_of, text_from_bytes};

verus! {

/// The value that marks padding in a stored sequence.
pub const PAD: u8 = 64;

/// The character of a 6-bit value in the standard alphabet; `=` for padding.
pub open spec fn symbol_char(v: u8) -> char {
    if v < 26 {
        (v + 65) as char
    } else if v < 52 {
        (v + 71) as char
    } else if v < 62 {
        (v - 4) as char
    } else if v == 62 {
        '+'
    } else if v == 63 {
        '/'
    } else {
        '='
    }
}

/// The 6-bit value of an alphabet character; `None` for any other character,
/// `=` included.
pub open spec fn symbol_value(c: char) -> Option<u8> {
    if 'A' <= c <= 'Z' {
        Some((c as u32 - 65) as u8)
    } else if 'a' <= c <= 'z' {
        Some((c as u32 - 71) as u8)
    } else if '0' <= c <= '9' {
        Some((c as u32 + 4) as u8)
    } else if c == '+' {
        Some(62u8)
    } else if c == '/' {
        Some(63u8)
    } else {
        None
    }
}

/// The first 6-bit value of a group: the high six bits of its first byte.
pub open spec fn sextet0(x0: u8) -> u8 {
    x0 >> 2u8
}

/// The second value: the low two bits of the first byte, then the high four
/// of the second.
pub open spec fn sextet1(x0: u8, x1: u8) -> u8 {
    (((x0 & 3u8) << 4u8) as u8 | (x1 >> 4u8)) as u8
}

/// The third value: the low four bits of the second byte, then the high two
/// of the third.
pub open spec fn sextet2(x1: u8, x2: u8) -> u8 {
    (((x1 & 15u8) << 2u8) as u8 | (x2 >> 6u8)) as u8
}

/// The fourth value: the low six bits of the third byte.
pub open spec fn sextet3(x2: u8) -> u8 {
    x2 & 63u8
}

/// The first byte of a group of values.
pub open spec fn byte0(v0: u8, v1: u8) -> u8 {
    ((v0 << 2u8) as u8 | (v1 >> 4u8)) as u8
}

/// The second byte of a group of values.
pub open spec fn byte1(v1: u8, v2: u8) -> u8 {
    ((v1 << 4u8) as u8 | (v2 >> 2u8)) as u8
}

/// The third byte of a group of values.
pub open spec fn byte2(v2: u8, v3: u8) -> u8 {
    ((v2 << 6u8) as u8 | v3) as u8
}

/// The four values of one group of one to three bytes; missing bytes count
/// as zero and their whole values become padding.
pub open spec fn encode_group(b: Seq<u8>) -> Seq<u8> {
    if b.len() == 1 {
        seq![sextet0(b[0]), sextet1(b[0], 0), PAD, PAD]
    } else if b.len() == 2 {
        seq![sextet0(b[0]), sextet1(b[0], b[1]), sextet2(b[1], 0), PAD]
    } else {
        seq![sextet0(b[0]), sextet1(b[0], b[1]), sextet2(b[1], b[2]), sextet3(b[2])]
    }
}

/// Where the last group of `n > 0` items starts, groups being of `g` items.
pub open spec fn last_group_start(n: int, g: int) -> int {
    (n - 1) / g * g
}

/// Base64 values of a byte string: four per group of three bytes, the last
/// group padded.
pub open spec fn encode_spec(b: Seq<u8>) -> Seq<u8>
    decreases b.len(),
{
    if b.len() == 0 {
        Seq::empty()
    } else {
        let k = last_group_start(b.len() as int, 3);
        encode_spec(b.take(k)) + encode_group(b.skip(k))
    }
}

/// The number of padding values at the end, up to two.
pub open spec fn pad_count(s: Seq<u8>) -> nat {
    if s.len() >= 2 && s[s.len() - 1] == PAD && s[s.len() - 2] == PAD {
        2
    } else if s.len() >= 1 && s[s.len() - 1] == PAD {
        1
    } else {
        0
    }
}

/// The values without the trailing padding.
pub open spec fn unpadded(s: Seq<u8>) -> Seq<u8> {
    s.take(s.len() - pad_count(s))
}

/// The bytes of one group of up to four values: one fewer than the values.
pub open spec fn decode_group(v: Seq<u8>) -> Seq<u8> {
    if v.len() <= 1 {
        Seq::empty()
    } else if v.len() == 2 {
        seq![byte0(v[0], v[1])]
    } else if v.len() == 3 {
        seq![byte0(v[0], v[1]), byte1(v[1], v[2])]
    } else {
        seq![byte0(v[0], v[1]), byte1(v[1], v[2]), byte2(v[2], v[3])]
    }
}

/// Bytes of unpadded values, group of four by group of four.
pub open spec fn decode_values(d: Seq<u8>) -> Seq<u8>
    decreases d.len(),
{
    if d.len() == 0 {
        Seq::empty()
    } else {
        let k = last_group_start(d.len() as int, 4);
        decode_values(d.take(k)) + decode_group(d.skip(k))
    }
}

/// The byte string that stored values stand for.
pub open spec fn decode_spec(s: Seq<u8>) -> Seq<u8> {
    decode_values(unpadded(s))
}

/// Stored values: 6-bit values, then at most two padding values; padding
/// only completes a group of four, and no group holds a single value.
pub open spec fn wf_values(s: Seq<u8>) -> bool {
    &&& forall|i: int| 0 <= i < unpadded(s).len() ==> #[trigger] s[i] < 64
    &&& unpadded(s).len() % 4 != 1
    &&& pad_count(s) > 0 ==> s.len() % 4 == 0
}

/// The number of `=` at the end of the text.
pub open spec fn trailing_pads(t: Seq<char>) -> nat
    decreases t.len(),
{
    if t.len() > 0 && t.last() == '=' {
        1 + trailing_pads(t.drop_last())
    } else {
        0
    }
}

/// Base64 text: alphabet characters, then at most two `=`, a multiple of
/// four characters in all.
pub open spec fn is_base64_text(t: Seq<char>) -> bool {
    let p = trailing_pads(t);
    &&& p <= 2
    &&& t.len() % 4 == 0
    &&& forall|i: int| 0 <= i < t.len() - p ==> (#[trigger] symbol_value(t[i])) is Some
}

/// The values of base64 text, without its padding.
pub open spec fn base64_text_values(t: Seq<char>) -> Seq<u8> {
    Seq::new((t.len() - trailing_pads(t)) as nat, |i: int| symbol_value(t[i])->0)
}

/// Each value that a group of bytes encodes to is a 6-bit value.
proof fn lemma_sextets(x0: u8, x1: u8, x2: u8)
    by (bit_vector)
    ensures
        sextet0(x0) < 64,
        sextet1(x0, x1) < 64,
        sextet2(x1, x2) < 64,
        sextet3(x2) < 64,
{
}

/// Decoding the values of one group gives its bytes back.
proof fn lemma_group_round_trip(x0: u8, x1: u8, x2: u8)
    by (bit_vector)
    ensures
        byte0(sextet0(x0), sextet1(x0, x1)) == x0,
        byte1(sextet1(x0, x1), sextet2(x1, x2)) == x1,
        byte2(sextet2(x1, x2), sextet3(x2)) == x2,
{
}

/// Where the last group starts, for a length that is a whole number of
/// groups plus `r` items, `0 < r <= g`.
proof fn lemma_last_group_start(m: int, g: int, r: int)
    requires
        m >= 0,
        0 < r <= g,
        g == 3 || g == 4,
    ensures
        last_group_start(m * g + r, g) == m * g,
{
    assert((m * g + r - 1) / g == m) by (nonlinear_arith)
        requires
            m >= 0,
            0 < r <= g,
            g > 0,
    {
        vstd::arithmetic::div_mod::lemma_fundamental_div_mod_converse(m * g + r - 1, g, m, r - 1);
    }
}

/// Whole groups of bytes encode to four 6-bit values each.
proof fn lemma_encode_whole_groups(b: Seq<u8>)
    requires
        b.len() % 3 == 0,
    ensures
        encode_spec(b).len() == b.len() / 3 * 4,
        forall|i: int| 0 <= i < encode_spec(b).len() ==> #[trigger] encode_spec(b)[i] < 64,
    decreases b.len(),
{
    if b.len() > 0 {
        let m = (b.len() / 3 - 1) as int;
        assert(b.len() == m * 3 + 3);
        lemma_last_group_start(m, 3, 3);
        let k = m * 3;
        lemma_encode_whole_groups(b.take(k));
        lemma_sextets(b[k], b[k + 1], b[k + 2]);
        let e = encode_spec(b.take(k));
        let g = encode_group(b.skip(k));
        assert(encode_spec(b) == e + g);
        assert forall|i: int| 0 <= i < encode_spec(b).len() implies #[trigger] encode_spec(b)[i]
            < 64 by {
            if i >= e.len() {
                assert(encode_spec(b)[i] == g[i - e.len()]);
            }
        }
    }
}

/// A last group of one to three bytes: its values, what padding it gets,
/// and how its unpadded values decode.
proof fn lemma_last_group(t: Seq<u8>)
    requires
        1 <= t.len() <= 3,
    ensures
        encode_group(t).len() == 4,
        pad_count(encode_group(t)) == 3 - t.len(),
        forall|i: int| 0 <= i <= t.len() ==> #[trigger] encode_group(t)[i] < 64,
        decode_group(encode_group(t).take(t.len() + 1int)) == t,
{
    let x1 = if t.len() > 1 { t[1] } else { 0 };
    let x2 = if t.len() > 2 { t[2] } else { 0 };
    lemma_sextets(t[0], x1, x2);
    lemma_group_round_trip(t[0], x1, x2);
    assert(decode_group(encode_group(t).take(t.len() + 1int)) =~= t);
}

/// Padding is read from the last two values only.
proof fn lemma_pad_count_suffix(e: Seq<u8>, g: Seq<u8>)
    requires
        g.len() == 4,
    ensures
        pad_count(e + g) == pad_count(g),
        unpadded(e + g) == e + unpadded(g),
{
    assert(unpadded(e + g) =~= e + unpadded(g));
}

/// Decoding one more group of values after whole groups.
proof fn lemma_decode_values_append(e: Seq<u8>, d: Seq<u8>)
    requires
        e.len() % 4 == 0,
        1 <= d.len() <= 4,
    ensures
        decode_values(e + d) == decode_values(e) + decode_group(d),
{
    let m = e.len() as int / 4;
    lemma_last_group_start(m, 4, d.len() as int);
    assert((e + d).take(m * 4) =~= e);
    assert((e + d).skip(m * 4) =~= d);
}

/// Encoding one more group of bytes after whole groups.
proof fn lemma_encode_spec_append(b: Seq<u8>, t: Seq<u8>)
    requires
        b.len() % 3 == 0,
        1 <= t.len() <= 3,
    ensures
        encode_spec(b + t) == encode_spec(b) + encode_group(t),
{
    let m = b.len() as int / 3;
    lemma_last_group_start(m, 3, t.len() as int);
    assert((b + t).take(m * 3) =~= b);
    assert((b + t).skip(m * 3) =~= t);
}

/// Decoding undoes encoding, for every byte string.
#[verifier::rlimit(40)]
pub proof fn lemma_decode_encode(b: Seq<u8>)
    ensures
        decode_spec(encode_spec(b)) == b,
    decreases b.len(),
{
    if b.len() > 0 {
        let n = b.len() as int;
        let m = (n - 1) / 3;
        let k = m * 3;
        let bk = b.take(k);
        let t = b.skip(k);
        assert(bk + t =~= b);
        lemma_encode_spec_append(bk, t);
        lemma_encode_whole_groups(bk);
        lemma_decode_encode(bk);
        let e = encode_spec(bk);
        let g = encode_group(t);
        if e.len() > 0 {
            assert(e[e.len() - 1] < 64);
        }
        assert(unpadded(e) =~= e);
        lemma_last_group(t);
        lemma_pad_count_suffix(e, g);
        assert(unpadded(g) == g.take(t.len() + 1int));
        lemma_decode_values_append(e, unpadded(g));
    }
}

/// Four values per started group of three bytes, ending in two padding
/// values after a one-byte tail, one after a two-byte tail, none otherwise.
pub proof fn lemma_encode_padding(b: Seq<u8>)
    ensures
        encode_spec(b).len() == (b.len() + 2) / 3 * 4,
        pad_count(encode_spec(b)) == (3 - b.len() % 3) % 3,
        forall|i: int|
            0 <= i < encode_spec(b).len() - pad_count(encode_spec(b)) ==> #[trigger] encode_spec(
                b,
            )[i] < 64,
{
    if b.len() > 0 {
        let n = b.len() as int;
        let m = (n - 1) / 3;
        let k = m * 3;
        let bk = b.take(k);
        let t = b.skip(k);
        assert(bk + t =~= b);
        lemma_encode_spec_append(bk, t);
        lemma_encode_whole_groups(bk);
        lemma_last_group(t);
        let e = encode_spec(bk);
        let g = encode_group(t);
        lemma_pad_count_suffix(e, g);
        assert forall|i: int|
            0 <= i < encode_spec(b).len() - pad_count(encode_spec(b)) implies #[trigger] encode_spec(
            b,
        )[i] < 64 by {
            if i >= e.len() {
                assert(encode_spec(b)[i] == g[i - e.len()]);
            }
        }
    }
}

/// Each 6-bit value reads back from its character, which is never `=`.
proof fn lemma_symbol_round_trip(v: u8)
    requires
        v < 64,
    ensures
        symbol_value(symbol_char(v)) == Some(v),
        symbol_char(v) != '=',
{
}

/// Text that ends in exactly `p` characters `=` has `p` trailing pads.
proof fn lemma_trailing_pads(t: Seq<char>, p: int)
    requires
        0 <= p <= t.len(),
        forall|i: int| t.len() - p <= i < t.len() ==> #[trigger] t[i] == '=',
        p == t.len() || t[t.len() - p - 1] != '=',
    ensures
        trailing_pads(t) == p,
    decreases p,
{
    if p > 0 {
        let u = t.drop_last();
        lemma_trailing_pads(u, p - 1);
    } else if t.len() > 0 {
        assert(t.last() != '=');
    }
}

/// Rendering the values of a byte string and parsing the text gives back
/// the values without their padding.
pub proof fn lemma_render_parse_encoded(b: Seq<u8>)
    ensures
        is_base64_text(encode_spec(b).map_values(|v: u8| symbol_char(v))),
        base64_text_values(encode_spec(b).map_values(|v: u8| symbol_char(v))) == unpadded(
            encode_spec(b),
        ),
{
    let e = encode_spec(b);
    let t = e.map_values(|v: u8| symbol_char(v));
    lemma_encode_padding(b);
    let p = pad_count(e) as int;
    assert(e.len() % 4 == 0) by (nonlinear_arith)
        requires
            e.len() == (b.len() + 2) / 3 * 4,
    ;
    assert forall|i: int| 0 <= i < e.len() - p implies #[trigger] symbol_value(t[i]) == Some(e[i])
        && t[i] != '=' by {
        lemma_symbol_round_trip(e[i]);
    }
    assert forall|i: int| t.len() - p <= i < t.len() implies #[trigger] t[i] == '=' by {
        assert(e[i] == PAD);
    }
    if p < t.len() {
        assert(t[t.len() - p - 1] != '=');
    }
    lemma_trailing_pads(t, p);
    assert(base64_text_values(t) =~= unpadded(e));
}

/// A byte string held as 6-bit values.
#[derive(Debug, PartialEq, Eq)]
pub struct Base64(Vec<u8>);

impl View for Base64 {
    type V = Seq<u8>;

    closed spec fn view(&self) -> Seq<u8> {
        self.0@
    }
}

fn symbol_of(v: u8) -> (r: char)
    ensures
        r == symbol_char(v),
{
    if v < 26 {
        (v + 65) as char
    } else if v < 52 {
        (v + 71) as char
    } else if v < 62 {
        (v - 4) as char
    } else if v == 62 {
        '+'
    } else if v == 63 {
        '/'
    } else {
        '='
    }
}

fn value_of(c: char) -> (r: Option<u8>)
    ensures
        r == symbol_value(c),
{
    if 'A' <= c && c <= 'Z' {
        Some((c as u32 - 65) as u8)
    } else if 'a' <= c && c <= 'z' {
        Some((c as u32 - 71) as u8)
    } else if '0' <= c && c <= '9' {
        Some((c as u32 + 4) as u8)
    } else if c == '+' {
        Some(62)
    } else if c == '/' {
        Some(63)
    } else {
        None
    }
}

impl Base64 {
    /// The 64 characters of the alphabet in value order, then `=`.
    pub fn alphabet() -> (r: String)
        ensures
            r@ == Seq::new(65, |i: int| symbol_char(i as u8)),
    {
        let mut s = String::new();
        let mut v: u8 = 0;
        while v < 65
            invariant
                v <= 65,
                s@ == Seq::new(v as nat, |i: int| symbol_char(i as u8)),
            decreases 65 - v,
        {
            s.push(symbol_of(v));
            v = v + 1;
            assert(s@ =~= Seq::new(v as nat, |i: int| symbol_char(i as u8)));
        }
        s
    }

    /// Base64 values of a byte string: four per group of three bytes; a
    /// last group of one or two bytes gets two or one padding values.
    #[verifier::rlimit(30)]
    pub fn encode_bytes(input: &[u8]) -> (r: Self)
        ensures
            r@ == encode_spec(input@),
            r.wf(),
    {
        let n = input.len();
        let mut out: Vec<u8> = Vec::new();
        let mut i: usize = 0;
        while n - i >= 3
            invariant
                n == input@.len(),
                i <= n,
                i % 3 == 0,
                out@ == encode_spec(input@.take(i as int)),
                out@.len() == i / 3 * 4,
                forall|j: int| 0 <= j < out@.len() ==> #[trigger] out@[j] < 64,
            decreases n - i,
        {
            let (x0, x1, x2) = (input[i], input[i + 1], input[i + 2]);
            proof {
                lemma_sextets(x0, x1, x2);
                lemma_encode_spec_append(input@.take(i as int), input@.subrange(i as int, i + 3));
                assert(input@.take(i as int) + input@.subrange(i as int, i + 3) =~= input@.take(
                    i + 3,
                ));
            }
            out.push(x0 >> 2);
            out.push(((x0 & 3) << 4) | (x1 >> 4));
            out.push(((x1 & 15) << 2) | (x2 >> 6));
            out.push(x2 & 63);
            i = i + 3;
            assert(out@ =~= encode_spec(input@.take(i as int)));
        }
        let ghost whole = out@;
        if n - i > 0 {
            let x0 = input[i];
            let x1 = if n - i == 2 { input[i + 1] } else { 0 };
            let ghost t = input@.skip(i as int);
            proof {
                lemma_last_group(t);
                lemma_encode_spec_append(input@.take(i as int), t);
                assert(input@.take(i as int) + t =~= input@);
            }
            out.push(x0 >> 2);
            out.push(((x0 & 3) << 4) | (x1 >> 4));
            if n - i == 2 {
                let x2: u8 = 0;
                out.push(((x1 & 15) << 2) | (x2 >> 6));
            } else {
                out.push(PAD);
            }
            out.push(PAD);
            assert(out@ =~= whole + encode_group(t));
            proof {
                lemma_pad_count_suffix(whole, encode_group(t));
            }
        } else {
            assert(input@.take(i as int) =~= input@);
            assert(unpadded(out@) =~= out@);
        }
        Base64(out)
    }

    /// Base64 values of the UTF-8 bytes of `input`.
    pub fn encode(input: &str) -> (r: Self)
        ensures
            r@ == encode_spec(encode_utf8(input@)),
            r.wf(),
    {
        let b = bytes_of(input);
        Self::encode_bytes(b.as_slice())
    }

    /// The byte string: three bytes per group of four values, and one fewer
    /// than the values for a shorter last group; padding is skipped.
    #[verifier::rlimit(30)]
    pub fn decode_bytes(&self) -> (r: Vec<u8>)
        ensures
            r@ == decode_spec(self@),
    {
        let s = &self.0;
        let len = s.len();
        let p: usize = if len >= 2 && s[len - 1] == PAD && s[len - 2] == PAD {
            2
        } else if len >= 1 && s[len - 1] == PAD {
            1
        } else {
            0
        };
        let n = len - p;
        let ghost d = unpadded(self@);
        assert(d == s@.take(n as int));
        let mut out: Vec<u8> = Vec::new();
        let mut i: usize = 0;
        while n - i >= 4
            invariant
                n == d.len(),
                n <= s@.len(),
                d == s@.take(n as int),
                i <= n,
                i % 4 == 0,
                out@ == decode_values(d.take(i as int)),
            decreases n - i,
        {
            let (v0, v1, v2, v3) = (s[i], s[i + 1], s[i + 2], s[i + 3]);
            proof {
                lemma_decode_values_append(d.take(i as int), d.subrange(i as int, i + 4));
                assert(d.take(i as int) + d.subrange(i as int, i + 4) =~= d.take(i + 4));
            }
            out.push((v0 << 2) | (v1 >> 4));
            out.push((v1 << 4) | (v2 >> 2));
            out.push((v2 << 6) | v3);
            i = i + 4;
            assert(out@ =~= decode_values(d.take(i as int)));
        }
        if n - i > 0 {
            let ghost t = d.skip(i as int);
            proof {
                lemma_decode_values_append(d.take(i as int), t);
                assert(d.take(i as int) + t =~= d);
            }
            let ghost before = out@;
            if n - i >= 2 {
                out.push((s[i] << 2) | (s[i + 1] >> 4));
            }
            if n - i == 3 {
                out.push((s[i + 1] << 4) | (s[i + 2] >> 2));
            }
            assert(out@ =~= before + decode_group(t));
        } else {
            assert(d.take(i as int) =~= d);
        }
        out
    }

    /// The byte string, each byte read as the character with the same code.
    pub fn decode(&self) -> (r: String)
        ensures
            r@ == bytes_to_text(decode_spec(self@)),
    {
        let b = self.decode_bytes();
        text_from_bytes(b.as_slice())
    }

    /// Reads base64 text: trailing `=` are counted as padding and not stored.
    pub fn parse(input: &str) -> (r: Result<Self, CodecError>)
        ensures
            is_base64_text(input@) ==> r is Ok && r->Ok_0@ == base64_text_values(input@)
                && r->Ok_0.wf(),
            !is_base64_text(input@) ==> r == Err::<Self, CodecError>(CodecError::InvalidFormat),
    {
        let t = chars_of(input);
        let len = t.len();
        let mut p: usize = 0;
        assert(t@.take(len as int) =~= t@);
        while p < len && t[len - 1 - p] == '='
            invariant
                t@ == input@,
                len == t@.len(),
                p <= len,
                trailing_pads(t@) == p + trailing_pads(t@.take(len - p)),
            decreases len - p,
        {
            assert(t@.take(len - p).drop_last() == t@.take(len - p - 1));
            p = p + 1;
        }
        assert(trailing_pads(t@.take(len - p)) == 0);
        if p > 2 || len % 4 != 0 {
            return Err(CodecError::InvalidFormat);
        }
        let n = len - p;
        let mut v: Vec<u8> = Vec::new();
        let mut i: usize = 0;
        while i < n
            invariant
                t@ == input@,
                len == t@.len(),
                p == trailing_pads(t@),
                n == len - p,
                i <= n,
                v@.len() == i,
                forall|j: int| 0 <= j < i ==> (#[trigger] symbol_value(t@[j])) is Some,
                forall|j: int| 0 <= j < i ==> #[trigger] v@[j] == symbol_value(t@[j])->0,
                forall|j: int| 0 <= j < i ==> #[trigger] v@[j] < 64,
            decreases n - i,
        {
            match value_of(t[i]) {
                Some(x) => {
                    v.push(x);
                },
                None => {
                    return Err(CodecError::InvalidFormat);
                },
            }
            i = i + 1;
        }
        let r = Base64(v);
        assert(r@ =~= base64_text_values(input@));
        if n > 0 {
            assert(r@[n - 1] < 64);
        }
        assert(unpadded(r@) =~= r@);
        Ok(r)
    }

    /// The text: each value's alphabet character, `=` for padding.
    pub fn to_string(&self) -> (r: String)
        ensures
            r@ == self@.map_values(|v: u8| symbol_char(v)),
    {
        let mut s = String::new();
        let mut i: usize = 0;
        while i < self.0.len()
            invariant
                i <= self.0@.len(),
                s@ == self@.take(i as int).map_values(|v: u8| symbol_char(v)),
            decreases self.0@.len() - i,
        {
            s.push(symbol_of(self.0[i]));
            i = i + 1;
            assert(s@ =~= self@.take(i as int).map_values(|v: u8| symbol_char(v)));
        }
        assert(self@.take(i as int) =~= self@);
        s
    }

    /// The stored values.
    pub fn symbols(&self) -> (r: &Vec<u8>)
        ensures
            r@ == self@,
    {
        &self.0
    }

    pub closed spec fn wf(&self) -> bool {
        wf_values(self@)
    }
}

impl<'a> TryFrom<&'a str> for Base64 {
    type Error = CodecError;

    fn try_from(input: &'a str) -> (r: Result<Self, CodecError>)
        ensures
            is_base64_text(input@) ==> r is Ok && r->Ok_0@ == base64_text_values(input@)
                && r->Ok_0.wf(),
            !is_base64_text(input@) ==> r == Err::<Self, CodecError>(CodecError::InvalidFormat),
    {
        Base64::parse(input)
    }
}

/// `try_from` states its result in its own `ensures`, as `parse` does.
impl<'a> vstd::std_specs::convert::TryFromSpecImpl<&'a str> for Base64 {
    open spec fn obeys_try_from_spec() -> bool {
        false
    }

    open spec fn try_from_spec(v: &'a str) -> Result<Self, CodecError> {
        arbitrary()
    }
}

} // verus!
