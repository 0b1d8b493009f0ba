//! Conversions between text and bytes shared by the codecs.
use vstd::prelude::*;
use vstd::string::StringSliceAdditionalSpecFns;
use vstd::utf8::{encode_utf8, is_ascii_chars, is_ascii_chars_encode_utf8};

verus! {

/// Relies on `String::push`: the character is appended at the end.
pub assume_specification[ String::push ](s: &mut String, ch: char)
    ensures
        final(s)@ == old(s)@.push(ch),
;

/// Each byte read as the character with the same code (Latin-1).
pub open spec fn bytes_to_text(b: Seq<u8>) -> Seq<char> {
    b.map_values(|x: u8| x as char)
}

/// Printable ASCII: from space up to `~`.
pub open spec fn is_printable_ascii(t: Seq<char>) -> bool {
    forall|i: int| 0 <= i < t.len() ==> ' ' <= #[trigger] t[i] <= '~'
}

/// The characters of `s`, in order.
pub fn chars_of(s: &str) -> (r: Vec<char>)
    ensures
        r@ == s@,
{
    let mut v: Vec<char> = Vec::new();
    for c in it: s.chars()
        invariant
            v@ == it.seq().take(it.index() as int),
    {
        v.push(c);
    }
    v
}

/// The text whose characters have the codes of `b`, one per byte.
pub fn text_from_bytes(b: &[u8]) -> (r: String)
    ensures
        r@ == bytes_to_text(b@),
{
    let mut s = String::new();
    let mut i: usize = 0;
    while i < b.len()
        invariant
            i <= b@.len(),
            s@ == bytes_to_text(b@.take(i as int)),
        decreases b@.len() - i,
    {
        s.push(b[i] as char);
        i = i + 1;
        assert(b@.take(i as int) == b@.take(i - 1).push(b@[i - 1]));
    }
    assert(b@.take(b@.len() as int) == b@);
    s
}

/// The UTF-8 bytes of `s`.
pub fn bytes_of(s: &str) -> (r: Vec<u8>)
    ensures
        r@ == s.spec_bytes(),
{
    let b = s.as_bytes();
    let mut v: Vec<u8> = Vec::new();
    let mut i: usize = 0;
    while i < b.len()
        invariant
            i <= b@.len(),
            b@ == s.spec_bytes(),
            v@ == b@.take(i as int),
        decreases b@.len() - i,
    {
        v.push(b[i]);
        i = i + 1;
    }
    v
}

/// Printable ASCII text survives the trip to bytes and back.
pub proof fn lemma_ascii_text_bytes_round_trip(t: Seq<char>)
    requires
        is_printable_ascii(t),
    ensures
        bytes_to_text(encode_utf8(t)) == t,
{
    assert(is_ascii_chars(t));
    is_ascii_chars_encode_utf8(t);
    assert(bytes_to_text(encode_utf8(t)) =~= t);
}

} // verus!
