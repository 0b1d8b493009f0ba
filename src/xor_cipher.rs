//! Recovering a single-byte XOR key by trying all 256 of them.
use vstd::prelude::*;

use crate::dictionary::{hit_count, letter_total, saturate, Dictionary};
use crate::hex::{repeating_xor, Hex};
use crate::hex_symbol::HexSymbol;
use crate::text::bytes_to_text;

verus! {

/// `c` XORed with the single byte `k`.
pub open spec fn decrypt(c: Seq<u8>, k: u8) -> Seq<u8> {
    repeating_xor(c, seq![k])
}

/// Every byte is printable ASCII: neither a control character nor above 127.
pub open spec fn plausible(p: Seq<u8>) -> bool {
    forall|i: int| 0 <= i < p.len() ==> 31 < #[trigger] p[i] <= 127
}

/// The letter score of the text that key `k` gives.
pub open spec fn key_score(words: Seq<Seq<char>>, c: Seq<u8>, k: u8) -> u32 {
    saturate(letter_total(words, bytes_to_text(decrypt(c, k))))
}

/// Key `k` gives printable text with more word hits than a tenth of its length.
pub open spec fn word_match(words: Seq<Seq<char>>, c: Seq<u8>, k: u8) -> bool {
    &&& plausible(decrypt(c, k))
    &&& hit_count(words, bytes_to_text(decrypt(c, k))) > c.len() / 10
}

fn is_plausible(h: &Hex) -> (r: bool)
    ensures
        r == plausible(h@),
{
    let mut i: usize = 0;
    while i < h.0.len()
        invariant
            i <= h.0@.len(),
            forall|j: int| 0 <= j < i ==> 31 < #[trigger] h@[j] <= 127,
        decreases h.0@.len() - i,
    {
        let s = h.0[i];
        if !s.is_printable() || s.is_extended() {
            assert(!(31 < h@[i as int] <= 127));
            return false;
        }
        i = i + 1;
    }
    true
}

fn decrypt_with(input: &Hex, byte: u8) -> (r: Hex)
    ensures
        r@ == decrypt(input@, byte),
{
    let key = Hex(vec![HexSymbol::new(byte)]);
    assert(key@ =~= seq![byte]);
    input.rolling_xor(&key)
}

/// Tries every key and keeps, among those giving printable text, one with the
/// highest letter score, the greatest key on a tie. Reports it, with its
/// text and score, only if the score is above 1.
pub fn single_byte_xor_score_recognition(dictionary: &Dictionary, input: Hex) -> (r: Option<
    (HexSymbol, String, u32),
>)
    ensures
        match r {
            Some((key, text, score)) => {
                let w = dictionary.words();
                &&& plausible(decrypt(input@, key.0))
                &&& text@ == bytes_to_text(decrypt(input@, key.0))
                &&& score == key_score(w, input@, key.0)
                &&& score > 1
                &&& forall|k: u8| #[trigger]
                    plausible(decrypt(input@, k)) ==> key_score(w, input@, k) <= score
                &&& forall|k: u8|
                    k > key.0 && #[trigger] plausible(decrypt(input@, k)) ==> key_score(
                        w,
                        input@,
                        k,
                    ) < score
            },
            None => forall|k: u8| #[trigger]
                plausible(decrypt(input@, k)) ==> key_score(dictionary.words(), input@, k) <= 1,
        },
{
    let ghost w = dictionary.words();
    let mut max_score: u32 = 1;
    let mut best_fit = String::new();
    let mut key: u8 = 0;
    let mut b: u32 = 0;
    while b < 256
        invariant
            b <= 256,
            w == dictionary.words(),
            max_score >= 1,
            forall|k: u8|
                (k as u32) < b && #[trigger] plausible(decrypt(input@, k)) ==> key_score(
                    w,
                    input@,
                    k,
                ) <= max_score,
            max_score > 1 ==> {
                &&& (key as u32) < b
                &&& plausible(decrypt(input@, key))
                &&& key_score(w, input@, key) == max_score
                &&& best_fit@ == bytes_to_text(decrypt(input@, key))
                &&& forall|k: u8|
                    k > key && (k as u32) < b && #[trigger] plausible(decrypt(input@, k))
                        ==> key_score(w, input@, k) < max_score
            },
        decreases 256 - b,
    {
        let byte = b as u8;
        let decoded = decrypt_with(&input, byte);
        if is_plausible(&decoded) {
            let decoded_str = decoded.decode();
            let decoded_score = dictionary.letter_score(decoded_str.as_str());
            if decoded_score >= max_score {
                max_score = decoded_score;
                best_fit = decoded_str;
                key = byte;
            }
        }
        b = b + 1;
    }
    if max_score > 1 {
        Some((HexSymbol::new(key), best_fit, max_score))
    } else {
        None
    }
}

/// Every key, in increasing order, that gives printable text in which more
/// tokens than a tenth of its length are words; with that text.
pub fn single_byte_xor_word_recognition(dictionary: &Dictionary, input: Hex) -> (r: Vec<
    (HexSymbol, String),
>)
    requires
        input@.len() <= u32::MAX,
    ensures
        forall|i: int|
            0 <= i < r@.len() ==> {
                &&& word_match(dictionary.words(), input@, (#[trigger] r@[i]).0.0)
                &&& r@[i].1@ == bytes_to_text(decrypt(input@, r@[i].0.0))
            },
        forall|i: int, j: int|
            0 <= i < j < r@.len() ==> (#[trigger] r@[i]).0.0 < (#[trigger] r@[j]).0.0,
        forall|k: u8| #[trigger]
            word_match(dictionary.words(), input@, k) ==> exists|i: int|
                0 <= i < r@.len() && (#[trigger] r@[i]).0.0 == k,
{
    let ghost w = dictionary.words();
    let threshold = (input.0.len() / 10) as u32;
    let mut found: Vec<(HexSymbol, String)> = Vec::new();
    let mut b: u32 = 0;
    while b < 256
        invariant
            b <= 256,
            w == dictionary.words(),
            input@.len() <= u32::MAX,
            threshold == input@.len() / 10,
            forall|i: int|
                0 <= i < found@.len() ==> {
                    &&& word_match(w, input@, (#[trigger] found@[i]).0.0)
                    &&& found@[i].1@ == bytes_to_text(decrypt(input@, found@[i].0.0))
                    &&& (found@[i].0.0 as u32) < b
                },
            forall|i: int, j: int|
                0 <= i < j < found@.len() ==> (#[trigger] found@[i]).0.0 < (
                #[trigger] found@[j]).0.0,
            forall|k: u8|
                (k as u32) < b && #[trigger] word_match(w, input@, k) ==> exists|i: int|
                    0 <= i < found@.len() && (#[trigger] found@[i]).0.0 == k,
        decreases 256 - b,
    {
        let byte = b as u8;
        let ghost before = found@;
        let decoded = decrypt_with(&input, byte);
        if is_plausible(&decoded) {
            let decoded_str = decoded.decode();
            let hits = dictionary.hits(decoded_str.as_str());
            if hits > threshold {
                found.push((HexSymbol::new(byte), decoded_str));
                assert(found@[found@.len() - 1].0.0 == byte);
            }
        }
        assert forall|k: u8|
            (k as u32) < b + 1 && #[trigger] word_match(w, input@, k) implies exists|i: int|
                0 <= i < found@.len() && (#[trigger] found@[i]).0.0 == k by {
            if k != byte {
                let i = choose|i: int| 0 <= i < before.len() && (#[trigger] before[i]).0.0 == k;
                assert(found@[i] == before[i]);
            } else {
                assert(found@[found@.len() - 1].0.0 == k);
            }
        }
        b = b + 1;
    }
    found
}

} // verus!
