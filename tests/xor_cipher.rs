use cryptopals::xor_cipher::{single_byte_xor_score_recognition, single_byte_xor_word_recognition};
use cryptopals::{Dictionary, Hex, HexSymbol};

const WORDS: &str = "the\nof\nand\na\nto\nin\nis\nyou\nthat\nit\nhe\nwas\nfor\non\nare\nas\nwith\nhis\nthey\nat\nbe\nthis\nhave\nfrom\nor\none\nhad\nby\nword\nbut\nnot\nwhat\nall\nwere\nwe\nwhen\nyour\ncan\nsaid\nthere\nuse\nan\neach\nwhich\nshe\ndo\nhow\ntheir\nif\nwill\nup\nother\nabout\nout\nmany\nthen\nthem\nthese\nso\nsome\nher\nwould\nmake\nlike\nhim\ninto\ntime\nhas\nlook\ntwo\nmore\nwrite\ngo\nsee\nnumber\nno\nway\ncould\npeople\nmy\nthan\nfirst\nwater\nbeen\ncall\nwho\noil\nits\nnow\nfind\nlong\ndown\nday\ndid\nget\ncome\nmade\nmay\npart\npound\nbacon\ncooking";

fn encrypt(plaintext: &str, key: u8) -> Hex {
    Hex::encode(plaintext).rolling_xor(&Hex::new(&[HexSymbol::new(key)]))
}

#[test]
fn score_recovers_key_and_plaintext() {
    let d = Dictionary::new(WORDS);
    let plaintext = "Cooking MC's like a pound of bacon";
    let found = single_byte_xor_score_recognition(&d, encrypt(plaintext, 88));
    assert_eq!(found, Some((HexSymbol::new(88), plaintext.to_string(), 487)));
}

#[test]
fn score_recovers_from_hex_ciphertext() {
    let d = Dictionary::new(WORDS);
    let c = Hex::parse("1b37373331363f78151b7f2b783431333d78397828372d363c78373e783a393b3736").unwrap();
    let (key, text, _) = single_byte_xor_score_recognition(&d, c).unwrap();
    assert_eq!(key, HexSymbol::new(88));
    assert_eq!(text, "Cooking MC's like a pound of bacon");
}

#[test]
fn score_other_plaintexts() {
    let d = Dictionary::new(WORDS);
    let found = single_byte_xor_score_recognition(&d, encrypt("now that the party is jumping", 0x41));
    assert_eq!(found, Some((HexSymbol::new(0x41), "now that the party is jumping".to_string(), 493)));
    let found = single_byte_xor_score_recognition(&d, encrypt("this is a test", 7));
    assert_eq!(found, Some((HexSymbol::new(7), "this is a test".to_string(), 274)));
}

#[test]
fn score_nothing_above_floor() {
    let d = Dictionary::new("");
    assert_eq!(single_byte_xor_score_recognition(&d, encrypt("hello", 3)), None);
    let d = Dictionary::new(WORDS);
    assert_eq!(single_byte_xor_score_recognition(&d, Hex::new(&[])), None);
}

#[test]
fn words_recover_key() {
    let d = Dictionary::new(WORDS);
    let plaintext = "Cooking MC's like a pound of bacon";
    let found = single_byte_xor_word_recognition(&d, encrypt(plaintext, 88));
    assert_eq!(found, vec![(HexSymbol::new(88), plaintext.to_string())]);
}

#[test]
fn words_report_every_key_in_order() {
    // "a" and "A" are both words: keys 0 and 32 swap the case of a single letter
    let d = Dictionary::new("a\nA");
    let found = single_byte_xor_word_recognition(&d, Hex::encode("a"));
    assert_eq!(
        found,
        vec![(HexSymbol::new(0), "a".to_string()), (HexSymbol::new(32), "A".to_string())]
    );
}
