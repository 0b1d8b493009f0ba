use cryptopals::{CodecError, Hex, HexSymbol};
use std::convert::TryFrom;

#[test]
fn wrong_input_odd_length() {
    assert_eq!(Hex::try_from("aaa"), Err(CodecError::InvalidFormat));
}

#[test]
fn wrong_input_illegal_char() {
    assert_eq!(Hex::try_from("aay2"), Err(CodecError::InvalidFormat));
}

#[test]
fn valid_input() {
    assert_eq!(
        Hex::try_from("7a61"),
        Ok(Hex(vec!(HexSymbol::new(122), HexSymbol::new(97))))
    )
}

#[test]
fn uppercase_input() {
    assert_eq!(
        Hex::try_from("7A6B"),
        Ok(Hex(vec!(HexSymbol::new(122), HexSymbol::new(107))))
    )
}

#[test]
fn hex_struct_encode_input() {
    let input = "hello world!";
    let encoded = Hex::encode(&input);
    assert_eq!(encoded.to_string(), "68656c6c6f20776f726c6421".to_string());
}

#[test]
fn hex_struct_decode_input() {
    let input = "68656c6c6f20776f726c6421";
    let decoded = Hex::try_from(input).unwrap().decode();
    assert_eq!(decoded, "hello world!".to_string())
}

#[test]
fn hex_struct_hamming_distance() {
    let test = Hex::encode("this is a test");
    let wokka = Hex::encode("wokka wokka!!!");

    assert_eq!(test.hamming(&wokka), Ok(37));
}

#[test]
fn hamming_is_zero_on_itself_and_symmetric() {
    let a = Hex::encode("abcdef");
    let b = Hex::encode("uvwxyz");
    assert_eq!(a.hamming(&a), Ok(0));
    assert_eq!(a.hamming(&b), b.hamming(&a));
    assert_eq!(Hex::encode("").hamming(&Hex::encode("")), Ok(0));
}

#[test]
fn hamming_length_mismatch() {
    let a = Hex::encode("abc");
    let b = Hex::encode("ab");
    assert_eq!(a.hamming(&b), Err(CodecError::LengthMismatch));
}

#[test]
fn fixed_xor_known_vector() {
    let a = Hex::parse("1c0111001f010100061a024b53535009181c").unwrap();
    let b = Hex::parse("686974207468652062756c6c277320657965").unwrap();
    let x = a.xor(&b).unwrap();
    assert_eq!(x.to_string(), "746865206b696420646f6e277420706c6179");
}

#[test]
fn xor_length_mismatch() {
    let a = Hex::parse("1c01").unwrap();
    let b = Hex::parse("68").unwrap();
    assert_eq!(a.xor(&b), Err(CodecError::LengthMismatch));
}

#[test]
fn rolling_xor_short_final_chunk() {
    // five bytes against a three-byte key: the last chunk meets the key's first two bytes
    let text = Hex::new(&[HexSymbol(0x10), HexSymbol(0x20), HexSymbol(0x30), HexSymbol(0x40), HexSymbol(0x50)]);
    let key = Hex::new(&[HexSymbol(0x01), HexSymbol(0x02), HexSymbol(0x03)]);
    let r = text.rolling_xor(&key);
    assert_eq!(r.to_string(), "1122334152");
}

#[test]
fn rolling_xor_known_vector() {
    let text = Hex::encode("Burning 'em, if you ain't quick and nimble\nI go crazy when I hear a cymbal");
    let key = Hex::encode("ICE");
    assert_eq!(
        text.rolling_xor(&key).to_string(),
        "0b3637272a2b2e63622c2e69692a23693a2a3c6324202d623d63343c2a26226324272765272a282b2f20430a652e2c652a3124333a653e2b2027630c692b20283165286326302e27282f"
    );
}

#[test]
fn text_round_trip() {
    let s = "The quick brown fox, 42 times ~!";
    assert_eq!(Hex::encode(s).decode(), s.to_string());
}

#[test]
fn encode_is_per_byte() {
    assert_eq!(Hex::encode("é").to_string(), "c3a9");
    assert_eq!(Hex::encode("").to_string(), "");
}

#[test]
fn parse_empty_and_bytes() {
    assert_eq!(Hex::parse(""), Ok(Hex(vec![])));
    assert_eq!(Hex::parse("00fF").unwrap().bytes(), vec![0u8, 255u8]);
    assert_eq!(Hex::parse("0g"), Err(CodecError::InvalidFormat));
}

#[test]
fn render_then_parse() {
    let h = Hex::new(&[HexSymbol(0), HexSymbol(0xab), HexSymbol(0x7f), HexSymbol(255)]);
    assert_eq!(Hex::try_from(h.to_string().as_str()), Ok(h));
}
