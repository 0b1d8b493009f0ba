use cryptopals::{Base64, CodecError};
use std::convert::TryFrom;

#[test]
fn count_alphabet() {
    // 64 letters in the alphabet + 1 for padding
    assert_eq!(Base64::alphabet().len(), 64 + 1);
}

#[test]
fn alphabet_without_equal() {
    let full = Base64::alphabet();
    let alphabet = &full[..full.len() - 1];

    assert!(!alphabet.contains('='));
}

#[test]
fn encode_input_padding_two() {
    let value = "A";
    assert_eq!(Base64::encode(&value).to_string(), "QQ==".to_string());
}

#[test]
fn encode_input_padding_one() {
    let value = "AA";
    assert_eq!(Base64::encode(&value).to_string(), "QUE=".to_string());
}

#[test]
fn encode_input_no_padding() {
    let value = "AAA";
    assert_eq!(Base64::encode(&value).to_string(), "QUFB".to_string());
}

#[test]
fn base64_encode_input() {
    let value = "hello world!";
    assert_eq!(
        Base64::encode(&value).to_string(),
        "aGVsbG8gd29ybGQh".to_string()
    );

    let value = "hello world";
    assert_eq!(
        Base64::encode(&value).to_string(),
        "aGVsbG8gd29ybGQ=".to_string()
    );

    let value = "hello worl";
    assert_eq!(
        Base64::encode(&value).to_string(),
        "aGVsbG8gd29ybA==".to_string()
    );
}

#[test]
fn from_input_padding_two() {
    let input = "QQ==";
    let base_64 = Base64::try_from(input).unwrap();
    assert_eq!(base_64.symbols(), &vec!(16, 16));
}

#[test]
fn from_input_padding_one() {
    let input = "QUE=";
    let base_64 = Base64::try_from(input).unwrap();
    assert_eq!(base_64.symbols(), &vec!(16, 20, 4));
}

#[test]
fn from_input_no_padding() {
    let input = "QUFB";
    let base_64 = Base64::try_from(input).unwrap();
    assert_eq!(base_64.symbols(), &vec!(16, 20, 5, 1));
}

#[test]
fn base64_decode_input() {
    let input = "aGVsbG8gd29ybGQh";
    let decoded = Base64::try_from(input).unwrap().decode();
    assert_eq!(decoded, "hello world!".to_string());
}

#[test]
fn encode_and_decode() {
    let input = "hello world!";

    let encoded = Base64::encode(&input);
    let decoded = encoded.decode();
    assert_eq!(decoded, input.to_string());
}

#[test]
fn illegal_parsing() {
    let input = "g%x";
    assert_eq!(Base64::try_from(input), Err(CodecError::InvalidFormat));

    let input = "QQ=";
    assert_eq!(Base64::try_from(input), Err(CodecError::InvalidFormat));
}

#[test]
fn too_much_padding() {
    assert_eq!(Base64::parse("Q==="), Err(CodecError::InvalidFormat));
    assert_eq!(Base64::parse("QQ=A"), Err(CodecError::InvalidFormat));
}

#[test]
fn padded_round_trips() {
    for s in ["", "A", "AA", "AAA", "hello worl", "hello world"] {
        assert_eq!(Base64::encode(s).decode(), s.to_string());
    }
}

#[test]
fn byte_round_trip_all_values() {
    let bytes: Vec<u8> = (0..=255u8).collect();
    for n in 0..bytes.len() {
        let b = &bytes[..n];
        assert_eq!(Base64::encode_bytes(b).decode_bytes(), b.to_vec());
    }
}

#[test]
fn encoded_padding_values() {
    assert_eq!(Base64::encode("A").symbols(), &vec![16, 16, 64, 64]);
    assert_eq!(Base64::encode("AA").symbols(), &vec![16, 20, 4, 64]);
    assert_eq!(Base64::encode("").symbols(), &Vec::<u8>::new());
}

#[test]
fn parsed_text_decodes() {
    assert_eq!(Base64::parse("QQ==").unwrap().decode(), "A");
    assert_eq!(Base64::parse("QUE=").unwrap().decode(), "AA");
    assert_eq!(Base64::parse("+/+/").unwrap().decode_bytes(), vec![0xfb, 0xff, 0xbf]);
    assert_eq!(Base64::parse("QQ").unwrap_err(), CodecError::InvalidFormat);
}

#[test]
fn alphabet_order() {
    assert_eq!(
        Base64::alphabet(),
        "ABCDEFGHIJKLMNOPQRSTUVWXYZabcdefghijklmnopqrstuvwxyz0123456789+/="
    );
}

#[test]
fn render_then_parse_drops_padding() {
    let e = Base64::encode("AA");
    let parsed = Base64::try_from(e.to_string().as_str()).unwrap();
    assert_eq!(parsed.symbols(), &vec![16, 20, 4]);
    let e = Base64::encode("hello world!");
    assert_eq!(Base64::try_from(e.to_string().as_str()).unwrap().symbols(), e.symbols());
}
