use cryptopals::{CodecError, HexSymbol};

#[test]
fn hex_unit_from_u8_small() {
    let value: u8 = b'a';
    assert_eq!(value, 97);
    let hex_value = HexSymbol::from(value);
    assert_eq!(hex_value.decode(), 97);
    let display: String = hex_value.to_string();

    // 'a' is written as '61' in hex
    assert_eq!(String::from("61"), display);
}

#[test]
fn hex_unit_from_u8_big() {
    let value: u8 = b'z';
    assert_eq!(value, 122);
    let hex_value = HexSymbol::from(value);
    assert_eq!(hex_value.decode(), 122);
    let display: String = hex_value.to_string();

    // 'z' is '7a' in hex
    assert_eq!(String::from("7a"), display);
}

#[test]
fn hex_unit_from_char_small() {
    let value: char = 'a';
    let hex_value = HexSymbol::from(value);
    assert_eq!(hex_value.decode(), 97);
    let display: String = hex_value.to_string();
    assert_eq!(String::from("61"), display);
}

#[test]
fn hex_unit_from_char_big() {
    let value: char = 'z';
    let hex_value = HexSymbol::from(value);
    assert_eq!(hex_value.decode(), 122);
    let display: String = hex_value.to_string();
    assert_eq!(String::from("7a"), display);
}

#[test]
fn hex_unit_encode_small() {
    let value: u8 = b'a';
    assert_eq!(value, 97);
    let hex_value = HexSymbol::encode(value);
    assert_eq!(hex_value.decode(), 97);
    let hex_decoded = hex_value.decode();
    assert_eq!(hex_decoded, 97);
    let display: String = hex_value.to_string();
    assert_eq!(String::from("61"), display);
}

#[test]
fn hex_unit_encode_big() {
    let value: u8 = b'z';
    assert_eq!(value, 122);
    let hex_value = HexSymbol::encode(value);
    assert_eq!(hex_value.decode(), 122);
    let hex_decoded = hex_value.decode();
    assert_eq!(hex_decoded, 122);
    let display: String = hex_value.to_string();
    assert_eq!(String::from("7a"), display);
}

#[test]
fn hex_unit_from_char_tuple() {
    assert_eq!(Ok(HexSymbol(122)), HexSymbol::from_hex_digits('7', 'a'));
    assert_eq!(Ok(HexSymbol(97)), HexSymbol::from_hex_digits('6', '1'));
    assert_eq!(Ok(HexSymbol(122)), HexSymbol::from_hex_digits('7', 'a'));
    assert_eq!(Ok(HexSymbol(48)), HexSymbol::from_hex_digits('3', '0'));
    assert_eq!(Ok(HexSymbol(65)), HexSymbol::from_hex_digits('4', '1'));
    assert_eq!(Ok(HexSymbol(117)), HexSymbol::from_hex_digits('7', '5'));
}

#[test]
fn hex_symbol_hamming_distance() {
    assert_eq!(HexSymbol::new(9).hamming(&HexSymbol::new(14)), 3);
    assert_eq!(HexSymbol::new(4).hamming(&HexSymbol::new(8)), 2);
}

#[test]
fn hex_digits_either_case() {
    assert_eq!(HexSymbol::from_hex_digits('F', 'f'), Ok(HexSymbol(255)));
    assert_eq!(HexSymbol::from_hex_digits('A', '0'), Ok(HexSymbol(160)));
}

#[test]
fn hex_digits_rejected() {
    assert_eq!(HexSymbol::from_hex_digits('g', '0'), Err(CodecError::InvalidFormat));
    assert_eq!(HexSymbol::from_hex_digits('0', 'x'), Err(CodecError::InvalidFormat));
}

#[test]
fn byte_rendering_is_zero_padded() {
    assert_eq!(HexSymbol::new(0).to_string(), "00");
    assert_eq!(HexSymbol::new(5).to_string(), "05");
    assert_eq!(HexSymbol::new(255).to_string(), "ff");
}

#[test]
fn printable_and_extended_bounds() {
    assert!(!HexSymbol::new(31).is_printable());
    assert!(HexSymbol::new(32).is_printable());
    assert!(!HexSymbol::new(127).is_extended());
    assert!(HexSymbol::new(128).is_extended());
}

#[test]
fn symbol_xor_and_full_distance() {
    assert_eq!(HexSymbol::new(0b1100).xor(&HexSymbol::new(0b1010)), HexSymbol(0b0110));
    assert_eq!(HexSymbol::new(0).hamming(&HexSymbol::new(255)), 8);
    assert_eq!(HexSymbol::new(77).hamming(&HexSymbol::new(77)), 0);
}

#[test]
fn from_char_keeps_low_byte() {
    assert_eq!(HexSymbol::from('\u{141}'), HexSymbol(0x41));
}
