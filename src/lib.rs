//! Hexadecimal and base64 codecs over byte sequences, and a single-byte XOR
//! breaker that ranks candidate plaintexts against a word list.

pub mod base64;
pub mod dictionary;
pub mod error;
pub mod hex;
pub mod hex_symbol;
pub mod text;
pub mod xor_cipher;

pub use base64::Base64;
pub use dictionary::Dictionary;
pub use error::CodecError;
pub use hex::Hex;
pub use hex_symbol::HexSymbol;
