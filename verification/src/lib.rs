//! A bencode decoder and encoder whose behaviour is specified and proved with Verus.

pub mod dispatcher;
pub mod encoders;
pub mod enums;
pub mod parser;

pub use dispatcher::bdecode::decode_bencode;
pub use dispatcher::bencode::encode_bencode;
pub use enums::bencode::{BencodeDict, BencodeValue};
pub mod laws;
