pub mod bdecode;
pub mod bencode;
pub mod host;
