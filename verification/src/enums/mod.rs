pub mod bencode;
pub mod dict;
pub mod order;
