pub mod encode;
pub mod roundtrip;
