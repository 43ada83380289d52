//! Contract ABI codec: typed tokens, the head/tail binary layout, lenient
//! tokenization of loosely typed host values, and a registry of interfaces.
pub mod call;
pub mod decode;
pub mod encode;
pub mod hex_text;
pub mod render;
pub mod roundtrip;
pub mod tokenize;
pub mod types;
