//! A verified codec for a deterministic, canonically-ordered binary
//! serialization format: a bencode superset with explicit null, boolean and
//! UTF-8 text values alongside binary strings, arbitrary-precision integers,
//! lists and dictionaries.

pub mod decode;
pub mod dict;
pub mod encode;
pub mod digits;
pub mod grammar;
pub mod laws;
pub mod simd;
pub mod structural;
pub mod types;
pub mod utf8;

pub use decode::{decode, Decode, DecodeError, DecodeErrorReason};
pub use encode::{Encode, Error, Write};
pub use simd::{decode_simd, SimdParser};
pub use structural::StructuralIndex;
pub use types::{
    BencodexDictionary, BencodexKey, BencodexList, BencodexValue, BigInt, BENCODEX_NULL,
};
