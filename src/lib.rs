//! A memcached ASCII text-protocol client adapter: command encoding, reply
//! framing and parsing, and an operation dispatcher that a caller drives by
//! handing in the bytes it reads and taking out the bytes to write.
use vstd::prelude::*;

pub mod error;
pub mod reply;
pub mod text;
pub mod version;
pub mod wire;

verus! {

} // verus!
