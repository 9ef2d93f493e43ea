//! Two container codecs built on shared coding machinery: a lossless text
//! format (TCF) driven by a static-model arithmetic coder, and a lossy image
//! format (ICF) built from block transforms, quantization, zigzag reordering
//! and run-length coding.  A small bencode serializer and the byte-level
//! framing utilities round out the crate.

pub mod error;
pub mod quant;
pub mod arith;
pub mod hashing;
pub mod model;
pub mod tcf;
pub mod icf;
pub mod bencode;
pub mod bitstream;
pub mod chunked;
pub mod format;
pub mod range_coder;
pub mod simple;

use vstd::prelude::*;

verus! {

} // verus!
