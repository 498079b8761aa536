//! Binary ensembles: a bit-packed run-length format (BEN) for ensembles of
//! assignment vectors, its byte-aligned staging form (ben32), and the
//! LZMA2-compressed variant (XBEN).
//!
//! An assignment vector gives every node of a graph a 16-bit label. Consecutive
//! nodes that share a label form a run. A BEN file stores, for each sample, the
//! runs of its vector packed into the fewest bits that hold them.

pub mod ben32;
pub mod bitpack;
pub mod bitstream;
pub mod decode;
pub mod encode;
pub mod error;
pub mod format;
pub mod json;
pub mod roundtrip;
pub mod translate;
pub mod xz;
pub mod utils;
