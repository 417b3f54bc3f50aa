//! Rewrites PNG files so that every compressed stream in them is stored
//! uncompressed: a DEFLATE decoder for all block types, a stored-block
//! encoder, the ZLIB wrapper, PNG chunk framing, and the per-chunk policy
//! that ties them together.

pub mod args;
pub mod u4mod;
pub mod bits;
pub mod deflate;
pub mod zlib;
pub mod png;
pub mod rewrite;
