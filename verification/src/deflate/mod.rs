//! Zlib-wrapped DEFLATE encoder (RFC 1950 / 1951). Encode only; any standard
//! inflater decodes the output.

pub mod adler;
pub mod bits;
pub mod huffman;
pub mod lz77;
pub mod encode;

use vstd::prelude::*;
use encode::{deflate_stream, be32};
use adler::adler32_spec;

verus! {

/// `out` is a zlib stream of `data`: header 78 DA, a DEFLATE stream that inflates to
/// `data`, and the big-endian Adler-32 of `data`.
pub open spec fn zlib_of(out: Seq<u8>, data: Seq<u8>) -> bool {
    &&& out.len() >= 6
    &&& out[0] == 0x78
    &&& out[1] == 0xDA
    &&& out.subrange(out.len() - 4, out.len() as int) == be32(adler32_spec(data))
    &&& deflate_stream(out.subrange(2, out.len() - 4), data)
}

/// Compress `data` to a zlib stream. Never returns an empty buffer.
pub fn compress(data: &[u8]) -> (out: Vec<u8>)
    requires
        data.len() < 0x7fff_ffff,
    ensures
        zlib_of(out@, data@),
{
    encode::compress_zlib(data)
}

} // verus!
