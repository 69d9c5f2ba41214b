//! Named compression algorithms and the compressors behind them.
use vstd::prelude::*;

use crate::error::Error;

verus! {

/// Compression algorithms that a page may name. This library provides
/// Snappy and Gzip; Lzo, Brotli, Lz4 and Zstd are recognized but not
/// provided, and asking for them fails with `Error::Compression`.
#[derive(Debug, Clone, Copy, PartialEq, Eq, Structural)]
pub enum Compression {
    Uncompressed,
    Snappy,
    Gzip,
    Lzo,
    Brotli,
    Lz4,
    Zstd,
}

/// A compressor for one of the algorithms that this library provides.
#[derive(Debug, Clone, Copy, PartialEq, Eq, Structural)]
pub enum Codec {
    Snappy,
    Gzip,
}

/// `data` compressed as one raw Snappy block.
pub uninterp spec fn snappy_block(data: Seq<u8>) -> Seq<u8>;

/// `data` compressed as one gzip member at the default level.
pub uninterp spec fn gzip_member(data: Seq<u8>) -> Seq<u8>;

/// Relies on `snap::raw::Encoder::compress_vec`: the input compressed as one
/// raw Snappy block, a function of the input alone. It fails only when the
/// worst-case output length `32 + n + n / 6` exceeds `u32::MAX`, that is on
/// inputs longer than 3_681_400_511 bytes; it sizes its own output buffer.
#[verifier::external_body]
fn snappy_compress(input: &[u8]) -> (r: Option<Vec<u8>>)
    ensures
        r matches Some(v) ==> v@ == snappy_block(input@),
        input@.len() <= 3_681_400_511 ==> r is Some,
{
    snap::raw::Encoder::new().compress_vec(input).ok()
}

/// Relies on `flate2::write::GzEncoder` at the default level, writing into a
/// `Vec`: a gzip member with no time stamp and a fixed header, a function of
/// the input alone. It fails only when the inner writer fails, which a `Vec`
/// never does, or when the deflate engine (miniz_oxide) reports a bad
/// parameter or a failed output callback, neither of which a fresh encoder at
/// the default level writing to a buffer meets.
#[verifier::external_body]
fn gzip_compress(input: &[u8]) -> (r: Option<Vec<u8>>)
    ensures
        r matches Some(v) ==> v@ == gzip_member(input@),
        r is Some,
{
    let mut encoder = flate2::write::GzEncoder::new(Vec::new(), flate2::Compression::default());
    match std::io::Write::write_all(&mut encoder, input) {
        Ok(()) => encoder.finish().ok(),
        Err(_) => None,
    }
}

/// The compressor for `c`: none for `Uncompressed`, an error for an
/// algorithm that this library does not provide.
pub open spec fn codec_for(c: Compression) -> Result<Option<Codec>, Error> {
    match c {
        Compression::Uncompressed => Ok(None),
        Compression::Snappy => Ok(Some(Codec::Snappy)),
        Compression::Gzip => Ok(Some(Codec::Gzip)),
        _ => Err(Error::Compression(c)),
    }
}

/// Whether `c` compresses `len` bytes without fail: Snappy takes at most
/// 3_681_400_511 bytes, the others any length.
pub open spec fn compressible(c: Compression, len: nat) -> bool {
    c != Compression::Snappy || len <= 3_681_400_511
}

/// Whether this library provides algorithm `c`.
pub open spec fn is_supported(c: Compression) -> bool {
    codec_for(c) is Ok
}

/// What compressing `data` with `codec` gives.
pub open spec fn compressed(codec: Codec, data: Seq<u8>) -> Seq<u8> {
    match codec {
        Codec::Snappy => snappy_block(data),
        Codec::Gzip => gzip_member(data),
    }
}

/// The bytes that a page stores for `data` under algorithm `c`: `data`
/// itself when uncompressed.
pub open spec fn stored(c: Compression, data: Seq<u8>) -> Seq<u8> {
    match codec_for(c) {
        Ok(Some(codec)) => compressed(codec, data),
        _ => data,
    }
}

/// Returns the compressor for `compression`, `None` when the data is stored
/// uncompressed, or a `Compression` error when the algorithm is not provided.
pub fn create_codec(compression: &Compression) -> (r: Result<Option<Codec>, Error>)
    ensures
        r == codec_for(*compression),
{
    match compression {
        Compression::Uncompressed => Ok(None),
        Compression::Snappy => Ok(Some(Codec::Snappy)),
        Compression::Gzip => Ok(Some(Codec::Gzip)),
        _ => Err(Error::Compression(*compression)),
    }
}

impl Codec {
    pub open spec fn spec_algorithm(self) -> Compression {
        match self {
            Codec::Snappy => Compression::Snappy,
            Codec::Gzip => Compression::Gzip,
        }
    }

    /// The algorithm that this compressor implements.
    pub fn algorithm(&self) -> (r: Compression)
        ensures
            r == self.spec_algorithm(),
    {
        match self {
            Codec::Snappy => Compression::Snappy,
            Codec::Gzip => Compression::Gzip,
        }
    }

    /// Appends `input` compressed to `output`. On failure, `output` is left
    /// as it was and the error names the algorithm.
    pub fn compress(&self, input: &[u8], output: &mut Vec<u8>) -> (r: Result<(), Error>)
        ensures
            compressible(self.spec_algorithm(), input@.len()) ==> r is Ok,
            r is Ok ==> final(output)@ == old(output)@ + compressed(*self, input@),
            r is Err ==> r == Err::<(), Error>(Error::Compression(self.spec_algorithm()))
                && final(output)@ == old(output)@,
    {
        let c = match self {
            Codec::Snappy => snappy_compress(input),
            Codec::Gzip => gzip_compress(input),
        };
        match c {
            Some(mut bytes) => {
                output.append(&mut bytes);
                Ok(())
            },
            None => Err(Error::Compression(self.algorithm())),
        }
    }
}

} // verus!
