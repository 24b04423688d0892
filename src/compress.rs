//! The bzip2 codec that each of the three patch regions is stored with.
use std::io::Read;
use std::io::Write;
use vstd::prelude::*;

verus! {

/// The bzip2 stream that the encoder produces from `data` at its best level.
pub uninterp spec fn bz_compressed(data: Seq<u8>) -> Seq<u8>;

/// What decoding the first bzip2 stream in `data` gives; `None` where the
/// stream is corrupt or ends early.
pub uninterp spec fn bz_decompressed(data: Seq<u8>) -> Option<Seq<u8>>;

/// Relies on `bzip2::write::BzEncoder` with `Compression::best()` writing into
/// a `Vec`: the stream depends on the input alone, and bzip2 is lossless, so
/// decoding the stream gives the input back. Writing into a `Vec` cannot fail,
/// and a `Vec` never holds more than `isize::MAX` bytes.
#[verifier::external_body]
pub(crate) fn compress(data: &[u8]) -> (r: Vec<u8>)
    ensures
        r@ == bz_compressed(data@),
        r@.len() <= isize::MAX,
        bz_decompressed(r@) == Some(data@),
{
    let mut encoder = bzip2::write::BzEncoder::new(Vec::new(), bzip2::Compression::best());
    encoder.write_all(data).unwrap();
    encoder.finish().unwrap()
}

/// Relies on `bzip2::bufread::BzDecoder` read to its end: it decodes the first
/// bzip2 stream of `data` and fails on a corrupt or unfinished one.
#[verifier::external_body]
pub(crate) fn decompress(data: &[u8]) -> (r: Option<Vec<u8>>)
    ensures
        r is None ==> bz_decompressed(data@) is None,
        r is Some ==> bz_decompressed(data@) == Some(r->Some_0@),
{
    let mut out = Vec::new();
    match bzip2::bufread::BzDecoder::new(data).read_to_end(&mut out) {
        Ok(_) => Some(out),
        Err(_) => None,
    }
}

} // verus!
