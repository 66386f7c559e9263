//! Tile payloads: most are gzip streams, some are bare. The two magic bytes
//! decide, and gzip itself is flate2's.
use vstd::prelude::*;

verus! {

/// The gzip stream that flate2 writes for `data` at the default level.
pub uninterp spec fn gzip_of(data: Seq<u8>) -> Seq<u8>;

/// What flate2 reads back from the gzip stream `data`: `None` when it is not
/// a readable gzip stream.
pub uninterp spec fn gunzip_of(data: Seq<u8>) -> Option<Seq<u8>>;

/// Relies on flate2's `GzEncoder` at the default level, writing into a
/// `Vec`: the result is the gzip stream of `data`. Writing into a `Vec` with
/// the default compressor settings does not fail.
#[verifier::external_body]
fn gzip_encode(data: &[u8]) -> (r: Vec<u8>)
    ensures
        r@ == gzip_of(data@),
{
    let mut gz = flate2::write::GzEncoder::new(Vec::new(), flate2::Compression::default());
    std::io::Write::write_all(&mut gz, data).expect("writing into a Vec does not fail");
    gz.finish().expect("writing into a Vec does not fail")
}

/// Relies on flate2's `GzDecoder` read to the end: the result is what the
/// gzip stream `data` holds, or `None` when flate2 cannot read it.
#[verifier::external_body]
fn gzip_decode(data: &[u8]) -> (r: Option<Vec<u8>>)
    ensures
        match r {
            Some(v) => gunzip_of(data@) == Some(v@),
            None => gunzip_of(data@) is None,
        },
{
    let mut out = Vec::new();
    match std::io::Read::read_to_end(&mut flate2::read::GzDecoder::new(data), &mut out) {
        Ok(_) => Some(out),
        Err(_) => None,
    }
}

/// The payload starts with the gzip magic bytes `1f 8b`.
pub open spec fn has_gzip_magic(data: Seq<u8>) -> bool {
    data.len() >= 2 && data[0] == 0x1f && data[1] == 0x8b
}

/// Whether the payload starts with the gzip magic bytes; a payload shorter
/// than two bytes does not.
pub fn is_gzip(data: &[u8]) -> (r: bool)
    ensures
        r == has_gzip_magic(data@),
{
    data.len() >= 2 && data[0] == 0x1f && data[1] == 0x8b
}

/// Gzips a payload that is not gzipped yet; a gzipped one is returned as it
/// is.
pub fn maybe_compress(data: Vec<u8>) -> (r: Vec<u8>)
    ensures
        has_gzip_magic(data@) ==> r == data,
        !has_gzip_magic(data@) ==> r@ == gzip_of(data@),
{
    if is_gzip(data.as_slice()) {
        return data;
    }
    gzip_encode(data.as_slice())
}

/// Unpacks a gzipped payload; a bare one is returned as it is. `None` exactly
/// when the payload has the gzip magic but flate2 cannot read it.
pub fn maybe_decompress(data: Vec<u8>) -> (r: Option<Vec<u8>>)
    ensures
        !has_gzip_magic(data@) ==> r == Some(data),
        has_gzip_magic(data@) ==> match r {
            Some(v) => gunzip_of(data@) == Some(v@),
            None => gunzip_of(data@) is None,
        },
{
    if is_gzip(data.as_slice()) {
        return gzip_decode(data.as_slice());
    }
    Some(data)
}

} // verus!
