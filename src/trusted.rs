//! The calls into std and outside crates that the library relies on, each
//! with the contract that it is trusted to meet.

use vstd::prelude::*;
use vstd::utf8::valid_utf8;

use std::io::Read;
use std::io::Write;

use sha1::Digest;

verus! {

/// Relies on `std::str::from_utf8`: it accepts exactly the well-formed UTF-8
/// byte strings.
#[verifier::external_body]
pub(crate) fn is_utf8(b: &[u8]) -> (r: bool)
    ensures
        r == valid_utf8(b@),
{
    std::str::from_utf8(b).is_ok()
}

/// The SHA-1 digest of a byte string.
pub uninterp spec fn sha1_digest(b: Seq<u8>) -> Seq<u8>;

/// The zlib stream that flate2 writes for a byte string at the default
/// compression level.
pub uninterp spec fn deflated(b: Seq<u8>) -> Seq<u8>;

/// What the zlib stream at the start of `b` decompresses to, where that
/// stream is complete and well formed; `None` where it is corrupt or cut
/// short. Bytes after the end of the stream play no part.
pub uninterp spec fn inflated(b: Seq<u8>) -> Option<Seq<u8>>;

/// Relies on `sha1::Sha1::digest`: the digest depends on the bytes alone.
#[verifier::external_body]
pub(crate) fn sha1(b: &[u8]) -> (r: [u8; 20])
    ensures
        r@ == sha1_digest(b@),
{
    sha1::Sha1::digest(b).into()
}

/// Relies on flate2's `write::ZlibEncoder` at `Compression::default()`: the
/// stream depends on the bytes alone, and inflating it gives them back.
#[verifier::external_body]
pub(crate) fn deflate(b: &[u8]) -> (r: Vec<u8>)
    ensures
        r@ == deflated(b@),
        inflated(r@) == Some(b@),
{
    let mut encoder = flate2::write::ZlibEncoder::new(Vec::new(), flate2::Compression::default());
    encoder.write_all(b).expect("writing to a Vec does not fail");
    encoder.finish().expect("writing to a Vec does not fail")
}

/// Relies on flate2's `read::ZlibDecoder` read through `Read::take(limit)`:
/// on a complete, well-formed stream it yields the decompressed bytes in
/// order and stops after `limit` of them; whatever it returns is at most
/// `limit` bytes long.
#[verifier::external_body]
pub(crate) fn inflate_prefix(data: &[u8], limit: u64) -> (r: Option<Vec<u8>>)
    ensures
        inflated(data@) is Some ==> r is Some,
        r matches Some(v) ==> v@.len() <= limit,
        r matches Some(v) ==> (inflated(data@) matches Some(full) ==> v@ == full.take(
            if full.len() < limit {
                full.len() as int
            } else {
                limit as int
            },
        )),
{
    let mut out = Vec::new();
    match flate2::read::ZlibDecoder::new(data).take(limit).read_to_end(&mut out) {
        Ok(_) => Some(out),
        Err(_) => None,
    }
}

/// Two lowercase hex digits for each byte, high nibble first.
pub open spec fn hex_of(b: Seq<u8>) -> Seq<u8>
    decreases b.len(),
{
    if b.len() == 0 {
        Seq::empty()
    } else {
        hex_of(b.drop_last()) + seq![hex_digit(b.last() / 16), hex_digit(b.last() % 16)]
    }
}

/// The lowercase hex digit of a value below sixteen.
pub open spec fn hex_digit(v: u8) -> u8 {
    if v < 10 {
        (48 + v) as u8
    } else {
        (87 + v) as u8
    }
}

/// Relies on `hex::encode`: two lowercase hex digits for each byte, high
/// nibble first.
#[verifier::external_body]
pub(crate) fn hex_encode(b: &[u8]) -> (r: Vec<u8>)
    ensures
        r@ == hex_of(b@),
{
    hex::encode(b).into_bytes()
}

} // verus!
