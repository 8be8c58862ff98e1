//! Payload compression: run-length coding followed by order-0 arithmetic
//! coding, both from the `compress` crate.
use std::io::Write;
use vstd::prelude::*;

verus! {

/// What `compress::rle::Encoder` writes for the given input.
pub uninterp spec fn rle_of(s: Seq<u8>) -> Seq<u8>;

/// What `compress::entropy::ari::ByteEncoder` writes for the given input,
/// terminator included.
pub uninterp spec fn ari_of(s: Seq<u8>) -> Seq<u8>;

/// The bytes stored for a payload, compressed or not.
pub open spec fn stored_payload(source: Seq<u8>, compress: bool) -> Seq<u8> {
    if compress {
        ari_of(rle_of(source))
    } else {
        source
    }
}

/// Relies on `compress::rle::Encoder` writing into a `Vec`: its output is a
/// function of the input bytes alone, and writing into a `Vec` cannot fail.
#[verifier::external_body]
fn rle_encode(source: &[u8]) -> (r: Vec<u8>)
    ensures
        r@ == rle_of(source@),
{
    let mut encoder = compress::rle::Encoder::new(Vec::new());
    let _ = encoder.write_all(source);
    let (buf, _) = encoder.finish();
    buf
}

/// Relies on `compress::entropy::ari::ByteEncoder` writing into a `Vec`: its
/// output is a function of the input bytes alone, and writing into a `Vec`
/// cannot fail.
#[verifier::external_body]
fn ari_encode(source: &[u8]) -> (r: Vec<u8>)
    ensures
        r@ == ari_of(source@),
{
    let mut encoder = compress::entropy::ari::ByteEncoder::new(Vec::new());
    let _ = encoder.write_all(source);
    let (buf, _) = encoder.finish();
    buf
}

/// The bytes to store for `source`: compressed when asked, else a copy.
pub fn encode_payload(source: &[u8], compress: bool) -> (r: Vec<u8>)
    ensures
        r@ == stored_payload(source@, compress),
{
    if compress {
        let runs = rle_encode(source);
        ari_encode(runs.as_slice())
    } else {
        let mut r: Vec<u8> = Vec::new();
        crate::codec::append_bytes(&mut r, source);
        assert(r@ =~= source@);
        r
    }
}

} // verus!
