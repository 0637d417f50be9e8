//! Trusted boundary to the `rlp` crate: the wire framing of a completion
//! payload as a one-element RLP list of bytes.

use vstd::prelude::*;

verus! {

/// The RLP wire encoding of a completion payload: a one-element list frame
/// holding the payload bytes. The exact byte layout is the rlp crate's and
/// is left unstated; only the round trip below is relied on.
pub uninterp spec fn rlp_encoded(payload: Seq<u8>) -> Seq<u8>;

/// What RLP decoding yields on a raw message: the payload bytes of a
/// well-formed one-element list frame, or nothing when the message is
/// malformed.
pub uninterp spec fn rlp_decoded(raw: Seq<u8>) -> Option<Seq<u8>>;

/// Relies on rlp::RlpStream: `new_list(1)` followed by `append_list` frames
/// the payload as a one-element list of bytes and `out` streams the finished
/// encoding; rlp::Rlp::list_at reads that framing back, so the encoding
/// decodes to the payload it was built from. The stream's length headers
/// hold 32 bits (`BasicEncoder::insert_size` truncates the size to `u32`),
/// so the round trip is only promised while the payload stays far below
/// that limit; the bound leaves room for the two encoded bytes a byte of
/// the payload can take.
#[verifier::external_body]
pub(crate) fn rlp_encode_payload(payload: &Vec<u8>) -> (r: Vec<u8>)
    requires
        payload@.len() < 0x4000_0000,
    ensures
        r@ == rlp_encoded(payload@),
        rlp_decoded(r@) == Some(payload@),
{
    let mut stream = rlp::RlpStream::new_list(1);
    stream.append_list(&payload[..]);
    stream.out().to_vec()
}

/// Relies on rlp::Rlp::list_at: deterministically decodes item 0 of an RLP
/// list frame as a list of bytes; any malformed frame yields a decoder
/// error, mapped here to `None`.
#[verifier::external_body]
pub(crate) fn rlp_decode_payload(raw: &[u8]) -> (r: Option<Vec<u8>>)
    ensures
        match r {
            Some(p) => rlp_decoded(raw@) == Some(p@),
            None => rlp_decoded(raw@) is None,
        },
{
    let decoder = rlp::Rlp::new(raw);
    decoder.list_at::<u8>(0).ok()
}

} // verus!
