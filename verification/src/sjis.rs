//! The legacy double-byte text encoding at the codec's edge.
//!
//! Manifest files live on disk in Shift-JIS; the codec's working form is
//! UTF-8 bytes. Both directions are pure functions of the input bytes and
//! are named rather than written out.

use vstd::prelude::*;

verus! {

/// The UTF-8 bytes of the text that a Shift-JIS decode of `data` yields.
pub uninterp spec fn sjis_decode_of(data: Seq<u8>) -> Seq<u8>;

/// The Shift-JIS bytes that encoding the UTF-8 text `s` yields.
pub uninterp spec fn sjis_encode_of(s: Seq<u8>) -> Seq<u8>;

/// Relies on encoding_rs's `SHIFT_JIS.decode`: the decoded text is a
/// function of the input bytes alone, and an empty input stays empty.
#[verifier::external_body]
pub fn sjis_decode(data: &[u8]) -> (r: Vec<u8>)
    ensures
        r@ == sjis_decode_of(data@),
        data@.len() == 0 ==> r@.len() == 0,
{
    let (text, _, _) = encoding_rs::SHIFT_JIS.decode(data);
    text.into_owned().into_bytes()
}

/// Relies on encoding_rs's `SHIFT_JIS.encode`: the encoded bytes are a
/// function of the input text alone, and an empty input stays empty.
/// The input is interpreted as UTF-8, replacing any ill-formed sequence.
#[verifier::external_body]
pub fn sjis_encode(s: &[u8]) -> (r: Vec<u8>)
    ensures
        r@ == sjis_encode_of(s@),
        s@.len() == 0 ==> r@.len() == 0,
{
    let text = String::from_utf8_lossy(s);
    let (bytes, _, _) = encoding_rs::SHIFT_JIS.encode(&text);
    bytes.into_owned()
}

} // verus!
