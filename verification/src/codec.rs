//! How texts are laid out as bytes: the length as eight bytes, lowest first, then the UTF-8
//! bytes of the text.

use vstd::bytes::{
    lemma_auto_spec_u64_to_from_le_bytes, spec_u128_to_le_bytes, spec_u64_to_le_bytes,
};
use vstd::prelude::*;
use vstd::utf8::{encode_utf8, encode_utf8_decode_utf8};

verus! {

#[verifier::external_type_specification]
#[verifier::external_body]
pub struct ExBincodeErrorKind(bincode::ErrorKind);

/// The bytes that stand for a text.
pub open spec fn text_bytes(text: Seq<char>) -> Seq<u8> {
    spec_u64_to_le_bytes(encode_utf8(text).len() as u64) + encode_utf8(text)
}

/// `bincode::serialize` on a string, with its default configuration. Trusted: it succeeds, and
/// writes the length of the UTF-8 bytes as eight little-endian bytes followed by those bytes.
#[verifier::external_body]
pub(crate) fn encode_text(text: &str) -> (bytes: Vec<u8>)
    ensures
        bytes@ == text_bytes(text@),
{
    bincode::serialize(text).unwrap()
}

/// `bincode::serialize` on an identifier, with its default configuration. Trusted: it succeeds,
/// and writes the identifier as sixteen little-endian bytes.
#[verifier::external_body]
pub(crate) fn encode_id(id: u128) -> (bytes: Vec<u8>)
    ensures
        bytes@ == spec_u128_to_le_bytes(id),
{
    bincode::serialize(&id).unwrap()
}

/// `bincode::deserialize` into a string, with its default configuration. Trusted: it returns the
/// text whose encoding the bytes start with, ignoring what follows, and fails where there is no
/// such text.
#[verifier::external_body]
pub(crate) fn decode_text(bytes: &[u8]) -> (decoded: Result<String, bincode::Error>)
    ensures
        decoded matches Ok(text) ==> text_bytes(text@).is_prefix_of(bytes@),
        decoded is Err ==> forall|t: Seq<char>| !(#[trigger] text_bytes(t)).is_prefix_of(bytes@),
{
    bincode::deserialize(bytes)
}

/// An encoding is never empty: it starts with its length.
pub proof fn lemma_text_bytes_len(text: Seq<char>)
    ensures
        text_bytes(text).len() == 8 + encode_utf8(text).len(),
{
    lemma_auto_spec_u64_to_from_le_bytes();
}

/// Two texts whose encodings start the same bytes are the same text: an encoding can be read
/// back in one way only, whatever follows it.
pub proof fn law_encoding_reads_back(a: Seq<char>, b: Seq<char>, bytes: Seq<u8>)
    requires
        text_bytes(a).is_prefix_of(bytes),
        text_bytes(b).is_prefix_of(bytes),
        bytes.len() <= u64::MAX,
    ensures
        a == b,
{
    lemma_auto_spec_u64_to_from_le_bytes();
    let ua = encode_utf8(a);
    let ub = encode_utf8(b);
    assert(text_bytes(a).take(8) =~= spec_u64_to_le_bytes(ua.len() as u64));
    assert(text_bytes(b).take(8) =~= spec_u64_to_le_bytes(ub.len() as u64));
    assert(text_bytes(a).take(8) =~= text_bytes(b).take(8)) by {
        assert(text_bytes(a).take(8) =~= bytes.take(8));
        assert(text_bytes(b).take(8) =~= bytes.take(8));
    }
    assert(ua.len() == ub.len());
    assert(ua =~= text_bytes(a).skip(8));
    assert(ub =~= text_bytes(b).skip(8));
    assert(text_bytes(a) =~= bytes.take((8 + ua.len()) as int));
    assert(text_bytes(b) =~= bytes.take((8 + ua.len()) as int));
    encode_utf8_decode_utf8(a);
    encode_utf8_decode_utf8(b);
}

} // verus!
