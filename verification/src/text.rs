//! Text decoding at the boundary between raw configuration bytes and the
//! strings this crate reports: strict UTF-8 decoding for the decompressed
//! `rom-0` text, which must be valid as a whole, and lossy decoding for
//! captured field values, which may contain arbitrary device bytes.
use vstd::prelude::*;
use vstd::utf8::decode_utf8;
use vstd::utf8::valid_utf8;

verus! {

/// The characters that `String::from_utf8_lossy` reads out of the given
/// bytes: the decoded text, with each maximal malformed sequence replaced
/// by the replacement character. The result depends on the bytes alone.
pub uninterp spec fn lossy_of(bytes: Seq<u8>) -> Seq<char>;

/// Relies on `String::from_utf8`: it returns the decoded string exactly
/// when the bytes are valid UTF-8, and rejects all other byte sequences.
#[verifier::external_body]
pub fn utf8_string(bytes: &[u8]) -> (r: Option<String>)
    ensures
        r is Some <==> valid_utf8(bytes@),
        r is Some ==> r->0@ == decode_utf8(bytes@),
{
    String::from_utf8(bytes.to_vec()).ok()
}

/// Relies on `String::from_utf8_lossy`: its result is a function of the
/// bytes alone, and bytes that are valid UTF-8 decode unchanged.
#[verifier::external_body]
pub fn lossy_string(bytes: &[u8]) -> (r: String)
    ensures
        r@ == lossy_of(bytes@),
        valid_utf8(bytes@) ==> r@ == decode_utf8(bytes@),
{
    String::from_utf8_lossy(bytes).into_owned()
}

/// Bytes below `0x80` are one-byte UTF-8 scalars, so a pure-ASCII byte
/// sequence is valid UTF-8 and decodes to its bytes read as characters.
pub proof fn lemma_ascii_valid_utf8(bytes: Seq<u8>)
    requires
        forall|i: int| 0 <= i < bytes.len() ==> bytes[i] < 0x80,
    ensures
        valid_utf8(bytes),
        decode_utf8(bytes).len() == bytes.len(),
        forall|i: int| 0 <= i < bytes.len() ==> #[trigger] decode_utf8(bytes)[i] == bytes[i] as char,
    decreases bytes.len(),
{
    if bytes.len() > 0 {
        let b = bytes[0];
        assert(b & 0x7F == b) by (bit_vector)
            requires
                b < 0x80,
        ;
        let rest = bytes.subrange(1, bytes.len() as int);
        assert(vstd::utf8::pop_first_scalar(bytes) =~= rest);
        lemma_ascii_valid_utf8(rest);
        assert(decode_utf8(bytes) =~= seq![b as char] + decode_utf8(rest));
    }
}

} // verus!
