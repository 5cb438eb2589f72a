use vstd::prelude::*;
use vstd::string::StringExecFns;
use vstd::utf8::{encode_utf8, is_ascii_chars};

verus! {

/// The digest bytes that sha2's `Sha256` produces for an input; the result is
/// a function of the input bytes alone.
pub uninterp spec fn sha256_of(b: Seq<u8>) -> Seq<u8>;

/// The lowercase hex digit for one value below 16, as a character.
pub open spec fn hex_char(n: u8) -> char
    recommends
        n < 16,
{
    if n < 10 {
        ((0x30 + n) as u8) as char
    } else {
        ((0x57 + n) as u8) as char
    }
}

/// Lowercase hex encoding of a byte sequence: two digits per byte, high
/// nibble first.
pub open spec fn spec_hex_chars(b: Seq<u8>) -> Seq<char>
    decreases b.len(),
{
    if b.len() == 0 {
        Seq::empty()
    } else {
        seq![hex_char(b[0] / 16), hex_char(b[0] % 16)] + spec_hex_chars(b.drop_first())
    }
}

/// The content identity of a byte payload: `sha256:` followed by the
/// lowercase hex encoding of its SHA-256 digest.
pub open spec fn spec_identity(b: Seq<u8>) -> Seq<char> {
    "sha256:"@ + spec_hex_chars(sha256_of(b))
}

/// The identity as the UTF-8 key bytes under which the metadata index files
/// the payload's record.
pub open spec fn spec_identity_key(b: Seq<u8>) -> Seq<u8> {
    encode_utf8(spec_identity(b))
}

/// Relies on `sha2::Sha256::digest`: a 32-byte digest that depends on the
/// input bytes alone.
#[verifier::external_body]
pub(crate) fn sha256_digest(data: &[u8]) -> (r: Vec<u8>)
    ensures
        r@ == sha256_of(data@),
        r@.len() == 32,
{
    <sha2::Sha256 as sha2::Digest>::digest(data).to_vec()
}

/// Relies on `hex::encode`: two lowercase hex digits for each input byte,
/// high nibble first.
#[verifier::external_body]
pub(crate) fn hex_lower(data: &[u8]) -> (r: String)
    ensures
        r@ == spec_hex_chars(data@),
{
    hex::encode(data)
}

pub proof fn lemma_hex_chars_ascii(b: Seq<u8>)
    ensures
        spec_hex_chars(b).len() == 2 * b.len(),
        is_ascii_chars(spec_hex_chars(b)),
    decreases b.len(),
{
    if b.len() == 0 {
    } else {
        lemma_hex_chars_ascii(b.drop_first());
        assert forall|i: int| 0 <= i < spec_hex_chars(b).len() implies '\0'
            <= #[trigger] spec_hex_chars(b)[i] <= '\u{7f}' by {
            if i >= 2 {
                assert(spec_hex_chars(b)[i] == spec_hex_chars(b.drop_first())[i - 2]);
            }
        }
    }
}

pub proof fn lemma_identity_shape(b: Seq<u8>)
    ensures
        spec_identity(b).len() == 7 + 2 * sha256_of(b).len(),
        is_ascii_chars(spec_identity(b)),
        sha256_of(b).len() == 32 ==> spec_identity(b).len() == 71,
{
    reveal_strlit("sha256:");
    lemma_hex_chars_ascii(sha256_of(b));
    assert forall|i: int| 0 <= i < spec_identity(b).len() implies '\0'
        <= #[trigger] spec_identity(b)[i] <= '\u{7f}' by {
        if i >= 7 {
            assert(spec_identity(b)[i] == spec_hex_chars(sha256_of(b))[i - 7]);
        }
    }
}

/// Computes the content identity of a payload, in executable form.
pub fn identity_string(data: &[u8]) -> (r: String)
    ensures
        r@ == spec_identity(data@),
        r@.len() == 71,
        is_ascii_chars(r@),
{
    let digest = sha256_digest(data);
    let hex = hex_lower(digest.as_slice());
    let mut out = "sha256:".to_owned();
    out.append(hex.as_str());
    proof {
        lemma_identity_shape(data@);
    }
    out
}

} // verus!
