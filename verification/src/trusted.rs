//! The outside calls this crate relies on — openssl's streaming hasher,
//! rustc_serialize's base64 encoder — and the two standard-library string
//! operations vstd gives no specification for.  Each wrapper holds one
//! call; Verus believes the contracts stated here.

use rustc_serialize::base64::{CharacterSet, Config, FromBase64, Newline, ToBase64};
use vstd::prelude::*;

verus! {

/// Relies on String::push: appends exactly the one character.
#[verifier::external_body]
pub fn string_push(s: &mut String, c: char)
    ensures
        final(s)@ == old(s)@.push(c),
{
    s.push(c);
}

/// Relies on String::from_utf8: succeeds exactly on valid UTF-8, and the
/// returned string's encoding is the input.
#[verifier::external_body]
pub fn string_from_utf8(v: Vec<u8>) -> (r: Option<String>)
    ensures
        r is Some <==> vstd::utf8::valid_utf8(v@),
        r matches Some(s) ==> vstd::utf8::encode_utf8(s@) == v@,
{
    String::from_utf8(v).ok()
}

#[verifier::external_type_specification]
#[verifier::external_body]
pub struct ExHasher(openssl::hash::Hasher);

/// The bytes a hasher has been fed since it was created or last finished.
pub uninterp spec fn hasher_bytes(h: openssl::hash::Hasher) -> Seq<u8>;

/// Whether a hasher computes SHA-256; otherwise it computes SHA-1.
pub uninterp spec fn hasher_is_sha256(h: openssl::hash::Hasher) -> bool;

/// The SHA-256 (or SHA-1) digest of `data`: a function of the algorithm
/// choice and the bytes alone.
pub uninterp spec fn digest_of(sha256: bool, data: Seq<u8>) -> Seq<u8>;

/// The base64 encoding of `data` with the standard alphabet and `=`
/// padding, on a single line: a function of the bytes alone.
pub uninterp spec fn base64_standard(data: Seq<u8>) -> Seq<char>;

/// Relies on openssl's MessageDigest::sha256 / sha1 and Hasher::new: a
/// fresh hasher of the chosen algorithm with nothing fed yet.
#[verifier::external_body]
pub fn hasher_new(sha256: bool) -> (r: Option<openssl::hash::Hasher>)
    ensures
        r matches Some(h) ==> hasher_bytes(h) == Seq::<u8>::empty() && hasher_is_sha256(h)
            == sha256,
{
    let md = if sha256 {
        openssl::hash::MessageDigest::sha256()
    } else {
        openssl::hash::MessageDigest::sha1()
    };
    openssl::hash::Hasher::new(md).ok()
}

/// Relies on openssl's Hasher::update: on success the data is appended to
/// what the hasher has seen, and the algorithm does not change.
#[verifier::external_body]
pub fn hasher_update(h: &mut openssl::hash::Hasher, data: &Vec<u8>) -> (r: bool)
    ensures
        r ==> hasher_bytes(*final(h)) == hasher_bytes(*old(h)) + data@,
        r ==> hasher_is_sha256(*final(h)) == hasher_is_sha256(*old(h)),
{
    h.update(data.as_slice()).is_ok()
}

/// Relies on openssl's Hasher::finish: on success, the digest of exactly
/// the bytes fed, under the hasher's algorithm.
#[verifier::external_body]
pub fn hasher_finish(h: &mut openssl::hash::Hasher) -> (r: Option<Vec<u8>>)
    ensures
        r matches Some(d) ==> d@ == digest_of(hasher_is_sha256(*old(h)), hasher_bytes(*old(h))),
{
    match h.finish() {
        Ok(d) => Some(d.to_vec()),
        Err(_) => None,
    }
}

/// The bytes a base64 text decodes to, if it is one: a function of the
/// text alone.
pub uninterp spec fn base64_decode(s: Seq<char>) -> Option<Seq<u8>>;

/// Relies on rustc_serialize's FromBase64 for str: decoding is a function
/// of the text alone, succeeding or failing deterministically.
#[verifier::external_body]
pub fn from_base64_str(s: &str) -> (r: Option<Vec<u8>>)
    ensures
        r is Some <==> base64_decode(s@) is Some,
        r matches Some(v) ==> base64_decode(s@) == Some(v@),
{
    s.from_base64().ok()
}

/// The characters a charset decoder yields for these bytes under this
/// label, with unmappable bytes replaced; `None` for an unknown label: a
/// function of label and bytes alone.
pub uninterp spec fn charset_decoded(label: Seq<char>, bytes: Seq<u8>) -> Option<Seq<char>>;

/// Relies on encoding's encoding_from_whatwg_label to look the charset up,
/// and on the returned encoding's decode with the replacing trap, which
/// then cannot fail: both are functions of the label and the bytes alone.
#[verifier::external_body]
pub fn charset_decode(label: &str, bytes: &Vec<u8>) -> (r: Option<String>)
    ensures
        r is Some <==> charset_decoded(label@, bytes@) is Some,
        r matches Some(s) ==> charset_decoded(label@, bytes@) == Some(s@),
{
    match encoding::label::encoding_from_whatwg_label(label) {
        Some(enc) => enc.decode(bytes.as_slice(), encoding::DecoderTrap::Replace).ok(),
        None => None,
    }
}

/// Relies on rustc_serialize's ToBase64 with the standard character set,
/// padding on, and no line length, which inserts no line break.
#[verifier::external_body]
pub fn to_base64_standard(data: &Vec<u8>) -> (r: String)
    ensures
        r@ == base64_standard(data@),
{
    data.as_slice().to_base64(
        Config { char_set: CharacterSet::Standard, pad: true, newline: Newline::CRLF, line_length: None },
    )
}

} // verus!
