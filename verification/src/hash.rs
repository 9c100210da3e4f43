//! Object ids: the lower-case hexadecimal SHA-1 digest of an object's bytes.

use vstd::prelude::*;
use sha1::Digest;

verus! {

/// The SHA-1 digest of `data`, as the `sha1` crate computes it.
pub uninterp spec fn sha1_digest(data: Seq<u8>) -> Seq<u8>;

/// Calls `Sha1::new().chain_update(data).finalize()` of the `sha1` crate.
/// Believed, not proved: the result is the SHA-1 digest of `data`, a function
/// of the bytes alone, and it is twenty bytes long.
#[verifier::external_body]
fn sha1_of(data: &[u8]) -> (digest: Vec<u8>)
    ensures
        digest@ == sha1_digest(data@),
        digest@.len() == 20,
{
    sha1::Sha1::new().chain_update(data).finalize().to_vec()
}

/// The ASCII code of the lower-case hexadecimal digit for `nibble`.
pub open spec fn hex_digit(nibble: u8) -> u8 {
    if nibble < 10 {
        (48 + nibble) as u8
    } else {
        (87 + nibble) as u8
    }
}

/// Lower-case base 16: two digits for each byte, the high nibble first.
pub open spec fn hex_encoding(bytes: Seq<u8>) -> Seq<u8> {
    Seq::new(
        2 * bytes.len(),
        |i: int|
            if i % 2 == 0 {
                hex_digit(bytes[i / 2] / 16)
            } else {
                hex_digit(bytes[i / 2] % 16)
            },
    )
}

/// Calls `base16ct::lower::encode_string`, which panics on an input longer
/// than half of `usize::MAX`. Believed, not proved: the result is the
/// lower-case hexadecimal text of `bytes`.
#[verifier::external_body]
fn hex_lower(bytes: &[u8]) -> (text: Vec<u8>)
    requires
        bytes@.len() <= usize::MAX / 2,
    ensures
        text@ == hex_encoding(bytes@),
{
    base16ct::lower::encode_string(bytes).into_bytes()
}

/// The digest of `data` as exactly twenty bytes.
pub open spec fn digest_bytes(data: Seq<u8>) -> Seq<u8> {
    Seq::new(20, |i: int| sha1_digest(data)[i])
}

/// The id of an object whose stored bytes are `data`.
pub open spec fn spec_object_id(data: Seq<u8>) -> Seq<u8> {
    hex_encoding(digest_bytes(data))
}

/// Whether `c` is the ASCII code of a hexadecimal digit, of either case.
pub open spec fn is_hex_digit(c: u8) -> bool {
    ||| 48 <= c <= 57
    ||| 97 <= c <= 102
    ||| 65 <= c <= 70
}

/// Whether `text` has the shape of an object id: forty hexadecimal digits.
pub open spec fn is_object_id(text: Seq<u8>) -> bool {
    text.len() == 40 && forall|i: int| 0 <= i < text.len() ==> is_hex_digit(#[trigger] text[i])
}

/// Every object id has the shape of one.
pub proof fn lemma_object_id_shape(data: Seq<u8>)
    ensures
        is_object_id(spec_object_id(data)),
{
    let id = spec_object_id(data);
    assert forall|i: int| 0 <= i < id.len() implies is_hex_digit(#[trigger] id[i]) by {
        let b = digest_bytes(data)[i / 2];
        assert(b / 16 < 16 && b % 16 < 16);
    }
}

/// Computes the id of an object whose stored bytes are `data`.
pub fn calculate_hash(data: &[u8]) -> (id: Vec<u8>)
    ensures
        id@ == spec_object_id(data@),
        is_object_id(id@),
{
    let digest = sha1_of(data);
    assert(digest@ =~= digest_bytes(data@));
    proof {
        lemma_object_id_shape(data@);
    }
    hex_lower(digest.as_slice())
}

/// Tests whether `text` has the shape of an object id.
pub fn has_object_id_shape(text: &[u8]) -> (yes: bool)
    ensures
        yes == is_object_id(text@),
{
    if text.len() != 40 {
        return false;
    }
    let mut i: usize = 0;
    while i < 40
        invariant
            text@.len() == 40,
            i <= 40,
            forall|j: int| 0 <= j < i ==> is_hex_digit(#[trigger] text@[j]),
        decreases 40 - i,
    {
        let c: u8 = text[i];
        let digit = (48 <= c && c <= 57) || (97 <= c && c <= 102) || (65 <= c && c <= 70);
        if !digit {
            return false;
        }
        i += 1;
    }
    true
}

} // verus!
