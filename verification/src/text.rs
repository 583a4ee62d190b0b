//! Decoding of field bytes into text.
//!
//! Fields leave the tokenizer as raw byte vectors; a record only ever exposes
//! them as UTF-8 text.  The conversion is delegated to the standard library,
//! under a contract phrased with vstd's UTF-8 theory, so that a decode
//! failure is exactly the invalidity of the bytes.

use vstd::prelude::*;
use vstd::utf8::{decode_utf8, encode_utf8, encode_utf8_decode_utf8, valid_utf8};

verus! {

#[verifier::external_type_specification]
#[verifier::external_body]
pub struct ExFromUtf8Error(std::string::FromUtf8Error);

/// Relies on std's `String::from_utf8`: it succeeds exactly on input that is
/// valid UTF-8, and the returned string consists of precisely those bytes.
pub assume_specification[ String::from_utf8 ](
    vec: Vec<u8>,
) -> (r: Result<String, std::string::FromUtf8Error>)
    ensures
        r is Ok <==> valid_utf8(vec@),
        r is Ok ==> encode_utf8(r->Ok_0@) == vec@,
;

/// Compares two strings by content.
///
/// Their UTF-8 bytes are compared; since encoding is injective, byte
/// equality is exactly equality of the character sequences.
pub fn str_eq(a: &str, b: &str) -> (r: bool)
    ensures
        r == (a@ == b@),
{
    let ab = a.as_bytes();
    let bb = b.as_bytes();
    if ab.len() != bb.len() {
        proof {
            if a@ == b@ {
                assert(ab@ == bb@);
            }
        }
        return false;
    }
    let mut k: usize = 0;
    while k < ab.len()
        invariant
            k <= ab@.len(),
            ab@.len() == bb@.len(),
            ab@ == encode_utf8(a@),
            bb@ == encode_utf8(b@),
            forall|j: int| 0 <= j < k ==> ab@[j] == bb@[j],
        decreases ab@.len() - k,
    {
        if ab[k] != bb[k] {
            proof {
                if a@ == b@ {
                    assert(ab@ == bb@);
                    assert(false);
                }
            }
            return false;
        }
        k = k + 1;
    }
    proof {
        assert(ab@ =~= bb@);
        encode_utf8_decode_utf8(a@);
        encode_utf8_decode_utf8(b@);
        assert(a@ == b@);
    }
    true
}

/// Decodes one field's bytes into text.
///
/// Returns the decoded characters exactly when the bytes are valid UTF-8,
/// and nothing otherwise.
pub fn decode_field(bytes: Vec<u8>) -> (r: Option<String>)
    ensures
        r is Some <==> valid_utf8(bytes@),
        r is Some ==> r->0@ == decode_utf8(bytes@),
{
    match String::from_utf8(bytes) {
        Ok(s) => {
            proof {
                encode_utf8_decode_utf8(s@);
            }
            Some(s)
        },
        Err(_) => None,
    }
}

} // verus!
