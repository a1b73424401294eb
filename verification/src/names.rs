//! Display names as the store holds them: UTF-8 bytes, or nothing at all for
//! an author whose name was never recorded.

use vstd::prelude::*;
use vstd::utf8::{decode_utf8, encode_utf8, encode_utf8_decode_utf8, valid_utf8};
use crate::error::ReportError;

verus! {

/// The name shown for an author without a stored display name.
pub const UNKNOWN_NAME: &'static str = "Unknown";

/// The character sequence of [`UNKNOWN_NAME`].
pub open spec fn unknown_name() -> Seq<char> {
    seq!['U', 'n', 'k', 'n', 'o', 'w', 'n']
}

/// The name to show for what the store holds under an author's key: the
/// placeholder where it holds nothing, the decoded text where it holds
/// UTF-8, and an error otherwise.
pub open spec fn resolved_name(stored: Option<Seq<u8>>) -> Result<Seq<char>, ReportError> {
    match stored {
        None => Ok(unknown_name()),
        Some(bytes) => if valid_utf8(bytes) {
            Ok(decode_utf8(bytes))
        } else {
            Err(ReportError::MalformedName)
        },
    }
}

/// `String::from_utf8` of the standard library: the bytes become a string
/// exactly when they are valid UTF-8, and the string then consists of these
/// bytes.
#[verifier::external_body]
fn string_from_utf8(bytes: Vec<u8>) -> (text: Option<String>)
    ensures
        text is Some <==> valid_utf8(bytes@),
        text matches Some(s) ==> encode_utf8(s@) == bytes@,
{
    match String::from_utf8(bytes) {
        Ok(text) => Some(text),
        Err(_) => None,
    }
}

/// Resolves the display name of an author from what the store holds.
pub fn display_name(stored: Option<&Vec<u8>>) -> (name: Result<String, ReportError>)
    ensures
        match name {
            Ok(text) => resolved_name(stored_bytes(stored)) == Ok::<Seq<char>, ReportError>(text@),
            Err(e) => resolved_name(stored_bytes(stored)) == Err::<Seq<char>, ReportError>(e),
        },
{
    match stored {
        None => {
            proof {
                reveal_strlit("Unknown");
            }
            let name = String::from_str(UNKNOWN_NAME);
            assert(name@ =~= unknown_name());
            Ok(name)
        },
        Some(bytes) => {
            let copy = vstd::slice::slice_to_vec(bytes.as_slice());
            match string_from_utf8(copy) {
                Some(text) => {
                    proof {
                        encode_utf8_decode_utf8(text@);
                    }
                    Ok(text)
                },
                None => Err(ReportError::MalformedName),
            }
        },
    }
}

/// The bytes behind an optional reference to stored bytes.
pub open spec fn stored_bytes(stored: Option<&Vec<u8>>) -> Option<Seq<u8>> {
    match stored {
        Some(bytes) => Some(bytes@),
        None => None,
    }
}

} // verus!
