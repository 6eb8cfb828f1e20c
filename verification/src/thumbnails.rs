//! The computable edge of thumbnail generation. Producing the encoded
//! thumbnail itself — reading the image file and scaling it — is an outside
//! collaborator's work; what is returned for each of its outcomes is fixed
//! here: the encoding on success, a fixed fallback text on failure.

use vstd::prelude::*;

verus! {

/// The thumbnail reported for one outcome of the thumbnail collaborator:
/// the encoded image when it produced one, the fixed fallback text when it
/// failed.
pub fn get_thumbnail(encoded: Option<String>) -> (r: String)
    ensures
        match encoded {
            Some(s) => r@ == s@,
            None => r@ == "Something# went wrong"@,
        },
{
    match encoded {
        Some(s) => s,
        None => "Something# went wrong".to_owned(),
    }
}

} // verus!
