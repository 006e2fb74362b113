//! Bytes and text: comparison, and the two readings of a file name as text.

use vstd::prelude::*;
use vstd::utf8::*;
#[allow(unused_imports)]
use vstd::string::*;

verus! {

/// Whether two byte strings are equal.
pub fn same_bytes(a: &[u8], b: &[u8]) -> (same: bool)
    ensures
        same == (a@ == b@),
{
    if a.len() != b.len() {
        return false;
    }
    let mut i: usize = 0;
    while i < a.len()
        invariant
            i <= a@.len(),
            a@.len() == b@.len(),
            forall|j: int| 0 <= j < i ==> a@[j] == b@[j],
        decreases a@.len() - i,
    {
        if a[i] != b[i] {
            return false;
        }
        i += 1;
    }
    assert(a@ =~= b@);
    true
}

/// Whether two texts are equal.
pub fn same_text(a: &str, b: &str) -> (same: bool)
    ensures
        same == (a@ == b@),
{
    let same = same_bytes(a.as_bytes(), b.as_bytes());
    proof {
        encode_utf8_decode_utf8(a@);
        encode_utf8_decode_utf8(b@);
    }
    same
}

/// Reads bytes as text with `std::str::from_utf8`.
///
/// Claimed of it: it succeeds exactly on valid UTF-8, and the text is then what the
/// bytes decode to.
#[verifier::external_body]
pub(crate) fn utf8_text(bytes: &[u8]) -> (text: Option<&str>)
    ensures
        text is Some <==> valid_utf8(bytes@),
        text matches Some(t) ==> t@ == decode_utf8(bytes@),
{
    match std::str::from_utf8(bytes) {
        Ok(t) => Some(t),
        Err(_) => None,
    }
}

/// What `String::from_utf8_lossy` makes of bytes that are not valid UTF-8.
pub uninterp spec fn lossy_decoding(bytes: Seq<u8>) -> Seq<char>;

/// The text under which a file name is shown: what it decodes to where it is valid
/// UTF-8, and its lossy decoding otherwise.
pub open spec fn shown(bytes: Seq<u8>) -> Seq<char> {
    if valid_utf8(bytes) {
        decode_utf8(bytes)
    } else {
        lossy_decoding(bytes)
    }
}

/// Reads bytes as text with `String::from_utf8_lossy`.
///
/// Claimed of it: valid UTF-8 comes back as the text it decodes to, and on other
/// bytes the result depends on the bytes alone. Left unsaid is where exactly the
/// replacement characters stand on such bytes.
#[verifier::external_body]
pub(crate) fn lossy_text(bytes: &[u8]) -> (text: String)
    ensures
        text@ == (if valid_utf8(bytes@) {
            decode_utf8(bytes@)
        } else {
            lossy_decoding(bytes@)
        }),
{
    String::from_utf8_lossy(bytes).into_owned()
}

} // verus!
