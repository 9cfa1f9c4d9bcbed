//! Turning the raw bytes of a stored path into the text that names an entry.

use vstd::prelude::*;

verus! {

/// The text that `String::from_utf8_lossy` makes of `bytes`: their UTF-8
/// decoding, with each invalid sequence replaced by U+FFFD.
pub uninterp spec fn lossy_text(bytes: Seq<u8>) -> Seq<char>;

/// The text that `str::trim` makes of `text`: the same without its leading
/// and trailing white space.
pub uninterp spec fn trimmed_text(text: Seq<char>) -> Seq<char>;

/// The path that names an entry whose record stores the path bytes `bytes`.
pub open spec fn path_text(bytes: Seq<u8>) -> Seq<char> {
    trimmed_text(lossy_text(bytes))
}

/// Calls `String::from_utf8_lossy` and takes the result as an owned string.
/// The result depends on the bytes alone and is named `lossy_text`.
#[verifier::external_body]
fn decode_lossy(bytes: &[u8]) -> (text: String)
    ensures
        text@ == lossy_text(bytes@),
{
    String::from_utf8_lossy(bytes).into_owned()
}

/// Calls `str::trim`. The result depends on the text alone and is named
/// `trimmed_text`.
#[verifier::external_body]
fn trim(text: &str) -> (trimmed: &str)
    ensures
        trimmed@ == trimmed_text(text@),
{
    text.trim()
}

/// Decodes the stored bytes of a path: lossy UTF-8 decoding, then trimming.
pub fn decode_path(bytes: &[u8]) -> (path: String)
    ensures
        path@ == path_text(bytes@),
{
    let text = decode_lossy(bytes);
    trim(text.as_str()).to_owned()
}

} // verus!
