//! The identifier that a remote object is tagged with.
//!
//! It is the base64 text of the object's remote path. The encoding can be
//! undone, so two different paths never share an identifier.

use vstd::prelude::*;

verus! {

/// What `base64::encode` returns for the UTF-8 bytes of `input`: the standard
/// alphabet, padded.
pub uninterp spec fn base64_text(input: Seq<char>) -> Seq<char>;

/// Calls `base64::encode` on the text's bytes. The result is the encoding of
/// this text and of no other: base64 is decodable, which is all that the
/// second clause claims. Every one to three bytes give four letters, so a
/// text that is not empty has an encoding that is not empty.
#[verifier::external_body]
fn base64_encode(input: &str) -> (r: String)
    ensures
        r@ == base64_text(input@),
        forall|other: Seq<char>| #[trigger] base64_text(other) == r@ ==> other == input@,
        input@.len() > 0 ==> r@.len() > 0,
{
    base64::encode(input)
}

/// The identifier of a remote path.
pub open spec fn unique_id_text(remote_path: Seq<char>) -> Seq<char> {
    base64_text(remote_path)
}

/// Derives the identifier of a remote path. The same function serves when an
/// object is tagged and when it is looked for; no other path has this
/// identifier.
pub fn unique_id(remote_path: &str) -> (r: String)
    ensures
        r@ == unique_id_text(remote_path@),
        forall|other: Seq<char>| #[trigger]
            unique_id_text(other) == r@ ==> other == remote_path@,
        remote_path@.len() > 0 ==> r@.len() > 0,
{
    base64_encode(remote_path)
}

} // verus!
