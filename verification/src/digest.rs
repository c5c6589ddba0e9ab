//! The content identity of a resolved path.
//!
//! Two file identifiers that resolve to the same canonical path observe the
//! same digest over that path and the bytes under it, and therefore share one
//! cache slot.

use vstd::prelude::*;

verus! {

/// What the 128-bit digest of a path and its content is.  It depends on the
/// two arguments alone.
pub uninterp spec fn content_digest(path: Seq<char>, content: Seq<u8>) -> u128;

/// Relies on siphasher's `SipHasher13` (keyed with zeros) fed the path
/// string and the content bytes through their std `Hash` impls: the digest
/// is a function of the path and the content alone.
#[verifier::external_body]
pub(crate) fn path_content_digest(path: &str, content: &Vec<u8>) -> (r: u128)
    ensures
        r == content_digest(path@, content@),
{
    let mut state = siphasher::sip128::SipHasher13::new();
    std::hash::Hash::hash(path, &mut state);
    std::hash::Hash::hash(&content[..], &mut state);
    siphasher::sip128::Hasher128::finish128(&state).as_u128()
}

} // verus!
