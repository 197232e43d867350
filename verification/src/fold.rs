//! Letter case.

use vstd::prelude::*;

verus! {

/// The lowercase form of `text`: what `str::to_lowercase` of the standard
/// library returns for it. That mapping follows the Unicode tables and is
/// not written out here; the contracts name it and say nothing more of it.
pub uninterp spec fn lowercase(text: Seq<char>) -> Seq<char>;

/// Calls `str::to_lowercase`, which returns the lowercase form of its
/// argument as a new string. Taken on trust, not proved: the contract gives
/// the result its name, and so claims that it depends on the characters of
/// the argument and on nothing else.
#[verifier::external_body]
pub(crate) fn to_lowercase(text: &str) -> (folded: String)
    ensures
        folded@ == lowercase(text@),
{
    text.to_lowercase()
}

} // verus!
