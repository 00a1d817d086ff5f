//! Case folding, which is left to the standard library.

use vstd::prelude::*;

verus! {

/// The lowercase form of `text`: what `str::to_lowercase` returns for a
/// string that holds these characters.
pub uninterp spec fn lowercase(text: Seq<char>) -> Seq<char>;

/// Calls `str::to_lowercase`, which maps a string to its lowercase form by
/// the Unicode character tables. Nothing is proved of that mapping here; the
/// contract only gives its result the name `lowercase`, on the strength of
/// the result depending on the characters of `text` and on nothing else.
#[verifier::external_body]
pub(crate) fn to_lowercase(text: &str) -> (folded: String)
    ensures
        folded@ == lowercase(text@),
{
    text.to_lowercase()
}

} // verus!
