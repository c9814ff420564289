//! Case folding for hashtag matching: hashtags match case-insensitively but
//! are stored case-preserving, so both sides of a comparison are lowercased.

use vstd::prelude::*;

verus! {

/// What `str::to_lowercase` returns for a string: a function of the
/// characters alone, not written out here.
pub uninterp spec fn lower_of(s: Seq<char>) -> Seq<char>;

/// Relies on str::to_lowercase: the result depends on the characters alone,
/// and an empty string stays empty.
#[verifier::external_body]
pub fn lowercase(s: &str) -> (r: String)
    ensures
        r@ == lower_of(s@),
        s@.len() == 0 ==> r@.len() == 0,
{
    s.to_lowercase()
}

} // verus!
