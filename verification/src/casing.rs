//! Case folding. Column names are compared case-insensitively through their
//! uppercase forms, and one of the value transformations lowercases cells.
//! Both folds are Unicode-aware and come from the standard library; this
//! crate only names their results.

use vstd::prelude::*;

verus! {

/// The uppercase fold of a sequence of characters, as `str::to_uppercase`
/// computes it.
pub uninterp spec fn upper_fold(s: Seq<char>) -> Seq<char>;

/// The lowercase fold of a sequence of characters, as `str::to_lowercase`
/// computes it.
pub uninterp spec fn lower_fold(s: Seq<char>) -> Seq<char>;

/// Relies on `str::to_uppercase`: the uppercase equivalent of the string,
/// a function of its characters alone.
#[verifier::external_body]
pub fn to_upper(s: &str) -> (r: String)
    ensures
        r@ == upper_fold(s@),
{
    s.to_uppercase()
}

/// Relies on `str::to_lowercase`: the lowercase equivalent of the string,
/// a function of its characters alone.
#[verifier::external_body]
pub fn to_lower(s: &str) -> (r: String)
    ensures
        r@ == lower_fold(s@),
{
    s.to_lowercase()
}

} // verus!
