//! Case folding and character access for the text the matcher works on.
use vstd::prelude::*;

verus! {

/// The lower-case form of a string, as `str::to_lowercase` gives it.
pub uninterp spec fn lower_of(s: Seq<char>) -> Seq<char>;

/// Relies on `str::to_lowercase`: the result depends on the characters alone,
/// and the empty string stays empty.
#[verifier::external_body]
pub(crate) fn lowercase(s: &str) -> (r: String)
    ensures
        r@ == lower_of(s@),
        s@.len() == 0 ==> r@.len() == 0,
{
    s.to_lowercase()
}

/// Relies on `str::chars`: it yields the characters of the string in order.
#[verifier::external_body]
pub(crate) fn chars_of(s: &str) -> (r: Vec<char>)
    ensures
        r@ == s@,
{
    s.chars().collect()
}

/// The characters of the lower-case form of `s`.
pub fn folded_chars(s: &str) -> (r: Vec<char>)
    ensures
        r@ == lower_of(s@),
        s@.len() == 0 ==> r@.len() == 0,
{
    let lower = lowercase(s);
    chars_of(lower.as_str())
}

} // verus!
