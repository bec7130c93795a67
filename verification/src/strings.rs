//! Small executable helpers over `String` and `&str`, with their contracts
//! stated over the character-sequence views.

use vstd::prelude::*;

verus! {

/// Content equality of two strings.
pub fn str_eq(a: &String, b: &String) -> (r: bool)
    ensures
        r == (a@ == b@),
{
    a.eq(b)
}

/// Content equality of a string and a string slice.
pub fn str_eq_slice(a: &String, b: &str) -> (r: bool)
    ensures
        r == (a@ == b@),
{
    let owned: String = b.to_owned();
    a.eq(&owned)
}

/// Content equality of two string slices.
pub fn slice_eq(a: &str, b: &str) -> (r: bool)
    ensures
        r == (a@ == b@),
{
    let ao: String = a.to_owned();
    let bo: String = b.to_owned();
    ao.eq(&bo)
}

} // verus!
