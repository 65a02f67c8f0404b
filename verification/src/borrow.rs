//! Small helpers that take text by value, by shared reference and by
//! mutable reference.

use vstd::prelude::*;
use vstd::string::*;
use vstd::utf8::*;

verus! {

/// The text that `change` appends.
pub open spec fn appended_suffix() -> Seq<char> {
    ", world"@
}

/// The text that `no_dangle` returns.
pub open spec fn no_dangle_text() -> Seq<char> {
    "no_dangle"@
}

/// Returns the length of `s` in bytes. The caller keeps `s`.
pub fn calculate_length(s: &String) -> (len: usize)
    ensures
        len == encode_utf8(s@).len(),
{
    s.as_str().as_bytes().len()
}

/// Takes `s` and hands it back together with its length in bytes.
pub fn calculate_length_tuple(s: String) -> (pair: (String, usize))
    ensures
        pair.0@ == s@,
        pair.1 == encode_utf8(s@).len(),
{
    let len = s.as_str().as_bytes().len();
    (s, len)
}

/// Looks at a borrowed text and leaves it as it is: a shared reference
/// gives no way to change what it points to.
pub fn change_borrowed(_some_string: &String) {
}

/// Appends `", world"` to the text behind the mutable reference.
pub fn change(some_string: &mut String)
    ensures
        final(some_string)@ == old(some_string)@ + appended_suffix(),
{
    some_string.append(", world");
}

/// Returns a freshly made text, `"no_dangle"`, which the caller owns.
pub fn no_dangle() -> (s: String)
    ensures
        s@ == no_dangle_text(),
{
    "no_dangle".to_owned()
}

} // verus!
