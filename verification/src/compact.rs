//! Short strings, kept inline by the `compact_str` crate.

use compact_str::CompactString;
use vstd::prelude::*;

verus! {

/// `CompactString`, of which only its characters matter.
#[verifier::external_type_specification]
#[verifier::external_body]
pub struct ExCompactString(compact_str::CompactString);

/// The characters that a compact string holds.
pub uninterp spec fn letters(s: CompactString) -> Seq<char>;

/// `CompactString::as_str`: the characters of `s`, as a string slice.
pub assume_specification[ compact_str::CompactString::as_str ](s: &CompactString) -> (r: &str)
    ensures
        r@ == letters(*s),
;

/// `CompactString::push`: one character more, at the end.
pub assume_specification[ compact_str::CompactString::push ](s: &mut CompactString, ch: char)
    ensures
        letters(*final(s)) == letters(*old(s)).push(ch),
;

/// `CompactString::clear`: no characters are left.
pub assume_specification[ compact_str::CompactString::clear ](s: &mut CompactString)
    ensures
        letters(*final(s)) == Seq::<char>::empty(),
;

/// `CompactString::clone`: the same characters.
pub assume_specification[ <compact_str::CompactString as Clone>::clone ](s: &CompactString) -> (r:
    CompactString)
    ensures
        letters(r) == letters(*s),
;

/// `CompactString::from` on a string slice: the same characters.
#[verifier::external_body]
pub(crate) fn compact(text: &str) -> (r: CompactString)
    ensures
        letters(r) == text@,
{
    CompactString::from(text)
}

/// `CompactString::from_iter` on characters: those characters, in their order.
#[verifier::external_body]
pub(crate) fn collected(chars: &Vec<char>) -> (r: CompactString)
    ensures
        letters(r) == chars@,
{
    chars.iter().collect()
}

} // verus!
