use vstd::prelude::*;

verus! {

/// Appends one character to a string: a call of std's `String::push`, which the
/// contract takes to add exactly `c` at the end.
#[verifier::external_body]
pub(crate) fn push_char(s: &mut String, c: char)
    ensures
        final(s)@ == old(s)@.push(c),
{
    s.push(c);
}

} // verus!
