//! Small operations on owned strings that the writers share.

use vstd::prelude::*;

verus! {

/// `std::string::String::push`: appends the character `c` to the end of `s`
/// and changes nothing else.
#[verifier::external_body]
pub(crate) fn push_char(s: &mut String, c: char)
    ensures
        final(s)@ == old(s)@.push(c),
{
    s.push(c)
}

/// The text of `n` spaces.
pub open spec fn spaces(n: nat) -> Seq<char> {
    Seq::new(n, |i: int| ' ')
}

/// Makes the text of `n` spaces.
pub fn spaces_string(n: usize) -> (s: String)
    ensures
        s@ == spaces(n as nat),
{
    let mut s = String::new();
    let mut k: usize = 0;
    while k < n
        invariant
            k <= n,
            s@ == spaces(k as nat),
        decreases n - k,
    {
        push_char(&mut s, ' ');
        k = k + 1;
        assert(s@ =~= spaces(k as nat));
    }
    s
}

} // verus!
