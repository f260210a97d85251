//! Lengths in UTF-16 code units, the unit in which source maps count columns.

use vstd::prelude::*;
use vstd::utf8::encode_utf8;
use vstd::utf8::encode_scalar;
use vstd::string::StringSliceAdditionalSpecFns;
use vstd::std_specs::iter::IteratorSpec;

verus! {

/// The number of UTF-16 code units that encode `c`: two for a character
/// outside the Basic Multilingual Plane, one for any other.
pub open spec fn utf16_units(c: char) -> nat {
    if c as u32 >= 0x10000 {
        2
    } else {
        1
    }
}

/// The number of UTF-16 code units that encode the text `s`.
pub open spec fn utf16_len_of(s: Seq<char>) -> nat
    decreases s.len(),
{
    if s.len() == 0 {
        0
    } else {
        utf16_len_of(s.drop_last()) + utf16_units(s.last())
    }
}

/// The UTF-16 length of a concatenation is the sum of the lengths.
pub proof fn lemma_utf16_len_concat(a: Seq<char>, b: Seq<char>)
    ensures
        utf16_len_of(a + b) == utf16_len_of(a) + utf16_len_of(b),
    decreases b.len(),
{
    if b.len() == 0 {
        assert(a + b =~= a);
    } else {
        assert((a + b).drop_last() =~= a + b.drop_last());
        lemma_utf16_len_concat(a, b.drop_last());
    }
}

/// Appending one character adds its code units.
pub proof fn lemma_utf16_len_push(s: Seq<char>, c: char)
    ensures
        utf16_len_of(s.push(c)) == utf16_len_of(s) + utf16_units(c),
{
    assert(s.push(c).drop_last() =~= s);
}

/// A text has at least as many characters, and at most twice as many, UTF-16
/// code units.
pub proof fn lemma_utf16_len_bounds(s: Seq<char>)
    ensures
        s.len() <= utf16_len_of(s) <= 2 * s.len(),
    decreases s.len(),
{
    if s.len() > 0 {
        lemma_utf16_len_bounds(s.drop_last());
    }
}

/// A text never has more UTF-16 code units than UTF-8 bytes.
pub proof fn lemma_utf16_len_le_utf8_len(s: Seq<char>)
    ensures
        utf16_len_of(s) <= encode_utf8(s).len(),
    decreases s.len(),
{
    if s.len() > 0 {
        let head = seq![s[0]];
        assert(s =~= head + s.drop_first());
        lemma_utf16_len_concat(head, s.drop_first());
        assert(head =~= Seq::<char>::empty().push(s[0]));
        lemma_utf16_len_push(Seq::empty(), s[0]);
        vstd::utf8::char_is_scalar(s[0]);
        assert(utf16_units(s[0]) <= encode_scalar(s[0] as u32).len());
        lemma_utf16_len_le_utf8_len(s.drop_first());
    }
}

/// Counts the UTF-16 code units of `s`.
pub fn utf16_len(s: &str) -> (n: usize)
    ensures
        n == utf16_len_of(s@),
{
    broadcast use vstd::string::group_string_axioms;

    let byte_len = s.as_bytes().len();
    proof {
        lemma_utf16_len_le_utf8_len(s@);
    }
    let mut it = s.chars();
    let ghost mut seen: Seq<char> = Seq::empty();
    let mut n: usize = 0;
    loop
        invariant
            it.decrease() is Some,
            seen + it.remaining() == s@,
            n == utf16_len_of(seen),
            utf16_len_of(s@) <= byte_len,
        decreases it.decrease()->0,
    {
        let ghost rest = it.remaining();
        match it.next() {
            Some(c) => {
                proof {
                    lemma_utf16_len_push(seen, c);
                    assert(seen.push(c) + rest.drop_first() =~= seen + rest);
                    lemma_utf16_len_concat(seen.push(c), rest.drop_first());
                    seen = seen.push(c);
                }
                if c as u32 >= 0x10000 {
                    n = n + 2;
                } else {
                    n = n + 1;
                }
            },
            None => {
                proof {
                    assert(seen =~= s@);
                }
                return n;
            },
        }
    }
}

} // verus!
