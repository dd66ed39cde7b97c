//! Bridging between text values and their character sequences.
//!
//! The parser works over a vector of characters; these helpers turn a text
//! value into that vector and a range of it back into text.

use vstd::prelude::*;
use vstd::std_specs::iter::IteratorSpec;

verus! {

broadcast use vstd::string::axiom_spec_iter, vstd::string::next_postcondition;

/// The characters of a text value, in order.
pub fn chars_of(s: &str) -> (v: Vec<char>)
    ensures
        v@ == s@,
{
    let mut it = s.chars();
    let mut v: Vec<char> = Vec::new();
    loop
        invariant
            v@ + it.remaining() == s@,
            it.decrease() is Some,
        ensures
            v@ == s@,
        decreases it.decrease()->0,
    {
        match it.next() {
            Some(c) => {
                v.push(c);
                proof {
                    assert(v@ + it.remaining() =~= s@);
                }
            },
            None => {
                proof {
                    assert(v@ + it.remaining() =~= v@);
                }
                break ;
            },
        }
    }
    v
}

/// Relies on `String::push`: appends the character to the end of the string.
#[verifier::external_body]
fn push_char(s: &mut String, c: char)
    ensures
        final(s)@ == old(s)@.push(c),
{
    s.push(c);
}

/// The text spelled by the characters `v[a..b]`.
pub fn string_from_range(v: &Vec<char>, a: usize, b: usize) -> (s: String)
    requires
        a <= b <= v@.len(),
    ensures
        s@ == v@.subrange(a as int, b as int),
{
    let mut s = String::new();
    let mut j = a;
    proof {
        assert(s@ =~= v@.subrange(a as int, a as int));
    }
    while j < b
        invariant
            a <= j <= b <= v@.len(),
            s@ == v@.subrange(a as int, j as int),
        decreases b - j,
    {
        push_char(&mut s, v[j]);
        j += 1;
        proof {
            assert(v@.subrange(a as int, j as int) =~= v@.subrange(a as int, j - 1).push(
                v@[j - 1],
            ));
        }
    }
    s
}

} // verus!
