use vstd::prelude::*;
use vstd::std_specs::iter::IteratorSpec;

verus! {

broadcast use vstd::string::axiom_spec_iter, vstd::string::next_postcondition;

/// Collects the characters of a string slice into a vector, in order.
pub fn str_to_chars(s: &str) -> (r: Vec<char>)
    ensures
        r@ == s@,
{
    let mut it = s.chars();
    let mut r: Vec<char> = Vec::new();
    proof {
        assert(r@ + it.remaining() =~= s@);
    }
    loop
        invariant
            r@ + it.remaining() == s@,
            it.decrease() is Some,
        ensures
            r@ == s@,
        decreases it.decrease()->0,
    {
        match it.next() {
            Some(c) => {
                r.push(c);
                proof {
                    assert(r@ + it.remaining() =~= s@);
                }
            },
            None => {
                proof {
                    assert(r@ =~= s@);
                }
                break ;
            },
        }
    }
    r
}

/// Relies on `String: FromIterator<char>` from std: collecting characters
/// yields the string whose character sequence is exactly the input, in order.
#[verifier::external_body]
pub(crate) fn chars_to_string(v: &Vec<char>) -> (r: String)
    ensures
        r@ == v@,
{
    v.iter().collect()
}

} // verus!
