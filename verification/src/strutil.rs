//! Conversions between `String` and its character sequence.
//!
//! A string's view in specifications is its `Seq<char>`; these helpers move
//! between that view's executable form, `Vec<char>`, and `String`.

use vstd::prelude::*;
use vstd::string::StrSliceExecFns;

verus! {

/// The characters of `s`, in order.
pub fn str_to_chars(s: &str) -> (r: Vec<char>)
    ensures
        r@ == s@,
{
    let n = s.unicode_len();
    let mut r: Vec<char> = Vec::new();
    proof {
        assert(r@ =~= s@.subrange(0, 0));
    }
    for i in 0..n
        invariant
            n == s@.len(),
            r@ == s@.subrange(0, i as int),
    {
        r.push(s.get_char(i));
        proof {
            assert(r@ =~= s@.subrange(0, i as int + 1));
        }
    }
    proof {
        assert(r@ =~= s@);
    }
    r
}

/// Relies on String's FromIterator over char: collecting characters yields
/// the string whose view is exactly that character sequence.
#[verifier::external_body]
pub fn chars_to_string(v: &Vec<char>) -> (r: String)
    ensures
        r@ == v@,
{
    v.iter().collect()
}

} // verus!
