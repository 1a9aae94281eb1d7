//! Conversions between words held as character vectors and Rust strings.

use vstd::prelude::*;
use vstd::string::StrSliceExecFns;

verus! {

pub assume_specification[ String::push ](s: &mut String, c: char)
    ensures
        final(s)@ == old(s)@.push(c),
;

/// The word as a `String` with the same characters.
pub fn word_to_string(w: &Vec<char>) -> (r: String)
    ensures
        r@ == w@,
{
    let mut r = String::new();
    let mut j: usize = 0;
    while j < w.len()
        invariant
            j <= w.len(),
            r@ == w@.take(j as int),
        decreases w.len() - j,
    {
        r.push(w[j]);
        proof {
            assert(r@ =~= w@.take(j + 1));
        }
        j = j + 1;
    }
    proof {
        assert(r@ =~= w@);
    }
    r
}

/// The string's characters as a word.
pub fn string_to_word(s: &str) -> (r: Vec<char>)
    ensures
        r@ == s@,
{
    let n = s.unicode_len();
    let mut r: Vec<char> = Vec::new();
    let mut j: usize = 0;
    while j < n
        invariant
            n == s@.len(),
            j <= n,
            r@ == s@.take(j as int),
        decreases n - j,
    {
        r.push(s.get_char(j));
        proof {
            assert(r@ =~= s@.take(j + 1));
        }
        j = j + 1;
    }
    proof {
        assert(r@ =~= s@);
    }
    r
}

} // verus!
