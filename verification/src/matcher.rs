//! Literal substring matching with optional ASCII case folding, and the
//! span of the first match for highlighting.
//!
//! Case folding maps only the ASCII letters 'A'..'Z' to their lowercase
//! forms, character by character, so it always preserves length; words
//! whose case varies outside ASCII are compared unchanged. Matching is
//! done on the folded word, and spans index the original word, which has
//! the same length.

use crate::generate::word_views;
use vstd::prelude::*;

verus! {

/// `pat` occurs in `hay` starting at character position `i`.
pub open spec fn match_at(hay: Seq<char>, pat: Seq<char>, i: int) -> bool {
    &&& 0 <= i
    &&& i + pat.len() <= hay.len()
    &&& hay.subrange(i, i + pat.len()) == pat
}

/// `pat` occurs somewhere in `hay`.
pub open spec fn has_match(hay: Seq<char>, pat: Seq<char>) -> bool {
    exists|i: int| match_at(hay, pat, i)
}

/// ASCII case folding of one character: 'A'..'Z' become 'a'..'z', every
/// other character is unchanged.
pub open spec fn fold_char(c: char) -> char {
    if 65 <= c as u32 && c as u32 <= 90 {
        ((c as u32) + 32) as char
    } else {
        c
    }
}

/// Character-by-character ASCII case folding of a word; length-preserving.
pub open spec fn fold_seq(s: Seq<char>) -> Seq<char> {
    s.map_values(|c: char| fold_char(c))
}

/// Case folding never changes a word's length, so positions found in
/// the folded word index the original word as well.
pub proof fn lemma_fold_preserves_len(s: Seq<char>)
    ensures
        fold_seq(s).len() == s.len(),
{
}

/// The word as matching sees it: folded when matching is case
/// insensitive, unchanged otherwise.
pub open spec fn folded_if(s: Seq<char>, case_insensitive: bool) -> Seq<char> {
    if case_insensitive {
        fold_seq(s)
    } else {
        s
    }
}

/// ASCII lowercasing of one character.
pub fn lower_char(c: char) -> (r: char)
    ensures
        r == fold_char(c),
{
    let u = c as u32;
    if 65 <= u && u <= 90 {
        ((u + 32) as u8) as char
    } else {
        c
    }
}

/// The word as matching sees it, executable form.
pub fn fold_word(w: &Vec<char>, case_insensitive: bool) -> (r: Vec<char>)
    ensures
        r@ == folded_if(w@, case_insensitive),
{
    if !case_insensitive {
        return crate::generate::copy_word(w);
    }
    let mut r: Vec<char> = Vec::new();
    let mut j: usize = 0;
    while j < w.len()
        invariant
            j <= w.len(),
            r@ == fold_seq(w@.take(j as int)),
        decreases w.len() - j,
    {
        r.push(lower_char(w[j]));
        proof {
            assert(r@ =~= fold_seq(w@.take(j + 1)));
        }
        j = j + 1;
    }
    proof {
        assert(w@.take(w@.len() as int) =~= w@);
    }
    r
}

/// Whether `pat` occurs in `hay` exactly at position `i`.
fn check_at(hay: &Vec<char>, pat: &Vec<char>, i: usize) -> (b: bool)
    requires
        i + pat@.len() <= hay@.len(),
    ensures
        b == match_at(hay@, pat@, i as int),
{
    let hlen = hay.len();
    let mut j: usize = 0;
    while j < pat.len()
        invariant
            hlen == hay@.len(),
            i + pat@.len() <= hay@.len(),
            j <= pat@.len(),
            forall|t: int| 0 <= t < j ==> hay@[i + t] == pat@[t],
        decreases pat.len() - j,
    {
        if hay[i + j] != pat[j] {
            proof {
                assert(hay@.subrange(i as int, i + pat@.len())[j as int] == hay@[i + j]);
            }
            return false;
        }
        j = j + 1;
    }
    proof {
        assert(hay@.subrange(i as int, i + pat@.len()) =~= pat@);
    }
    true
}

/// Character position of the first occurrence of `pat` in `hay`, or
/// `None` exactly when `pat` occurs nowhere in `hay`.
pub fn find_first(hay: &Vec<char>, pat: &Vec<char>) -> (r: Option<usize>)
    ensures
        match r {
            Some(i) => match_at(hay@, pat@, i as int) && (forall|j: int|
                0 <= j < i ==> !match_at(hay@, pat@, j)),
            None => !has_match(hay@, pat@),
        },
{
    if pat.len() > hay.len() {
        proof {
            assert(!has_match(hay@, pat@)) by {
                if has_match(hay@, pat@) {
                    let i = choose|i: int| match_at(hay@, pat@, i);
                    assert(false);
                }
            }
        }
        return None;
    }
    if pat.len() == 0 {
        proof {
            assert(hay@.subrange(0, 0) =~= pat@);
        }
        return Some(0);
    }
    let hlen = hay.len();
    let last = hay.len() - pat.len();
    let mut i: usize = 0;
    while i <= last
        invariant
            hlen == hay@.len(),
            1 <= pat@.len() <= hay@.len(),
            last == hay@.len() - pat@.len(),
            i <= last + 1,
            forall|j: int| 0 <= j < i ==> !match_at(hay@, pat@, j),
        decreases last + 1 - i,
    {
        if check_at(hay, pat, i) {
            return Some(i);
        }
        i = i + 1;
    }
    proof {
        assert(!has_match(hay@, pat@)) by {
            if has_match(hay@, pat@) {
                let j = choose|j: int| match_at(hay@, pat@, j);
                assert(j <= last);
                assert(false);
            }
        }
    }
    None
}

/// A half-open character range `[start, end)` locating a match.
#[derive(Clone, Copy, PartialEq, Eq, Structural, Debug)]
pub struct Span {
    pub start: usize,
    pub end: usize,
}

/// Span of the first occurrence of the pattern in the word, both folded
/// when `case_insensitive` is set; offsets index the original word,
/// whose length folding preserves. `None` exactly when the (folded)
/// pattern occurs nowhere in the (folded) word.
pub fn find_literal(hay: &Vec<char>, pat: &Vec<char>, case_insensitive: bool) -> (r: Option<Span>)
    ensures
        match r {
            Some(sp) => {
                &&& sp.end == sp.start + pat@.len()
                &&& sp.end <= hay@.len()
                &&& match_at(
                    folded_if(hay@, case_insensitive),
                    folded_if(pat@, case_insensitive),
                    sp.start as int,
                )
                &&& forall|j: int|
                    0 <= j < sp.start ==> !match_at(
                        folded_if(hay@, case_insensitive),
                        folded_if(pat@, case_insensitive),
                        j,
                    )
            },
            None => !has_match(folded_if(hay@, case_insensitive), folded_if(pat@, case_insensitive)),
        },
{
    let h = fold_word(hay, case_insensitive);
    let p = fold_word(pat, case_insensitive);
    proof {
        assert(h@.len() == hay@.len());
        assert(p@.len() == pat@.len());
    }
    let hlen = hay.len();
    match find_first(&h, &p) {
        Some(i) => Some(Span { start: i, end: i + pat.len() }),
        None => None,
    }
}

/// Pure test: does the (folded) pattern occur in the (folded) word?
pub fn matches_literal(hay: &Vec<char>, pat: &Vec<char>, case_insensitive: bool) -> (b: bool)
    ensures
        b == has_match(folded_if(hay@, case_insensitive), folded_if(pat@, case_insensitive)),
{
    let r = find_literal(hay, pat, case_insensitive);
    match r {
        Some(_) => true,
        None => false,
    }
}

/// The test `matches_literal` makes, as a predicate on word values.
pub open spec fn literal_pred(pat: Seq<char>, case_insensitive: bool) -> spec_fn(Seq<char>) -> bool {
    |w: Seq<char>| has_match(folded_if(w, case_insensitive), folded_if(pat, case_insensitive))
}

/// The words in which the (folded) pattern occurs, in their given order.
pub fn filter_literal(words: &Vec<Vec<char>>, pat: &Vec<char>, case_insensitive: bool) -> (r: Vec<
    Vec<char>,
>)
    ensures
        word_views(r@) == word_views(words@).filter(literal_pred(pat@, case_insensitive)),
{
    let ghost pred = literal_pred(pat@, case_insensitive);
    let ghost wv = word_views(words@);
    let mut r: Vec<Vec<char>> = Vec::new();
    proof {
        reveal(Seq::filter);
        assert(word_views(r@) =~~= wv.take(0).filter(pred));
    }
    let mut i: usize = 0;
    while i < words.len()
        invariant
            i <= words.len(),
            wv == word_views(words@),
            pred == literal_pred(pat@, case_insensitive),
            word_views(r@) == wv.take(i as int).filter(pred),
        decreases words.len() - i,
    {
        let keep = matches_literal(&words[i], pat, case_insensitive);
        proof {
            reveal(Seq::filter);
            assert(wv.take(i + 1).drop_last() =~~= wv.take(i as int));
            assert(wv.take(i + 1).last() == wv[i as int]);
        }
        if keep {
            let w = crate::generate::copy_word(&words[i]);
            let ghost prev = r@;
            r.push(w);
            proof {
                crate::generate::lemma_word_views_push(prev, w);
            }
        }
        i = i + 1;
    }
    proof {
        assert(wv.take(words@.len() as int) =~~= wv);
    }
    r
}

} // verus!
