//! Search driver: enumerate the full fixed-length cross product over an
//! alphabet and keep the words the pattern matches, either as a literal
//! (with optional ASCII case folding) or as a regular expression
//! evaluated by the regex engine.

use crate::generate::{cartesian_words, copy_word, lemma_word_views_push, word_views, words_of};
use crate::matcher::literal_pred;
use crate::ErrorKind;
use vstd::prelude::*;

verus! {

/// Whether the regex engine accepts `pat`: the outcome of compiling it,
/// a function of the pattern text alone.
pub uninterp spec fn regex_valid(pat: Seq<char>) -> bool;

/// Whether the regex compiled from `pat` matches `text`: a function of
/// the two texts alone.
pub uninterp spec fn regex_match(pat: Seq<char>, text: Seq<char>) -> bool;

#[verifier::external_type_specification]
#[verifier::external_body]
pub struct ExRegex(regex_lite::Regex);

/// A compiled regular expression, keeping the pattern text it was
/// compiled from; its view is that pattern text.
pub struct CompiledPattern {
    re: regex_lite::Regex,
    pat: Vec<char>,
}

impl View for CompiledPattern {
    type V = Seq<char>;

    closed spec fn view(&self) -> Seq<char> {
        self.pat@
    }
}

/// Relies on regex_lite::Regex::new: whether a pattern compiles is
/// decided by the pattern text alone, and the error carries the
/// compiler's own description of the failure.
#[verifier::external_body]
fn compile_pattern(pat: &Vec<char>) -> (r: Result<CompiledPattern, String>)
    ensures
        r is Ok <==> regex_valid(pat@),
        r is Ok ==> r->Ok_0@ == pat@,
{
    let text: String = pat.iter().collect();
    match regex_lite::Regex::new(&text) {
        Ok(re) => Ok(CompiledPattern { re, pat: pat.clone() }),
        Err(e) => Err(format!("{}", e)),
    }
}

/// Relies on regex_lite::Regex::is_match: the match outcome is a
/// function of the pattern the regex was compiled from and the text
/// searched.
#[verifier::external_body]
fn regex_word_match(p: &CompiledPattern, w: &Vec<char>) -> (b: bool)
    ensures
        b == regex_match(p@, w@),
{
    let text: String = w.iter().collect();
    p.re.is_match(&text)
}

/// The regex match test, as a predicate on word values.
pub open spec fn regex_pred(pat: Seq<char>) -> spec_fn(Seq<char>) -> bool {
    |w: Seq<char>| regex_match(pat, w)
}

/// What a search keeps of each candidate word: the regex test when
/// `is_regex` is set, else the literal test with optional folding.
pub open spec fn query_pred(pattern: Seq<char>, case_insensitive: bool, is_regex: bool) -> spec_fn(
    Seq<char>,
) -> bool {
    if is_regex {
        regex_pred(pattern)
    } else {
        literal_pred(pattern, case_insensitive)
    }
}

/// A search request: the pattern, and how to interpret it.
pub struct SearchQuery {
    pub pattern: Vec<char>,
    pub case_insensitive: bool,
    pub is_regex: bool,
}

/// A query made ready to test words: the regex compiled once per
/// command, or the literal pattern as given.
pub enum PreparedQuery {
    Literal { pattern: Vec<char>, case_insensitive: bool },
    Regex { compiled: CompiledPattern },
}

impl PreparedQuery {
    /// The test this query makes of one word value.
    pub open spec fn pred(&self) -> spec_fn(Seq<char>) -> bool {
        match self {
            PreparedQuery::Literal { pattern, case_insensitive } => literal_pred(
                pattern@,
                *case_insensitive,
            ),
            PreparedQuery::Regex { compiled } => regex_pred(compiled@),
        }
    }
}

/// Checks a query once, before any generation work: an invalid regex
/// pattern fails with `InvalidPattern`; every other query is prepared.
pub fn prepare_query(query: &SearchQuery) -> (r: Result<PreparedQuery, ErrorKind>)
    ensures
        r is Err <==> query.is_regex && !regex_valid(query.pattern@),
        r is Err ==> r->Err_0 is InvalidPattern,
        r is Ok ==> r->Ok_0.pred() == query_pred(
            query.pattern@,
            query.case_insensitive,
            query.is_regex,
        ),
{
    if query.is_regex {
        match compile_pattern(&query.pattern) {
            Ok(compiled) => Ok(PreparedQuery::Regex { compiled }),
            Err(msg) => Err(ErrorKind::InvalidPattern(msg)),
        }
    } else {
        Ok(
            PreparedQuery::Literal {
                pattern: copy_word(&query.pattern),
                case_insensitive: query.case_insensitive,
            },
        )
    }
}

/// Pure, side-effect-free test of one word against a prepared query;
/// independent calls may run concurrently.
pub fn matches_query(prepared: &PreparedQuery, w: &Vec<char>) -> (b: bool)
    ensures
        b == prepared.pred()(w@),
{
    match prepared {
        PreparedQuery::Literal { pattern, case_insensitive } => crate::matcher::matches_literal(
            w,
            pattern,
            *case_insensitive,
        ),
        PreparedQuery::Regex { compiled } => regex_word_match(compiled, w),
    }
}

/// The words among `words` that the prepared query matches, in order.
pub fn filter_query(words: &Vec<Vec<char>>, prepared: &PreparedQuery) -> (r: Vec<Vec<char>>)
    ensures
        word_views(r@) == word_views(words@).filter(prepared.pred()),
{
    let ghost pred = prepared.pred();
    let ghost wv = word_views(words@);
    let mut r: Vec<Vec<char>> = Vec::new();
    proof {
        reveal(Seq::filter);
        assert(word_views(r@) =~~= wv.take(0).filter(pred));
    }
    let mut i: usize = 0;
    while i < words.len()
        invariant
            i <= words.len(),
            wv == word_views(words@),
            pred == prepared.pred(),
            word_views(r@) == wv.take(i as int).filter(pred),
        decreases words.len() - i,
    {
        let keep = matches_query(prepared, &words[i]);
        proof {
            reveal(Seq::filter);
            assert(wv.take(i + 1).drop_last() =~~= wv.take(i as int));
            assert(wv.take(i + 1).last() == wv[i as int]);
        }
        if keep {
            let w = copy_word(&words[i]);
            let ghost prev = r@;
            r.push(w);
            proof {
                lemma_word_views_push(prev, w);
            }
        }
        i = i + 1;
    }
    proof {
        assert(wv.take(words@.len() as int) =~~= wv);
    }
    r
}

/// Runs one search: every word of exactly `length` characters over the
/// alphabet (the full cross product, in lexicographic position order)
/// that the query matches, in generation order. An invalid regex
/// pattern fails with `InvalidPattern` before any word is generated;
/// every other query succeeds.
pub fn search(alphabet: &Vec<char>, length: usize, query: &SearchQuery) -> (r: Result<
    Vec<Vec<char>>,
    ErrorKind,
>)
    ensures
        r is Err <==> query.is_regex && !regex_valid(query.pattern@),
        r is Err ==> r->Err_0 is InvalidPattern,
        r is Ok ==> word_views(r->Ok_0@) == words_of(alphabet@, length as nat).filter(
            query_pred(query.pattern@, query.case_insensitive, query.is_regex),
        ),
{
    let prepared = match prepare_query(query) {
        Ok(p) => p,
        Err(e) => {
            return Err(e);
        }
    };
    let words = cartesian_words(alphabet, length);
    Ok(filter_query(&words, &prepared))
}

/// The value of the default search alphabet.
pub open spec fn default_alphabet_spec() -> Seq<char> {
    seq![
        'a', 'b', 'c', 'd', 'e', 'f', 'g', 'h', 'i', 'j', 'k', 'l', 'm', 'n', 'o', 'p', 'q', 'r',
        's', 't', 'u', 'v', 'w', 'x', 'y', 'z',
    ]
}

/// The 26 lowercase Latin letters: the alphabet a search uses when none
/// is supplied.
pub fn default_alphabet() -> (r: Vec<char>)
    ensures
        r@ == default_alphabet_spec(),
{
    let r = vec![
        'a', 'b', 'c', 'd', 'e', 'f', 'g', 'h', 'i', 'j', 'k', 'l', 'm', 'n', 'o', 'p', 'q', 'r',
        's', 't', 'u', 'v', 'w', 'x', 'y', 'z',
    ];
    proof {
        assert(r@ =~= default_alphabet_spec());
    }
    r
}

} // verus!
