//! Letter-arrangement enumeration and search: ordered arrangements and
//! unordered selections of an alphabet's positions over length ranges,
//! the full fixed-length cross product, literal and regex matching with
//! first-match spans, duplicate suppression, and exact closed-form
//! counting over 128-bit integers with explicit overflow reporting.
//!
//! Every operation is specified against a mathematical model of its
//! result; the regex engine alone is relied upon through a small trusted
//! boundary in `search`.

use vstd::prelude::*;

pub mod counting;
pub mod generate;
pub mod matcher;
pub mod search;
pub mod text;

verus! {

/// The ways a core operation can fail: a regex pattern that does not
/// compile, or a count that exceeds the 128-bit integer range.
#[derive(Debug)]
pub enum ErrorKind {
    InvalidPattern(String),
    Overflow,
}

} // verus!
