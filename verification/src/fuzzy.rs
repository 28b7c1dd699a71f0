//! Fuzzy matching of a query against a line of text, by the skim algorithm.
use vstd::prelude::*;
use fuzzy_matcher::skim::SkimMatcherV2;
use fuzzy_matcher::FuzzyMatcher;

verus! {

/// The score that the skim algorithm (`SkimMatcherV2` with its default settings)
/// gives `pattern` against `choice`, where it matches at all.
pub uninterp spec fn skim_score(choice: Seq<char>, pattern: Seq<char>) -> Option<i64>;

/// Whether `c` is an ASCII capital letter.
pub open spec fn is_ascii_upper(c: char) -> bool {
    65 <= c as int <= 90
}

/// `c` with an ASCII capital letter made small.
pub open spec fn ascii_lower(c: char) -> char {
    if is_ascii_upper(c) {
        (c as int + 32) as char
    } else {
        c
    }
}

/// Whether two characters match: exactly, or where `case_sensitive` is false, up to ASCII case.
pub open spec fn chars_match(a: char, b: char, case_sensitive: bool) -> bool {
    if case_sensitive {
        a == b
    } else {
        ascii_lower(a) == ascii_lower(b)
    }
}

/// Whether the characters of `pattern` occur in `choice` in order.
pub open spec fn is_subsequence(choice: Seq<char>, pattern: Seq<char>, case_sensitive: bool) -> bool
    decreases choice.len(),
{
    if pattern.len() == 0 {
        true
    } else if choice.len() == 0 {
        false
    } else if chars_match(choice[0], pattern[0], case_sensitive) {
        is_subsequence(choice.drop_first(), pattern.drop_first(), case_sensitive)
    } else {
        is_subsequence(choice.drop_first(), pattern, case_sensitive)
    }
}

/// Whether skim matches `pattern` against `choice` at all: its characters occur in
/// `choice` in order, up to ASCII case unless `pattern` holds an ASCII capital.
pub open spec fn skim_matches(choice: Seq<char>, pattern: Seq<char>) -> bool {
    is_subsequence(
        choice,
        pattern,
        exists|i: int| 0 <= i < pattern.len() && is_ascii_upper(#[trigger] pattern[i]),
    )
}

/// `FuzzyMatcher::fuzzy_match` of a default `SkimMatcherV2`: the score of `pattern`
/// against `choice`. Its value is named, not stated; what is stated is when there is
/// one (the crate's `cheap_matches` test with smart case) and that an empty pattern
/// scores zero.
#[verifier::external_body]
pub(crate) fn skim_fuzzy_match(choice: &str, pattern: &str) -> (r: Option<i64>)
    ensures
        r == skim_score(choice@, pattern@),
        r is Some <==> skim_matches(choice@, pattern@),
        pattern@.len() == 0 ==> r == Some(0i64),
{
    SkimMatcherV2::default().fuzzy_match(choice, pattern)
}

} // verus!
