use vstd::prelude::*;
use regex::bytes::RegexSet;

verus! {

/// `regex::bytes::RegexSet`: a compiled set of patterns that is matched
/// against bytes. Verus sees nothing inside a value of it.
#[verifier::external_type_specification]
#[verifier::external_body]
pub struct ExRegexSet(RegexSet);

/// `regex::Error`: why a pattern did not compile.
#[verifier::external_type_specification]
#[verifier::external_body]
pub struct ExRegexError(regex::Error);

/// What `RegexSet::new` makes of the source texts of several patterns: the
/// compiled set, or `None` where it refuses them.
pub uninterp spec fn compiled_set(sources: Seq<Seq<char>>) -> Option<RegexSet>;

/// The texts of a list of strings.
pub open spec fn texts(list: Seq<String>) -> Seq<Seq<char>> {
    Seq::new(list.len(), |i: int| list[i]@)
}

/// Why a pattern was refused.
#[derive(Debug)]
pub enum PatternError {
    /// The pattern is no regular expression; the text says where it fails.
    Syntax(String),
    /// The compiled pattern would be larger than this limit.
    TooBig(usize),
}

/// Tells the variants of `regex::Error` apart.
#[verifier::external_body]
pub(crate) fn regex_error(error: regex::Error) -> (kind: PatternError) {
    match error {
        regex::Error::Syntax(text) => PatternError::Syntax(text),
        regex::Error::CompiledTooBig(limit) => PatternError::TooBig(limit),
        other => PatternError::Syntax(format!("{}", other)),
    }
}

/// Whether `set` finds a match of any of its patterns somewhere in
/// `haystack`: what `RegexSet::is_match` answers.
pub uninterp spec fn set_matches(set: RegexSet, haystack: Seq<u8>) -> bool;

/// `RegexSet::is_match`: tests the whole of `haystack` against the set.
#[verifier::external_body]
pub(crate) fn set_is_match(set: &RegexSet, haystack: &[u8]) -> (found: bool)
    ensures
        found == set_matches(*set, haystack@),
{
    set.is_match(haystack)
}

/// `RegexSet::empty`: the set without patterns, which matches nothing. The
/// outside function builds it as `RegexSet::new` builds a set of no patterns,
/// so it is what compiling no patterns gives.
#[verifier::external_body]
pub(crate) fn set_empty() -> (set: RegexSet)
    ensures
        forall|haystack: Seq<u8>| !set_matches(set, haystack),
        compiled_set(Seq::empty()) == Some(set),
{
    RegexSet::empty()
}

/// `regex::bytes::RegexSet::new`: compiles the source texts of several
/// patterns into one set.
#[verifier::external_body]
pub(crate) fn regex_set_new(sources: &Vec<String>) -> (made: Result<RegexSet, regex::Error>)
    ensures
        match made {
            Ok(set) => compiled_set(texts(sources@)) == Some(set),
            Err(_) => compiled_set(texts(sources@)).is_none(),
        },
{
    RegexSet::new(sources)
}

/// `RegexSet::clone`: a second handle to the same compiled set.
pub assume_specification[ <RegexSet as Clone>::clone ](set: &RegexSet) -> (copy: RegexSet)
    ensures
        copy == *set,
;

} // verus!
