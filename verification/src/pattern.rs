use vstd::prelude::*;

verus! {

/// `fancy_regex::Regex`, a compiled regular expression. Nothing is known of
/// what a value holds.
#[verifier::external_type_specification]
#[verifier::external_body]
pub struct ExRegex(fancy_regex::Regex);

/// Whether a text compiles as a regular expression: whether
/// `fancy_regex::Regex::new` accepts it.
pub uninterp spec fn compiles(pattern: Seq<char>) -> bool;

/// What `fancy_regex::Regex::is_match` gives for the expression compiled
/// from `pattern` and the text `text`: whether there is a match anywhere in
/// the text, or nothing where the engine gives the search up.
pub uninterp spec fn match_outcome(pattern: Seq<char>, text: Seq<char>) -> Option<bool>;

/// A compiled regular expression together with the text it was compiled
/// from. A value is only ever made by compiling its text.
#[derive(Debug)]
pub struct Pattern {
    text: String,
    compiled: fancy_regex::Regex,
}

impl Pattern {
    /// The text this pattern was compiled from.
    pub closed spec fn source(&self) -> Seq<char> {
        self.text@
    }

    /// The text this pattern was compiled from.
    pub fn as_text(&self) -> (text: String)
        ensures
            text@ == self.source(),
    {
        self.text.clone()
    }
}

/// `fancy_regex::Regex::new`: compiles a pattern with the default options.
/// The claim is that it succeeds exactly on the texts that `compiles` names,
/// and that the value made keeps the text it was given.
#[verifier::external_body]
pub(crate) fn compile(text: &str) -> (made: Option<Pattern>)
    ensures
        made is Some <==> compiles(text@),
        made matches Some(pattern) ==> pattern.source() == text@,
{
    match fancy_regex::Regex::new(text) {
        Ok(compiled) => Some(Pattern { text: text.to_string(), compiled }),
        Err(_) => None,
    }
}

/// `fancy_regex::Regex::is_match`: whether the expression matches anywhere in
/// the text. The claim is that the answer, or the failure of the search, is
/// the one that `match_outcome` names for the pattern's text and the text
/// searched.
#[verifier::external_body]
pub(crate) fn search(pattern: &Pattern, text: &str) -> (found: Option<bool>)
    ensures
        found == match_outcome(pattern.source(), text@),
{
    match pattern.compiled.is_match(text) {
        Ok(found) => Some(found),
        Err(_) => None,
    }
}

} // verus!
