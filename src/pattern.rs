//! Regular expressions that select tests by name.
use vstd::prelude::*;

verus! {

#[verifier::external_type_specification]
#[verifier::external_body]
pub struct ExRegex(regex::Regex);

#[verifier::external_type_specification]
#[verifier::external_body]
pub struct ExRegexError(regex::Error);

/// The text is a valid regular expression.
pub uninterp spec fn regex_valid(p: Seq<char>) -> bool;

/// The regular expression `p` matches somewhere in `t`.
pub uninterp spec fn regex_matches(p: Seq<char>, t: Seq<char>) -> bool;

/// Relies on regex's `Regex::new`: it compiles exactly the valid patterns.
#[verifier::external_body]
fn compile(p: &String) -> (r: Result<regex::Regex, regex::Error>)
    ensures
        r is Ok <==> regex_valid(p@),
{
    regex::Regex::new(p)
}

/// A compiled pattern, with the text it was compiled from.
pub struct Pattern {
    source: String,
    re: regex::Regex,
}

impl Pattern {
    pub closed spec fn spec_source(&self) -> Seq<char> {
        self.source@
    }

    /// Compiles `p`; `None` where it is not a valid regular expression.
    pub fn new(p: &String) -> (r: Option<Pattern>)
        ensures
            r is Some <==> regex_valid(p@),
            r is Some ==> r->Some_0.spec_source() == p@,
    {
        match compile(p) {
            Ok(re) => Some(Pattern { source: p.clone(), re }),
            Err(_) => None,
        }
    }

    /// Relies on regex's `Regex::is_match`: whether the pattern matches
    /// anywhere in the text.
    #[verifier::external_body]
    pub(crate) fn is_match(&self, t: &String) -> (r: bool)
        ensures
            r == regex_matches(self.spec_source(), t@),
    {
        self.re.is_match(t)
    }
}

} // verus!
