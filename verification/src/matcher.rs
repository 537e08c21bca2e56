//! Regular expressions over log text.

use vstd::prelude::*;
use vstd::utf8::*;

verus! {

/// The compiled expression of the `regex` crate.
#[verifier::external_type_specification]
#[verifier::external_body]
pub struct ExRegex(regex::Regex);

/// What compiling an expression gives: success, or the text of the error.
pub uninterp spec fn regex_outcome(
    pattern: Seq<char>,
    multi_line: bool,
    ignore_case: bool,
) -> Result<(), Seq<char>>;

/// Whether an expression that compiles matches somewhere in a text.
pub uninterp spec fn regex_hits(
    pattern: Seq<char>,
    multi_line: bool,
    ignore_case: bool,
    text: Seq<char>,
) -> bool;

/// The byte range of the leftmost match of an expression in a text.
pub uninterp spec fn regex_span(
    pattern: Seq<char>,
    multi_line: bool,
    ignore_case: bool,
    text: Seq<char>,
) -> Option<(usize, usize)>;

/// An expression that compiled, with the settings it was compiled with.
pub struct Matcher {
    pattern: String,
    multi_line: bool,
    ignore_case: bool,
    regex: regex::Regex,
}

impl Matcher {
    /// The text of the expression.
    pub closed spec fn pattern(&self) -> Seq<char> {
        self.pattern@
    }

    /// Whether `^` and `$` match at the ends of each line.
    pub closed spec fn multi_line(&self) -> bool {
        self.multi_line
    }

    /// Whether upper and lower case letters match each other.
    pub closed spec fn ignore_case(&self) -> bool {
        self.ignore_case
    }

    /// Whether the expression matches somewhere in `text`.
    pub open spec fn hits(&self, text: Seq<char>) -> bool {
        regex_hits(self.pattern(), self.multi_line(), self.ignore_case(), text)
    }

    /// The byte range of the leftmost match in `text`.
    pub open spec fn span(&self, text: Seq<char>) -> Option<(usize, usize)> {
        regex_span(self.pattern(), self.multi_line(), self.ignore_case(), text)
    }

    /// Compiles an expression. The error is the text that the `regex` crate
    /// gives for it.
    pub fn new(pattern: &str, multi_line: bool, ignore_case: bool) -> (r: Result<Matcher, String>)
        ensures
            match regex_outcome(pattern@, multi_line, ignore_case) {
                Ok(_) => r matches Ok(m) && m.pattern() == pattern@ && m.multi_line() == multi_line
                    && m.ignore_case() == ignore_case,
                Err(e) => r matches Err(t) && t@ == e,
            },
    {
        compile(pattern, multi_line, ignore_case)
    }

    /// Whether the expression matches somewhere in `text`.
    pub fn is_match(&self, text: &str) -> (r: bool)
        ensures
            r == self.hits(text@),
    {
        search(self, text)
    }

    /// The byte range of the leftmost match in `text`.
    pub fn find(&self, text: &str) -> (r: Option<(usize, usize)>)
        ensures
            r == self.span(text@),
            r matches Some(m) ==> m.0 <= m.1 <= encode_utf8(text@).len(),
    {
        locate(self, text)
    }
}

/// `regex::RegexBuilder::build` with `multi_line` and `case_insensitive` set as
/// given and all other settings left at their defaults. Whether the pattern
/// compiles, and the text of the error where it does not, is a function of the
/// pattern and the two settings; the claim goes no further than naming it.
#[verifier::external_body]
fn compile(pattern: &str, multi_line: bool, ignore_case: bool) -> (r: Result<Matcher, String>)
    ensures
        match regex_outcome(pattern@, multi_line, ignore_case) {
            Ok(_) => r matches Ok(m) && m.pattern() == pattern@ && m.multi_line() == multi_line
                && m.ignore_case() == ignore_case,
            Err(e) => r matches Err(t) && t@ == e,
        },
{
    let mut builder = regex::RegexBuilder::new(pattern);
    let built = builder.multi_line(multi_line).case_insensitive(ignore_case).build();
    match built {
        Ok(regex) => Ok(Matcher { pattern: pattern.to_owned(), multi_line, ignore_case, regex }),
        Err(e) => Err(e.to_string()),
    }
}

/// `regex::Regex::is_match`: whether the expression matches somewhere in the
/// text, as a function of the expression, its settings and the text. A matcher
/// comes from `compile` only, so that what it runs is the compiled form of the
/// expression that it holds.
#[verifier::external_body]
fn search(matcher: &Matcher, text: &str) -> (r: bool)
    ensures
        r == regex_hits(matcher.pattern(), matcher.multi_line(), matcher.ignore_case(), text@),
{
    matcher.regex.is_match(text)
}

/// `regex::Regex::find`: the byte range of the leftmost match, as a function of
/// the expression, its settings and the text. The start of a match is never
/// behind its end, and both lie in the text.
#[verifier::external_body]
fn locate(matcher: &Matcher, text: &str) -> (r: Option<(usize, usize)>)
    ensures
        r == regex_span(matcher.pattern(), matcher.multi_line(), matcher.ignore_case(), text@),
        r matches Some(m) ==> m.0 <= m.1 <= encode_utf8(text@).len(),
{
    matcher.regex.find(text).map(|m| (m.start(), m.end()))
}

} // verus!
