//! Shell-style patterns: the `glob` crate behind plain values.

use crate::text::{cat4, number};
use vstd::prelude::*;

verus! {

/// What `glob::Pattern::new` objects to in a pattern: the position and the
/// message, or nothing where the pattern compiles.
pub uninterp spec fn glob_error(pattern: Seq<char>) -> Option<(int, Seq<char>)>;

/// Whether `glob::Pattern::matches_with` accepts `text`, for a pattern that
/// compiles.
pub uninterp spec fn glob_match(
    pattern: Seq<char>,
    text: Seq<char>,
    case_sensitive: bool,
    literal_separator: bool,
    literal_leading_dot: bool,
) -> bool;

/// `glob::Pattern::new`. Trusted: whether the pattern compiles, and the error
/// where it does not, are functions of the pattern's text.
#[verifier::external_body]
pub(crate) fn glob_compile(pattern: &str) -> (r: Option<(usize, String)>)
    ensures
        r is None <==> glob_error(pattern@) is None,
        r matches Some(e) ==> glob_error(pattern@) == Some((e.0 as int, e.1@)),
{
    match glob::Pattern::new(pattern) {
        Ok(_) => None,
        Err(e) => Some((e.pos, e.msg.to_string())),
    }
}

/// `glob::Pattern::matches_with`. Trusted: the answer is a function of the
/// pattern's text, the text and the three options (on Unix, where `/` is the
/// only separator).
#[verifier::external_body]
pub(crate) fn glob_matches(
    pattern: &str,
    text: &str,
    case_sensitive: bool,
    literal_separator: bool,
    literal_leading_dot: bool,
) -> (r: bool)
    requires
        glob_error(pattern@) is None,
    ensures
        r == glob_match(pattern@, text@, case_sensitive, literal_separator, literal_leading_dot),
{
    let options = glob::MatchOptions {
        case_sensitive,
        require_literal_separator: literal_separator,
        require_literal_leading_dot: literal_leading_dot,
    };
    glob::Pattern::new(pattern).unwrap().matches_with(text, options)
}

/// Why a pattern does not compile.
#[derive(Debug, PartialEq, Eq)]
pub struct GlobError {
    pub pos: usize,
    pub msg: String,
}

/// An error of a pattern in words: where it is, and what is wrong there.
pub open spec fn glob_error_text(e: (int, Seq<char>)) -> Seq<char> {
    "Pattern syntax error near position "@ + crate::text::decimal(e.0 as nat) + ": "@ + e.1
}

impl GlobError {
    pub open spec fn model(&self) -> (int, Seq<char>) {
        (self.pos as int, self.msg@)
    }

    /// The error in words.
    pub open spec fn text(&self) -> Seq<char> {
        glob_error_text(self.model())
    }

    pub fn message(&self) -> (r: String)
        ensures
            r@ == self.text(),
    {
        let n = number(self.pos as u128);
        cat4("Pattern syntax error near position ", n.as_str(), ": ", self.msg.as_str())
    }
}

/// A pattern that compiles.
#[derive(Debug, PartialEq, Eq, Hash)]
pub struct GlobPattern {
    text: String,
}

impl View for GlobPattern {
    type V = Seq<char>;

    closed spec fn view(&self) -> Seq<char> {
        self.text@
    }
}

impl Clone for GlobPattern {
    fn clone(&self) -> (r: Self)
        ensures
            r == *self,
            r@ == self@,
    {
        proof {
            use_type_invariant(self);
        }
        GlobPattern { text: self.text.clone() }
    }
}

/// `text` matches `pattern`, where `*` also crosses `/`.
pub open spec fn matches_loosely(pattern: Seq<char>, text: Seq<char>) -> bool {
    glob_match(pattern, text, true, false, false)
}

/// `text` matches `pattern`, where `*` and `?` stop at `/`.
pub open spec fn matches_segments(pattern: Seq<char>, text: Seq<char>) -> bool {
    glob_match(pattern, text, true, true, false)
}

impl GlobPattern {
    /// Every pattern compiles.
    #[verifier::type_invariant]
    closed spec fn compiles(&self) -> bool {
        glob_error(self.text@) is None
    }

    pub fn new(text: &str) -> (r: Result<GlobPattern, GlobError>)
        ensures
            r is Ok <==> glob_error(text@) is None,
            r matches Ok(p) ==> p@ == text@,
            r matches Err(e) ==> glob_error(text@) == Some(e.model()),
    {
        match glob_compile(text) {
            None => Ok(GlobPattern { text: text.to_owned() }),
            Some(e) => Err(GlobError { pos: e.0, msg: e.1 }),
        }
    }

    pub fn as_str(&self) -> (r: &str)
        ensures
            r@ == self@,
    {
        self.text.as_str()
    }

    /// Matches with the default options: case counts, `*` crosses `/`.
    pub fn matches(&self, text: &str) -> (r: bool)
        ensures
            r == matches_loosely(self@, text@),
    {
        proof {
            use_type_invariant(self);
        }
        glob_matches(self.text.as_str(), text, true, false, false)
    }

    /// Matches segment by segment: case counts, `*` and `?` stop at `/`.
    pub fn matches_segments(&self, text: &str) -> (r: bool)
        ensures
            r == matches_segments(self@, text@),
    {
        proof {
            use_type_invariant(self);
        }
        glob_matches(self.text.as_str(), text, true, true, false)
    }
}

} // verus!
