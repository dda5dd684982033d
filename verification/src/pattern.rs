//! A search pattern: a regular expression, compiled once and kept with its
//! source.
//!
//! Matching is the regex crate's work. What it finds is a function of the
//! pattern's source and the text, and is named here by three spec functions;
//! the notebook's contracts speak of those.

use regex::Regex;
use vstd::prelude::*;

verus! {

#[verifier::external_type_specification]
#[verifier::external_body]
pub struct ExRegex(Regex);

/// Whether the regex crate takes `pattern` for a regular expression.
pub uninterp spec fn regex_accepts(pattern: Seq<char>) -> bool;

/// The matches of `pattern` in `text`: the substrings matched, from the
/// left and without overlap.
pub uninterp spec fn regex_matches(pattern: Seq<char>, text: Seq<char>) -> Seq<Seq<char>>;

/// The pieces of `text` between the matches of `pattern`.
pub uninterp spec fn regex_pieces(pattern: Seq<char>, text: Seq<char>) -> Seq<Seq<char>>;

/// The character sequences that the strings of `v` hold.
pub open spec fn string_views(v: Seq<String>) -> Seq<Seq<char>> {
    v.map_values(|x: String| x@)
}

/// A compiled regular expression together with the source it was compiled
/// from. A value is made by `compile` and copied by `clone` only, so the two
/// always belong together.
#[derive(Debug)]
pub struct Pattern {
    source: String,
    compiled: Regex,
}

impl View for Pattern {
    type V = Seq<char>;

    /// The source of the pattern.
    closed spec fn view(&self) -> Seq<char> {
        self.source@
    }
}

/// Calls `regex::Regex::new` on `source` and keeps the source beside the
/// result. Trusted: the result is `Some` exactly for the sources that the
/// regex crate accepts, and then is a pattern of that source.
#[verifier::external_body]
fn compile_regex(source: &str) -> (r: Option<Pattern>)
    ensures
        r is Some <==> regex_accepts(source@),
        r matches Some(p) ==> p@ == source@,
{
    match Regex::new(source) {
        Ok(compiled) => Some(Pattern { source: source.to_owned(), compiled }),
        Err(_) => None,
    }
}

/// Calls `regex::Regex::find_iter` on `text` and hands out each match by
/// `Match::as_str`. Trusted: the result is the matches of the pattern's
/// source in `text`, in the order in which the regex crate yields them.
#[verifier::external_body]
pub(crate) fn find_matches(pattern: &Pattern, text: &str) -> (r: Vec<String>)
    ensures
        string_views(r@) == regex_matches(pattern@, text@),
{
    pattern.compiled.find_iter(text).map(|m| m.as_str().to_owned()).collect()
}

/// Calls `regex::Regex::split` on `text`. Trusted: the result is the pieces
/// of `text` between the matches of the pattern's source, in the order in
/// which the regex crate yields them.
#[verifier::external_body]
pub(crate) fn split_text(pattern: &Pattern, text: &str) -> (r: Vec<String>)
    ensures
        string_views(r@) == regex_pieces(pattern@, text@),
{
    pattern.compiled.split(text).map(|piece| piece.to_owned()).collect()
}

/// Copies a compiled expression with `Clone` of `regex::Regex`. Trusted:
/// nothing but that the call returns. The copy is used beside the source of
/// the expression it was copied from.
#[verifier::external_body]
fn copy_regex(compiled: &Regex) -> Regex {
    compiled.clone()
}

impl Clone for Pattern {
    /// A copy of the pattern: it has the same source.
    fn clone(&self) -> (r: Pattern)
        ensures
            r@ == self@,
    {
        Pattern { source: self.source.clone(), compiled: copy_regex(&self.compiled) }
    }
}

impl Pattern {
    /// Compiles `source`. Succeeds exactly where the regex crate accepts it.
    pub fn compile(source: &str) -> (r: Option<Pattern>)
        ensures
            r is Some <==> regex_accepts(source@),
            r matches Some(p) ==> p@ == source@,
    {
        compile_regex(source)
    }

    /// The source of the pattern.
    pub fn as_str(&self) -> (s: &str)
        ensures
            s@ == self@,
    {
        self.source.as_str()
    }
}

} // verus!
