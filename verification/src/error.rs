//! What can go wrong in the notebook's own work.

use crate::text::{decimal, from_chars, push_decimal, push_str};
use vstd::prelude::*;

verus! {

/// An error of the notebook. Each carries the thing it is about.
#[derive(Clone, Debug)]
pub enum NotebookError {
    /// A block of the file that is not an entry: it carries the block.
    Format(String),
    /// A search pattern that is no regular expression: it carries the pattern.
    Pattern(String),
    /// A date format by which a timestamp cannot be written: it carries the
    /// format.
    DateFormat(String),
    /// An index at which the notebook has no entry: it carries the index.
    NotFound(usize),
}

/// `subject` between single quotes, after `lead` and a space.
pub open spec fn quoted(lead: Seq<char>, subject: Seq<char>) -> Seq<char> {
    lead + seq![' ', '\''] + subject + seq!['\'']
}

/// The message of an error: what went wrong, and with what.
pub open spec fn message_of(e: NotebookError) -> Seq<char> {
    match e {
        NotebookError::Format(block) => quoted("could not read entry"@, block@),
        NotebookError::Pattern(pattern) => quoted("invalid search pattern"@, pattern@),
        NotebookError::DateFormat(format) => quoted("unable to write a timestamp as"@, format@),
        NotebookError::NotFound(index) => "no entry "@ + decimal(index as nat),
    }
}

impl NotebookError {
    /// The message of this error, for the user.
    pub fn message(&self) -> (m: String)
        ensures
            m@ == message_of(*self),
    {
        let mut buf: Vec<char> = Vec::new();
        match self {
            NotebookError::Format(block) => {
                push_str(&mut buf, "could not read entry");
                push_quoted(&mut buf, block.as_str());
            },
            NotebookError::Pattern(pattern) => {
                push_str(&mut buf, "invalid search pattern");
                push_quoted(&mut buf, pattern.as_str());
            },
            NotebookError::DateFormat(format) => {
                push_str(&mut buf, "unable to write a timestamp as");
                push_quoted(&mut buf, format.as_str());
            },
            NotebookError::NotFound(index) => {
                push_str(&mut buf, "no entry ");
                push_decimal(&mut buf, *index as u64);
            },
        }
        assert(buf@ =~= message_of(*self));
        from_chars(buf.as_slice())
    }
}

/// Appends a space and `subject` between single quotes to `buf`.
fn push_quoted(buf: &mut Vec<char>, subject: &str)
    ensures
        final(buf)@ == quoted(old(buf)@, subject@),
{
    buf.push(' ');
    buf.push('\'');
    push_str(buf, subject);
    buf.push('\'');
    assert(buf@ =~= quoted(old(buf)@, subject@));
}

} // verus!
