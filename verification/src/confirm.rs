//! Questions put to the user, and how an answer is read.
//!
//! Asking and reading are the caller's work; what is asked and what an
//! answer means is decided here.

use crate::text::{decimal, from_chars, push_decimal, push_str, to_chars};
use vstd::prelude::*;

verus! {

/// What follows a question on its line: the choices, and a space.
pub open spec fn choices() -> Seq<char> {
    seq![' ', '(', 'Y', '/', 'n', ')', ' ']
}

/// The question whether to delete entry `n`.
pub open spec fn delete_question(n: nat) -> Seq<char> {
    seq!['C', 'o', 'n', 'f', 'i', 'r', 'm', ' ', 'd', 'e', 'l', 'e', 't', 'e', ' ', 'e', 'n', 't', 'r', 'y', ' ']
        + decimal(n) + seq!['?']
}

/// The line that reports that entry `n` was deleted.
pub open spec fn deleted_notice(n: nat) -> Seq<char> {
    seq!['D', 'e', 'l', 'e', 't', 'e', 'd', ' ', 'e', 'n', 't', 'r', 'y', ' '] + decimal(n) + seq![
        '\n',
    ]
}

/// The line that asks `question`: the question and the choices.
pub fn confirm_prompt(question: &str) -> (line: String)
    ensures
        line@ == question@ + choices(),
{
    let mut buf: Vec<char> = Vec::new();
    push_str(&mut buf, question);
    push_str(&mut buf, " (Y/n) ");
    proof {
        reveal_strlit(" (Y/n) ");
        assert(buf@ =~= question@ + choices());
    }
    from_chars(buf.as_slice())
}

/// Whether `answer`, the line that the user gave, confirms: it does where
/// it starts with a capital `Y`.
pub fn get_user_confirm(answer: &str) -> (confirmed: bool)
    ensures
        confirmed == (answer@.len() > 0 && answer@[0] == 'Y'),
{
    let chars = to_chars(answer);
    chars.len() > 0 && chars[0] == 'Y'
}

/// The question whether to delete entry `n`.
pub fn delete_prompt(n: usize) -> (question: String)
    ensures
        question@ == delete_question(n as nat),
{
    let mut buf: Vec<char> = Vec::new();
    push_str(&mut buf, "Confirm delete entry ");
    push_decimal(&mut buf, n as u64);
    buf.push('?');
    proof {
        reveal_strlit("Confirm delete entry ");
        assert(buf@ =~= delete_question(n as nat));
    }
    from_chars(buf.as_slice())
}

/// The line that reports that entry `n` was deleted.
pub fn delete_notice(n: usize) -> (line: String)
    ensures
        line@ == deleted_notice(n as nat),
{
    let mut buf: Vec<char> = Vec::new();
    push_str(&mut buf, "Deleted entry ");
    push_decimal(&mut buf, n as u64);
    buf.push('\n');
    proof {
        reveal_strlit("Deleted entry ");
        assert(buf@ =~= deleted_notice(n as nat));
    }
    from_chars(buf.as_slice())
}

} // verus!
