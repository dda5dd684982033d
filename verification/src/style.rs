//! Emphasis for the terminal, by ansi_term.

use ansi_term::{Colour, Style};
use vstd::prelude::*;

verus! {

/// The escape sequence that ends every emphasis.
pub open spec fn reset_code() -> Seq<char> {
    seq!['\u{1b}', '[', '0', 'm']
}

/// `s` between the escape sequences that switch bold on and all emphasis
/// off.
pub open spec fn bold_text(s: Seq<char>) -> Seq<char> {
    seq!['\u{1b}', '[', '1', 'm'] + s + reset_code()
}

/// `s` between the escape sequences that switch red on and all emphasis
/// off.
pub open spec fn red_text(s: Seq<char>) -> Seq<char> {
    seq!['\u{1b}', '[', '3', '1', 'm'] + s + reset_code()
}

/// Paints `text` with ansi_term's `Style::new().bold()` and writes the
/// result out. Trusted: ansi_term writes the code for bold, the text, and
/// the reset code.
#[verifier::external_body]
pub(crate) fn bold(text: &str) -> (out: String)
    ensures
        out@ == bold_text(text@),
{
    Style::new().bold().paint(text).to_string()
}

/// Paints `text` with ansi_term's `Colour::Red` and writes the result out.
/// Trusted: ansi_term writes the code for a red foreground, the text, and
/// the reset code.
#[verifier::external_body]
pub(crate) fn red(text: &str) -> (out: String)
    ensures
        out@ == red_text(text@),
{
    Colour::Red.paint(text).to_string()
}

} // verus!
