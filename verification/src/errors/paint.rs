//! Colours for the terminal.

use ansi_term::Colour;
use vstd::prelude::*;

verus! {

/// `text` in a colour: between the escape sequence that selects the colour
/// with number `code` and the one that resets the terminal.
pub open spec fn painted(code: Seq<char>, text: Seq<char>) -> Seq<char> {
    seq!['\u{1b}', '['] + code + seq!['m'] + text + seq!['\u{1b}', '[', '0', 'm']
}

/// `text` in red.
pub open spec fn red(text: Seq<char>) -> Seq<char> {
    painted(seq!['3', '1'], text)
}

/// `text` in green.
pub open spec fn green(text: Seq<char>) -> Seq<char> {
    painted(seq!['3', '2'], text)
}

/// `text` in cyan.
pub open spec fn cyan(text: Seq<char>) -> Seq<char> {
    painted(seq!['3', '6'], text)
}

/// What `Colour::Red.paint` displays: the text after the sequence for
/// foreground colour 31 and before the reset sequence.
#[verifier::external_body]
pub(crate) fn paint_red(text: &str) -> (result: String)
    ensures
        result@ == red(text@),
{
    Colour::Red.paint(text).to_string()
}

/// What `Colour::Green.paint` displays: the text after the sequence for
/// foreground colour 32 and before the reset sequence.
#[verifier::external_body]
pub(crate) fn paint_green(text: &str) -> (result: String)
    ensures
        result@ == green(text@),
{
    Colour::Green.paint(text).to_string()
}

/// What `Colour::Cyan.paint` displays: the text after the sequence for
/// foreground colour 36 and before the reset sequence.
#[verifier::external_body]
pub(crate) fn paint_cyan(text: &str) -> (result: String)
    ensures
        result@ == cyan(text@),
{
    Colour::Cyan.paint(text).to_string()
}

} // verus!
