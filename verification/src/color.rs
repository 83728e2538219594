//! Terminal colouring of report text through `owo_colors`.
use vstd::prelude::*;
use owo_colors::OwoColorize;

verus! {

/// The escape sequence that selects a foreground colour by its ANSI code
/// (`ESC [ 3 d m` for the colour digit `d`).
pub open spec fn fg_start(d: char) -> Seq<char> {
    seq!['\u{1b}', '[', '3', d, 'm']
}

/// The escape sequence that restores the default foreground colour.
pub open spec fn fg_end() -> Seq<char> {
    seq!['\u{1b}', '[', '3', '9', 'm']
}

/// `s` in the foreground colour with ANSI digit `d`.
pub open spec fn colored(d: char, s: Seq<char>) -> Seq<char> {
    fg_start(d) + s + fg_end()
}

/// `s` in yellow.
pub open spec fn yellow_text(s: Seq<char>) -> Seq<char> {
    colored('3', s)
}

/// `s` in red.
pub open spec fn red_text(s: Seq<char>) -> Seq<char> {
    colored('1', s)
}

/// `s` in green.
pub open spec fn green_text(s: Seq<char>) -> Seq<char> {
    colored('2', s)
}

/// `s` rendered yellow.
///
/// Trusted: `OwoColorize::yellow` displayed with `format!`; owo-colors writes
/// the colour's `ANSI_FG` sequence (`ESC[33m`), the text, then `ESC[39m`.
#[verifier::external_body]
pub(crate) fn yellow(s: &str) -> (res: String)
    ensures
        res@ == yellow_text(s@),
{
    format!("{}", s.yellow())
}

/// `s` rendered red.
///
/// Trusted: `OwoColorize::red` displayed with `format!`; owo-colors writes
/// `ESC[31m`, the text, then `ESC[39m`.
#[verifier::external_body]
pub(crate) fn red(s: &str) -> (res: String)
    ensures
        res@ == red_text(s@),
{
    format!("{}", s.red())
}

/// `s` rendered green.
///
/// Trusted: `OwoColorize::green` displayed with `format!`; owo-colors writes
/// `ESC[32m`, the text, then `ESC[39m`.
#[verifier::external_body]
pub(crate) fn green(s: &str) -> (res: String)
    ensures
        res@ == green_text(s@),
{
    format!("{}", s.green())
}

} // verus!
