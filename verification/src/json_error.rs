//! The error that a failed parse reports.

use vstd::prelude::*;
use crate::text::{decimal, push_decimal};

verus! {

/// What a [`JSONError`] says, as plain mathematical values.
pub struct Report {
    /// The text of the message.
    pub message: Seq<char>,
    /// The line on which the violation was found, counted from one.
    pub line: nat,
    /// The column at which the violation was found, counted from zero.
    pub column: nat,
}

/// The line, the column and the message of `report` in one line of text:
/// the place between the colour sequences `on` and `off`, then the message.
pub open spec fn rendered(report: Report, on: Seq<char>, off: Seq<char>) -> Seq<char> {
    on + decimal(report.line) + ":"@ + decimal(report.column) + off + " - "@ + report.message
}

/// The sequence that sets the foreground colour of a terminal to red.
pub open spec fn red_sequence() -> Seq<char> {
    "\u{1b}[38;5;1m"@
}

/// The sequence that sets the foreground colour of a terminal back to its
/// default.
pub open spec fn reset_sequence() -> Seq<char> {
    "\u{1b}[39m"@
}

/// What `termion::color::Fg(termion::color::Red)` displays: the sequence for
/// a red foreground, or nothing where the process runs with `NO_COLOR` set.
#[verifier::external_body]
fn foreground_red() -> (s: String)
    ensures
        s@ == red_sequence() || s@ == Seq::<char>::empty(),
{
    format!("{}", termion::color::Fg(termion::color::Red))
}

/// What `termion::color::Fg(termion::color::Reset)` displays: the sequence
/// for the default foreground.
#[verifier::external_body]
fn foreground_reset() -> (s: String)
    ensures
        s@ == reset_sequence(),
{
    format!("{}", termion::color::Fg(termion::color::Reset))
}

/// Error: message, line and column
#[derive(Debug)]
pub struct JSONError {
    msg: String,
    line: usize,
    col: usize,
}

impl View for JSONError {
    type V = Report;

    closed spec fn view(&self) -> Report {
        Report { message: self.msg@, line: self.line as nat, column: self.col as nat }
    }
}

impl JSONError {
    /// Create a new json error
    pub fn new(msg: String, line: usize, col: usize) -> (e: Self)
        ensures
            e@ == (Report { message: msg@, line: line as nat, column: col as nat }),
    {
        Self { msg, line, col }
    }

    /// The text of the message.
    pub fn message(&self) -> (m: &String)
        ensures
            m@ == self@.message,
    {
        &self.msg
    }

    /// The line on which the violation was found, counted from one.
    pub fn line(&self) -> (n: usize)
        ensures
            n == self@.line,
    {
        self.line
    }

    /// The column at which the violation was found, counted from zero.
    pub fn column(&self) -> (n: usize)
        ensures
            n == self@.column,
    {
        self.col
    }

    /// The error in one line of text, with the place between the colour
    /// sequences `on` and `off`.
    pub fn render_with(&self, on: &str, off: &str) -> (text: String)
        ensures
            text@ == rendered(self@, on@, off@),
    {
        let mut text = on.to_owned();
        push_decimal(&mut text, self.line);
        text.append(":");
        push_decimal(&mut text, self.col);
        text.append(off);
        text.append(" - ");
        text.append(self.msg.as_str());
        text
    }

    /// The error in one line of text, with the place in red where the
    /// terminal's colours are in use.
    pub fn render(&self) -> (text: String)
        ensures
            text@ == rendered(self@, red_sequence(), reset_sequence()) || text@ == rendered(
                self@,
                Seq::empty(),
                reset_sequence(),
            ),
    {
        let on = foreground_red();
        let off = foreground_reset();
        self.render_with(on.as_str(), off.as_str())
    }
}

} // verus!
