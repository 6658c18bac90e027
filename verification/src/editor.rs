//! Line editing for the interactive shell.
//!
//! The driver that reads the keyboard hands each decoded key to a
//! [`LineEditor`] and performs the action it returns: echo a character,
//! erase one, run the finished line, or move the scrollback.

use vstd::prelude::*;
use crate::path::push_char;

verus! {

/// Longest command line the editor accepts, in characters.
pub const MAX_LINE: usize = 120;

/// A decoded key.
#[derive(Debug, Clone, Copy, PartialEq, Eq, Structural)]
pub enum Key {
    /// A key with a character.
    Char(char),
    PageUp,
    PageDown,
    End,
    /// Any other key without a character.
    Other,
}

/// What the driver does for a key.
#[derive(Debug, PartialEq, Eq)]
pub enum KeyAction {
    Nothing,
    /// Show the character typed.
    Echo(char),
    /// Rub out the last character shown.
    Erase,
    /// Run the finished line.
    Submit(String),
    /// Move the scrollback view up by this many rows.
    ScrollUp(usize),
    /// Move the scrollback view down by this many rows.
    ScrollDown(usize),
    /// Return to the live tail.
    ScrollEnd,
}

/// What the driver does with the output of a command.
#[derive(Debug, Clone, Copy, PartialEq, Eq, Structural)]
pub enum Shown {
    /// Clear the screen.
    Clear,
    /// Print the output.
    Print,
    /// Print nothing.
    Nothing,
}

/// A printable ASCII character (space to tilde).
pub open spec fn printable(c: char) -> bool {
    ' ' <= c && c <= '~'
}

/// How far one page of scrollback moves on a screen of `rows` rows: one row
/// less than a screenful, at least one.
pub open spec fn page_step(rows: usize) -> usize {
    if rows <= 2 {
        1
    } else {
        (rows - 1) as usize
    }
}

/// The page step for a screen of `rows` rows.
pub fn scroll_step(rows: usize) -> (r: usize)
    ensures
        r == page_step(rows),
{
    let s = rows.saturating_sub(1);
    if s < 1 {
        1
    } else {
        s
    }
}

/// What a key without a character does to the scrollback of a screen of
/// `rows` rows.
pub open spec fn scroll_action(k: Key, rows: usize) -> KeyAction {
    match k {
        Key::PageUp => KeyAction::ScrollUp(page_step(rows)),
        Key::PageDown => KeyAction::ScrollDown(page_step(rows)),
        Key::End => KeyAction::ScrollEnd,
        _ => KeyAction::Nothing,
    }
}

/// What the driver does with the output `out` of a command: the sentinel
/// clears the screen, other non-empty output is printed.
pub fn shown(out: &str) -> (r: Shown)
    ensures
        out@ == crate::shell::CLEAR_SENTINEL@ ==> r == Shown::Clear,
        out@ != crate::shell::CLEAR_SENTINEL@ && out@.len() > 0 ==> r == Shown::Print,
        out@.len() == 0 ==> r == Shown::Nothing,
{
    proof {
        reveal_strlit("\x1bCLR");
    }
    let cs = crate::path::chars_of(out);
    let sentinel = crate::path::chars_of(crate::shell::CLEAR_SENTINEL);
    if crate::path::chars_eq(cs.as_slice(), sentinel.as_slice()) {
        Shown::Clear
    } else if cs.len() > 0 {
        Shown::Print
    } else {
        Shown::Nothing
    }
}

pub struct LineEditor {
    line: Vec<char>,
}

impl LineEditor {
    /// The line typed so far.
    pub closed spec fn spec_line(&self) -> Seq<char> {
        self.line@
    }

    /// An editor with an empty line.
    pub fn new() -> (e: LineEditor)
        ensures
            e.spec_line() == Seq::<char>::empty(),
    {
        LineEditor { line: Vec::new() }
    }

    /// Handle the key `k` on a screen of `rows` rows: Enter hands over the
    /// line and starts a new one; backspace and delete take back the last
    /// character; a printable character is added while the line is shorter
    /// than [`MAX_LINE`]; PageUp, PageDown and End move the scrollback;
    /// anything else is ignored.
    pub fn press(&mut self, k: Key, rows: usize) -> (a: KeyAction)
        requires
            old(self).spec_line().len() <= MAX_LINE,
        ensures
            final(self).spec_line().len() <= MAX_LINE,
            match k {
                Key::Char(c) => if c == '\n' {
                    a matches KeyAction::Submit(s) && s@ == old(self).spec_line() && final(self).spec_line()
                        == Seq::<char>::empty()
                } else if c == '\x08' || c == '\x7f' {
                    if old(self).spec_line().len() > 0 {
                        a == KeyAction::Erase && final(self).spec_line() == old(self).spec_line().drop_last()
                    } else {
                        a == KeyAction::Nothing && final(self).spec_line() == old(self).spec_line()
                    }
                } else if printable(c) && old(self).spec_line().len() < MAX_LINE {
                    a == KeyAction::Echo(c) && final(self).spec_line() == old(self).spec_line().push(c)
                } else {
                    a == KeyAction::Nothing && final(self).spec_line() == old(self).spec_line()
                },
                _ => a == scroll_action(k, rows) && final(self).spec_line() == old(self).spec_line(),
            },
    {
        match k {
            Key::Char(c) => {
                if c == '\n' {
                    let mut s = String::new();
                    let mut i: usize = 0;
                    while i < self.line.len()
                        invariant
                            i <= self.line@.len(),
                            s@ == self.line@.take(i as int),
                        decreases self.line@.len() - i,
                    {
                        push_char(&mut s, self.line[i]);
                        i = i + 1;
                        assert(s@ =~= self.line@.take(i as int));
                    }
                    assert(self.line@.take(self.line@.len() as int) =~= self.line@);
                    self.line = Vec::new();
                    KeyAction::Submit(s)
                } else if c == '\x08' || c == '\x7f' {
                    if self.line.len() > 0 {
                        self.line.pop();
                        KeyAction::Erase
                    } else {
                        KeyAction::Nothing
                    }
                } else if ' ' <= c && c <= '~' && self.line.len() < MAX_LINE {
                    self.line.push(c);
                    KeyAction::Echo(c)
                } else {
                    KeyAction::Nothing
                }
            },
            Key::PageUp => KeyAction::ScrollUp(scroll_step(rows)),
            Key::PageDown => KeyAction::ScrollDown(scroll_step(rows)),
            Key::End => KeyAction::ScrollEnd,
            Key::Other => KeyAction::Nothing,
        }
    }
}

} // verus!
