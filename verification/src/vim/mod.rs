//! Vim key handling: modes, the commands that keys make, and what a
//! command asks of the editor.

pub mod buffer;
pub mod command;
pub mod engine;
pub mod input;

use std::ops::Range;
use vstd::prelude::*;

pub use command::Key;
pub use engine::Vim;

verus! {

/// The Vim mode.
#[derive(Clone, Copy, Debug, PartialEq, Eq, Structural)]
pub enum Mode {
    Normal,
    Insert,
    Visual,
    VisualLine,
}

impl Default for Mode {
    fn default() -> (res: Self)
        ensures
            res == Mode::Normal,
    {
        Mode::Normal
    }
}

impl Mode {
    /// The name shown in the status bar.
    pub fn label(self) -> (res: &'static str)
        ensures
            res@ == match self {
                Mode::Normal => "NORMAL"@,
                Mode::Insert => "INSERT"@,
                Mode::Visual => "VISUAL"@,
                Mode::VisualLine => "VISUAL LINE"@,
            },
    {
        match self {
            Mode::Normal => "NORMAL",
            Mode::Insert => "INSERT",
            Mode::Visual => "VISUAL",
            Mode::VisualLine => "VISUAL LINE",
        }
    }
}

/// A change to the text: the range of characters replaced (counted in
/// characters, not bytes) and its new text.
#[derive(Debug, PartialEq, Eq)]
pub struct Edit {
    pub range: Range<usize>,
    pub text: String,
}

impl Clone for Edit {
    fn clone(&self) -> (res: Self)
        ensures
            res.range == self.range,
            res.text@ == self.text@,
    {
        Edit { range: self.range.start..self.range.end, text: self.text.clone() }
    }
}

/// A request to the editor around the text: undo and redo, and the file
/// and buffer commands of the command line.
#[derive(Clone, Debug, PartialEq, Eq)]
pub enum Command {
    Undo,
    Redo,
    Write,
    WriteAs(String),
    WriteAll,
    Close { force: bool },
    CloseAll { force: bool },
    NextBuffer,
    PreviousBuffer,
    NewBuffer,
    Open(String),
}

/// What handling a key asks of the editor: edits to apply in order,
/// commands to run, and a message to show.
#[derive(Debug)]
pub struct Outcome {
    pub edits: Vec<Edit>,
    pub commands: Vec<Command>,
    pub message: Option<String>,
}

impl Default for Outcome {
    fn default() -> (res: Self)
        ensures
            res.edits@.len() == 0,
            res.commands@.len() == 0,
            res.message is None,
    {
        Outcome { edits: Vec::new(), commands: Vec::new(), message: None }
    }
}

/// The system clipboard, which the `+` and `*` registers (and yanks)
/// share; the editor provides it.
pub trait Clipboard {
    fn read(&mut self) -> Option<String>;

    fn write(&mut self, text: String);
}

} // verus!
