//! The terminal panel's model: key encoding, grid geometry and screen
//! snapshots.

pub mod frame;
pub mod keys;
pub mod snapshot;

use vstd::prelude::*;

verus! {

/// The size of the terminal grid in cells, and of a cell in pixels.
#[derive(Clone, Copy, Debug, PartialEq, Eq, Structural)]
pub struct GridSize {
    pub columns: u16,
    pub rows: u16,
    pub cell_width: u16,
    pub cell_height: u16,
}

impl GridSize {
    /// The size with at least two columns and one row, the smallest grid a
    /// terminal can run in.
    pub fn clamped(self) -> (res: Self)
        ensures
            res.columns == if self.columns < 2 {
                2
            } else {
                self.columns
            },
            res.rows == if self.rows < 1 {
                1
            } else {
                self.rows
            },
            res.cell_width == self.cell_width,
            res.cell_height == self.cell_height,
    {
        GridSize {
            columns: if self.columns < 2 {
                2
            } else {
                self.columns
            },
            rows: if self.rows < 1 {
                1
            } else {
                self.rows
            },
            cell_width: self.cell_width,
            cell_height: self.cell_height,
        }
    }
}

impl Default for GridSize {
    /// 80 × 24 cells of 8 × 16 pixels.
    fn default() -> (res: Self)
        ensures
            res == (GridSize { columns: 80, rows: 24, cell_width: 8, cell_height: 16 }),
    {
        GridSize { columns: 80, rows: 24, cell_width: 8, cell_height: 16 }
    }
}

/// What the terminal reports to its view: new output to draw, the shell's
/// exit, or text to put on the clipboard.
#[derive(Clone, Debug, PartialEq, Eq)]
pub enum Event {
    Wakeup,
    Exited,
    Copy(String),
}

/// How a mouse selection grows: by cells, words or lines.
#[derive(Clone, Copy, Debug, PartialEq, Eq, Structural)]
pub enum SelectionKind {
    Cells,
    Words,
    Lines,
}

/// A point on the visible grid, and whether it is in the right half of its
/// cell.
#[derive(Clone, Copy, Debug, PartialEq, Eq, Structural)]
pub struct GridPoint {
    pub row: usize,
    pub column: usize,
    pub right_half: bool,
}

} // verus!
