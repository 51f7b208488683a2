//! What the terminal shows: its cells, colors and cursor.

use vstd::prelude::*;

use crate::text::push_char;

verus! {

/// The colors of the terminal: foreground, background, cursor and the
/// sixteen ANSI colors, each `0xRRGGBB`.
#[derive(Clone, Copy, Debug, PartialEq, Eq)]
pub struct Palette {
    pub foreground: u32,
    pub background: u32,
    pub cursor: u32,
    pub ansi: [u32; 16],
}

/// The ANSI colors of the dark theme.
pub open spec fn dark_ansi() -> Seq<u32> {
    seq![
        0x3f4451u32, 0xe06c75, 0x98c379, 0xe5c07b, 0x61afef, 0xc678dd, 0x56b6c2, 0xd7dae0,
        0x5c6370, 0xf0838c, 0xb5e08f, 0xf0d08f, 0x80c4ff, 0xdb9ff0, 0x70d4df, 0xffffff,
    ]
}

impl Default for Palette {
    fn default() -> (res: Self)
        ensures
            res.foreground == 0xdfe1e5,
            res.background == 0x1e1f22,
            res.cursor == 0xdfe1e5,
            res.ansi@ == dark_ansi(),
    {
        let p = Palette {
            foreground: 0xdfe1e5,
            background: 0x1e1f22,
            cursor: 0xdfe1e5,
            ansi: [
                0x3f4451, 0xe06c75, 0x98c379, 0xe5c07b, 0x61afef, 0xc678dd, 0x56b6c2, 0xd7dae0,
                0x5c6370, 0xf0838c, 0xb5e08f, 0xf0d08f, 0x80c4ff, 0xdb9ff0, 0x70d4df, 0xffffff,
            ],
        };
        assert(p.ansi@ =~= dark_ansi());
        p
    }
}

/// The number of colors a terminal names: 256 indexed ones, then the
/// foreground, background, cursor, the dim colors and the bright and dim
/// foreground.
pub const COLOR_COUNT: usize = 269;

/// The index of the foreground color.
pub const FOREGROUND: usize = 256;

/// The index of the background color.
pub const BACKGROUND: usize = 257;

/// The index of the cursor color.
pub const CURSOR: usize = 258;

/// The index of the first dim ANSI color (dim black).
pub const DIM_BLACK: usize = 259;

/// The index of the last dim ANSI color (dim white).
pub const DIM_WHITE: usize = 266;

/// The index of the dim foreground color.
pub const DIM_FOREGROUND: usize = 268;

/// A color given as red, green and blue, as `0xRRGGBB`.
pub open spec fn rgb_value(r: u8, g: u8, b: u8) -> u32 {
    (r * 65536 + g * 256 + b) as u32
}

/// The `0xRRGGBB` value of a color given by its channels.
pub fn from_rgb(r: u8, g: u8, b: u8) -> (res: u32)
    ensures
        res == rgb_value(r, g, b),
{
    (r as u32) * 65536 + (g as u32) * 256 + (b as u32)
}

/// The red, green and blue channels of a `0xRRGGBB` color (the top byte
/// is dropped).
pub fn to_rgb(color: u32) -> (res: (u8, u8, u8))
    ensures
        res.0 == (color / 65536) % 256,
        res.1 == (color / 256) % 256,
        res.2 == color % 256,
{
    (((color / 65536) % 256) as u8, ((color / 256) % 256) as u8, (color % 256) as u8)
}

/// A channel level of the 6x6x6 color cube.
pub open spec fn cube_level(value: int) -> int {
    if value == 0 {
        0
    } else {
        55 + 40 * value
    }
}

/// The color with index `index`: an override set for it, else the ANSI
/// colors, the 6x6x6 cube, the grayscale ramp, the background and cursor,
/// the dim ANSI colors, the dim foreground, and the foreground for every
/// other index.
pub open spec fn indexed_color(p: Palette, index: int, overrides: Seq<Option<(u8, u8, u8)>>) -> u32 {
    if 0 <= index < COLOR_COUNT && overrides[index] is Some {
        let (r, g, b) = overrides[index]->0;
        rgb_value(r, g, b)
    } else if 0 <= index <= 15 {
        p.ansi@[index]
    } else if 16 <= index <= 231 {
        let cube = index - 16;
        (cube_level(cube / 36) * 65536 + cube_level((cube / 6) % 6) * 256 + cube_level(cube % 6)) as u32
    } else if 232 <= index <= 255 {
        ((8 + 10 * (index - 232)) * 0x010101) as u32
    } else if index == BACKGROUND {
        p.background
    } else if index == CURSOR {
        p.cursor
    } else if DIM_BLACK <= index <= DIM_WHITE {
        dimmed(p.ansi@[index - DIM_BLACK])
    } else if index == DIM_FOREGROUND {
        dimmed(p.foreground)
    } else {
        p.foreground
    }
}

fn level(value: usize) -> (res: u32)
    requires
        value < 6,
    ensures
        res == cube_level(value as int),
{
    if value == 0 {
        0
    } else {
        55 + 40 * (value as u32)
    }
}

impl Palette {
    /// The color with index `index` (see [`indexed_color`]); `overrides`
    /// holds one entry for each of the [`COLOR_COUNT`] colors.
    pub fn color(&self, index: usize, overrides: &[Option<(u8, u8, u8)>]) -> (res: u32)
        requires
            overrides@.len() == COLOR_COUNT,
        ensures
            res == indexed_color(*self, index as int, overrides@),
    {
        if index < COLOR_COUNT {
            if let Some((r, g, b)) = overrides[index] {
                return from_rgb(r, g, b);
            }
        }
        if index <= 15 {
            self.ansi[index]
        } else if index <= 231 {
            let cube = index - 16;
            level(cube / 36) * 65536 + level((cube / 6) % 6) * 256 + level(cube % 6)
        } else if index <= 255 {
            (8 + 10 * ((index - 232) as u32)) * 0x010101
        } else if index == BACKGROUND {
            self.background
        } else if index == CURSOR {
            self.cursor
        } else if DIM_BLACK <= index && index <= DIM_WHITE {
            dim(self.ansi[index - DIM_BLACK])
        } else if index == DIM_FOREGROUND {
            dim(self.foreground)
        } else {
            self.foreground
        }
    }
}

/// A color with each of its red, green and blue channels at two thirds.
pub open spec fn dimmed(color: u32) -> u32 {
    let r = (color / 65536) % 256;
    let g = (color / 256) % 256;
    let b = color % 256;
    ((r * 2 / 3) * 65536 + (g * 2 / 3) * 256 + b * 2 / 3) as u32
}

/// Dims a `0xRRGGBB` color (see [`dimmed`]); the top byte is dropped.
pub fn dim(color: u32) -> (res: u32)
    ensures
        res == dimmed(color),
{
    let r = (color / 65536) % 256;
    let g = (color / 256) % 256;
    let b = color % 256;
    (r * 2 / 3) * 65536 + (g * 2 / 3) * 256 + b * 2 / 3
}

/// One cell of the screen: its character and the combining characters on
/// it, its colors and attributes, its width (2 for the first cell of a
/// wide character, 0 for the cell after it) and whether it is selected.
#[derive(Clone, Debug, PartialEq, Eq)]
pub struct Cell {
    pub ch: char,
    pub combining: Vec<char>,
    pub foreground: u32,
    pub background: u32,
    pub bold: bool,
    pub italic: bool,
    pub underline: bool,
    pub strikethrough: bool,
    pub width: u8,
    pub selected: bool,
}

/// How the cursor is drawn.
#[derive(Clone, Copy, Debug, PartialEq, Eq, Structural)]
pub enum CursorShape {
    Block,
    Underline,
    Beam,
}

/// Where the cursor is on the visible grid, and whether it sits on a wide
/// character.
#[derive(Clone, Copy, Debug, PartialEq, Eq, Structural)]
pub struct Cursor {
    pub row: usize,
    pub column: usize,
    pub shape: CursorShape,
    pub wide: bool,
}

/// The visible rows of the terminal and its cursor, if it is shown.
#[derive(Clone, Debug, PartialEq, Eq)]
pub struct Snapshot {
    pub rows: Vec<Vec<Cell>>,
    pub cursor: Option<Cursor>,
}

/// The characters of a cell: its own and its combining ones; none for the
/// spacer after a wide character.
pub open spec fn cell_text(c: Cell) -> Seq<char> {
    if c.width > 0 {
        seq![c.ch] + c.combining@
    } else {
        Seq::empty()
    }
}

/// The text of the first `n` cells of a row.
pub open spec fn row_text(row: Seq<Cell>, n: int) -> Seq<char>
    decreases n,
{
    if n <= 0 {
        Seq::empty()
    } else {
        row_text(row, n - 1) + cell_text(row[n - 1])
    }
}

fn line_of(row: &Vec<Cell>) -> (res: String)
    ensures
        res@ == row_text(row@, row@.len() as int),
{
    let mut line = String::new();
    let mut i: usize = 0;
    while i < row.len()
        invariant
            i <= row@.len(),
            line@ == row_text(row@, i as int),
        decreases row.len() - i,
    {
        let cell = &row[i];
        let ghost start = line@;
        if cell.width > 0 {
            push_char(&mut line, cell.ch);
            let mut k: usize = 0;
            while k < cell.combining.len()
                invariant
                    k <= cell.combining@.len(),
                    line@ == start + seq![cell.ch] + cell.combining@.subrange(0, k as int),
                decreases cell.combining.len() - k,
            {
                push_char(&mut line, cell.combining[k]);
                k = k + 1;
                assert(line@ =~= start + seq![cell.ch] + cell.combining@.subrange(0, k as int));
            }
            assert(cell.combining@.subrange(0, k as int) =~= cell.combining@);
        }
        i = i + 1;
        assert(line@ =~= row_text(row@, i as int));
    }
    line
}

impl Snapshot {
    /// The text of each row (see [`row_text`]).
    pub fn lines(&self) -> (res: Vec<String>)
        ensures
            res@.len() == self.rows@.len(),
            forall|i: int|
                0 <= i < res@.len() ==> (#[trigger] res@[i])@ == row_text(
                    self.rows@[i]@,
                    self.rows@[i]@.len() as int,
                ),
    {
        let mut out: Vec<String> = Vec::new();
        let mut i: usize = 0;
        while i < self.rows.len()
            invariant
                i <= self.rows@.len(),
                out@.len() == i,
                forall|j: int|
                    0 <= j < i ==> (#[trigger] out@[j])@ == row_text(
                        self.rows@[j]@,
                        self.rows@[j]@.len() as int,
                    ),
            decreases self.rows.len() - i,
        {
            out.push(line_of(&self.rows[i]));
            i = i + 1;
        }
        out
    }
}

} // verus!
