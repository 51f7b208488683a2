//! What a frame of the terminal paints: the cursor, runs of cells that share
//! a background, and runs of cells that share a text style.

use vstd::prelude::*;

use crate::terminal::snapshot::{Cell, Cursor, CursorShape, Palette, Snapshot};
use crate::text::push_char;

verus! {

/// The background a cell is painted with: none (the terminal's own), the
/// selection's, or a color of its own.
#[derive(Clone, Copy, Debug, PartialEq, Eq, Structural)]
pub enum Shade {
    Plain,
    Selected,
    Color(u32),
}

/// The background of a cell on a terminal whose background is `background`.
pub open spec fn shade_of(c: Cell, background: u32) -> Shade {
    if c.selected {
        Shade::Selected
    } else if c.background != background {
        Shade::Color(c.background)
    } else {
        Shade::Plain
    }
}

/// The background of a cell.
pub fn shade(cell: &Cell, background: u32) -> (res: Shade)
    ensures
        res == shade_of(*cell, background),
{
    if cell.selected {
        Shade::Selected
    } else if cell.background != background {
        Shade::Color(cell.background)
    } else {
        Shade::Plain
    }
}

/// The painted runs of a row from column `i` on, while a run of shade
/// `cur` is open since `start`: each run is a longest stretch of cells of
/// one shade, and runs with the plain shade are not painted.
pub open spec fn shade_runs(row: Seq<Cell>, background: u32, i: int, start: int, cur: Shade) -> Seq<
    (int, int, Shade),
>
    decreases row.len() - i,
{
    if i >= row.len() {
        if cur is Plain {
            Seq::empty()
        } else {
            seq![(start, row.len() as int, cur)]
        }
    } else if shade_of(row[i], background) == cur {
        shade_runs(row, background, i + 1, start, cur)
    } else {
        (if cur is Plain {
            Seq::empty()
        } else {
            seq![(start, i, cur)]
        }) + shade_runs(row, background, i + 1, i, shade_of(row[i], background))
    }
}

/// The painted background runs `(start, end, shade)` of a row.
pub open spec fn background_runs_of(row: Seq<Cell>, background: u32) -> Seq<(int, int, Shade)> {
    if row.len() == 0 {
        Seq::empty()
    } else {
        shade_runs(row, background, 1, 0, shade_of(row[0], background))
    }
}

/// Runs of `usize` bounds as integers.
pub open spec fn run_view(v: Seq<(usize, usize, Shade)>) -> Seq<(int, int, Shade)> {
    Seq::new(v.len(), |k: int| (v[k].0 as int, v[k].1 as int, v[k].2))
}

/// The background runs of a row, in order.
pub fn background_runs(row: &Vec<Cell>, background: u32) -> (res: Vec<(usize, usize, Shade)>)
    ensures
        run_view(res@) == background_runs_of(row@, background),
{
    let mut out: Vec<(usize, usize, Shade)> = Vec::new();
    if row.len() == 0 {
        assert(run_view(out@) =~= Seq::<(int, int, Shade)>::empty());
        return out;
    }
    let mut start: usize = 0;
    let mut cur = shade(&row[0], background);
    let mut i: usize = 1;
    while i < row.len()
        invariant
            1 <= i <= row@.len(),
            start < i,
            run_view(out@) + shade_runs(row@, background, i as int, start as int, cur)
                == background_runs_of(row@, background),
        decreases row@.len() - i,
    {
        let s = shade(&row[i], background);
        if s != cur {
            let ghost before = run_view(out@);
            if cur != Shade::Plain {
                out.push((start, i, cur));
                assert(run_view(out@) =~= before + seq![(start as int, i as int, cur)]);
            } else {
                assert(before + Seq::<(int, int, Shade)>::empty() =~= before);
            }
            assert(run_view(out@) + shade_runs(row@, background, i + 1, i as int, s) =~= before + ((
            if cur is Plain {
                Seq::empty()
            } else {
                seq![(start as int, i as int, cur)]
            }) + shade_runs(row@, background, i + 1, i as int, s)));
            start = i;
            cur = s;
        }
        i = i + 1;
    }
    let ghost before = run_view(out@);
    if cur != Shade::Plain {
        out.push((start, row.len(), cur));
        assert(run_view(out@) =~= before + seq![(start as int, row@.len() as int, cur)]);
    } else {
        assert(before + Seq::<(int, int, Shade)>::empty() =~= before);
    }
    out
}

/// A cell that draws nothing: a space with no mark on it.
pub open spec fn blank(c: Cell) -> bool {
    c.ch == ' ' && c.combining@.len() == 0 && !c.underline && !c.strikethrough
}

/// Whether two cells draw their text alike.
pub open spec fn same_style(a: Cell, b: Cell) -> bool {
    a.foreground == b.foreground && a.bold == b.bold && a.italic == b.italic && a.underline
        == b.underline && a.strikethrough == b.strikethrough
}

/// Where a run of text that began with the narrow cell `first` ends,
/// looking from column `j`: at the first cell that is not narrow or not
/// styled as `first`.
pub open spec fn run_end(row: Seq<Cell>, first: int, j: int) -> int
    decreases row.len() - j,
{
    if j >= row.len() || row[j].width != 1 || !same_style(row[first], row[j]) {
        j
    } else {
        run_end(row, first, j + 1)
    }
}

/// Where the run of text that begins at column `i` ends: a wide character
/// is a run of its own.
pub open spec fn text_end(row: Seq<Cell>, i: int) -> int {
    if row[i].width == 2 {
        i + 1
    } else {
        run_end(row, i, i + 1)
    }
}

/// A run of text ends no earlier than where the search for its end
/// starts, within the row, and every cell it passes is narrow and styled
/// as its first.
pub proof fn lemma_run_end(row: Seq<Cell>, first: int, j: int)
    ensures
        j <= run_end(row, first, j),
        j <= row.len() ==> run_end(row, first, j) <= row.len(),
        forall|k: int| j <= k < run_end(row, first, j) ==> row[k].width == 1 && same_style(
            row[first],
            #[trigger] row[k],
        ),
    decreases row.len() - j,
{
    if !(j >= row.len() || row[j].width != 1 || !same_style(row[first], row[j])) {
        lemma_run_end(row, first, j + 1);
    }
}

/// The runs `(start, end)` of text of a row from column `i` on: spacers
/// after wide characters and blank cells start no run.
pub open spec fn text_runs_from(row: Seq<Cell>, i: int) -> Seq<(int, int)>
    decreases row.len() - i,
{
    if i < 0 || i >= row.len() {
        Seq::empty()
    } else if row[i].width == 0 || blank(row[i]) {
        text_runs_from(row, i + 1)
    } else {
        proof {
            lemma_run_end(row, i, i + 1);
        }
        seq![(i, text_end(row, i))] + text_runs_from(row, text_end(row, i))
    }
}

/// The characters of the cells `a..e`: each cell's own and its combining
/// ones.
pub open spec fn span_text(row: Seq<Cell>, a: int, e: int) -> Seq<char>
    decreases e - a,
{
    if e <= a {
        Seq::empty()
    } else {
        span_text(row, a, e - 1) + seq![row[e - 1].ch] + row[e - 1].combining@
    }
}

/// A run of text: the cells `start..end`, drawn in the style of the first.
pub struct TextRun {
    pub start: usize,
    pub end: usize,
    pub text: String,
}

/// The bounds of runs of text.
pub open spec fn text_run_bounds(v: Seq<TextRun>) -> Seq<(int, int)> {
    Seq::new(v.len(), |k: int| (v[k].start as int, v[k].end as int))
}

fn is_blank(cell: &Cell) -> (res: bool)
    ensures
        res == blank(*cell),
{
    cell.ch == ' ' && cell.combining.len() == 0 && !cell.underline && !cell.strikethrough
}

fn styled_alike(a: &Cell, b: &Cell) -> (res: bool)
    ensures
        res == same_style(*a, *b),
{
    a.foreground == b.foreground && a.bold == b.bold && a.italic == b.italic && a.underline
        == b.underline && a.strikethrough == b.strikethrough
}

fn push_cell(out: &mut String, cell: &Cell)
    ensures
        final(out)@ == old(out)@ + seq![cell.ch] + cell.combining@,
{
    push_char(out, cell.ch);
    let ghost start = out@;
    let mut k: usize = 0;
    while k < cell.combining.len()
        invariant
            k <= cell.combining@.len(),
            out@ == start + cell.combining@.subrange(0, k as int),
        decreases cell.combining.len() - k,
    {
        push_char(out, cell.combining[k]);
        k = k + 1;
        assert(out@ =~= start + cell.combining@.subrange(0, k as int));
    }
    assert(cell.combining@.subrange(0, k as int) =~= cell.combining@);
}

/// The runs of text of a row, in order, with their characters.
pub fn text_runs(row: &Vec<Cell>) -> (res: Vec<TextRun>)
    ensures
        text_run_bounds(res@) == text_runs_from(row@, 0),
        forall|k: int|
            0 <= k < res@.len() ==> (#[trigger] res@[k]).text@ == span_text(
                row@,
                res@[k].start as int,
                res@[k].end as int,
            ),
{
    let mut out: Vec<TextRun> = Vec::new();
    let mut column: usize = 0;
    while column < row.len()
        invariant
            column <= row@.len(),
            text_run_bounds(out@) + text_runs_from(row@, column as int) == text_runs_from(row@, 0),
            forall|k: int|
                0 <= k < out@.len() ==> (#[trigger] out@[k]).text@ == span_text(
                    row@,
                    out@[k].start as int,
                    out@[k].end as int,
                ),
        decreases row@.len() - column,
    {
        let first = &row[column];
        if first.width == 0 || is_blank(first) {
            column = column + 1;
        } else {
            let start = column;
            let mut run = String::new();
            push_cell(&mut run, first);
            column = column + 1;
            assert(span_text(row@, start as int, start as int) =~= Seq::<char>::empty());
            assert(run@ =~= span_text(row@, start as int, column as int));
            if first.width != 2 {
                while column < row.len() && row[column].width == 1 && styled_alike(first, &row[column])
                    invariant
                        start < column <= row@.len(),
                        row@[start as int].width != 2,
                        *first == row@[start as int],
                        run_end(row@, start as int, column as int) == run_end(
                            row@,
                            start as int,
                            start + 1,
                        ),
                        run@ == span_text(row@, start as int, column as int),
                    decreases row@.len() - column,
                {
                    push_cell(&mut run, &row[column]);
                    column = column + 1;
                    assert(run@ =~= span_text(row@, start as int, column as int));
                }
            }
            proof {
                lemma_run_end(row@, start as int, start + 1);
                assert(column == text_end(row@, start as int));
            }
            let ghost before = text_run_bounds(out@);
            out.push(TextRun { start, end: column, text: run });
            assert(text_run_bounds(out@) =~= before + seq![(start as int, column as int)]);
        }
    }
    out
}

/// How the cursor is drawn.
#[derive(Clone, Copy, Debug, PartialEq, Eq, Structural)]
pub enum CursorMark {
    /// The cells under it swap to the cursor's colors.
    Inverted,
    /// A bar at its left edge.
    Beam,
    /// A bar along its bottom edge.
    Underline,
    /// An outline around it, when the terminal is not focused.
    Outline,
}

/// How a cursor of a shape is drawn.
pub open spec fn cursor_mark_of(focused: bool, shape: CursorShape) -> CursorMark {
    if !focused {
        CursorMark::Outline
    } else {
        match shape {
            CursorShape::Block => CursorMark::Inverted,
            CursorShape::Beam => CursorMark::Beam,
            CursorShape::Underline => CursorMark::Underline,
        }
    }
}

/// How the cursor is drawn: by its shape when the terminal is focused, as
/// an outline when it is not.
pub fn cursor_mark(focused: bool, shape: CursorShape) -> (res: CursorMark)
    ensures
        res == cursor_mark_of(focused, shape),
{
    if !focused {
        CursorMark::Outline
    } else {
        match shape {
            CursorShape::Block => CursorMark::Inverted,
            CursorShape::Beam => CursorMark::Beam,
            CursorShape::Underline => CursorMark::Underline,
        }
    }
}

/// Whether the cursor covers column `k` of its row (two columns on a wide
/// character).
pub open spec fn covers(c: Cursor, k: int) -> bool {
    c.column <= k < c.column + (if c.wide {
        2int
    } else {
        1int
    })
}

/// Whether cell `b` shows cell `a` with its colors swapped to the cursor's
/// when `inverted`, or unchanged.
pub open spec fn shown_as(a: Cell, b: Cell, inverted: bool, palette: Palette) -> bool {
    &&& b.ch == a.ch
    &&& b.combining@ == a.combining@
    &&& b.bold == a.bold
    &&& b.italic == a.italic
    &&& b.underline == a.underline
    &&& b.strikethrough == a.strikethrough
    &&& b.width == a.width
    &&& if inverted {
        b.background == palette.cursor && b.foreground == palette.background && !b.selected
    } else {
        b.background == a.background && b.foreground == a.foreground && b.selected == a.selected
    }
}

/// Whether the cell at row `r`, column `k` is drawn under a block cursor.
pub open spec fn under_block(s: Snapshot, focused: bool, r: int, k: int) -> bool {
    &&& focused
    &&& s.cursor matches Some(c)
    &&& c.shape == CursorShape::Block
    &&& r == c.row
    &&& covers(c, k)
}

/// Swaps the colors of the cells under a block cursor of a focused
/// terminal to the cursor's.
pub fn invert_cursor(snapshot: &mut Snapshot, palette: &Palette, focused: bool)
    requires
        old(snapshot).cursor matches Some(c) ==> c.row < old(snapshot).rows@.len(),
    ensures
        final(snapshot).cursor == old(snapshot).cursor,
        final(snapshot).rows@.len() == old(snapshot).rows@.len(),
        forall|r: int|
            0 <= r < old(snapshot).rows@.len() ==> (#[trigger] final(snapshot).rows@[r])@.len()
                == old(snapshot).rows@[r]@.len(),
        forall|r: int, k: int|
            0 <= r < old(snapshot).rows@.len() && 0 <= k < old(snapshot).rows@[r]@.len() ==> shown_as(
                old(snapshot).rows@[r]@[k],
                #[trigger] final(snapshot).rows@[r]@[k],
                under_block(*old(snapshot), focused, r, k),
                *palette,
            ),
{
    let cursor = match snapshot.cursor {
        Some(c) => c,
        None => {
            return;
        },
    };
    if !focused || cursor.shape != CursorShape::Block {
        return;
    }
    let ghost before = snapshot.rows@;
    let columns: usize = if cursor.wide {
        2
    } else {
        1
    };
    let mut row = snapshot.rows.remove(cursor.row);
    let ghost original = row@;
    let mut k: usize = cursor.column;
    while k < row.len() && k - cursor.column < columns
        invariant
            cursor.column <= k,
            k <= cursor.column + columns,
            row@.len() == original.len(),
            columns == (if cursor.wide {
                2usize
            } else {
                1usize
            }),
            forall|j: int|
                0 <= j < original.len() ==> shown_as(
                    original[j],
                    #[trigger] row@[j],
                    cursor.column <= j < k,
                    *palette,
                ),
        decreases original.len() - k,
    {
        let cell = row.remove(k);
        let painted = Cell {
            ch: cell.ch,
            combining: cell.combining,
            foreground: palette.background,
            background: palette.cursor,
            bold: cell.bold,
            italic: cell.italic,
            underline: cell.underline,
            strikethrough: cell.strikethrough,
            width: cell.width,
            selected: false,
        };
        row.insert(k, painted);
        k = k + 1;
    }
    snapshot.rows.insert(cursor.row, row);
    assert forall|r: int, j: int|
        0 <= r < before.len() && 0 <= j < before[r]@.len() implies shown_as(
        before[r]@[j],
        #[trigger] snapshot.rows@[r]@[j],
        under_block(*old(snapshot), focused, r, j),
        *palette,
    ) by {
        if r == cursor.row {
            assert(snapshot.rows@[r]@ == row@);
        } else {
            assert(snapshot.rows@[r] == before[r]);
        }
    }
}

/// What a frame paints, row by row: the background runs and the runs of
/// text of the rows as drawn under the cursor, and how the cursor is drawn.
pub struct FramePlan {
    pub backgrounds: Vec<Vec<(usize, usize, Shade)>>,
    pub text: Vec<Vec<TextRun>>,
    pub cursor: Option<(Cursor, CursorMark)>,
    pub rows: Vec<Vec<Cell>>,
}

/// Plans a frame of a snapshot: the cells under a block cursor of a
/// focused terminal take the cursor's colors, then each row is cut into
/// background runs and runs of text.
pub fn plan(snapshot: Snapshot, palette: &Palette, focused: bool) -> (res: FramePlan)
    requires
        snapshot.cursor matches Some(c) ==> c.row < snapshot.rows@.len(),
    ensures
        res.cursor == match snapshot.cursor {
            Some(c) => Some((c, cursor_mark_of(focused, c.shape))),
            None => None,
        },
        res.rows@.len() == snapshot.rows@.len(),
        res.backgrounds@.len() == snapshot.rows@.len(),
        res.text@.len() == snapshot.rows@.len(),
        forall|r: int|
            0 <= r < snapshot.rows@.len() ==> (#[trigger] res.rows@[r])@.len()
                == snapshot.rows@[r]@.len(),
        forall|r: int, k: int|
            0 <= r < snapshot.rows@.len() && 0 <= k < snapshot.rows@[r]@.len() ==> shown_as(
                snapshot.rows@[r]@[k],
                #[trigger] res.rows@[r]@[k],
                under_block(snapshot, focused, r, k),
                *palette,
            ),
        forall|r: int|
            0 <= r < snapshot.rows@.len() ==> run_view((#[trigger] res.backgrounds@[r])@)
                == background_runs_of(res.rows@[r]@, palette.background),
        forall|r: int|
            0 <= r < snapshot.rows@.len() ==> text_run_bounds((#[trigger] res.text@[r])@)
                == text_runs_from(res.rows@[r]@, 0),
        forall|r: int, k: int|
            0 <= r < snapshot.rows@.len() && 0 <= k < res.text@[r]@.len() ==> (
            #[trigger] res.text@[r]@[k]).text@ == span_text(
                res.rows@[r]@,
                res.text@[r]@[k].start as int,
                res.text@[r]@[k].end as int,
            ),
{
    let mut shown = snapshot;
    invert_cursor(&mut shown, palette, focused);
    let cursor = match shown.cursor {
        Some(c) => Some((c, cursor_mark(focused, c.shape))),
        None => None,
    };
    let mut backgrounds: Vec<Vec<(usize, usize, Shade)>> = Vec::new();
    let mut text: Vec<Vec<TextRun>> = Vec::new();
    let mut r: usize = 0;
    while r < shown.rows.len()
        invariant
            r <= shown.rows@.len(),
            backgrounds@.len() == r,
            text@.len() == r,
            forall|q: int|
                0 <= q < r ==> run_view((#[trigger] backgrounds@[q])@) == background_runs_of(
                    shown.rows@[q]@,
                    palette.background,
                ),
            forall|q: int|
                0 <= q < r ==> text_run_bounds((#[trigger] text@[q])@) == text_runs_from(
                    shown.rows@[q]@,
                    0,
                ),
            forall|q: int, k: int|
                0 <= q < r && 0 <= k < text@[q]@.len() ==> (#[trigger] text@[q]@[k]).text@
                    == span_text(
                    shown.rows@[q]@,
                    text@[q]@[k].start as int,
                    text@[q]@[k].end as int,
                ),
        decreases shown.rows@.len() - r,
    {
        backgrounds.push(background_runs(&shown.rows[r], palette.background));
        text.push(text_runs(&shown.rows[r]));
        r = r + 1;
    }
    FramePlan { backgrounds, text, cursor, rows: shown.rows }
}

} // verus!
