use hephaestus::terminal::frame::{
    background_runs, cursor_mark, invert_cursor, plan, text_runs, CursorMark, Shade,
};
use hephaestus::terminal::snapshot::{Cell, Cursor, CursorShape, Palette, Snapshot};

fn cell(ch: char, background: u32) -> Cell {
    Cell {
        ch,
        combining: Vec::new(),
        foreground: 0xdfe1e5,
        background,
        bold: false,
        italic: false,
        underline: false,
        strikethrough: false,
        width: 1,
        selected: false,
    }
}

fn row_of(text: &str, background: u32) -> Vec<Cell> {
    text.chars().map(|c| cell(c, background)).collect()
}

#[test]
fn background_runs_merge_equal_shades_and_skip_plain_ones() {
    let palette = Palette::default();
    let plain = palette.background;
    let mut row = row_of("abcdef", plain);
    row[1].background = 0xff0000;
    row[2].background = 0xff0000;
    row[3].selected = true;
    row[5].background = 0x00ff00;
    assert_eq!(
        background_runs(&row, plain),
        vec![
            (1, 3, Shade::Color(0xff0000)),
            (3, 4, Shade::Selected),
            (5, 6, Shade::Color(0x00ff00)),
        ]
    );
    assert!(background_runs(&row_of("xyz", plain), plain).is_empty());
    assert!(background_runs(&Vec::new(), plain).is_empty());
}

#[test]
fn text_runs_split_on_style_blanks_and_wide_characters() {
    let plain = Palette::default().background;
    let mut row = row_of("ab cd", plain);
    row[4].bold = true;
    let mut wide = cell('漢', plain);
    wide.width = 2;
    let mut spacer = cell(' ', plain);
    spacer.width = 0;
    row.push(wide);
    row.push(spacer);
    row.push(cell('e', plain));
    row[1].combining.push('\u{301}');
    let runs = text_runs(&row);
    let bounds: Vec<(usize, usize)> = runs.iter().map(|r| (r.start, r.end)).collect();
    assert_eq!(bounds, vec![(0, 4), (4, 5), (5, 6), (7, 8)]);
    assert_eq!(runs[0].text, "ab\u{301} c");
    assert_eq!(runs[2].text, "漢");
}

#[test]
fn a_focused_block_cursor_takes_the_cursor_colors() {
    let palette = Palette::default();
    let mut snapshot = Snapshot {
        rows: vec![row_of("abc", palette.background), row_of("def", palette.background)],
        cursor: Some(Cursor { row: 1, column: 1, shape: CursorShape::Block, wide: true }),
    };
    snapshot.rows[1][1].selected = true;
    invert_cursor(&mut snapshot, &palette, true);
    for column in 1..3 {
        assert_eq!(snapshot.rows[1][column].background, palette.cursor);
        assert_eq!(snapshot.rows[1][column].foreground, palette.background);
        assert!(!snapshot.rows[1][column].selected);
    }
    assert_eq!(snapshot.rows[1][0].background, palette.background);
    assert_eq!(snapshot.rows[0][1].background, palette.background);
}

#[test]
fn an_unfocused_cursor_is_outlined_and_leaves_the_cells() {
    let palette = Palette::default();
    let snapshot = Snapshot {
        rows: vec![row_of("ab", palette.background)],
        cursor: Some(Cursor { row: 0, column: 0, shape: CursorShape::Block, wide: false }),
    };
    let frame = plan(snapshot, &palette, false);
    assert!(frame.backgrounds[0].is_empty());
    assert_eq!(frame.cursor.map(|(_, mark)| mark), Some(CursorMark::Outline));
    assert_eq!(cursor_mark(true, CursorShape::Beam), CursorMark::Beam);
    assert_eq!(cursor_mark(true, CursorShape::Underline), CursorMark::Underline);
    assert_eq!(cursor_mark(true, CursorShape::Block), CursorMark::Inverted);
}

#[test]
fn a_focused_frame_paints_the_block_cursor_as_a_background_run() {
    let palette = Palette::default();
    let snapshot = Snapshot {
        rows: vec![row_of("ab", palette.background)],
        cursor: Some(Cursor { row: 0, column: 1, shape: CursorShape::Block, wide: false }),
    };
    let frame = plan(snapshot, &palette, true);
    assert_eq!(frame.backgrounds[0], vec![(1, 2, Shade::Color(palette.cursor))]);
    let bounds: Vec<(usize, usize)> = frame.text[0].iter().map(|r| (r.start, r.end)).collect();
    assert_eq!(bounds, vec![(0, 1), (1, 2)]);
}
