use hephaestus::terminal::snapshot::{dim, from_rgb, to_rgb, Palette, BACKGROUND, COLOR_COUNT, CURSOR, DIM_BLACK, DIM_FOREGROUND};

#[test]
fn indexed_colors_cover_the_cube_and_grayscale_ramp() {
    let palette = Palette::default();
    let overrides: Vec<Option<(u8, u8, u8)>> = vec![None; COLOR_COUNT];
    assert_eq!(palette.color(9, &overrides), palette.ansi[9]);
    assert_eq!(palette.color(196, &overrides), 0xff0000);
    assert_eq!(palette.color(21, &overrides), 0x0000ff);
    assert_eq!(palette.color(232, &overrides), 0x080808);
    assert_eq!(palette.color(255, &overrides), 0xeeeeee);
    assert_eq!(palette.color(BACKGROUND, &overrides), palette.background);
    let mut overrides = overrides;
    overrides[1] = Some(to_rgb(0x123456));
    assert_eq!(palette.color(1, &overrides), 0x123456);
}

#[test]
fn named_colors_and_dimming() {
    let palette = Palette::default();
    let overrides: Vec<Option<(u8, u8, u8)>> = vec![None; COLOR_COUNT];
    assert_eq!(palette.color(CURSOR, &overrides), palette.cursor);
    assert_eq!(palette.color(DIM_BLACK + 1, &overrides), dim(palette.ansi[1]));
    assert_eq!(palette.color(DIM_FOREGROUND, &overrides), dim(palette.foreground));
    assert_eq!(palette.color(300, &overrides), palette.foreground);
    assert_eq!(palette.color(16, &overrides), 0x000000);
    assert_eq!(palette.color(17, &overrides), 0x00005f);
    assert_eq!(dim(0xff9930), 0xaa6620);
    assert_eq!(from_rgb(1, 2, 3), 0x010203);
    assert_eq!(to_rgb(0xff010203), (1, 2, 3));
}
