use hephaestus::brace_guide::BraceGuide;

const SOURCE: &str = "fn main() {\n    if ready {\n        run();\n    }\n}\n";

#[test]
fn guide_spans_the_lines_between_the_braces_at_the_block_indent() {
    let guide = BraceGuide::find(SOURCE, SOURCE.find("run").unwrap()).unwrap();
    assert_eq!(guide.open.line, 1);
    assert_eq!(guide.open.prefix, "    if ready ");
    assert_eq!(guide.close.line, 3);
    assert_eq!(guide.close.prefix, "    ");
    assert_eq!(guide.indent, "    ");
    assert_eq!(guide.guide_lines(), 2..3);
}

#[test]
fn outer_block_guide_sits_at_column_zero() {
    let guide = BraceGuide::find(SOURCE, SOURCE.find("if").unwrap()).unwrap();
    assert_eq!(guide.open.prefix, "fn main() ");
    assert_eq!(guide.indent, "");
    assert_eq!(guide.guide_lines(), 1..4);
}

#[test]
fn single_line_blocks_only_mark_the_braces() {
    let source = "let s = S { a: 1 };";
    let guide = BraceGuide::find(source, source.find('a').unwrap()).unwrap();
    assert_eq!(guide.open.prefix, "let s = S ");
    assert_eq!(guide.close.prefix, "let s = S { a: 1 ");
    assert!(guide.guide_lines().is_empty());
}

#[test]
fn closing_line_with_less_indent_moves_the_guide_left() {
    let source = "    call(|| {\n        work();\n  });";
    let guide = BraceGuide::find(source, source.find("work").unwrap()).unwrap();
    assert_eq!(guide.indent, "  ");
}

#[test]
fn no_guide_outside_braces() {
    assert_eq!(BraceGuide::find("let x = 1;", 4), None);
}

#[test]
fn tabs_count_as_indent_and_unicode_prefixes_are_kept() {
    let source = "\tlet é = {\n\t\tx\n\t};";
    let guide = BraceGuide::find(source, source.find('x').unwrap()).unwrap();
    assert_eq!(guide.open.prefix, "\tlet é = ");
    assert_eq!(guide.close.prefix, "\t");
    assert_eq!(guide.indent, "\t");
    assert_eq!(guide.guide_lines(), 1..2);
}
