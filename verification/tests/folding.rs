use hephaestus::folding::{Fold, PLACEHOLDER, Toggle, active_pair, apply_edit, edit_fits_exec, projected, toggle, toggle_line};

const SOURCE: &str = "fn main() {\n  if ready {\n    run();\n  }\n  let s = S { a: 1 };\n}\n";

fn line_start(text: &str, line: usize) -> usize {
    text.split_inclusive('\n').take(line).map(str::len).sum()
}

fn edited(before: &str, toggle: &Toggle) -> String {
    let mut text = before.to_string();
    text.replace_range(toggle.edit.clone(), &toggle.text);
    text
}

#[test]
fn line_toggle_folds_the_block_that_opens_on_that_line() {
    let mut folds = Vec::new();
    let toggle = toggle_line(SOURCE, &mut folds, line_start(SOURCE, 1)).unwrap();
    assert!(toggle.folded);
    let displayed = projected(SOURCE, &folds);
    assert_eq!(
        displayed,
        "fn main() {\n  if ready {...}\n  let s = S { a: 1 };\n}\n"
    );
    assert_eq!(edited(SOURCE, &toggle), displayed);
    assert_eq!(toggle.cursor, line_start(&displayed, 1));

    let toggle = toggle_line(SOURCE, &mut folds, line_start(&displayed, 1)).unwrap();
    assert!(!toggle.folded);
    assert_eq!(edited(&displayed, &toggle), SOURCE);
    assert!(folds.is_empty());
}

#[test]
fn line_toggle_needs_a_multi_line_block_on_that_line() {
    let mut folds = Vec::new();
    assert!(toggle_line(SOURCE, &mut folds, line_start(SOURCE, 2)).is_none());
    assert!(toggle_line(SOURCE, &mut folds, line_start(SOURCE, 4)).is_none());
    assert!(folds.is_empty());
}

#[test]
fn folding_an_outer_block_replaces_nested_folds() {
    let mut folds = Vec::new();
    toggle_line(SOURCE, &mut folds, line_start(SOURCE, 1)).unwrap();
    toggle_line(SOURCE, &mut folds, 0).unwrap();
    assert_eq!(projected(SOURCE, &folds), "fn main() {...}\n");
    toggle_line(SOURCE, &mut folds, 0).unwrap();
    assert_eq!(projected(SOURCE, &folds), SOURCE);
}

#[test]
fn cursor_toggle_folds_the_innermost_enclosing_block() {
    let mut folds = Vec::new();
    let cursor = SOURCE.find("run").unwrap();
    let folded = toggle(SOURCE, &mut folds, cursor).unwrap();
    assert!(folded.folded);
    let displayed = projected(SOURCE, &folds);
    assert_eq!(
        displayed,
        "fn main() {\n  if ready {...}\n  let s = S { a: 1 };\n}\n"
    );
    assert_eq!(folded.cursor, displayed.find(PLACEHOLDER).unwrap());

    let unfolded = toggle(SOURCE, &mut folds, folded.cursor + 1).unwrap();
    assert!(!unfolded.folded);
    assert_eq!(projected(SOURCE, &folds), SOURCE);
}

#[test]
fn cursor_toggle_prefers_the_block_opening_on_the_cursor_line() {
    let mut folds = Vec::new();
    toggle(SOURCE, &mut folds, SOURCE.find("ready").unwrap()).unwrap();
    assert_eq!(
        projected(SOURCE, &folds),
        "fn main() {\n  if ready {...}\n  let s = S { a: 1 };\n}\n"
    );
}

#[test]
fn ignores_braces_in_strings_and_comments() {
    let source = "fn f() {\n  let text = \"}\"; /* { */\n  work();\n}";
    let mut folds = Vec::new();
    toggle(source, &mut folds, source.find("work").unwrap()).unwrap();
    assert_eq!(projected(source, &folds), "fn f() {...}");
}

#[test]
fn edits_outside_a_fold_preserve_hidden_source() {
    let source = "before { hidden(); } after";
    let mut folds = vec![Fold {
        range: source.find(" hidden").unwrap()..source.find("}").unwrap(),
    }];
    let displayed = projected(source, &folds).replace("before", "BEFORE!");
    let updated = apply_edit(source, &mut folds, &displayed).unwrap();
    assert_eq!(updated, "BEFORE! { hidden(); } after");
    assert_eq!(projected(&updated, &folds), "BEFORE! {...} after");
}

#[test]
fn typing_next_to_a_placeholder_keeps_the_hidden_source() {
    let source = "a { hidden } z";
    let mut folds = vec![Fold { range: 3..11 }];
    let updated = apply_edit(source, &mut folds, "a {...!} z").unwrap();
    assert_eq!(updated, "a { hidden !} z");
    assert_eq!(projected(&updated, &folds), "a {...!} z");

    let updated = apply_edit(&updated, &mut folds, "a {?...!} z").unwrap();
    assert_eq!(updated, "a {? hidden !} z");
    assert_eq!(projected(&updated, &folds), "a {?...!} z");
}

#[test]
fn an_edit_through_a_placeholder_unfolds_that_range() {
    let source = "a { hidden } z";
    let mut folds = vec![Fold { range: 3..11 }];
    let updated = apply_edit(source, &mut folds, "a {new} z").unwrap();
    assert_eq!(updated, "a {new} z");
    assert!(folds.is_empty());
}

#[test]
fn undoing_and_redoing_a_fold_keeps_the_source() {
    let mut folds = Vec::new();
    let toggle = toggle_line(SOURCE, &mut folds, 0).unwrap();
    let folded = edited(SOURCE, &toggle);

    assert_eq!(
        apply_edit(SOURCE, &mut folds, SOURCE).as_deref(),
        Some(SOURCE)
    );
    assert!(folds.is_empty());
    assert_eq!(apply_edit(SOURCE, &mut folds, &folded), None);
    assert_eq!(projected(SOURCE, &folds), folded);
}

fn pair_text(source: &str, cursor: usize) -> Option<&str> {
    active_pair(source, cursor).map(|(open, close)| &source[open..=close])
}

#[test]
fn active_pair_is_the_innermost_block_around_the_cursor() {
    let cursor = SOURCE.find("run").unwrap();
    assert_eq!(pair_text(SOURCE, cursor), Some("{\n    run();\n  }"));
    let cursor = SOURCE.find("let").unwrap();
    assert_eq!(
        pair_text(SOURCE, cursor),
        Some(&SOURCE[10..SOURCE.len() - 1])
    );
    assert_eq!(pair_text(SOURCE, 0), None);
}

#[test]
fn active_pair_includes_braces_touching_the_cursor() {
    let open = SOURCE.find("{ a").unwrap();
    let close = SOURCE.find("1 }").unwrap() + 2;
    assert_eq!(pair_text(SOURCE, open), Some("{ a: 1 }"));
    assert_eq!(pair_text(SOURCE, open + 1), Some("{ a: 1 }"));
    assert_eq!(pair_text(SOURCE, close), Some("{ a: 1 }"));
    assert_eq!(pair_text(SOURCE, close + 1), Some("{ a: 1 }"));
    assert_eq!(
        pair_text(SOURCE, SOURCE.len() - 1),
        Some(&SOURCE[10..SOURCE.len() - 1])
    );
    assert_eq!(pair_text(SOURCE, SOURCE.len()), None);
}

#[test]
fn active_pair_ignores_braces_in_strings_and_comments() {
    let source = "fn f() {\n  let text = \"{\"; // }\n  work();\n}";
    let cursor = source.find("work").unwrap();
    assert_eq!(pair_text(source, cursor), Some(&source[7..]));
    assert_eq!(
        pair_text(source, source.find("\"{").unwrap() + 1),
        Some(&source[7..])
    );
}

#[test]
fn edits_of_the_display_fit_the_source() {
    let mut folds = Vec::new();
    assert!(edit_fits_exec(SOURCE, &folds, SOURCE));
    let typed = SOURCE.replace("run();", "run(); // é");
    assert!(edit_fits_exec(SOURCE, &folds, &typed));
    toggle_line(SOURCE, &mut folds, line_start(SOURCE, 1)).unwrap();
    let displayed = projected(SOURCE, &folds);
    let renamed = displayed.replace("let s", "let t");
    assert!(edit_fits_exec(SOURCE, &folds, &renamed));
    let updated = apply_edit(SOURCE, &mut folds, &renamed).unwrap();
    assert!(updated.contains("let t = S"));
}

#[test]
fn toggled_folds_stay_in_order() {
    let mut folds = Vec::new();
    toggle_line(SOURCE, &mut folds, line_start(SOURCE, 1)).unwrap();
    let displayed = projected(SOURCE, &folds);
    toggle(SOURCE, &mut folds, displayed.find("S {").unwrap() + 4).unwrap();
    assert!(!folds.is_empty());
    for pair in folds.windows(2) {
        assert!(pair[0].range.end <= pair[1].range.start);
    }
}

#[test]
fn toggled_cursor_stays_inside_the_display() {
    let mut folds = Vec::new();
    let folded = toggle_line(SOURCE, &mut folds, 0).unwrap();
    assert!(folded.folded);
    let displayed = projected(SOURCE, &folds);
    assert_eq!(displayed, "fn main() {...}\n");
    let cursor = displayed.find(PLACEHOLDER).unwrap() + 1;
    let unfolded = toggle(SOURCE, &mut folds, cursor).unwrap();
    assert!(!unfolded.folded);
    assert!(unfolded.cursor <= projected(SOURCE, &folds).len());
    let refolded = toggle(SOURCE, &mut folds, SOURCE.find("run").unwrap()).unwrap();
    assert!(refolded.cursor <= projected(SOURCE, &folds).len());
}
