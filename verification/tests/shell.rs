use hephaestus::navigation::{same_family, shared_components};
use hephaestus::shell::{breakpoint_command, position_at};

#[test]
fn debugger_breakpoints_use_selected_backend_syntax() {
    let path = "src/main.rs";
    assert_eq!(
        breakpoint_command(path, 12, true, false),
        "break \"src/main.rs\":12"
    );
    assert_eq!(
        breakpoint_command(path, 12, false, false),
        "clear \"src/main.rs\":12"
    );
    assert_eq!(
        breakpoint_command(path, 12, true, true),
        "breakpoint set --file \"src/main.rs\" --line 12"
    );
}

#[test]
fn breakpoint_paths_are_normalised_and_escaped() {
    assert_eq!(
        breakpoint_command("//?/C:\\my \"dir\"\\a.rs", 7, false, true),
        "breakpoint clear --file \"C:/my \\\"dir\\\"/a.rs\" --line 7"
    );
    assert_eq!(breakpoint_command("a\r\nb.c", 0, true, false), "break \"ab.c\":0");
}

#[test]
fn positions_count_lines_and_utf16_columns() {
    let text = "ab\ncé😀x\n";
    assert_eq!(position_at(text, 0), (0, 0));
    assert_eq!(position_at(text, 3), (1, 0));
    assert_eq!(position_at(text, 6), (1, 2));
    assert_eq!(position_at(text, 10), (1, 4));
    assert_eq!(position_at(text, 11), (1, 5));
    assert_eq!(position_at(text, 12), (2, 0));
    assert_eq!(position_at(text, 99), (2, 0));
}

#[test]
fn script_languages_share_definitions() {
    assert!(same_family("rust", "rust"));
    assert!(same_family("typescript", "jsx"));
    assert!(!same_family("rust", "c"));
    assert!(!same_family("javascript", "go"));
}

#[test]
fn nearby_files_share_leading_components() {
    assert_eq!(shared_components(Some("src/a/main.rs"), "src/a/b.rs"), 2);
    assert_eq!(shared_components(Some("src/a/main.rs"), "src/b.rs"), 1);
    assert_eq!(shared_components(Some("/x/y.rs"), "/x/z/w.rs"), 2);
    assert_eq!(shared_components(Some("main.rs"), "main.rs"), 0);
    assert_eq!(shared_components(None, "src/b.rs"), 0);
}
