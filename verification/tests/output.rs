use hephaestus::output::{locations, parse_line};

#[test]
fn rust_and_clang_locations() {
    let root = "/project";
    let hits = locations(
        &[
            " --> src/main.rs:12:5".into(),
            "src/lib.c:4:8: error: missing".into(),
            "warning: plain text".into(),
        ],
        root,
    );
    assert_eq!((hits[0].line, hits[0].column), (12, 5));
    assert_eq!((hits[1].line, hits[1].column), (4, 8));
    assert_eq!(hits.len(), 2);
}

#[test]
fn locations_join_relative_paths_and_keep_the_trimmed_line() {
    let hit = parse_line("  --> src/main.rs:12:5  ", "/project").unwrap();
    assert_eq!(hit.path, "/project/src/main.rs");
    assert_eq!(hit.preview, "src/main.rs:12:5");
    let hit = parse_line("/abs/x.rs:+3:1: note", "/project/").unwrap();
    assert_eq!((hit.path.as_str(), hit.line, hit.column), ("/abs/x.rs", 3, 1));
    let hit = parse_line("a.rs:1:2", "/p/").unwrap();
    assert_eq!(hit.path, "/p/a.rs");
    assert_eq!(parse_line("x.rs:0:4", "/p"), None);
    assert_eq!(parse_line(":1:4", "/p"), None);
    assert_eq!(parse_line("x.rs:1:", "/p"), None);
    assert_eq!(parse_line("x.rs:99999999999999999999999:1", "/p"), None);
}
