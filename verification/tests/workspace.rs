use hephaestus::workspace::{sort_entries, DirEntry, TreeRow, Workspace};

fn entry(path: &str, name: &str, is_dir: bool) -> DirEntry {
    DirEntry {
        path: path.into(),
        name: name.into(),
        is_dir,
    }
}

fn names(rows: &[TreeRow]) -> Vec<String> {
    rows.iter()
        .map(|row| format!("{}{}", "  ".repeat(row.depth), row.entry.name))
        .collect()
}

fn project() -> Workspace {
    Workspace::opened(
        "/p".into(),
        sort_entries(vec![
            entry("/p/b.txt", "b.txt", false),
            entry("/p/A.txt", "A.txt", false),
            entry("/p/src", "src", true),
            entry("/p/empty", "empty", true),
        ]),
    )
}

#[test]
fn lists_directories_first_and_expands_lazily() {
    let mut workspace = project();
    assert_eq!(workspace.display_name(), "p");
    assert_eq!(workspace.root(), Some("/p"));
    assert!(workspace.rows_fit());
    assert_eq!(names(&workspace.rows()), ["empty", "src", "A.txt", "b.txt"]);
    assert!(workspace.expand(
        "/p/src".into(),
        vec![entry("/p/src/nested", "nested", true), entry("/p/src/lib.rs", "lib.rs", false)],
    ));
    assert!(workspace.expand("/p/src/nested/".into(), vec![entry("/p/src/nested/deep.rs", "deep.rs", false)]));
    assert_eq!(
        names(&workspace.rows()),
        ["empty", "src", "  nested", "    deep.rs", "  lib.rs", "A.txt", "b.txt"]
    );
    assert!(workspace.rows()[1].expanded);
    workspace.collapse("/p/src");
    assert!(!workspace.is_expanded("/p/src/nested"));
    assert!(!workspace.is_expanded("/p/src"));
    assert_eq!(names(&workspace.rows()), ["empty", "src", "A.txt", "b.txt"]);
    workspace.collapse("/p");
    assert!(workspace.is_expanded("/p/."));
}

#[test]
fn ignores_listings_that_are_no_longer_reachable() {
    let mut workspace = project();
    assert!(!workspace.expand("/p/a/b".into(), Vec::new()));
    assert!(!workspace.is_expanded("/p/a/b"));
    assert!(!workspace.expand("/elsewhere".into(), Vec::new()));
    assert!(!workspace.expand("/p/A.txt".into(), Vec::new()));
    assert!(workspace.expand("/p//empty/".into(), Vec::new()));
    assert!(workspace.is_expanded("/p/empty"));
}

#[test]
fn a_workspace_without_a_folder() {
    let workspace = Workspace::new();
    assert_eq!(workspace.display_name(), "No project open");
    assert_eq!(workspace.root(), None);
    assert!(workspace.rows().is_empty());
    let root = Workspace::opened("/".into(), Vec::new());
    assert_eq!(root.display_name(), "No project open");
}

#[test]
fn cyclic_listings_are_detected() {
    let mut workspace = Workspace::opened("/p".into(), vec![entry("/p/a", "a", true)]);
    assert!(workspace.expand("/p/a".into(), vec![entry("/p", "p", true)]));
    assert!(!workspace.rows_fit());
}

#[test]
fn bounded_rows_follow_the_nesting_check() {
    let workspace = project();
    let rows = workspace.bounded_rows().unwrap();
    assert_eq!(names(&rows), ["empty", "src", "A.txt", "b.txt"]);
    let mut cyclic = Workspace::opened("/p".into(), vec![entry("/p/a", "a", true)]);
    assert!(cyclic.expand("/p/a".into(), vec![entry("/p", "p", true)]));
    assert!(cyclic.bounded_rows().is_none());
}
