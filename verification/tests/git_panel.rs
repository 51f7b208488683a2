use hephaestus::git::{Change, FileStatus};
use hephaestus::git_panel::{commit_check, Changes, Row, Selection};

fn status(relative: &str, staged: Option<Change>, unstaged: Option<Change>) -> FileStatus {
    FileStatus {
        relative: relative.to_string(),
        original: None,
        staged,
        unstaged,
    }
}

fn pick(relative: &str, staged: bool) -> Selection {
    Selection {
        relative: relative.to_string(),
        staged,
    }
}

fn sample() -> Vec<FileStatus> {
    vec![
        status("src/main.rs", Some(Change::Modified), Some(Change::Modified)),
        status("notes.txt", None, Some(Change::Untracked)),
        status("old.txt", Some(Change::Deleted), None),
    ]
}

#[test]
fn status_rows_list_staged_side_then_unstaged_side() {
    let mut changes = Changes::new();
    changes.apply_status(sample());
    assert_eq!(
        changes.rows(),
        &vec![
            Row::Header { staged: true },
            Row::File { ix: 0, staged: true },
            Row::File { ix: 2, staged: true },
            Row::Header { staged: false },
            Row::File { ix: 0, staged: false },
            Row::File { ix: 1, staged: false },
        ]
    );
    assert_eq!(changes.staged_count(), 2);
    assert_eq!(changes.unstaged_count(), 2);
    assert_eq!(changes.file_at(1).map(|f| f.relative.clone()), Some("notes.txt".to_string()));
    assert!(changes.file_at(3).is_none());
}

#[test]
fn a_side_without_files_has_no_header() {
    let mut changes = Changes::new();
    changes.apply_status(vec![status("a.txt", None, Some(Change::Untracked))]);
    assert_eq!(
        changes.rows(),
        &vec![Row::Header { staged: false }, Row::File { ix: 0, staged: false }]
    );
    assert_eq!(changes.staged_count(), 0);
    changes.apply_status(Vec::new());
    assert!(changes.rows().is_empty());
}

#[test]
fn selection_is_dropped_when_its_file_leaves_its_side() {
    let mut changes = Changes::new();
    changes.apply_status(sample());
    changes.select(pick("notes.txt", false));
    changes.apply_status(sample());
    assert_eq!(changes.selected().map(|s| s.relative.clone()), Some("notes.txt".to_string()));
    changes.apply_status(vec![status("notes.txt", Some(Change::Added), None)]);
    assert!(changes.selected().is_none());
}

#[test]
fn checked_files_follow_sides_and_new_status() {
    let mut changes = Changes::new();
    changes.apply_status(sample());
    changes.set_checked(pick("src/main.rs", true), true);
    changes.set_checked(pick("notes.txt", false), true);
    changes.set_checked(pick("notes.txt", false), true);
    let all: Vec<String> = changes.checked_files(None).into_iter().map(|f| f.relative).collect();
    assert_eq!(all, vec!["src/main.rs".to_string(), "notes.txt".to_string()]);
    let staged: Vec<String> = changes
        .checked_files(Some(true))
        .into_iter()
        .map(|f| f.relative)
        .collect();
    assert_eq!(staged, vec!["src/main.rs".to_string()]);
    changes.set_checked(pick("src/main.rs", true), false);
    assert_eq!(changes.checked_files(Some(true)).len(), 0);
    changes.apply_status(vec![status("src/main.rs", Some(Change::Modified), None)]);
    assert_eq!(changes.checked_files(None).len(), 0);
}

#[test]
fn staged_files_move_the_selection_and_checks_to_the_other_side() {
    let mut changes = Changes::new();
    changes.apply_status(sample());
    changes.select(pick("notes.txt", false));
    changes.set_checked(pick("notes.txt", false), true);
    changes.set_checked(pick("src/main.rs", true), true);
    changes.files_moved(&vec!["notes.txt".to_string()], false);
    let selected = changes.selected().unwrap();
    assert_eq!(selected.relative, "notes.txt");
    assert!(selected.staged);
    changes.apply_status(vec![
        status("src/main.rs", Some(Change::Modified), None),
        status("notes.txt", Some(Change::Added), None),
    ]);
    assert_eq!(changes.checked_files(Some(true)).len(), 2);
    assert!(changes.selected().is_some());
}

#[test]
fn files_on_a_side_and_lookup_by_selection() {
    let mut changes = Changes::new();
    changes.apply_status(sample());
    let staged: Vec<String> = changes.files(true).into_iter().map(|f| f.relative).collect();
    assert_eq!(staged, vec!["src/main.rs".to_string(), "old.txt".to_string()]);
    assert_eq!(changes.file(&pick("old.txt", true)), Some(2));
    assert_eq!(changes.file(&pick("old.txt", false)), None);
    changes.select(pick("old.txt", true));
    changes.clear_selection();
    assert!(changes.selected().is_none());
}

#[test]
fn commit_needs_checked_files_and_a_message() {
    assert_eq!(commit_check(0, "Fix"), Some("Select changes to commit them"));
    assert_eq!(commit_check(2, "  \n "), Some("Write a commit message first"));
    assert_eq!(commit_check(1, "Fix the build"), None);
}
