use hephaestus::git::{
    absolute, clone_folder_name, Branch, Change, Diff, FileStatus, LineKind, Status,
};

#[test]
fn parses_branch_headers_and_every_kind_of_entry() {
    let output = [
        "# branch.oid 0123456789abcdef0123456789abcdef01234567",
        "# branch.head main",
        "# branch.upstream origin/main",
        "# branch.ab +2 -1",
        "1 M. N... 100644 100644 100644 aaaa bbbb src/staged.rs",
        "1 .D N... 100644 100644 000000 aaaa aaaa gone.txt",
        "1 AM N... 000000 100644 100644 0000 bbbb new file.txt",
        "2 R. N... 100644 100644 100644 aaaa aaaa R100 docs/new name.md",
        "docs/old name.md",
        "u UU N... 100644 100644 100644 100644 aaaa bbbb cccc both.rs",
        "? untracked dir/notes.txt",
        "",
    ]
    .join("\0");
    let status = Status::parse(&output).unwrap();
    assert_eq!(
        status.branch,
        Branch {
            name: Some("main".into()),
            commit: Some("0123456789abcdef0123456789abcdef01234567".into()),
            upstream: Some("origin/main".into()),
            ahead: 2,
            behind: 1,
        }
    );
    assert_eq!(status.branch.label(), "main ↑2 ↓1");
    let summary: Vec<_> = status
        .files
        .iter()
        .map(|file| {
            let letter = |change: Option<Change>| change.map_or(".", Change::letter);
            format!(
                "{}{} {}{}",
                letter(file.staged),
                letter(file.unstaged),
                file.relative,
                file.original
                    .as_ref()
                    .map(|original| format!(" <- {original}"))
                    .unwrap_or_default()
            )
        })
        .collect();
    assert_eq!(
        summary,
        [
            ".! both.rs",
            "R. docs/new name.md <- docs/old name.md",
            ".D gone.txt",
            "AM new file.txt",
            "M. src/staged.rs",
            ".U untracked dir/notes.txt",
        ]
    );
}

#[test]
fn branch_labels_before_the_first_commit_and_when_detached() {
    let status = Status::parse("# branch.oid (initial)\0# branch.head main\0").unwrap();
    assert_eq!(status.branch.commit, None);
    assert_eq!(status.branch.label(), "main");
    let status =
        Status::parse("# branch.oid 0123456789abcdef\0# branch.head (detached)\0").unwrap();
    assert_eq!(status.branch.label(), "detached at 0123456");
}

#[test]
fn rejects_malformed_status() {
    assert!(Status::parse("1 M. short").is_err());
    assert!(Status::parse("2 R. N... 100644 100644 100644 a b R100 missing-original").is_err());
    assert!(Status::parse("x what").is_err());
}

fn render(diff: &Diff) -> Vec<String> {
    diff.lines
        .iter()
        .map(|line| {
            let number = |n: Option<u32>| n.map_or("-".into(), |n| n.to_string());
            format!(
                "{:?} {} {} {}",
                line.kind,
                number(line.old_line),
                number(line.new_line),
                line.text
            )
        })
        .collect()
}

#[test]
fn parses_unified_diffs_with_line_numbers() {
    let output = "diff --git a/f.rs b/f.rs\r\n\
                  index 1111111..2222222 100644\r\n\
                  --- a/f.rs\r\n\
                  +++ b/f.rs\r\n\
                  @@ -9,3 +9,3 @@ fn main() {\r\n \tkeep\r\n-old\r\n+new\r\n context\r\n\
                  \\ No newline at end of file\r\n";
    assert_eq!(
        render(&Diff::parse(output)),
        [
            "Hunk - - @@ -9,3 +9,3 @@ fn main() {",
            "Context 9 9     keep",
            "Removed 10 - old",
            "Added - 10 new",
            "Context 11 11 context",
            "Note - - \\ No newline at end of file",
        ]
    );
}

#[test]
fn keeps_informative_headers_and_reads_combined_diffs() {
    let output = "diff --git a/a.bin b/a.bin\n\
                  new file mode 100644\n\
                  index 0000000..1111111\n\
                  Binary files /dev/null and b/a.bin differ\n\
                  diff --cc both.rs\n\
                  index 1,2..3\n\
                  @@@ -1,1 -1,1 +1,5 @@@\n\
                  ++<<<<<<< HEAD\n \
                  +ours\n\
                  - theirs\n  \
                  same\n";
    assert_eq!(
        render(&Diff::parse(output)),
        [
            "Meta - - new file mode 100644",
            "Meta - - Binary files /dev/null and b/a.bin differ",
            "Hunk - - @@@ -1,1 -1,1 +1,5 @@@",
            "Added - - <<<<<<< HEAD",
            "Added - - ours",
            "Removed - - theirs",
            "Context - - same",
        ]
    );
}

#[test]
fn status_errors_name_the_malformed_record() {
    let error = Status::parse("# branch.head main\0? ok.txt\0x what\0? later.txt").unwrap_err();
    assert_eq!(error.field, "x what");
    assert_eq!(error.message(), "Unexpected git status line: x what");
    assert!(Status::parse("nospace").is_err());
    assert!(Status::parse("1 XY N... 1 2 3 a b path").is_ok());
    assert!(Status::parse("1 MMM N... 1 2 3 a b path").is_err());
    assert!(Status::parse("u UU N... 1 2 3 4 a b c").is_err());
}

#[test]
fn status_skips_ignored_files_and_unknown_letters() {
    let status = Status::parse("! target/\0\0\01 .. N... 1 2 3 a b same.rs\0? b\0? a\0").unwrap();
    let paths: Vec<_> = status.files.iter().map(|f| f.relative.as_str()).collect();
    assert_eq!(paths, ["a", "b"]);
    assert_eq!(status.branch, Branch::default());
    assert_eq!(status.files[0].change(), Change::Untracked);
}

#[test]
fn branch_counts_parse_like_numbers() {
    let mut branch = Branch::default();
    branch.parse_header("branch.ab +12 -0");
    assert_eq!((branch.ahead, branch.behind), (12, 0));
    branch.parse_header("branch.ab ++7 -x");
    assert_eq!((branch.ahead, branch.behind), (7, 0));
    branch.parse_header("branch.ab +99999999999 -4294967295");
    assert_eq!((branch.ahead, branch.behind), (0, 4294967295));
    branch.parse_header("branch.upstream origin/dev");
    branch.parse_header("no-space");
    branch.parse_header("branch.other value");
    assert_eq!(branch.upstream.as_deref(), Some("origin/dev"));
    assert_eq!(branch.label(), "detached ↓4294967295");
    branch.commit = Some("é1234567".into());
    assert_eq!(branch.label(), "detached at é12345 ↓4294967295");
}

#[test]
fn file_change_prefers_the_worktree() {
    let file = |staged, unstaged| FileStatus {
        relative: "f".into(),
        original: None,
        staged,
        unstaged,
    };
    assert_eq!(file(Some(Change::Added), Some(Change::Modified)).change(), Change::Modified);
    assert_eq!(file(Some(Change::Renamed), None).change(), Change::Renamed);
    assert_eq!(file(None, None).change(), Change::Modified);
    assert_eq!(Change::from_code(b'T'), Some(Change::TypeChanged));
    assert_eq!(Change::from_code(b'.'), None);
    assert_eq!(Change::Conflicted.letter(), "!");
    assert!(Change::Conflicted.rank() > Change::Modified.rank());
    assert!(Change::Modified.rank() > Change::Untracked.rank());
}

#[test]
fn diffs_expand_tabs_and_keep_bad_hunk_headers() {
    let diff = Diff::parse("@@ -x +y @@\n a\tb\n+é\tc\n");
    assert_eq!(
        render(&diff),
        [
            "Hunk - - @@ -x +y @@",
            "Context 0 0 a   b",
            "Added - 1 é   c",
        ]
    );
    assert_eq!(diff.lines[1].kind, LineKind::Context);
}

#[test]
fn clone_folders_come_from_the_last_piece_of_the_url() {
    let name = |url: &str| clone_folder_name(url);
    assert_eq!(name(" https://host/org/repo.git/ \n").as_deref(), Some("repo"));
    assert_eq!(name("git@host:org/tool").as_deref(), Some("tool"));
    assert_eq!(name("C:\\work\\project\\").as_deref(), Some("project"));
    assert_eq!(name("host:repo.git").as_deref(), Some("repo"));
    assert_eq!(name("\u{3000}naïve.git"), Some("naïve".to_string()));
    assert_eq!(name(".git"), None);
    assert_eq!(name("https://host/.."), None);
    assert_eq!(name("   "), None);
}

#[test]
fn absolute_joins_the_pieces_of_a_relative_path() {
    assert_eq!(absolute("/repo", "src/lib.rs"), "/repo/src/lib.rs");
    assert_eq!(absolute("/repo/", "//a//b/"), "/repo/a/b");
    assert_eq!(absolute("", "a/b"), "a/b");
    assert_eq!(absolute("/repo", ""), "/repo");
}

#[test]
fn folders_show_their_most_important_change() {
    let status = Status {
        branch: Branch::default(),
        files: [
            ("src/new.rs", Change::Untracked),
            ("src/lib.rs", Change::Modified),
            ("src/deep/merge.rs", Change::Conflicted),
            ("docs/added.md", Change::Untracked),
            ("top.txt", Change::Deleted),
        ]
        .into_iter()
        .map(|(path, change)| FileStatus {
            relative: path.into(),
            original: None,
            staged: None,
            unstaged: Some(change),
        })
        .collect(),
    };
    let changes = status.tree_changes();
    let change = |path: &str| {
        let key: Vec<String> = path
            .split('/')
            .filter(|part| !part.is_empty())
            .map(String::from)
            .collect();
        changes
            .iter()
            .find(|(k, _)| *k == key)
            .map(|(_, change)| *change)
    };
    assert_eq!(change("src"), Some(Change::Conflicted));
    assert_eq!(change("src/deep"), Some(Change::Conflicted));
    assert_eq!(change("src/lib.rs"), Some(Change::Modified));
    assert_eq!(change("docs"), Some(Change::Untracked));
    assert_eq!(change("top.txt"), Some(Change::Deleted));
    assert_eq!(change(""), None);
    assert_eq!(changes.len(), 8);
}

#[test]
fn later_files_replace_a_folder_change_and_dots_are_skipped() {
    let file = |path: &str, change| FileStatus {
        relative: path.into(),
        original: None,
        staged: Some(change),
        unstaged: None,
    };
    let status = Status {
        branch: Branch::default(),
        files: vec![
            file("a/b.rs", Change::Conflicted),
            file("./a", Change::Added),
        ],
    };
    let changes = status.tree_changes();
    assert_eq!(changes.len(), 2);
    assert!(changes.contains(&(vec!["a".to_string()], Change::Added)));
}

#[test]
fn diffs_whose_line_numbers_overflow_are_refused() {
    let fine = "diff --git a/x b/x\n@@ -1,2 +1,2 @@\n a\n-b\n+c\n";
    assert!(hephaestus::git::diff_fits_exec(fine));
    assert!(hephaestus::git::diff_fits_exec(""));
    let high = "@@ -4294967294,1 +1,1 @@\n a\n";
    assert!(hephaestus::git::diff_fits_exec(high));
    let over = "@@ -4294967295,2 +1,2 @@\n a\n b\n";
    assert!(!hephaestus::git::diff_fits_exec(over));
}
