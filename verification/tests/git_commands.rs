use hephaestus::git::{Branch, Change, FileStatus};
use hephaestus::git_commands::{
    clone_destination, commit_summary, default_remote, diff_args, discovery, failure_message,
    listed_path, outside_repository, paths_of, pull_summary, push_new_branch, push_plan,
    push_rejected, revision_count, toplevel, Discovery, PushError, PushPlan,
};

fn file(relative: &str, original: Option<&str>, staged: Option<Change>, unstaged: Option<Change>) -> FileStatus {
    FileStatus {
        relative: relative.into(),
        original: original.map(String::from),
        staged,
        unstaged,
    }
}

#[test]
fn origin_is_the_default_remote() {
    assert_eq!(default_remote("upstream\norigin\n").as_deref(), Some("origin"));
    assert_eq!(default_remote("  fork \r\nupstream\n").as_deref(), Some("fork"));
    assert_eq!(default_remote("\n\n"), None);
    assert_eq!(default_remote(""), None);
}

#[test]
fn pulls_report_how_many_commits_came() {
    assert_eq!(pull_summary(Some("abc"), Some("abc"), 0), "Already up to date");
    assert_eq!(pull_summary(Some("abc"), Some("def"), 1), "Pulled 1 commit");
    assert_eq!(pull_summary(Some("abc"), Some("def"), 3), "Pulled 3 commits");
    assert_eq!(pull_summary(None, Some("def"), 3), "Pulled");
    assert_eq!(revision_count(" 12\n"), 12);
    assert_eq!(revision_count("x"), 0);
    assert_eq!(revision_count("99999999999"), 0);
}

#[test]
fn pushes_go_upstream_or_set_one() {
    let mut branch = Branch::default();
    assert!(matches!(push_plan(&branch), Err(PushError::NoBranch)));
    branch.name = Some("main".into());
    assert!(matches!(push_plan(&branch), Ok(PushPlan::NeedsRemote { branch }) if branch == "main"));
    branch.upstream = Some("origin/main".into());
    match push_plan(&branch) {
        Ok(PushPlan::Run { args, summary }) => {
            assert_eq!(args, ["push"]);
            assert_eq!(summary, "origin/main is already up to date");
        }
        _ => panic!("expected a push"),
    }
    branch.ahead = 2;
    match push_plan(&branch) {
        Ok(PushPlan::Run { summary, .. }) => assert_eq!(summary, "Pushed 2 commits to origin/main"),
        _ => panic!("expected a push"),
    }
    let (args, summary) = push_new_branch("topic", "origin");
    assert_eq!(args, ["push", "--set-upstream", "origin", "topic"]);
    assert_eq!(summary, "Pushed topic to origin");
    assert!(push_rejected(" ! [rejected]        main -> main (fetch first)"));
    assert!(!push_rejected("error: failed"));
    assert_eq!(
        PushError::Rejected.message(),
        "The remote has commits you don't have yet — pull first"
    );
}

#[test]
fn repository_discovery_reads_the_toplevel() {
    assert_eq!(toplevel("/home/me/project\r\n"), "/home/me/project");
    assert!(outside_repository("fatal: not a git repository (or any parent)"));
    assert!(!outside_repository("fatal: bad object"));
}

#[test]
fn commands_name_renamed_files_by_both_paths() {
    let files = [
        file("b.rs", Some("a.rs"), Some(Change::Renamed), None),
        file("c.rs", None, None, Some(Change::Modified)),
    ];
    assert_eq!(paths_of(&files), ["a.rs", "b.rs", "c.rs"]);
    let (args, untracked) = diff_args(&files[0], true);
    assert_eq!(args, ["diff", "--no-color", "--no-ext-diff", "-M", "--cached", "--", "a.rs", "b.rs"]);
    assert!(!untracked);
    let (args, _) = diff_args(&files[0], false);
    assert_eq!(args, ["diff", "--no-color", "--no-ext-diff", "-M", "--", "b.rs"]);
    let new = file("new.rs", None, None, Some(Change::Untracked));
    let (args, untracked) = diff_args(&new, false);
    assert_eq!(
        args,
        ["diff", "--no-index", "--no-color", "--no-ext-diff", "--", "/dev/null", "new.rs"]
    );
    assert!(untracked);
}

#[test]
fn failures_show_the_error_git_gave() {
    assert_eq!(
        failure_message("hint: try this\nfatal: not possible\n", ""),
        "not possible"
    );
    assert_eq!(failure_message("", "error: nothing added"), "nothing added");
    assert_eq!(failure_message("hint: x\n\nsomething odd\n", ""), "something odd");
    assert_eq!(failure_message("  \n", ""), "git failed");
    assert_eq!(commit_summary("[main 1a2b3c4] Message\n 1 file changed\n"), "[main 1a2b3c4] Message");
    assert_eq!(commit_summary(""), "");
    assert_eq!(listed_path("/repo", "target/"), "/repo/target");
}

#[test]
fn discovery_reads_the_answer_of_rev_parse() {
    assert_eq!(discovery(true, "/home/me/project\n", ""), Discovery::Root("/home/me/project".into()));
    assert_eq!(
        discovery(false, "", "fatal: not a git repository (or any of the parent directories): .git\n"),
        Discovery::Outside
    );
    assert_eq!(
        discovery(false, "", "fatal: detected dubious ownership in repository\n"),
        Discovery::Failed("detected dubious ownership in repository".into())
    );
}

#[test]
fn clone_destination_names_the_folder_or_asks_for_a_url() {
    assert_eq!(clone_destination("https://example.com/team/tool.git"), Ok("tool".to_string()));
    assert_eq!(clone_destination("   "), Err("Enter a repository URL or path".to_string()));
}
