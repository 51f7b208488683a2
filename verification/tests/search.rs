use hephaestus::language_events::ranked_completions;
use hephaestus::search::{rank, search_buffers, search_source, skipped, walk_step, WalkStep};

#[test]
fn open_buffers_share_the_hit_limit_in_order() {
    let open = vec![
        ("/p/a.rs".to_string(), "let x = 1;\nlet y = x;\n".to_string()),
        ("/p/b.rs".to_string(), "x\n".to_string()),
    ];
    let hits = search_buffers(&open, "x", 10);
    let places: Vec<(String, usize, usize)> =
        hits.iter().map(|h| (h.path.clone(), h.line, h.column)).collect();
    assert_eq!(
        places,
        vec![
            ("/p/a.rs".to_string(), 1, 5),
            ("/p/a.rs".to_string(), 2, 9),
            ("/p/b.rs".to_string(), 1, 1),
        ]
    );
    let limited = search_buffers(&open, "x", 2);
    assert_eq!(limited.len(), 2);
    assert!(limited.iter().all(|h| h.path == "/p/a.rs"));
    assert!(search_buffers(&open, "", 10).is_empty());
    assert_eq!(search_source("/p/a.rs", "let x = 1;\n", "x", 5)[0].preview, "let x = 1;");
}

#[test]
fn completions_are_listed_in_order_when_their_label_matches() {
    let completions: Vec<(String, String)> = ["push", "pop", "len", "push_str"]
        .iter()
        .map(|l| (l.to_string(), l.to_string()))
        .collect();
    assert_eq!(ranked_completions(&completions, "pu"), vec![0, 3]);
    assert_eq!(ranked_completions(&completions, ""), vec![0, 1, 2, 3]);
    let many: Vec<(String, String)> = (0..40).map(|i| (format!("item{i}"), String::new())).collect();
    assert_eq!(ranked_completions(&many, "item").len(), 30);
    assert!(rank("src/main.rs", "main").is_some());
    assert!(skipped("target"));
}

#[test]
fn ranking_needs_the_query_in_order() {
    assert!(rank("src/Main.rs", "smr").is_some());
    assert!(rank("src/main.rs", "MAIN").is_some());
    assert_eq!(rank("abc", "ca"), None);
    assert_eq!(rank("abc", ""), Some(0));
    assert!(rank("cafés/menu.txt", "éu").is_some());
    assert_eq!(rank("menu", "é"), None);
}

#[test]
fn walk_steps_skip_links_ignored_paths_and_large_files() {
    assert_eq!(walk_step(false, "src", false, true, false, None), WalkStep::Enter);
    assert_eq!(walk_step(false, "target", false, true, false, None), WalkStep::Skip);
    assert_eq!(walk_step(true, "src", false, true, false, None), WalkStep::Skip);
    assert_eq!(walk_step(false, "src", true, true, false, None), WalkStep::Skip);
    assert_eq!(walk_step(false, "main.rs", false, false, true, Some(120)), WalkStep::Collect);
    assert_eq!(walk_step(false, "big.bin", false, false, true, Some(8 * 1024 * 1024 + 1)), WalkStep::Skip);
    assert_eq!(walk_step(false, "main.rs", false, false, true, None), WalkStep::Skip);
}
