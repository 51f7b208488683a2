use hephaestus::language_events::{
    completion_range, completions, definition_target, diagnostic_hit, diagnostics_status, dispatch, hover_status,
    reply, takes_diagnostics, CompletionItem, Dispatch, Incoming, LocationReply, Pending, Reply,
};

fn incoming(has_id: bool, id: Option<i64>, method: Option<&str>, has_result: bool) -> Incoming {
    Incoming {
        has_id,
        id,
        method: method.map(str::to_string),
        has_result,
    }
}

const NONE_PENDING: Pending = Pending {
    definition: None,
    hover: None,
    completion: None,
};

#[test]
fn messages_are_told_apart_in_order() {
    let pending = Pending {
        definition: Some(7),
        hover: Some(8),
        completion: Some(9),
    };
    let request = incoming(true, Some(3), Some("workspace/configuration"), false);
    assert_eq!(dispatch(&request, &pending), Dispatch::Request);
    let ready = incoming(true, Some(1), None, true);
    assert_eq!(dispatch(&ready, &pending), Dispatch::Initialized);
    let diagnostics = incoming(false, None, Some("textDocument/publishDiagnostics"), false);
    assert_eq!(dispatch(&diagnostics, &pending), Dispatch::Diagnostics);
    assert_eq!(dispatch(&incoming(true, Some(7), None, true), &pending), Dispatch::Definition);
    assert_eq!(dispatch(&incoming(true, Some(8), None, true), &pending), Dispatch::Hover);
    assert_eq!(dispatch(&incoming(true, Some(9), None, true), &pending), Dispatch::Completion);
    assert_eq!(dispatch(&incoming(true, Some(8), None, true), &NONE_PENDING), Dispatch::Ignore);
    let log = incoming(false, None, Some("window/logMessage"), false);
    assert_eq!(dispatch(&log, &pending), Dispatch::Ignore);
}

#[test]
fn server_requests_get_their_replies() {
    assert_eq!(reply("workspace/configuration", Some(2)), Reply::Nulls(2));
    assert_eq!(reply("workspace/configuration", None), Reply::Nulls(0));
    assert_eq!(reply("workspace/applyEdit", Some(1)), Reply::NotApplied);
    assert_eq!(reply("client/registerCapability", None), Reply::Null);
}

#[test]
fn stale_or_unknown_diagnostics_are_dropped() {
    assert!(!takes_diagnostics(None, Some(4)));
    assert!(!takes_diagnostics(Some(5), Some(4)));
    assert!(takes_diagnostics(Some(5), Some(5)));
    assert!(takes_diagnostics(Some(5), None));
}

#[test]
fn diagnostics_show_the_first_line_of_their_message() {
    let long = "x".repeat(200);
    let hit = diagnostic_hit(Some(2), Some(4), Some("unused variable\nhelp: remove it")).unwrap();
    assert_eq!(hit, (3, 5, "unused variable".to_string()));
    let cut = diagnostic_hit(Some(0), Some(0), Some(&long)).unwrap();
    assert_eq!(cut.2.chars().count(), 160);
    assert_eq!(diagnostic_hit(Some(0), Some(0), Some("")), None);
    assert_eq!(diagnostic_hit(None, Some(0), Some("m")), None);
    assert_eq!(diagnostics_status("/src/main.rs", 3), "/src/main.rs: 3 diagnostic(s)");
}

#[test]
fn definitions_read_locations_and_links() {
    let location = LocationReply {
        uri: Some("file:///src/lib.rs".to_string()),
        target_uri: None,
        has_range: true,
        range_start: (Some(9), Some(3)),
        target_start: (None, None),
    };
    assert_eq!(definition_target(&location), Some(("/src/lib.rs".to_string(), 10, 4)));
    let link = LocationReply {
        uri: None,
        target_uri: Some("file:///src/a%20b.rs".to_string()),
        has_range: false,
        range_start: (None, None),
        target_start: (Some(0), Some(0)),
    };
    assert_eq!(definition_target(&link), Some(("/src/a b.rs".to_string(), 1, 1)));
    let nothing = LocationReply {
        uri: None,
        target_uri: None,
        has_range: false,
        range_start: (None, None),
        target_start: (Some(0), Some(0)),
    };
    assert_eq!(definition_target(&nothing), None);
}

#[test]
fn hover_shows_its_first_line_or_a_note() {
    assert_eq!(hover_status(Some("fn main()\nmore")), "fn main()");
    assert_eq!(hover_status(Some("")), "");
    assert_eq!(hover_status(None), "No hover information");
    assert_eq!(hover_status(Some(&"y".repeat(300))).chars().count(), 240);
}

#[test]
fn completions_skip_snippets_and_prefer_edit_text() {
    let item = |label: Option<&str>, edit: Option<&str>, insert: Option<&str>| CompletionItem {
        label: label.map(str::to_string),
        edit_text: edit.map(str::to_string),
        insert_text: insert.map(str::to_string),
    };
    let items = vec![
        item(Some("push"), Some("push()"), Some("push")),
        item(Some("len"), None, Some("len")),
        item(Some("vec!"), None, Some("vec![$0]")),
        item(None, Some("x"), None),
        item(Some("clear"), None, None),
    ];
    assert_eq!(
        completions(&items),
        vec![
            ("push".to_string(), "push()".to_string()),
            ("len".to_string(), "len".to_string()),
            ("clear".to_string(), "clear".to_string()),
        ]
    );
    let many: Vec<CompletionItem> = (0..150).map(|_| item(Some("a"), None, None)).collect();
    assert_eq!(completions(&many).len(), 100);
}

#[test]
fn a_completion_replaces_the_word_before_the_cursor() {
    assert_eq!(completion_range("let valu", 8), Some((4, 8)));
    assert_eq!(completion_range("let valu", 100), Some((4, 8)));
    assert_eq!(completion_range("x.", 2), Some((2, 2)));
    assert_eq!(completion_range("\u{1F600} ab", 7), Some((3, 5)));
    assert_eq!(completion_range("\u{1F600} ab", 1), None);
    assert_eq!(completion_range("snake_case", 5), Some((0, 5)));
}
